use crate::gol::{in_grid, Cell, GameOfLife, GolError};
use vstd::prelude::*;

verus! {

/// Inserting `cells` one after another into `live` on a `width` x `height` board,
/// stopping at the first cell off the board: the live set that results, and whether
/// every cell went in.
pub open spec fn seed(live: Set<(int, int)>, cells: Seq<(int, int)>, width: int, height: int) -> (
    Set<(int, int)>,
    bool,
)
    decreases cells.len(),
{
    if cells.len() == 0 {
        (live, true)
    } else {
        let before = seed(live, cells.drop_last(), width, height);
        if before.1 && in_grid(cells.last(), width, height) {
            (before.0.insert(cells.last()), true)
        } else {
            (before.0, false)
        }
    }
}

/// What a seeding call returns, given whether every cell went in.
pub open spec fn seed_result(complete: bool) -> Result<(), GolError> {
    if complete {
        Ok(())
    } else {
        Err(GolError::IndexOutOfBounds)
    }
}

/// The positions of `offsets` taken from `base`.
pub open spec fn placed(base: Cell, offsets: Seq<(int, int)>) -> Seq<(int, int)> {
    offsets.map_values(|o: (int, int)| (base.x + o.0, base.y + o.1))
}

/// A line of `length` cells along the first axis, in order.
pub open spec fn line_offsets(length: nat) -> Seq<(int, int)> {
    Seq::new(length, |i: int| (i, 0int))
}

/// A block of `columns` x `rows` cells, column by column.
pub open spec fn block_offsets(columns: nat, rows: nat) -> Seq<(int, int)> {
    Seq::new(columns * rows, |k: int| (k / (rows as int), k % (rows as int)))
}

/// The five cells of a glider, the anchor first:
/// ```text
/// 0 1 0 0
/// 0 0 1 1
/// 0 1 1 0
/// ```
pub open spec fn glider_offsets() -> Seq<(int, int)> {
    seq![(0int, 0int), (1, 1), (1, 2), (2, 0), (2, 1)]
}

proof fn lemma_seed_step(live: Set<(int, int)>, cells: Seq<(int, int)>, i: int, width: int, height: int)
    requires
        0 <= i < cells.len(),
    ensures
        seed(live, cells.take(i + 1), width, height) == ({
            let before = seed(live, cells.take(i), width, height);
            if before.1 && in_grid(cells[i], width, height) {
                (before.0.insert(cells[i]), true)
            } else {
                (before.0, false)
            }
        }),
{
    assert(cells.take(i + 1).drop_last() =~= cells.take(i));
}

/// Once a prefix of `cells` has failed, the rest of `cells` changes nothing.
proof fn lemma_seed_stops(live: Set<(int, int)>, cells: Seq<(int, int)>, i: int, width: int, height: int)
    requires
        0 <= i <= cells.len(),
        !seed(live, cells.take(i), width, height).1,
    ensures
        seed(live, cells, width, height) == seed(live, cells.take(i), width, height),
    decreases cells.len(),
{
    if i == cells.len() {
        assert(cells.take(i) =~= cells);
    } else {
        assert(cells.drop_last().take(i) =~= cells.take(i));
        lemma_seed_stops(live, cells.drop_last(), i, width, height);
    }
}

/// Makes alive the cell at `base` shifted by `offset`. Fails without change where
/// that position is off the board, which a position past the largest `usize` is.
fn add_offset_cell(gol: &mut GameOfLife, base: Cell, offset: Cell) -> (r: Result<(), GolError>)
    requires
        old(gol).wf(),
    ensures
        final(gol).wf(),
        final(gol).width() == old(gol).width(),
        final(gol).height() == old(gol).height(),
        ({
            let p = (base.x + offset.x, base.y + offset.y);
            if in_grid(p, old(gol).width() as int, old(gol).height() as int) {
                r == Ok::<(), GolError>(()) && final(gol).live() == old(gol).live().insert(p)
            } else {
                r == Err::<(), GolError>(GolError::IndexOutOfBounds) && final(gol).live() == old(
                    gol,
                ).live()
            }
        }),
{
    if base.x <= usize::MAX - offset.x && base.y <= usize::MAX - offset.y {
        gol.add_living_cell(base.add(offset))
    } else {
        Err(GolError::IndexOutOfBounds)
    }
}

/// Makes alive `base_coordinates`, then each of `positions` taken from it, in order,
/// stopping at the first cell off the board; the cells inserted before it stay alive.
pub fn draw_figure_from_base_coordinates(
    game_of_life: &mut GameOfLife,
    base_coordinates: Cell,
    positions: &Vec<Cell>,
) -> (r: Result<(), GolError>)
    requires
        old(game_of_life).wf(),
    ensures
        final(game_of_life).wf(),
        final(game_of_life).width() == old(game_of_life).width(),
        final(game_of_life).height() == old(game_of_life).height(),
        ({
            let cells = seq![base_coordinates@] + placed(
                base_coordinates,
                positions@.map_values(|c: Cell| c@),
            );
            let outcome = seed(
                old(game_of_life).live(),
                cells,
                old(game_of_life).width() as int,
                old(game_of_life).height() as int,
            );
            final(game_of_life).live() == outcome.0 && r == seed_result(outcome.1)
        }),
{
    let ghost live = game_of_life.live();
    let ghost w = game_of_life.width() as int;
    let ghost h = game_of_life.height() as int;
    let ghost cells = seq![base_coordinates@] + placed(
        base_coordinates,
        positions@.map_values(|c: Cell| c@),
    );
    proof {
        lemma_seed_step(live, cells, 0, w, h);
    }
    match game_of_life.add_living_cell(base_coordinates) {
        Ok(()) => {},
        Err(e) => {
            proof {
                lemma_seed_stops(live, cells, 1, w, h);
            }
            return Err(e);
        },
    }
    let mut i: usize = 0;
    while i < positions.len()
        invariant
            game_of_life.wf(),
            game_of_life.width() == w,
            game_of_life.height() == h,
            w == old(game_of_life).width(),
            h == old(game_of_life).height(),
            live == old(game_of_life).live(),
            i <= positions.len(),
            cells == seq![base_coordinates@] + placed(
                base_coordinates,
                positions@.map_values(|c: Cell| c@),
            ),
            seed(live, cells.take(i + 1), w, h) == (game_of_life.live(), true),
        decreases positions.len() - i,
    {
        proof {
            lemma_seed_step(live, cells, i + 1, w, h);
        }
        match add_offset_cell(game_of_life, base_coordinates, positions[i]) {
            Ok(()) => {},
            Err(e) => {
                proof {
                    lemma_seed_stops(live, cells, i + 2, w, h);
                }
                return Err(e);
            },
        }
        i += 1;
    }
    proof {
        assert(cells.take(i + 1) =~= cells);
    }
    Ok(())
}

/// Makes alive a line of `length` cells from `position` along the first axis, in
/// order, stopping at the first cell off the board; the cells inserted before it
/// stay alive.
pub fn insert_line_vertical_pattern(gol: &mut GameOfLife, position: Cell, length: usize) -> (r:
    Result<(), GolError>)
    requires
        old(gol).wf(),
    ensures
        final(gol).wf(),
        final(gol).width() == old(gol).width(),
        final(gol).height() == old(gol).height(),
        ({
            let outcome = seed(
                old(gol).live(),
                placed(position, line_offsets(length as nat)),
                old(gol).width() as int,
                old(gol).height() as int,
            );
            final(gol).live() == outcome.0 && r == seed_result(outcome.1)
        }),
{
    let ghost live = gol.live();
    let ghost w = gol.width() as int;
    let ghost h = gol.height() as int;
    let ghost cells = placed(position, line_offsets(length as nat));
    let mut x: usize = 0;
    while x < length
        invariant
            gol.wf(),
            gol.width() == w,
            gol.height() == h,
            w == old(gol).width(),
            h == old(gol).height(),
            live == old(gol).live(),
            x <= length,
            cells == placed(position, line_offsets(length as nat)),
            seed(live, cells.take(x as int), w, h) == (gol.live(), true),
        decreases length - x,
    {
        proof {
            lemma_seed_step(live, cells, x as int, w, h);
        }
        let new_position = Cell { x, y: 0 };
        match add_offset_cell(gol, position, new_position) {
            Ok(()) => {},
            Err(e) => {
                proof {
                    lemma_seed_stops(live, cells, x + 1, w, h);
                }
                return Err(e);
            },
        }
        x += 1;
    }
    proof {
        assert(cells.take(x as int) =~= cells);
    }
    Ok(())
}

proof fn lemma_block_index(columns: int, rows: int, x: int, y: int)
    requires
        0 <= x < columns,
        0 <= y < rows,
    ensures
        x * rows + y < columns * rows,
        (x * rows + y) / rows == x,
        (x * rows + y) % rows == y,
        (x + 1) * rows == x * rows + rows,
{
    assert(x * rows + y < columns * rows) by (nonlinear_arith)
        requires
            0 <= x < columns,
            0 <= y < rows,
    ;
    assert((x + 1) * rows == x * rows + rows) by (nonlinear_arith);
    vstd::arithmetic::div_mod::lemma_fundamental_div_mod_converse(x * rows + y, rows, x, y);
}

/// Makes alive a block of `size.0` x `size.1` cells whose corner is `position`,
/// column by column, stopping at the first cell off the board; the cells inserted
/// before it stay alive.
pub fn insert_square_pattern(gol: &mut GameOfLife, position: Cell, size: (usize, usize)) -> (r:
    Result<(), GolError>)
    requires
        old(gol).wf(),
    ensures
        final(gol).wf(),
        final(gol).width() == old(gol).width(),
        final(gol).height() == old(gol).height(),
        ({
            let outcome = seed(
                old(gol).live(),
                placed(position, block_offsets(size.0 as nat, size.1 as nat)),
                old(gol).width() as int,
                old(gol).height() as int,
            );
            final(gol).live() == outcome.0 && r == seed_result(outcome.1)
        }),
{
    let ghost live = gol.live();
    let ghost w = gol.width() as int;
    let ghost h = gol.height() as int;
    let ghost cells = placed(position, block_offsets(size.0 as nat, size.1 as nat));
    let ghost rows = size.1 as int;
    let mut x: usize = 0;
    while x < size.0
        invariant
            gol.wf(),
            gol.width() == w,
            gol.height() == h,
            w == old(gol).width(),
            h == old(gol).height(),
            live == old(gol).live(),
            x <= size.0,
            rows == size.1,
            cells == placed(position, block_offsets(size.0 as nat, size.1 as nat)),
            x * rows <= cells.len(),
            seed(live, cells.take(x * rows), w, h) == (gol.live(), true),
        decreases size.0 - x,
    {
        let mut y: usize = 0;
        while y < size.1
            invariant
                gol.wf(),
                gol.width() == w,
                gol.height() == h,
                w == old(gol).width(),
                h == old(gol).height(),
                live == old(gol).live(),
            w == old(gol).width(),
            h == old(gol).height(),
            live == old(gol).live(),
                x < size.0,
                y <= size.1,
                rows == size.1,
                cells == placed(position, block_offsets(size.0 as nat, size.1 as nat)),
                x * rows + y <= cells.len(),
                seed(live, cells.take(x * rows + y), w, h) == (gol.live(), true),
            decreases size.1 - y,
        {
            proof {
                lemma_block_index(size.0 as int, rows, x as int, y as int);
                lemma_seed_step(live, cells, x * rows + y, w, h);
            }
            let new_position = Cell { x, y };
            match add_offset_cell(gol, position, new_position) {
                Ok(()) => {},
                Err(e) => {
                    proof {
                        lemma_seed_stops(live, cells, x * rows + y + 1, w, h);
                    }
                    return Err(e);
                },
            }
            y += 1;
        }
        proof {
            assert((x + 1) * rows == x * rows + rows) by (nonlinear_arith);
            assert((x + 1) * rows <= size.0 * rows) by (nonlinear_arith)
                requires
                    x < size.0,
                    0 <= rows,
            ;
        }
        x += 1;
    }
    proof {
        assert(cells.take(x * rows) =~= cells);
    }
    Ok(())
}

/// Makes alive a glider anchored at `position`, cell by cell in the order of
/// `glider_offsets`, stopping at the first cell off the board; the cells inserted
/// before it stay alive.
pub fn insert_glider_pattern(gol: &mut GameOfLife, position: Cell) -> (r: Result<(), GolError>)
    requires
        old(gol).wf(),
    ensures
        final(gol).wf(),
        final(gol).width() == old(gol).width(),
        final(gol).height() == old(gol).height(),
        ({
            let outcome = seed(
                old(gol).live(),
                placed(position, glider_offsets()),
                old(gol).width() as int,
                old(gol).height() as int,
            );
            final(gol).live() == outcome.0 && r == seed_result(outcome.1)
        }),
{
    let positions = vec![
        Cell { x: 1, y: 1 },
        Cell { x: 1, y: 2 },
        Cell { x: 2, y: 0 },
        Cell { x: 2, y: 1 },
    ];
    proof {
        assert(seq![position@] + placed(position, positions@.map_values(|c: Cell| c@)) =~= placed(
            position,
            glider_offsets(),
        ));
    }
    draw_figure_from_base_coordinates(gol, position, &positions)
}

} // verus!
