use std::collections::HashSet;
use vstd::arithmetic::div_mod::{lemma_fundamental_div_mod, lemma_fundamental_div_mod_converse};
use vstd::prelude::*;

verus! {

/// The coordinates of one position on the board.
#[derive(Clone, Copy, PartialEq, Eq, Hash, Debug, Structural)]
pub struct Cell {
    pub x: usize,
    pub y: usize,
}

/// Why a mutation of the board was refused.
#[derive(Clone, Copy, PartialEq, Eq, Debug, Structural)]
pub enum GolError {
    /// A coordinate is not strictly less than the board dimension on its axis.
    IndexOutOfBounds,
}

impl View for Cell {
    type V = (int, int);

    open spec fn view(&self) -> (int, int) {
        (self.x as int, self.y as int)
    }
}

/// Whether position `p` lies on a board of `width` columns and `height` rows.
pub open spec fn in_grid(p: (int, int), width: int, height: int) -> bool {
    0 <= p.0 < width && 0 <= p.1 < height
}

/// The live set after toggling position `c`: a live cell dies, a dead cell on the
/// board comes to life, and a position off the board is left as it was.
pub open spec fn toggled(live: Set<(int, int)>, c: (int, int), width: int, height: int) -> Set<
    (int, int),
> {
    if live.contains(c) {
        live.remove(c)
    } else if in_grid(c, width, height) {
        live.insert(c)
    } else {
        live
    }
}

/// Whether toggling position `c` is refused: it is dead and off the board.
pub open spec fn toggle_fails(live: Set<(int, int)>, c: (int, int), width: int, height: int) -> bool {
    !live.contains(c) && !in_grid(c, width, height)
}

/// The half-open window `[start, end)` of indices within one step of `c` on an axis
/// of length `limit`: `c - 1` clamped below at zero, `c + 2` clamped above at `limit`.
pub open spec fn window(c: int, limit: int) -> (int, int) {
    (if c == 0 { 0 } else { c - 1 }, if c + 2 < limit { c + 2 } else { limit })
}

/// Live positions `(x, y)` with `ys <= y < ye`, other than `c`.
pub open spec fn column_count(live: Set<(int, int)>, c: (int, int), x: int, ys: int, ye: int) -> int
    decreases ye - ys,
{
    if ye <= ys {
        0
    } else {
        column_count(live, c, x, ys, ye - 1) + if live.contains((x, ye - 1)) && (x, ye - 1) != c {
            1int
        } else {
            0int
        }
    }
}

/// Live positions in the block `[xs, xe) x [ys, ye)`, other than `c`.
pub open spec fn block_count(
    live: Set<(int, int)>,
    c: (int, int),
    xs: int,
    xe: int,
    ys: int,
    ye: int,
) -> int
    decreases xe - xs,
{
    if xe <= xs {
        0
    } else {
        block_count(live, c, xs, xe - 1, ys, ye) + column_count(live, c, xe - 1, ys, ye)
    }
}

/// The number of live neighbours of `c`: live positions of the 3x3 block centred on
/// `c`, `c` itself excepted.
pub open spec fn live_neighbours(live: Set<(int, int)>, c: (int, int)) -> int {
    block_count(live, c, c.0 - 1, c.0 + 2, c.1 - 1, c.1 + 2)
}

/// Whether `c` is alive in the next generation: it has exactly three live
/// neighbours, or it is alive and has exactly two.
pub open spec fn next_alive(live: Set<(int, int)>, c: (int, int)) -> bool {
    live_neighbours(live, c) == 3 || (live_neighbours(live, c) == 2 && live.contains(c))
}

/// The live set of the generation after `live` on a `width` x `height` board.
pub open spec fn next_generation(live: Set<(int, int)>, width: int, height: int) -> Set<(int, int)> {
    Set::new(|p: (int, int)| in_grid(p, width, height) && next_alive(live, p))
}

/// Distance between the keys of positions adjacent along the first axis; every
/// `usize` coordinate is below it, so each position has a key of its own.
const KEY_STRIDE: u128 = 0x1_0000_0000_0000_0000;

/// The hash-set key of position `p`.
spec fn key_of(p: (int, int)) -> int {
    p.0 * KEY_STRIDE + p.1
}

/// The position that key `k` stands for.
spec fn position_of(k: u128) -> (int, int) {
    ((k as int) / (KEY_STRIDE as int), (k as int) % (KEY_STRIDE as int))
}

/// The positions that a set of keys stands for.
spec fn positions_of(keys: Set<u128>) -> Set<(int, int)> {
    keys.map(|k: u128| position_of(k))
}

proof fn lemma_usize_below_stride(v: usize)
    ensures
        0 <= v < KEY_STRIDE,
{
}

proof fn lemma_key_round_trip(p: (int, int))
    requires
        0 <= p.0 < KEY_STRIDE,
        0 <= p.1 < KEY_STRIDE,
    ensures
        0 <= key_of(p) <= u128::MAX,
        position_of(key_of(p) as u128) == p,
{
    assert(0 <= p.0 * KEY_STRIDE <= (KEY_STRIDE - 1) * KEY_STRIDE) by (nonlinear_arith)
        requires
            0 <= p.0 < KEY_STRIDE,
    ;
    lemma_fundamental_div_mod_converse(key_of(p), KEY_STRIDE as int, p.0, p.1);
}

proof fn lemma_position_round_trip(k: u128)
    ensures
        key_of(position_of(k)) == k,
        0 <= position_of(k).0 < KEY_STRIDE,
        0 <= position_of(k).1 < KEY_STRIDE,
{
    lemma_fundamental_div_mod(k as int, KEY_STRIDE as int);
    let q = (k as int) / (KEY_STRIDE as int);
    let m = (k as int) % (KEY_STRIDE as int);
    assert(q < KEY_STRIDE) by (nonlinear_arith)
        requires
            k as int == KEY_STRIDE * q + m,
            0 <= m,
            k <= u128::MAX,
    ;
}

/// A position within key range is among the positions of `keys` exactly when its
/// key is among `keys`; and every position of `keys` is within key range.
proof fn lemma_positions_of(keys: Set<u128>)
    ensures
        forall|p: (int, int)|
            #![trigger positions_of(keys).contains(p)]
            positions_of(keys).contains(p) ==> 0 <= p.0 < KEY_STRIDE && 0 <= p.1 < KEY_STRIDE
                && keys.contains(key_of(p) as u128),
        forall|p: (int, int)|
            #![trigger keys.contains(key_of(p) as u128)]
            0 <= p.0 < KEY_STRIDE && 0 <= p.1 < KEY_STRIDE && keys.contains(key_of(p) as u128)
                ==> positions_of(keys).contains(p),
{
    assert forall|p: (int, int)| positions_of(keys).contains(p) implies 0 <= p.0 < KEY_STRIDE && 0
        <= p.1 < KEY_STRIDE && keys.contains(key_of(p) as u128) by {
        let k = choose|k: u128| keys.contains(k) && p == position_of(k);
        lemma_position_round_trip(k);
    }
    assert forall|p: (int, int)|
        0 <= p.0 < KEY_STRIDE && 0 <= p.1 < KEY_STRIDE && keys.contains(
            key_of(p) as u128,
        ) implies positions_of(keys).contains(p) by {
        lemma_key_round_trip(p);
    }
}

proof fn lemma_column_bound(live: Set<(int, int)>, c: (int, int), x: int, ys: int, ye: int)
    ensures
        0 <= column_count(live, c, x, ys, ye),
        ys <= ye ==> column_count(live, c, x, ys, ye) <= ye - ys,
    decreases ye - ys,
{
    if ye > ys {
        lemma_column_bound(live, c, x, ys, ye - 1);
    }
}

proof fn lemma_block_bound(
    live: Set<(int, int)>,
    c: (int, int),
    xs: int,
    xe: int,
    ys: int,
    ye: int,
)
    requires
        ye - ys <= 3,
    ensures
        0 <= block_count(live, c, xs, xe, ys, ye),
        xs <= xe ==> block_count(live, c, xs, xe, ys, ye) <= 3 * (xe - xs),
    decreases xe - xs,
{
    if xe > xs {
        lemma_block_bound(live, c, xs, xe - 1, ys, ye);
        lemma_column_bound(live, c, xe - 1, ys, ye);
    }
}

proof fn lemma_column_empty(live: Set<(int, int)>, c: (int, int), x: int, ys: int, ye: int)
    requires
        forall|y: int| !live.contains((x, y)),
    ensures
        column_count(live, c, x, ys, ye) == 0,
    decreases ye - ys,
{
    if ye > ys {
        lemma_column_empty(live, c, x, ys, ye - 1);
    }
}

proof fn lemma_column_window(live: Set<(int, int)>, c: (int, int), x: int, height: int)
    requires
        0 <= c.1,
        forall|p: (int, int)| #[trigger] live.contains(p) ==> 0 <= p.1 < height,
    ensures
        column_count(live, c, x, window(c.1, height).0, window(c.1, height).1) == column_count(
            live,
            c,
            x,
            c.1 - 1,
            c.1 + 2,
        ),
{
    reveal_with_fuel(column_count, 4);
}

/// On a board holding `live`, counting over the clipped windows of `c` gives the
/// number of live neighbours of `c`.
proof fn lemma_window_count(live: Set<(int, int)>, c: (int, int), width: int, height: int)
    requires
        0 <= c.0,
        0 <= c.1,
        forall|p: (int, int)| #[trigger] live.contains(p) ==> in_grid(p, width, height),
    ensures
        block_count(
            live,
            c,
            window(c.0, width).0,
            window(c.0, width).1,
            window(c.1, height).0,
            window(c.1, height).1,
        ) == live_neighbours(live, c),
{
    let (ys, ye) = window(c.1, height);
    lemma_column_window(live, c, c.0 - 1, height);
    lemma_column_window(live, c, c.0, height);
    lemma_column_window(live, c, c.0 + 1, height);
    if c.0 - 1 < 0 || c.0 - 1 >= width {
        lemma_column_empty(live, c, c.0 - 1, ys, ye);
        lemma_column_empty(live, c, c.0 - 1, c.1 - 1, c.1 + 2);
    }
    if c.0 >= width {
        lemma_column_empty(live, c, c.0, ys, ye);
        lemma_column_empty(live, c, c.0, c.1 - 1, c.1 + 2);
    }
    if c.0 + 1 >= width {
        lemma_column_empty(live, c, c.0 + 1, ys, ye);
        lemma_column_empty(live, c, c.0 + 1, c.1 - 1, c.1 + 2);
    }
    assert(column_count(live, c, c.0 - 1, ys, ye) == column_count(live, c, c.0 - 1, c.1 - 1, c.1 + 2));
    assert(column_count(live, c, c.0, ys, ye) == column_count(live, c, c.0, c.1 - 1, c.1 + 2));
    assert(column_count(live, c, c.0 + 1, ys, ye) == column_count(live, c, c.0 + 1, c.1 - 1, c.1 + 2));
    reveal_with_fuel(block_count, 4);
}

impl Cell {
    /// The hash-set key of this cell.
    fn key(&self) -> (r: u128)
        ensures
            r as int == key_of(self@),
    {
        proof {
            lemma_usize_below_stride(self.x);
            lemma_usize_below_stride(self.y);
            lemma_key_round_trip(self@);
        }
        (self.x as u128) * KEY_STRIDE + (self.y as u128)
    }

    /// This cell shifted by `position` on both axes.
    pub(crate) fn add(&self, position: Cell) -> (r: Cell)
        requires
            self.x + position.x <= usize::MAX,
            self.y + position.y <= usize::MAX,
        ensures
            r@ == (self@.0 + position@.0, self@.1 + position@.1),
    {
        Cell { x: self.x + position.x, y: self.y + position.y }
    }
}

/// A Game of Life board: its dimensions and the set of its live cells.
pub struct GameOfLife {
    width: usize,
    height: usize,
    alive_cells: HashSet<u128>,
}

impl GameOfLife {
    /// The number of positions along the first axis.
    pub closed spec fn spec_width(&self) -> usize {
        self.width
    }

    /// The number of positions along the second axis.
    pub closed spec fn spec_height(&self) -> usize {
        self.height
    }

    /// The positions of the live cells.
    pub closed spec fn live(&self) -> Set<(int, int)> {
        positions_of(self.alive_cells@)
    }

    /// Every live cell lies on the board.
    pub open spec fn wf(&self) -> bool {
        forall|p: (int, int)| #[trigger]
            self.live().contains(p) ==> in_grid(p, self.width() as int, self.height() as int)
    }

    /// Creates a board of the given dimensions with no live cell.
    pub fn new(width: usize, height: usize) -> (r: Self)
        ensures
            r.wf(),
            r.width() == width,
            r.height() == height,
            r.live() == Set::<(int, int)>::empty(),
    {
        let r = GameOfLife { width, height, alive_cells: HashSet::new() };
        assert(r.live() =~= Set::<(int, int)>::empty());
        r
    }

    /// The number of positions along the first axis.
    #[verifier::when_used_as_spec(spec_width)]
    pub fn width(&self) -> (r: usize)
        ensures
            r == self.width(),
    {
        self.width
    }

    /// The number of positions along the second axis.
    #[verifier::when_used_as_spec(spec_height)]
    pub fn height(&self) -> (r: usize)
        ensures
            r == self.height(),
    {
        self.height
    }

    /// Whether `cell` is alive; a position off the board is dead.
    pub fn is_alive_cell(&self, cell: &Cell) -> (r: bool)
        ensures
            r == self.live().contains(cell@),
    {
        proof {
            lemma_positions_of(self.alive_cells@);
            lemma_usize_below_stride(cell.x);
            lemma_usize_below_stride(cell.y);
        }
        self.alive_cells.contains(&cell.key())
    }

    /// The number of live cells.
    pub fn alive_count(&self) -> (r: usize)
        ensures
            r == self.live().len(),
    {
        proof {
            let keys = self.alive_cells@;
            let f = |k: u128| position_of(k);
            assert(keys.subset_of(Set::<u128>::full()));
            assert forall|k1: u128, k2: u128|
                keys.contains(k1) && keys.contains(k2) && #[trigger] f(k1) == #[trigger] f(
                    k2,
                ) implies k1 == k2 by {
                lemma_position_round_trip(k1);
                lemma_position_round_trip(k2);
            }
            vstd::set_lib::lemma_map_size(keys, positions_of(keys), f);
        }
        self.alive_cells.len()
    }

    /// Makes `cell` alive, or fails without change when it lies off the board.
    pub fn add_living_cell(&mut self, cell: Cell) -> (r: Result<(), GolError>)
        requires
            old(self).wf(),
        ensures
            final(self).wf(),
            final(self).width() == old(self).width(),
            final(self).height() == old(self).height(),
            in_grid(cell@, old(self).width() as int, old(self).height() as int) ==> r == Ok::<
                (),
                GolError,
            >(()) && final(self).live() == old(self).live().insert(cell@),
            !in_grid(cell@, old(self).width() as int, old(self).height() as int) ==> r == Err::<
                (),
                GolError,
            >(GolError::IndexOutOfBounds) && final(self).live() == old(self).live(),
    {
        if cell.x < self.width && cell.y < self.height {
            let key = cell.key();
            let ghost old_keys = self.alive_cells@;
            self.alive_cells.insert(key);
            proof {
                lemma_positions_of(old_keys);
                lemma_positions_of(self.alive_cells@);
                lemma_usize_below_stride(cell.x);
                lemma_usize_below_stride(cell.y);
                lemma_key_round_trip(cell@);
                assert forall|p: (int, int)|
                    self.live().contains(p) <==> old(self).live().insert(cell@).contains(p) by {
                    if 0 <= p.0 < KEY_STRIDE && 0 <= p.1 < KEY_STRIDE {
                        lemma_key_round_trip(p);
                        assert(self.live().contains(p) <==> self.alive_cells@.contains(key_of(p) as u128));
                        assert(old(self).live().contains(p) <==> old_keys.contains(key_of(p) as u128));
                        assert((key_of(p) as u128 == key) <==> (p == cell@));
                    } else {
                        assert(!self.live().contains(p));
                        assert(!old(self).live().contains(p));
                    }
                }
                assert(self.live() =~= old(self).live().insert(cell@));
            }
            return Ok(());
        }
        Err(GolError::IndexOutOfBounds)
    }

    /// Toggles `cell` between alive and dead; making a dead cell alive fails without
    /// change when it lies off the board.
    pub fn toggle_cell(&mut self, cell: Cell) -> (r: Result<(), GolError>)
        requires
            old(self).wf(),
        ensures
            final(self).wf(),
            final(self).width() == old(self).width(),
            final(self).height() == old(self).height(),
            final(self).live() == toggled(
                old(self).live(),
                cell@,
                old(self).width() as int,
                old(self).height() as int,
            ),
            r == if toggle_fails(
                old(self).live(),
                cell@,
                old(self).width() as int,
                old(self).height() as int,
            ) {
                Err::<(), GolError>(GolError::IndexOutOfBounds)
            } else {
                Ok(())
            },
    {
        if self.is_alive_cell(&cell) {
            let key = cell.key();
            let ghost old_keys = self.alive_cells@;
            self.alive_cells.remove(&key);
            proof {
                lemma_positions_of(old_keys);
                lemma_positions_of(self.alive_cells@);
                lemma_usize_below_stride(cell.x);
                lemma_usize_below_stride(cell.y);
                lemma_key_round_trip(cell@);
                assert forall|p: (int, int)|
                    self.live().contains(p) <==> old(self).live().remove(cell@).contains(p) by {
                    if 0 <= p.0 < KEY_STRIDE && 0 <= p.1 < KEY_STRIDE {
                        lemma_key_round_trip(p);
                        assert(self.live().contains(p) <==> self.alive_cells@.contains(
                            key_of(p) as u128,
                        ));
                        assert(old(self).live().contains(p) <==> old_keys.contains(
                            key_of(p) as u128,
                        ));
                        assert((key_of(p) as u128 == key) <==> (p == cell@));
                    } else {
                        assert(!self.live().contains(p));
                        assert(!old(self).live().contains(p));
                    }
                }
                assert(self.live() =~= old(self).live().remove(cell@));
            }
        } else {
            match self.add_living_cell(cell) {
                Ok(()) => {},
                Err(e) => {
                    return Err(e);
                },
            }
        }
        Ok(())
    }

    /// Advances the board by one generation: every position of the board is
    /// evaluated against the current live set, and the cells found alive replace it.
    pub fn transition(&mut self) -> (r: Option<()>)
        requires
            old(self).wf(),
        ensures
            final(self).wf(),
            final(self).width() == old(self).width(),
            final(self).height() == old(self).height(),
            final(self).live() == next_generation(
                old(self).live(),
                old(self).width() as int,
                old(self).height() as int,
            ),
            r == Some(()),
    {
        let mut next_iteration_set: HashSet<u128> = HashSet::new();
        let mut x: usize = 0;
        while x < self.width
            invariant
                self.wf(),
                x <= self.width,
                forall|k: u128| #[trigger]
                    next_iteration_set@.contains(k) ==> position_of(k).0 < x && in_grid(
                        position_of(k),
                        self.width as int,
                        self.height as int,
                    ) && next_alive(self.live(), position_of(k)),
                forall|p: (int, int)|
                    0 <= p.0 < x && 0 <= p.1 < self.height && next_alive(self.live(), p)
                        ==> #[trigger] next_iteration_set@.contains(key_of(p) as u128),
            decreases self.width - x,
        {
            let mut y: usize = 0;
            while y < self.height
                invariant
                    self.wf(),
                    x < self.width,
                    y <= self.height,
                    forall|k: u128| #[trigger]
                        next_iteration_set@.contains(k) ==> (position_of(k).0 < x || (
                        position_of(k).0 == x && position_of(k).1 < y)) && in_grid(
                            position_of(k),
                            self.width as int,
                            self.height as int,
                        ) && next_alive(self.live(), position_of(k)),
                    forall|p: (int, int)|
                        (0 <= p.0 < x || (p.0 == x && 0 <= p.1 < y)) && 0 <= p.1 < self.height
                            && next_alive(self.live(), p) ==> #[trigger] next_iteration_set@.contains(
                            key_of(p) as u128,
                        ),
                decreases self.height - y,
            {
                let current_cell = Cell { x, y };
                if self.cell_next_state_is_alive(&current_cell) {
                    let key = current_cell.key();
                    proof {
                        lemma_usize_below_stride(x);
                        lemma_usize_below_stride(y);
                        lemma_key_round_trip(current_cell@);
                        assert forall|p: (int, int)|
                            (0 <= p.0 < x || (p.0 == x && 0 <= p.1 < y)) && 0 <= p.1 < self.height
                                && next_alive(self.live(), p) implies next_iteration_set@.insert(
                            key,
                        ).contains(key_of(p) as u128) by {
                            assert(next_iteration_set@.contains(key_of(p) as u128));
                        }
                    }
                    next_iteration_set.insert(key);
                }
                proof {
                    assert forall|p: (int, int)|
                        (0 <= p.0 < x || (p.0 == x && 0 <= p.1 < y + 1)) && 0 <= p.1 < self.height
                            && next_alive(self.live(), p) implies next_iteration_set@.contains(
                        key_of(p) as u128,
                    ) by {
                        if p.0 == x && p.1 == y {
                            assert(p == current_cell@);
                        }
                    }
                }
                y = y + 1;
            }
            x = x + 1;
        }
        proof {
            let live = self.live();
            let keys = next_iteration_set@;
            lemma_positions_of(keys);
            assert forall|p: (int, int)|
                positions_of(keys).contains(p) <==> next_generation(
                    live,
                    self.width as int,
                    self.height as int,
                ).contains(p) by {
                if positions_of(keys).contains(p) {
                    assert(keys.contains(key_of(p) as u128));
                    lemma_key_round_trip(p);
                }
                if next_generation(live, self.width as int, self.height as int).contains(p) {
                    assert(keys.contains(key_of(p) as u128));
                }
            }
            assert(positions_of(keys) =~= next_generation(
                live,
                self.width as int,
                self.height as int,
            ));
        }
        self.alive_cells = next_iteration_set;
        Some(())
    }

    /// Whether `current_cell` is alive in the next generation.
    pub fn cell_next_state_is_alive(&self, current_cell: &Cell) -> (r: bool)
        requires
            self.wf(),
        ensures
            r == next_alive(self.live(), current_cell@),
    {
        let neighbours = self.count_cell_living_neighbours(current_cell);
        neighbours == 3 || self.is_alive_cell(current_cell) && neighbours == 2
    }

    /// The number of live neighbours of `current_cell`, read over the clipped
    /// neighbourhood windows of its two coordinates.
    pub fn count_cell_living_neighbours(&self, current_cell: &Cell) -> (r: i32)
        requires
            self.wf(),
        ensures
            r as int == live_neighbours(self.live(), current_cell@),
    {
        let ghost live = self.live();
        let ghost c = current_cell@;
        let mut neighbours: i32 = 0;
        let (x_start, x_end) = self.get_range_for_neighbourhood(current_cell.x, self.width);
        let (y_start, y_end) = self.get_range_for_neighbourhood(current_cell.y, self.height);
        let mut x = x_start;
        while x < x_end
            invariant
                live == self.live(),
                c == current_cell@,
                x_start <= x,
                x_start <= x_end ==> x <= x_end,
                x_start > x_end ==> x == x_start,
                x_end - x_start <= 3,
                y_end - y_start <= 3,
                neighbours == block_count(live, c, x_start as int, x as int, y_start as int, y_end as int),
            decreases x_end - x,
        {
            let mut y = y_start;
            while y < y_end
                invariant
                    live == self.live(),
                    c == current_cell@,
                    x_start <= x < x_end,
                    x_end - x_start <= 3,
                    y_end - y_start <= 3,
                    y_start <= y,
                    y_start <= y_end ==> y <= y_end,
                    y_start > y_end ==> y == y_start,
                    neighbours == block_count(live, c, x_start as int, x as int, y_start as int, y_end as int)
                        + column_count(live, c, x as int, y_start as int, y as int),
                decreases y_end - y,
            {
                proof {
                    lemma_block_bound(live, c, x_start as int, x as int, y_start as int, y_end as int);
                    lemma_column_bound(live, c, x as int, y_start as int, y as int);
                }
                let neighbour_cell = Cell { x, y };
                if self.is_alive_cell(&neighbour_cell) && neighbour_cell != *current_cell {
                    neighbours += 1;
                }
                y += 1;
            }
            x += 1;
        }
        proof {
            lemma_window_count(live, c, self.width as int, self.height as int);
        }
        neighbours
    }

    /// The window `[start, end)` of indices within one step of `cell_component` on an
    /// axis of length `limit`, without wrapping at either end of `usize`.
    pub fn get_range_for_neighbourhood(&self, cell_component: usize, limit: usize) -> (r: (
        usize,
        usize,
    ))
        ensures
            (r.0 as int, r.1 as int) == window(cell_component as int, limit as int),
    {
        let start_range = match cell_component.checked_sub(1) {
            Some(n) => n,
            None => cell_component,
        };
        let end_range = match cell_component.checked_add(2) {
            Some(n) => if n < limit {
                n
            } else {
                limit
            },
            None => limit,
        };
        (start_range, end_range)
    }
}

/// A board with no live cell has none in the next generation either.
pub proof fn lemma_dead_board_stays_dead(board: GameOfLife)
    requires
        board.wf(),
        board.live() == Set::<(int, int)>::empty(),
    ensures
        next_generation(board.live(), board.width() as int, board.height() as int) == Set::<
            (int, int),
        >::empty(),
{
    let live = board.live();
    assert forall|p: (int, int)| !#[trigger] next_alive(live, p) by {
        let (ys, ye) = (p.1 - 1, p.1 + 2);
        lemma_column_empty(live, p, p.0 - 1, ys, ye);
        lemma_column_empty(live, p, p.0, ys, ye);
        lemma_column_empty(live, p, p.0 + 1, ys, ye);
        reveal_with_fuel(block_count, 4);
        assert(live_neighbours(live, p) == 0);
    }
    assert(next_generation(live, board.width() as int, board.height() as int) =~= Set::<
        (int, int),
    >::empty());
}

/// Toggling a position of the board twice succeeds both times and leaves every
/// position, that one included, as it was.
pub proof fn lemma_toggle_twice_restores(board: GameOfLife, c: Cell)
    requires
        board.wf(),
        in_grid(c@, board.width() as int, board.height() as int),
    ensures
        !toggle_fails(board.live(), c@, board.width() as int, board.height() as int),
        !toggle_fails(
            toggled(board.live(), c@, board.width() as int, board.height() as int),
            c@,
            board.width() as int,
            board.height() as int,
        ),
        toggled(
            toggled(board.live(), c@, board.width() as int, board.height() as int),
            c@,
            board.width() as int,
            board.height() as int,
        ) == board.live(),
{
    let (live, w, h) = (board.live(), board.width() as int, board.height() as int);
    if live.contains(c@) {
        assert(toggled(toggled(live, c@, w, h), c@, w, h) =~= live);
    } else {
        assert(toggled(toggled(live, c@, w, h), c@, w, h) =~= live);
    }
}

/// At the first index of an axis the window is `[0, min(2, limit))`; at the last
/// index of an axis at least two long it is `[limit - 2, limit)`.
pub proof fn lemma_window_at_edges(limit: usize)
    ensures
        window(0, limit as int) == (0int, vstd::math::min(2, limit as int)),
        limit >= 2 ==> window(limit - 1, limit as int) == (limit - 2, limit as int),
{
}

} // verus!
