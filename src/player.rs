use crate::direction::{cell, step, steps, Cell, Direction};
use crate::error::ErrorKind;
use crate::rng::random_below;
use crate::ship::{line_direction, lemma_dir_between, lemma_step_back, line_dir, line_ok, Ship, ShipState};
use crate::space::{Space, SpaceState};
use rand::rngs::StdRng;
use vstd::prelude::*;

verus! {

/// Whether `c` lies on a grid of `w` columns and `h` rows.
pub open spec fn in_grid(c: Cell, w: int, h: int) -> bool {
    0 <= c.0 < w && 0 <= c.1 < h
}

/// Where cell `c` is stored in a grid of `h` rows: column by column.
pub open spec fn grid_index(c: Cell, h: int) -> int {
    c.0 * h + c.1
}

/// Whether one of the cells of `s` is `c`.
pub open spec fn covers(s: Seq<[u8; 2]>, c: Cell) -> bool {
    exists|j: int| 0 <= j < s.len() && #[trigger] cell(s[j]) == c
}

/// Whether `a` and `b` are orthogonal neighbours.
pub open spec fn adjacent(a: Cell, b: Cell) -> bool {
    ||| b == step(a, Direction::North)
    ||| b == step(a, Direction::East)
    ||| b == step(a, Direction::South)
    ||| b == step(a, Direction::West)
}

/// The cells of a ship of `length` cells whose head is `head` and that faces `d`: the body
/// trails away from `d`.
pub open spec fn ship_cells(head: Cell, d: Direction, length: int) -> Seq<Cell> {
    Seq::new(length as nat, |i: int| steps(head, d.spec_opposite(), i))
}

proof fn lemma_index_bound(x: int, y: int, w: int, h: int)
    requires
        0 <= x < w,
        0 <= y < h,
    ensures
        0 <= x * h + y < w * h,
{
    assert(0 <= x * h) by (nonlinear_arith)
        requires
            0 <= x,
            0 <= h,
    ;
    assert(x * h + h <= w * h) by (nonlinear_arith)
        requires
            x < w,
            0 <= h,
    ;
}

/// A ship laid out from `head` facing `d` forms a straight line that faces `d`.
proof fn lemma_laid_out_line(s: Seq<[u8; 2]>, head: Cell, d: Direction, length: int)
    requires
        Player::laid_out(s, head, d, length),
        length >= 1,
    ensures
        line_ok(s),
        length >= 2 ==> line_dir(s) == Some(d),
{
    if length >= 2 {
        assert(cell(s[0]) == head);
        assert(cell(s[1]) == step(head, d.spec_opposite()));
        lemma_step_back(head, d);
        lemma_dir_between(cell(s[1]), cell(s[0]), d);
        assert forall|i: int| 0 <= i < s.len() - 1 implies #[trigger] cell(s[i + 1]) == step(
            cell(s[i]),
            d.spec_opposite(),
        ) by {
            assert(cell(s[i + 1]) == steps(head, d.spec_opposite(), i + 1));
            assert(cell(s[i]) == steps(head, d.spec_opposite(), i));
        }
    }
}

/// Every cell between the two ends of a ship lies within the ends' bounding box.
proof fn lemma_fits_all(head: Cell, d: Direction, length: int, w: int, h: int)
    requires
        in_grid(head, w, h),
        in_grid(steps(head, d.spec_opposite(), length - 1), w, h),
    ensures
        forall|i: int| 0 <= i < length ==> #[trigger] in_grid(steps(head, d.spec_opposite(), i), w, h),
{
}

/// Whether one of the cells of `v` is `q`.
pub open spec fn listed(v: Seq<[u8; 2]>, q: Cell) -> bool {
    exists|i: int| 0 <= i < v.len() && #[trigger] cell(v[i]) == q
}

/// Whether no cell appears twice in `v`.
pub open spec fn distinct_cells(v: Seq<[u8; 2]>) -> bool {
    forall|i: int, j: int| 0 <= i < j < v.len() ==> #[trigger] cell(v[i]) != #[trigger] cell(v[j])
}

/// Appends `q` to `v` unless it is listed already.
fn push_unique(v: &mut Vec<[u8; 2]>, q: [u8; 2])
    requires
        distinct_cells(old(v)@),
    ensures
        distinct_cells(final(v)@),
        forall|x: Cell| #[trigger] listed(final(v)@, x) <==> listed(old(v)@, x) || x == cell(q),
        forall|i: int| 0 <= i < final(v)@.len() ==> #[trigger] cell(final(v)@[i]) == cell(q) || listed(old(v)@, cell(final(v)@[i])),
{
    let mut i: usize = 0;
    while i < v.len()
        invariant
            i <= v@.len(),
            v@ == old(v)@,
            distinct_cells(old(v)@),
            forall|k: int| 0 <= k < i ==> #[trigger] cell(v@[k]) != cell(q),
        decreases v@.len() - i,
    {
        if v[i][0] == q[0] && v[i][1] == q[1] {
            assert(cell(v@[i as int]) == cell(q));
            assert forall|k: int| 0 <= k < v@.len() implies #[trigger] cell(v@[k]) == cell(q) || listed(old(v)@, cell(v@[k])) by {
                assert(cell(old(v)@[k]) == cell(v@[k]));
            }
            return;
        }
        i = i + 1;
    }
    let ghost before = v@;
    v.push(q);
    proof {
        assert forall|x: Cell| #[trigger] listed(v@, x) <==> listed(before, x) || x == cell(q) by {
            if listed(before, x) {
                let k = choose|k: int| 0 <= k < before.len() && #[trigger] cell(before[k]) == x;
                assert(cell(v@[k]) == x);
            }
            if x == cell(q) {
                assert(cell(v@[before.len() as int]) == x);
            }
            if listed(v@, x) {
                let k = choose|k: int| 0 <= k < v@.len() && #[trigger] cell(v@[k]) == x;
                if k < before.len() {
                    assert(cell(before[k]) == x);
                }
            }
        }
        assert forall|k: int| 0 <= k < v@.len() implies #[trigger] cell(v@[k]) == cell(q) || listed(before, cell(v@[k])) by {
            if k < before.len() {
                assert(cell(before[k]) == cell(v@[k]));
            }
        }
    }
}

/// One side of the match: a grid of spaces, a fleet of ships, and a cursor.
pub struct Player {
    is_cpu: bool,
    spaces: Vec<Space>,
    ships: Vec<Ship>,
    ship_count: usize,
    grid_size: [u8; 2],
    grid_cursor: [u8; 2],
}

impl Player {
    pub closed spec fn width(&self) -> int {
        self.grid_size[0] as int
    }

    pub closed spec fn height(&self) -> int {
        self.grid_size[1] as int
    }

    pub closed spec fn spec_spaces(&self) -> Seq<Space> {
        self.spaces@
    }

    pub closed spec fn spec_ships(&self) -> Seq<Ship> {
        self.ships@
    }

    /// How many ships the fleet holds when complete.
    pub closed spec fn ship_count(&self) -> int {
        self.ship_count as int
    }

    pub closed spec fn spec_is_cpu(&self) -> bool {
        self.is_cpu
    }

    pub closed spec fn cursor(&self) -> [u8; 2] {
        self.grid_cursor
    }

    pub open spec fn in_bounds(&self, c: Cell) -> bool {
        in_grid(c, self.width(), self.height())
    }

    pub open spec fn index_of(&self, c: Cell) -> int {
        grid_index(c, self.height())
    }

    /// The space that holds cell `c`.
    pub open spec fn space_at(&self, c: Cell) -> Space {
        self.spec_spaces()[self.index_of(c)]
    }

    pub open spec fn state_at(&self, c: Cell) -> SpaceState {
        self.space_at(c).state()
    }

    pub open spec fn unchecked(&self, c: Cell) -> bool {
        self.in_bounds(c) && self.state_at(c) == SpaceState::Unchecked
    }

    pub open spec fn hit(&self, c: Cell) -> bool {
        self.in_bounds(c) && self.state_at(c) == SpaceState::Checked(true)
    }

    /// Whether ship `i` has been committed to the grid (it is afloat or sunk).
    pub open spec fn committed(&self, i: int) -> bool {
        0 <= i < self.spec_ships().len() && self.spec_ships()[i].lifecycle()
            != ShipState::Placement
    }

    /// Whether committed ship `i` covers `c`.
    pub open spec fn ship_covers(&self, i: int, c: Cell) -> bool {
        self.committed(i) && covers(self.spec_ships()[i].cells(), c)
    }

    /// Whether a committed ship covers `c`.
    pub open spec fn occupied(&self, c: Cell) -> bool {
        exists|i: int| #[trigger] self.ship_covers(i, c)
    }

    /// The committed ship that covers `c`, when `occupied(c)`.
    pub open spec fn occupant(&self, c: Cell) -> int {
        choose|i: int| #[trigger] self.ship_covers(i, c)
    }

    /// Whether a committed ship covers an orthogonal neighbour of `c`.
    pub open spec fn touches(&self, c: Cell) -> bool {
        ||| self.occupied(step(c, Direction::North))
        ||| self.occupied(step(c, Direction::East))
        ||| self.occupied(step(c, Direction::South))
        ||| self.occupied(step(c, Direction::West))
    }

    /// Whether a new ship may cover `c`: on the grid, free, and for a computer player not
    /// next to a committed ship.
    pub open spec fn valid_cell(&self, c: Cell) -> bool {
        &&& self.in_bounds(c)
        &&& !self.occupied(c)
        &&& !(self.spec_is_cpu() && self.touches(c))
    }

    pub open spec fn valid_position(&self, s: Seq<[u8; 2]>) -> bool {
        forall|j: int| 0 <= j < s.len() ==> #[trigger] self.valid_cell(cell(s[j]))
    }

    /// Whether the last ship is still being positioned.
    pub open spec fn has_staged(&self) -> bool {
        self.spec_ships().len() > 0 && self.spec_ships().last().lifecycle()
            == ShipState::Placement
    }

    /// The spaces are laid out column by column, one per cell.
    pub open spec fn grid_wf(&self) -> bool {
        &&& self.spec_spaces().len() == self.width() * self.height()
        &&& forall|c: Cell|
            #![trigger self.space_at(c)]
            self.in_bounds(c) ==> 0 <= self.index_of(c) < self.spec_spaces().len()
                && self.space_at(c).at() == c
        &&& forall|i: int|
            0 <= i < self.spec_spaces().len() ==> self.in_bounds(#[trigger] self.spec_spaces()[i].at())
                && self.index_of(self.spec_spaces()[i].at()) == i
    }

    /// Every committed ship lies on the grid, and no two committed ships share a cell.
    pub open spec fn fleet_wf(&self) -> bool {
        &&& self.spec_ships().len() <= self.ship_count()
        &&& forall|i: int| 0 <= i < self.spec_ships().len() ==> #[trigger] self.spec_ships()[i].wf()
        &&& forall|i: int| 0 <= i < self.spec_ships().len() - 1 ==> #[trigger] self.committed(i)
        &&& forall|i: int, c: Cell| #[trigger] self.ship_covers(i, c) ==> self.in_bounds(c)
        &&& forall|i1: int, i2: int, c: Cell|
            #[trigger] self.ship_covers(i1, c) && #[trigger] self.ship_covers(i2, c) ==> i1 == i2
    }

    /// A computer player's committed ships do not touch.
    pub open spec fn apart_wf(&self) -> bool {
        self.spec_is_cpu() ==> forall|i1: int, i2: int, a: Cell, b: Cell|
            #[trigger] self.ship_covers(i1, a) && #[trigger] self.ship_covers(i2, b) && adjacent(a, b)
                ==> i1 == i2
    }

    /// A sunk ship has every cell hit.
    pub open spec fn sunk_wf(&self) -> bool {
        forall|i: int, j: int|
            0 <= i < self.spec_ships().len() && self.spec_ships()[i].lifecycle() == ShipState::Sunk
                && 0 <= j < self.spec_ships()[i].cells().len() ==> #[trigger] self.hit(
                cell(#[trigger] self.spec_ships()[i].cells()[j]),
            )
    }

    /// `other` has this player's grid size, fleet size, kind and cursor.
    pub open spec fn same_frame(&self, other: Player) -> bool {
        &&& self.width() == other.width()
        &&& self.height() == other.height()
        &&& self.ship_count() == other.ship_count()
        &&& self.spec_is_cpu() == other.spec_is_cpu()
        &&& self.cursor() == other.cursor()
    }

    /// No cell that `earlier` had checked is unchecked or changed here.
    pub open spec fn keeps_history(&self, earlier: Player) -> bool {
        forall|c: Cell|
            #[trigger] earlier.state_at(c) != SpaceState::Unchecked && earlier.in_bounds(c)
                ==> self.state_at(c) == earlier.state_at(c)
    }

    /// Whether every cell of committed ship `i` has been hit.
    pub open spec fn all_hit(&self, i: int) -> bool {
        forall|j: int|
            0 <= j < self.spec_ships()[i].cells().len() ==> #[trigger] self.hit(
                cell(self.spec_ships()[i].cells()[j]),
            )
    }

    /// Whether every ship has been sunk.
    pub open spec fn all_sunk(&self) -> bool {
        forall|i: int|
            0 <= i < self.spec_ships().len() ==> #[trigger] self.spec_ships()[i].lifecycle()
                == ShipState::Sunk
    }

    /// Whether a ship of `length` cells with its head at `head`, facing `d`, lies on the grid.
    pub open spec fn fits(&self, head: Cell, d: Direction, length: int) -> bool {
        self.in_bounds(head) && self.in_bounds(steps(head, d.spec_opposite(), length - 1))
    }

    /// Whether `s`, as cells, is `ship_cells(head, d, length)`.
    pub open spec fn laid_out(s: Seq<[u8; 2]>, head: Cell, d: Direction, length: int) -> bool {
        &&& s.len() == length
        &&& forall|i: int| 0 <= i < length ==> #[trigger] cell(s[i]) == steps(head, d.spec_opposite(), i)
    }

    /// The outcome `add_ship` owes for these arguments.
    pub open spec fn add_ship_result(
        &self,
        head: Cell,
        d: Direction,
        length: int,
        placement: bool,
    ) -> Result<(), ErrorKind> {
        if self.spec_ships().len() >= self.ship_count() || self.has_staged() {
            Err(ErrorKind::InvalidLifecycle)
        } else if !self.fits(head, d, length) {
            Err(ErrorKind::OutOfBounds)
        } else if !placement && !self.valid_position_cells(ship_cells(head, d, length)) {
            Err(ErrorKind::Overlap)
        } else {
            Ok(())
        }
    }

    pub open spec fn valid_position_cells(&self, s: Seq<Cell>) -> bool {
        forall|j: int| 0 <= j < s.len() ==> #[trigger] self.valid_cell(s[j])
    }

    /// `after` is this player with one more ship, laid out from `head` facing `d`, staged when
    /// `placement` holds and afloat otherwise.
    pub open spec fn added(
        &self,
        after: Player,
        head: Cell,
        d: Direction,
        length: int,
        placement: bool,
    ) -> bool {
        let s = after.spec_ships().last();
        &&& after.spec_ships().len() == self.spec_ships().len() + 1
        &&& after.spec_ships().drop_last() == self.spec_ships()
        &&& Self::laid_out(s.cells(), head, d, length)
        &&& length >= 2 ==> s.spec_dir() == d
        &&& s.lifecycle() == if placement {
            ShipState::Placement
        } else {
            ShipState::Active
        }
    }

    /// Where the head of a staged ship of `n` cells goes when it turns to face `nd`: pulled
    /// back just far enough for the body to stay on the grid.
    pub open spec fn rotation_head(&self, head: Cell, nd: Direction, n: int) -> Cell {
        match nd {
            Direction::North => (head.0, if head.1 <= self.height() - n {
                head.1
            } else {
                self.height() - n
            }),
            Direction::East => (if head.0 >= n - 1 {
                head.0
            } else {
                n - 1
            }, head.1),
            Direction::South => (head.0, if head.1 >= n - 1 {
                head.1
            } else {
                n - 1
            }),
            Direction::West => (if head.0 <= self.width() - n {
                head.0
            } else {
                self.width() - n
            }, head.1),
        }
    }

    /// Whether a staged ship of `n` cells with its head at `head` can turn to face `nd`.
    pub open spec fn can_rotate(&self, head: Cell, nd: Direction, n: int) -> bool {
        &&& match nd {
            Direction::North | Direction::South => n <= self.height(),
            Direction::East | Direction::West => n <= self.width(),
        }
        &&& self.fits(self.rotation_head(head, nd, n), nd, n)
    }

    /// Whether a ship of `length` cells may be committed with its head at `head`, facing `d`.
    pub open spec fn placeable(&self, head: Cell, d: Direction, length: int) -> bool {
        self.fits(head, d, length) && self.valid_position_cells(ship_cells(head, d, length))
    }

    /// Whether a ship of `length` cells may be committed anywhere.
    pub open spec fn can_place(&self, length: int) -> bool {
        exists|head: Cell, d: Direction| #[trigger] self.placeable(head, d, length)
    }

    /// `after` is this player with the staged ship moved to `cells`, facing `facing(cells, d)`
    /// where `d` is the way it faced before.
    pub open spec fn restaged(&self, after: Player, cells: Seq<[u8; 2]>) -> bool {
        let i = self.spec_ships().len() - 1;
        let s = after.spec_ships()[i];
        &&& after.spec_ships() == self.spec_ships().update(i, s)
        &&& s.cells() == cells
        &&& s.spec_dir() == crate::ship::facing(cells, self.spec_ships()[i].spec_dir())
        &&& s.lifecycle() == ShipState::Placement
    }

    /// A hit cell whose ship is still afloat.
    pub open spec fn live_hit(&self, c: Cell) -> bool {
        &&& self.hit(c)
        &&& self.occupied(c)
        &&& self.spec_ships()[self.occupant(c)].lifecycle() == ShipState::Active
    }

    /// Whether every cell from one to `k - 1` steps from `p` along `d` has been hit.
    pub open spec fn hit_run(&self, p: Cell, d: Direction, k: int) -> bool {
        forall|j: int| 1 <= j < k ==> #[trigger] self.hit(steps(p, d, j))
    }

    /// Whether walking from `p` along `d` over hit cells ends, `k` steps out, on an unchecked
    /// cell.
    pub open spec fn run_ends_unchecked(&self, p: Cell, d: Direction, k: int) -> bool {
        self.hit_run(p, d, k) && self.unchecked(steps(p, d, k))
    }

    /// Whether that walk ends on `q` at least `kmin` steps out.
    pub open spec fn reaches(&self, p: Cell, d: Direction, q: Cell, kmin: int) -> bool {
        exists|k: int| kmin <= k && #[trigger] self.run_ends_unchecked(p, d, k) && steps(p, d, k) == q
    }

    /// Whether `q` continues, along `d`, a line of hits that starts at `p`.
    pub open spec fn line_target(&self, p: Cell, d: Direction, q: Cell) -> bool {
        self.reaches(p, d, q, 2)
    }

    /// Whether `q` continues a line of hits from some live hit.
    pub open spec fn is_target(&self, q: Cell) -> bool {
        exists|p: Cell, d: Direction| self.live_hit(p) && #[trigger] self.line_target(p, d, q)
    }

    pub open spec fn has_target(&self) -> bool {
        exists|q: Cell| #[trigger] self.is_target(q)
    }

    pub open spec fn has_live_hit(&self) -> bool {
        exists|c: Cell| #[trigger] self.live_hit(c)
    }

    /// The live hit stored first on the grid.
    pub open spec fn first_live_hit(&self) -> Cell {
        choose|c: Cell|
            self.live_hit(c) && forall|c2: Cell| #[trigger] self.live_hit(c2) ==> self.index_of(c)
                <= self.index_of(c2)
    }

    /// An unchecked orthogonal neighbour of the first live hit.
    pub open spec fn is_widen(&self, q: Cell) -> bool {
        adjacent(self.first_live_hit(), q) && self.unchecked(q)
    }

    pub open spec fn has_widen(&self) -> bool {
        exists|q: Cell| #[trigger] self.is_widen(q)
    }

    /// The cells worth firing at next: the continuations of lines of live hits; failing
    /// those, the unchecked neighbours of the first live hit; failing those, every unchecked
    /// cell.
    pub open spec fn is_suggestion(&self, q: Cell) -> bool {
        if self.has_target() {
            self.is_target(q)
        } else if self.has_live_hit() && self.has_widen() {
            self.is_widen(q)
        } else {
            self.unchecked(q)
        }
    }

    pub open spec fn wf(&self) -> bool {
        &&& self.grid_wf()
        &&& self.fleet_wf()
        &&& self.apart_wf()
        &&& self.sunk_wf()
        &&& self.in_bounds(cell(self.cursor()))
    }

    /// Creates a player with every cell unchecked, no ships, and room for `ship_count` ships.
    pub fn new(grid_size: [u8; 2], ship_count: usize, is_cpu: bool) -> (r: Player)
        requires
            grid_size[0] >= 1,
            grid_size[1] >= 1,
        ensures
            r.wf(),
            r.width() == grid_size[0],
            r.height() == grid_size[1],
            r.ship_count() == ship_count,
            r.spec_is_cpu() == is_cpu,
            r.spec_ships().len() == 0,
            r.cursor() == [0u8, 0u8],
            forall|c: Cell| r.in_bounds(c) ==> #[trigger] r.state_at(c) == SpaceState::Unchecked,
    {
        let w = grid_size[0];
        let h = grid_size[1];
        let mut spaces: Vec<Space> = Vec::new();
        let mut x: u8 = 0;
        while x < w
            invariant
                x <= w,
                spaces@.len() == x as int * h as int,
                forall|c: Cell|
                    #![trigger spaces@[grid_index(c, h as int)]]
                    0 <= c.0 < x && 0 <= c.1 < h ==> 0 <= grid_index(c, h as int) < spaces@.len()
                        && spaces@[grid_index(c, h as int)].at() == c
                        && spaces@[grid_index(c, h as int)].state() == SpaceState::Unchecked,
                forall|i: int|
                    0 <= i < spaces@.len() ==> in_grid(#[trigger] spaces@[i].at(), w as int, h as int)
                        && grid_index(spaces@[i].at(), h as int) == i,
            decreases w - x,
        {
            let mut y: u8 = 0;
            while y < h
                invariant
                    x < w,
                    y <= h,
                    spaces@.len() == x as int * h as int + y,
                    forall|c: Cell|
                        #![trigger spaces@[grid_index(c, h as int)]]
                        (0 <= c.0 < x && 0 <= c.1 < h) || (c.0 == x && 0 <= c.1 < y) ==> 0
                            <= grid_index(c, h as int) < spaces@.len() && spaces@[grid_index(
                            c,
                            h as int,
                        )].at() == c && spaces@[grid_index(c, h as int)].state()
                            == SpaceState::Unchecked,
                    forall|i: int|
                        0 <= i < spaces@.len() ==> in_grid(
                            #[trigger] spaces@[i].at(),
                            w as int,
                            h as int,
                        ) && grid_index(spaces@[i].at(), h as int) == i,
                decreases h - y,
            {
                proof {
                    assert forall|c: Cell|
                        (0 <= c.0 < x && 0 <= c.1 < h) implies grid_index(c, h as int) < x as int
                        * h as int by {
                        lemma_index_bound(c.0, c.1, x as int, h as int);
                    }
                }
                spaces.push(Space::new([x, y]));
                y = y + 1;
            }
            assert(x as int * h as int + h as int == (x as int + 1) * h as int) by (nonlinear_arith);
            x = x + 1;
        }
        let r = Player {
            is_cpu,
            spaces,
            ships: Vec::new(),
            ship_count,
            grid_size,
            grid_cursor: [0, 0],
        };
        proof {
            assert forall|c: Cell| r.in_bounds(c) implies 0 <= r.index_of(c) < r.spec_spaces().len()
                && r.space_at(c).at() == c by {
                assert(spaces@[grid_index(c, h as int)].at() == c);
            }
        }
        r
    }

    /// Returns whether `pos` lies on the grid.
    pub fn valid_space(&self, pos: &[u8; 2]) -> (r: bool)
        ensures
            r == self.in_bounds(cell(*pos)),
    {
        pos[0] < self.grid_size[0] && pos[1] < self.grid_size[1]
    }

    /// Returns where the space of `pos` is stored.
    pub fn space_index(&self, pos: &[u8; 2]) -> (r: usize)
        requires
            self.wf(),
            self.in_bounds(cell(*pos)),
        ensures
            r == self.index_of(cell(*pos)),
            r < self.spec_spaces().len(),
    {
        proof {
            assert(self.space_at(cell(*pos)).at() == cell(*pos));
            lemma_index_bound(pos[0] as int, pos[1] as int, self.width(), self.height());
            assert(self.height() * pos[0] <= 255 * 255) by (nonlinear_arith)
                requires
                    0 <= self.height() <= 255,
                    0 <= pos[0] <= 255,
            ;
        }
        self.grid_size[1] as usize * pos[0] as usize + pos[1] as usize
    }

    /// Returns the space of `pos`.
    pub fn space(&self, pos: &[u8; 2]) -> (r: &Space)
        requires
            self.wf(),
            self.in_bounds(cell(*pos)),
        ensures
            *r == self.space_at(cell(*pos)),
            r.at() == cell(*pos),
    {
        let i = self.space_index(pos);
        &self.spaces[i]
    }

    /// Returns every space, column by column.
    pub fn spaces(&self) -> (r: &[Space])
        ensures
            r@ == self.spec_spaces(),
    {
        self.spaces.as_slice()
    }

    /// Returns the ships, in the order they were added.
    pub fn ships(&self) -> (r: &[Ship])
        ensures
            r@ == self.spec_ships(),
    {
        self.ships.as_slice()
    }

    /// Returns whether this player is computer-controlled.
    pub fn is_cpu(&self) -> (r: bool)
        ensures
            r == self.spec_is_cpu(),
    {
        self.is_cpu
    }

    /// Returns the grid cursor.
    pub fn grid_cursor(&self) -> (r: &[u8; 2])
        ensures
            *r == self.cursor(),
    {
        &self.grid_cursor
    }

    /// Returns the cell one step from `pos` in `direction`, if it lies on the grid.
    pub fn movement(&self, pos: &[u8; 2], direction: Direction) -> (r: Option<[u8; 2]>)
        ensures
            r is Some <==> self.in_bounds(step(cell(*pos), direction)),
            r matches Some(q) ==> cell(q) == step(cell(*pos), direction),
    {
        let x = pos[0];
        let y = pos[1];
        let w = self.grid_size[0];
        let h = self.grid_size[1];
        match direction {
            Direction::North => if x < w && y > 0 && y - 1 < h {
                Some([x, y - 1])
            } else {
                None
            },
            Direction::East => if x < 255 && x + 1 < w && y < h {
                Some([x + 1, y])
            } else {
                None
            },
            Direction::South => if x < w && y < 255 && y + 1 < h {
                Some([x, y + 1])
            } else {
                None
            },
            Direction::West => if x > 0 && x - 1 < w && y < h {
                Some([x - 1, y])
            } else {
                None
            },
        }
    }

    /// Returns the index of the committed ship that covers `pos`, if any.
    fn ship_index(&self, pos: &[u8; 2]) -> (r: Option<usize>)
        requires
            self.wf(),
        ensures
            r is Some <==> self.occupied(cell(*pos)),
            r matches Some(i) ==> self.ship_covers(i as int, cell(*pos)) && i == self.occupant(
                cell(*pos),
            ),
    {
        let c = Ghost(cell(*pos));
        let mut i: usize = 0;
        while i < self.ships.len()
            invariant
                self.wf(),
                c@ == cell(*pos),
                i <= self.ships@.len(),
                forall|k: int| 0 <= k < i ==> !#[trigger] self.ship_covers(k, c@),
            decreases self.ships@.len() - i,
        {
            let ship = &self.ships[i];
            if !ship.is_placement() {
                let cells = ship.pos();
                let mut j: usize = 0;
                while j < cells.len()
                    invariant
                        self.wf(),
                        c@ == cell(*pos),
                        i < self.ships@.len(),
                        *ship == self.ships@[i as int],
                        self.committed(i as int),
                        j <= cells@.len(),
                        cells@ == ship.cells(),
                        forall|k: int| 0 <= k < j ==> #[trigger] cell(cells@[k]) != c@,
                    decreases cells@.len() - j,
                {
                    if cells[j][0] == pos[0] && cells[j][1] == pos[1] {
                        assert(cell(cells@[j as int]) == c@);
                        assert(self.ship_covers(i as int, c@));
                        assert(self.ship_covers(self.occupant(c@), c@));
                        return Some(i);
                    }
                    j = j + 1;
                }
                assert(!self.ship_covers(i as int, c@));
            }
            i = i + 1;
        }
        None
    }

    /// Returns the committed ship that covers `pos`, if any.
    pub fn ship(&self, pos: &[u8; 2]) -> (r: Option<&Ship>)
        requires
            self.wf(),
        ensures
            r is Some <==> self.occupied(cell(*pos)),
            r matches Some(s) ==> *s == self.spec_ships()[self.occupant(cell(*pos))],
    {
        match self.ship_index(pos) {
            Some(i) => Some(&self.ships[i]),
            None => None,
        }
    }

    /// Returns whether a committed ship covers `pos`.
    pub fn ship_is_in_space(&self, pos: &[u8; 2]) -> (r: bool)
        requires
            self.wf(),
        ensures
            r == self.occupied(cell(*pos)),
    {
        self.ship_index(pos).is_some()
    }

    /// Returns whether a committed ship covers an orthogonal neighbour of `pos`.
    pub fn ship_is_next_to(&self, pos: &[u8; 2]) -> (r: bool)
        requires
            self.wf(),
        ensures
            r == self.touches(cell(*pos)),
    {
        let x = pos[0];
        let y = pos[1];
        proof {
            self.lemma_occupied_on_grid(step(cell(*pos), Direction::North));
            self.lemma_occupied_on_grid(step(cell(*pos), Direction::East));
            self.lemma_occupied_on_grid(step(cell(*pos), Direction::South));
            self.lemma_occupied_on_grid(step(cell(*pos), Direction::West));
        }
        let north = y > 0 && self.ship_is_in_space(&[x, y - 1]);
        let east = x < 255 && self.ship_is_in_space(&[x + 1, y]);
        let south = y < 255 && self.ship_is_in_space(&[x, y + 1]);
        let west = x > 0 && self.ship_is_in_space(&[x - 1, y]);
        north || east || south || west
    }

    /// An occupied cell lies on the grid.
    proof fn lemma_occupied_on_grid(&self, c: Cell)
        requires
            self.wf(),
        ensures
            self.occupied(c) ==> self.in_bounds(c),
    {
        if self.occupied(c) {
            let i = self.occupant(c);
            assert(self.ship_covers(i, c));
        }
    }

    /// Returns whether a new ship may cover `new_ship`: every cell on the grid and free, and
    /// for a computer player, none next to a committed ship.
    pub fn valid_ship_position(&self, new_ship: &[[u8; 2]]) -> (r: bool)
        requires
            self.wf(),
        ensures
            r == self.valid_position(new_ship@),
    {
        let mut j: usize = 0;
        while j < new_ship.len()
            invariant
                self.wf(),
                j <= new_ship@.len(),
                forall|k: int| 0 <= k < j ==> #[trigger] self.valid_cell(cell(new_ship@[k])),
            decreases new_ship@.len() - j,
        {
            let p = &new_ship[j];
            if !(self.valid_space(p) && !self.ship_is_in_space(p) && !(self.is_cpu
                && self.ship_is_next_to(p))) {
                assert(!self.valid_cell(cell(new_ship@[j as int])));
                return false;
            }
            j = j + 1;
        }
        true
    }

    /// Returns the cells of a ship of `length` cells with its head at `head`, facing
    /// `direction` (the body trails away from `direction`), or `None` when a cell would leave
    /// the grid.
    pub fn get_ship_position(&self, head: [u8; 2], direction: Direction, length: u8) -> (r: Option<
        Vec<[u8; 2]>,
    >)
        requires
            length >= 1,
        ensures
            r is Some <==> (self.in_bounds(cell(head)) && self.in_bounds(
                steps(cell(head), direction.spec_opposite(), length - 1),
            )),
            r matches Some(v) ==> v@.len() == length && forall|i: int|
                0 <= i < length ==> #[trigger] cell(v@[i]) == steps(
                    cell(head),
                    direction.spec_opposite(),
                    i,
                ),
    {
        let x = head[0];
        let y = head[1];
        let w = self.grid_size[0];
        let h = self.grid_size[1];
        if !(x < w && y < h) {
            return None;
        }
        let valid = match direction {
            Direction::North => y as u16 + length as u16 <= h as u16,
            Direction::East => x >= length - 1,
            Direction::South => y >= length - 1,
            Direction::West => x as u16 + length as u16 <= w as u16,
        };
        if !valid {
            return None;
        }
        let mut ship: Vec<[u8; 2]> = Vec::new();
        let mut k: u8 = 0;
        while k < length
            invariant
                k <= length,
                x < w,
                y < h,
                x == head[0],
                y == head[1],
                w == self.grid_size[0],
                h == self.grid_size[1],
                match direction {
                    Direction::North => y + length <= h,
                    Direction::East => x >= length - 1,
                    Direction::South => y >= length - 1,
                    Direction::West => x + length <= w,
                },
                ship@.len() == k,
                forall|i: int|
                    0 <= i < k ==> #[trigger] cell(ship@[i]) == steps(
                        cell(head),
                        direction.spec_opposite(),
                        i,
                    ),
            decreases length - k,
        {
            let p = match direction {
                Direction::North => [x, y + k],
                Direction::East => [x - k, y],
                Direction::South => [x, y - k],
                Direction::West => [x + k, y],
            };
            ship.push(p);
            k = k + 1;
        }
        Some(ship)
    }

    /// Two players with the same frame whose committed ships cover the same cells agree on
    /// occupancy and validity, and the fleet invariants carry over.
    proof fn lemma_same_covers(a: Player, b: Player)
        requires
            forall|i: int, c: Cell| #[trigger] a.ship_covers(i, c) == b.ship_covers(i, c),
            a.width() == b.width(),
            a.height() == b.height(),
            a.spec_is_cpu() == b.spec_is_cpu(),
            b.fleet_wf(),
            b.apart_wf(),
        ensures
            forall|c: Cell| #[trigger] a.occupied(c) == b.occupied(c),
            forall|c: Cell| #[trigger] a.valid_cell(c) == b.valid_cell(c),
            forall|i: int, c: Cell| #[trigger] a.ship_covers(i, c) ==> a.in_bounds(c),
            forall|i1: int, i2: int, c: Cell|
                #[trigger] a.ship_covers(i1, c) && #[trigger] a.ship_covers(i2, c) ==> i1 == i2,
            a.apart_wf(),
    {
        assert forall|c: Cell| #[trigger] a.occupied(c) == b.occupied(c) by {
            if a.occupied(c) {
                assert(b.ship_covers(a.occupant(c), c));
            }
            if b.occupied(c) {
                assert(a.ship_covers(b.occupant(c), c));
            }
        }
        assert forall|c: Cell| #[trigger] a.valid_cell(c) == b.valid_cell(c) by {
            assert(a.occupied(step(c, Direction::North)) == b.occupied(step(c, Direction::North)));
            assert(a.occupied(step(c, Direction::East)) == b.occupied(step(c, Direction::East)));
            assert(a.occupied(step(c, Direction::South)) == b.occupied(step(c, Direction::South)));
            assert(a.occupied(step(c, Direction::West)) == b.occupied(step(c, Direction::West)));
        }
        assert forall|i: int, c: Cell| #[trigger] a.ship_covers(i, c) implies a.in_bounds(c) by {
            assert(b.ship_covers(i, c));
        }
        assert forall|i1: int, i2: int, c: Cell|
            #[trigger] a.ship_covers(i1, c) && #[trigger] a.ship_covers(i2, c) implies i1 == i2 by {
            assert(b.ship_covers(i1, c));
            assert(b.ship_covers(i2, c));
        }
        if a.spec_is_cpu() {
            assert forall|i1: int, i2: int, p: Cell, q: Cell|
                #[trigger] a.ship_covers(i1, p) && #[trigger] a.ship_covers(i2, q) && adjacent(p, q)
                    implies i1 == i2 by {
                assert(b.ship_covers(i1, p));
                assert(b.ship_covers(i2, q));
            }
        }
    }

    /// Two players with the same frame and the same ships agree on every question about the
    /// fleet.
    proof fn lemma_same_fleet(a: Player, b: Player)
        requires
            a.spec_ships() == b.spec_ships(),
            a.width() == b.width(),
            a.height() == b.height(),
            a.ship_count() == b.ship_count(),
            a.spec_is_cpu() == b.spec_is_cpu(),
            b.fleet_wf(),
            b.apart_wf(),
        ensures
            forall|i: int, c: Cell| #[trigger] a.ship_covers(i, c) == b.ship_covers(i, c),
            forall|c: Cell| #[trigger] a.occupied(c) == b.occupied(c),
            forall|c: Cell| #[trigger] a.valid_cell(c) == b.valid_cell(c),
            a.fleet_wf(),
            a.apart_wf(),
    {
        assert forall|i: int, c: Cell| #[trigger] a.ship_covers(i, c) == b.ship_covers(i, c) by {}
        Self::lemma_same_covers(a, b);
        assert forall|i: int| 0 <= i < a.spec_ships().len() - 1 implies #[trigger] a.committed(i) by {
            assert(b.committed(i));
        }
    }

    /// Changing one ship `i` (adding it, or committing it) to cover only cells that were valid
    /// keeps committed ships on the grid, apart from each other, and (for a computer player)
    /// not touching.
    proof fn lemma_fleet_step(a: Player, b: Player, i: int)
        requires
            a.fleet_wf(),
            a.apart_wf(),
            a.width() == b.width(),
            a.height() == b.height(),
            a.spec_is_cpu() == b.spec_is_cpu(),
            forall|k: int, c: Cell| k != i ==> #[trigger] b.ship_covers(k, c) == a.ship_covers(k, c),
            forall|c: Cell| #[trigger] b.ship_covers(i, c) ==> a.valid_cell(c),
            forall|c: Cell| !#[trigger] a.ship_covers(i, c),
        ensures
            forall|k: int, c: Cell| #[trigger] b.ship_covers(k, c) ==> b.in_bounds(c),
            forall|i1: int, i2: int, c: Cell|
                #[trigger] b.ship_covers(i1, c) && #[trigger] b.ship_covers(i2, c) ==> i1 == i2,
            b.apart_wf(),
            forall|c: Cell| a.occupied(c) ==> #[trigger] b.occupied(c),
    {
        assert forall|k: int, c: Cell| #[trigger] b.ship_covers(k, c) implies b.in_bounds(c) by {
            if k == i {
                assert(a.valid_cell(c));
            } else {
                assert(a.ship_covers(k, c));
            }
        }
        assert forall|i1: int, i2: int, c: Cell|
            #[trigger] b.ship_covers(i1, c) && #[trigger] b.ship_covers(i2, c) implies i1 == i2 by {
            if i1 == i && i2 != i {
                assert(a.ship_covers(i2, c));
                assert(a.valid_cell(c));
            } else if i2 == i && i1 != i {
                assert(a.ship_covers(i1, c));
                assert(a.valid_cell(c));
            } else if i1 != i && i2 != i {
                assert(a.ship_covers(i1, c));
                assert(a.ship_covers(i2, c));
            }
        }
        if b.spec_is_cpu() {
            assert forall|i1: int, i2: int, p: Cell, q: Cell|
                #[trigger] b.ship_covers(i1, p) && #[trigger] b.ship_covers(i2, q) && adjacent(p, q)
                    implies i1 == i2 by {
                lemma_step_back(q, Direction::North);
                lemma_step_back(q, Direction::East);
                lemma_step_back(q, Direction::South);
                lemma_step_back(q, Direction::West);
                lemma_step_back(p, Direction::North);
                lemma_step_back(p, Direction::East);
                lemma_step_back(p, Direction::South);
                lemma_step_back(p, Direction::West);
                if i1 == i && i2 != i {
                    assert(a.ship_covers(i2, q));
                    assert(a.valid_cell(p));
                } else if i2 == i && i1 != i {
                    assert(a.ship_covers(i1, p));
                    assert(a.valid_cell(q));
                } else if i1 != i && i2 != i {
                    assert(a.ship_covers(i1, p));
                    assert(a.ship_covers(i2, q));
                }
            }
        }
        assert forall|c: Cell| a.occupied(c) implies #[trigger] b.occupied(c) by {
            let k = a.occupant(c);
            assert(a.ship_covers(k, c));
            assert(b.ship_covers(k, c));
        }
    }

    /// A player whose spaces and fleet match a well-formed one, with its cursor on the grid,
    /// is well formed.
    proof fn lemma_same_board(a: Player, b: Player)
        requires
            b.wf(),
            a.spec_spaces() == b.spec_spaces(),
            a.spec_ships() == b.spec_ships(),
            a.width() == b.width(),
            a.height() == b.height(),
            a.ship_count() == b.ship_count(),
            a.spec_is_cpu() == b.spec_is_cpu(),
            a.in_bounds(cell(a.cursor())),
        ensures
            a.wf(),
    {
        Self::lemma_same_layout(a, b);
        Self::lemma_same_fleet(a, b);
        assert forall|i: int, j: int|
            0 <= i < a.spec_ships().len() && a.spec_ships()[i].lifecycle() == ShipState::Sunk && 0 <= j
                < a.spec_ships()[i].cells().len() implies #[trigger] a.hit(
            cell(#[trigger] a.spec_ships()[i].cells()[j]),
        ) by {
            assert(b.hit(cell(b.spec_ships()[i].cells()[j])));
        }
    }

    /// Changing one ship `i` (appending it to a fleet whose last ship is committed, or
    /// replacing it in place) keeps ships well formed, all but the last committed, and sunk
    /// ships fully hit, provided ship `i` itself is well formed, committed unless last, and
    /// fully hit if sunk.
    proof fn lemma_fleet_rest(a: Player, b: Player, i: int)
        requires
            b.wf(),
            a.width() == b.width(),
            a.height() == b.height(),
            a.spec_spaces() == b.spec_spaces(),
            0 <= i < a.spec_ships().len(),
            a.spec_ships().len() == b.spec_ships().len() || (a.spec_ships().len()
                == b.spec_ships().len() + 1 && i == b.spec_ships().len() && !b.has_staged()),
            forall|k: int|
                0 <= k < a.spec_ships().len() && k != i ==> #[trigger] a.spec_ships()[k]
                    == b.spec_ships()[k],
            a.spec_ships()[i].wf(),
            i < a.spec_ships().len() - 1 ==> a.spec_ships()[i].lifecycle() != ShipState::Placement,
            a.spec_ships()[i].lifecycle() == ShipState::Sunk ==> i < b.spec_ships().len()
                && b.all_hit(i) && a.spec_ships()[i].cells() == b.spec_ships()[i].cells(),
        ensures
            forall|k: int| 0 <= k < a.spec_ships().len() - 1 ==> #[trigger] a.committed(k),
            forall|k: int| 0 <= k < a.spec_ships().len() ==> #[trigger] a.spec_ships()[k].wf(),
            a.sunk_wf(),
    {
        assert forall|k: int| 0 <= k < a.spec_ships().len() - 1 implies #[trigger] a.committed(k) by {
            if k != i {
                assert(a.spec_ships()[k] == b.spec_ships()[k]);
                assert(b.committed(k));
            }
        }
        assert forall|k: int| 0 <= k < a.spec_ships().len() implies #[trigger] a.spec_ships()[k].wf() by {
            if k != i {
                assert(a.spec_ships()[k] == b.spec_ships()[k]);
                assert(b.spec_ships()[k].wf());
            }
        }
        assert forall|k: int, j: int|
            0 <= k < a.spec_ships().len() && a.spec_ships()[k].lifecycle() == ShipState::Sunk && 0 <= j
                < a.spec_ships()[k].cells().len() implies #[trigger] a.hit(
            cell(#[trigger] a.spec_ships()[k].cells()[j]),
        ) by {
            if k != i {
                assert(a.spec_ships()[k] == b.spec_ships()[k]);
            }
            assert(b.hit(cell(b.spec_ships()[k].cells()[j])));
        }
    }

    /// Two players whose spaces match position for position have the same grid layout.
    proof fn lemma_same_layout(a: Player, b: Player)
        requires
            b.grid_wf(),
            a.width() == b.width(),
            a.height() == b.height(),
            a.spec_spaces().len() == b.spec_spaces().len(),
            forall|k: int|
                0 <= k < a.spec_spaces().len() ==> (#[trigger] a.spec_spaces()[k]).at()
                    == b.spec_spaces()[k].at(),
        ensures
            a.grid_wf(),
    {
        assert forall|c: Cell| a.in_bounds(c) implies 0 <= a.index_of(c) < a.spec_spaces().len()
            && a.space_at(c).at() == c by {
            assert(b.space_at(c).at() == c);
        }
        assert forall|k: int| 0 <= k < a.spec_spaces().len() implies a.in_bounds(
            #[trigger] a.spec_spaces()[k].at(),
        ) && a.index_of(a.spec_spaces()[k].at()) == k by {
            assert(b.spec_spaces()[k].at() == a.spec_spaces()[k].at());
        }
    }

    /// Fires at `pos`: the space becomes checked, and hit exactly when a committed ship covers
    /// it.
    ///
    /// # Errors
    ///
    /// `OutOfBounds` when `pos` is off the grid, `AlreadyChecked` when the space was checked
    /// before; the player is then unchanged.
    pub fn select_space(&mut self, pos: &[u8; 2]) -> (r: Result<(), ErrorKind>)
        requires
            old(self).wf(),
        ensures
            final(self).wf(),
            final(self).same_frame(*old(self)),
            final(self).spec_ships() == old(self).spec_ships(),
            final(self).keeps_history(*old(self)),
            !old(self).in_bounds(cell(*pos)) ==> r == Err::<(), ErrorKind>(ErrorKind::OutOfBounds),
            old(self).in_bounds(cell(*pos)) && !old(self).unchecked(cell(*pos)) ==> r == Err::<
                (),
                ErrorKind,
            >(ErrorKind::AlreadyChecked),
            r is Err ==> *final(self) == *old(self),
            old(self).unchecked(cell(*pos)) ==> {
                &&& r is Ok
                &&& final(self).state_at(cell(*pos)) == SpaceState::Checked(
                    old(self).occupied(cell(*pos)),
                )
                &&& forall|c: Cell|
                    #![trigger final(self).state_at(c)]
                    c != cell(*pos) && old(self).in_bounds(c) ==> final(self).state_at(c) == old(
                        self,
                    ).state_at(c)
            },
    {
        if !self.valid_space(pos) {
            return Err(ErrorKind::OutOfBounds);
        }
        if !self.space(pos).is_unchecked() {
            return Err(ErrorKind::AlreadyChecked);
        }
        let hit = self.ship_is_in_space(pos);
        let i = self.space_index(pos);
        let ghost before = *self;
        let r = self.spaces[i].set_checked(hit);
        proof {
            let c = cell(*pos);
            assert(before.space_at(c).at() == c);
            assert forall|k: int| 0 <= k < self.spec_spaces().len() implies (
            #[trigger] self.spec_spaces()[k]).at() == before.spec_spaces()[k].at() by {}
            Self::lemma_same_layout(*self, before);
            Self::lemma_same_fleet(*self, before);
            assert forall|c2: Cell| self.in_bounds(c2) && c2 != c implies #[trigger] self.state_at(c2)
                == before.state_at(c2) by {
                assert(before.space_at(c2).at() == c2);
            }
            assert forall|c2: Cell| before.hit(c2) implies #[trigger] self.hit(c2) by {
                assert(before.space_at(c2).at() == c2);
            }
        }
        r
    }

    /// Returns whether every ship has been sunk.
    pub fn all_ships_sunk(&self) -> (r: bool)
        ensures
            r == self.all_sunk(),
    {
        let mut i: usize = 0;
        while i < self.ships.len()
            invariant
                i <= self.ships@.len(),
                forall|k: int| 0 <= k < i ==> #[trigger] self.spec_ships()[k].lifecycle()
                    == ShipState::Sunk,
            decreases self.ships@.len() - i,
        {
            if !self.ships[i].is_sunk() {
                return false;
            }
            i = i + 1;
        }
        true
    }

    /// Sinks the ship at `pos` when all its cells have been hit, and returns whether they
    /// have. A ship that was already sunk is left as it is.
    ///
    /// # Errors
    ///
    /// `NoShip` when no committed ship covers `pos`; the player is then unchanged.
    pub fn sink_ship_if_all_hit(&mut self, pos: &[u8; 2]) -> (r: Result<bool, ErrorKind>)
        requires
            old(self).wf(),
        ensures
            final(self).wf(),
            final(self).same_frame(*old(self)),
            final(self).spec_spaces() == old(self).spec_spaces(),
            !old(self).occupied(cell(*pos)) ==> r == Err::<bool, ErrorKind>(ErrorKind::NoShip)
                && *final(self) == *old(self),
            old(self).occupied(cell(*pos)) ==> ({
                let i = old(self).occupant(cell(*pos));
                let sinks = old(self).all_hit(i) && old(self).spec_ships()[i].lifecycle()
                    == ShipState::Active;
                &&& r == Ok::<bool, ErrorKind>(old(self).all_hit(i))
                &&& sinks ==> final(self).spec_ships() == old(self).spec_ships().update(
                    i,
                    final(self).spec_ships()[i],
                ) && old(self).spec_ships()[i].relabelled(
                    final(self).spec_ships()[i],
                    ShipState::Sunk,
                )
                &&& !sinks ==> final(self).spec_ships() == old(self).spec_ships()
            }),
    {
        let idx = match self.ship_index(pos) {
            Some(i) => i,
            None => return Err(ErrorKind::NoShip),
        };
        let n = self.ships[idx].len();
        let mut j: usize = 0;
        while j < n
            invariant
                self.wf(),
                *self == *old(self),
                self.occupied(cell(*pos)),
                idx == self.occupant(cell(*pos)),
                idx < self.ships@.len(),
                self.committed(idx as int),
                n == self.ships@[idx as int].cells().len(),
                j <= n,
                forall|k: int| 0 <= k < j ==> #[trigger] self.hit(cell(self.ships@[idx as int].cells()[k])),
            decreases n - j,
        {
            let p = self.ships[idx].pos()[j];
            proof {
                assert(self.ship_covers(idx as int, cell(p)));
            }
            if !self.space(&p).is_hit() {
                assert(!self.hit(cell(self.ships@[idx as int].cells()[j as int])));
                return Ok(false);
            }
            j = j + 1;
        }
        if self.ships[idx].is_active() {
            let ghost before = *self;
            let _ = self.ships[idx].set_sunk();
            proof {
                assert(self.ships@ =~= before.ships@.update(idx as int, self.ships@[idx as int]));
                assert forall|k: int, c: Cell| #[trigger] self.ship_covers(k, c) == before.ship_covers(k, c) by {
                    if k == idx {
                        assert(self.ships@[k].cells() == before.ships@[k].cells());
                    }
                }
                Self::lemma_same_covers(*self, before);
                Self::lemma_same_layout(*self, before);
                assert(before.spec_ships()[idx as int].wf());
                Self::lemma_fleet_rest(*self, before, idx as int);
            }
        }
        Ok(true)
    }

    /// Adds a ship of `length` cells with its head at `head`, facing `direction`: staged for
    /// positioning when `placement` holds, afloat otherwise.
    ///
    /// # Errors
    ///
    /// `InvalidLifecycle` when the fleet is complete or a ship is still being positioned,
    /// `OutOfBounds` when a cell would leave the grid, and `Overlap` when an afloat ship would
    /// cover an invalid cell; the player is then unchanged.
    pub fn add_ship(&mut self, head: [u8; 2], direction: Direction, length: u8, placement: bool) -> (r:
        Result<(), ErrorKind>)
        requires
            old(self).wf(),
            length >= 1,
        ensures
            final(self).wf(),
            final(self).same_frame(*old(self)),
            final(self).spec_spaces() == old(self).spec_spaces(),
            r == old(self).add_ship_result(cell(head), direction, length as int, placement),
            r is Ok ==> old(self).added(*final(self), cell(head), direction, length as int, placement),
            r is Err ==> *final(self) == *old(self),
    {
        let len = self.ships.len();
        if len >= self.ship_count || (len > 0 && self.ships[len - 1].is_placement()) {
            return Err(ErrorKind::InvalidLifecycle);
        }
        let pos = match self.get_ship_position(head, direction, length) {
            Some(p) => p,
            None => return Err(ErrorKind::OutOfBounds),
        };
        let ghost cells = ship_cells(cell(head), direction, length as int);
        proof {
            assert forall|j: int| 0 <= j < pos@.len() implies cell(pos@[j]) == cells[j] by {}
            assert(self.valid_position(pos@) == self.valid_position_cells(cells)) by {
                if self.valid_position(pos@) {
                    assert forall|j: int| 0 <= j < cells.len() implies #[trigger] self.valid_cell(cells[j]) by {
                        assert(self.valid_cell(cell(pos@[j])));
                    }
                }
                if self.valid_position_cells(cells) {
                    assert forall|j: int| 0 <= j < pos@.len() implies #[trigger] self.valid_cell(cell(pos@[j])) by {
                        assert(self.valid_cell(cells[j]));
                    }
                }
            }
        }
        if !placement && !self.valid_ship_position(pos.as_slice()) {
            return Err(ErrorKind::Overlap);
        }
        proof {
            lemma_laid_out_line(pos@, cell(head), direction, length as int);
            lemma_fits_all(cell(head), direction, length as int, self.width(), self.height());
        }
        let mut ship = match Ship::new(pos) {
            Ok(s) => s,
            Err(e) => return Err(e),
        };
        if !placement {
            let _ = ship.set_active();
        }
        let ghost before = *self;
        self.ships.push(ship);
        proof {
            let i = before.spec_ships().len() as int;
            assert(self.spec_ships().drop_last() =~= before.spec_ships());
            assert forall|k: int, c: Cell| k != i implies #[trigger] self.ship_covers(k, c)
                == before.ship_covers(k, c) by {
                if 0 <= k < i {
                    assert(self.spec_ships()[k] == before.spec_ships()[k]);
                }
            }
            assert forall|c: Cell| #[trigger] self.ship_covers(i, c) implies before.valid_cell(c) by {
                let j = choose|j: int| 0 <= j < ship.cells().len() && #[trigger] cell(ship.cells()[j]) == c;
                assert(before.valid_cell(cell(ship.cells()[j])));
            }
            Self::lemma_fleet_step(before, *self, i);
            Self::lemma_same_layout(*self, before);
            Self::lemma_fleet_rest(*self, before, i);
        }
        Ok(())
    }

    /// Stages a ship of `length` cells for positioning, with its head at `(0, 0)` and facing
    /// West, so that its body runs along the first row.
    ///
    /// # Errors
    ///
    /// As `add_ship`.
    pub fn add_placement_ship(&mut self, length: u8) -> (r: Result<(), ErrorKind>)
        requires
            old(self).wf(),
            length >= 1,
        ensures
            final(self).wf(),
            final(self).same_frame(*old(self)),
            final(self).spec_spaces() == old(self).spec_spaces(),
            r == old(self).add_ship_result((0, 0), Direction::West, length as int, true),
            r is Ok ==> old(self).added(*final(self), (0, 0), Direction::West, length as int, true),
            r is Err ==> *final(self) == *old(self),
    {
        self.add_ship([0, 0], Direction::West, length, true)
    }

    /// Commits the staged ship: it becomes afloat where it stands.
    ///
    /// # Errors
    ///
    /// `InvalidLifecycle` when no ship is staged, `Overlap` when it covers an invalid cell;
    /// the player is then unchanged.
    pub fn place_placement_ship(&mut self) -> (r: Result<(), ErrorKind>)
        requires
            old(self).wf(),
        ensures
            final(self).wf(),
            final(self).same_frame(*old(self)),
            final(self).spec_spaces() == old(self).spec_spaces(),
            !old(self).has_staged() ==> r == Err::<(), ErrorKind>(ErrorKind::InvalidLifecycle),
            old(self).has_staged() && !old(self).valid_position(old(self).spec_ships().last().cells())
                ==> r == Err::<(), ErrorKind>(ErrorKind::Overlap),
            old(self).has_staged() && old(self).valid_position(old(self).spec_ships().last().cells())
                ==> r is Ok,
            r is Err ==> *final(self) == *old(self),
            r is Ok ==> {
                let i = old(self).spec_ships().len() - 1;
                &&& final(self).spec_ships() == old(self).spec_ships().update(
                    i,
                    final(self).spec_ships()[i],
                )
                &&& old(self).spec_ships()[i].relabelled(final(self).spec_ships()[i], ShipState::Active)
            },
    {
        let len = self.ships.len();
        if len == 0 || !self.ships[len - 1].is_placement() {
            return Err(ErrorKind::InvalidLifecycle);
        }
        if !self.valid_ship_position(self.ships[len - 1].pos()) {
            return Err(ErrorKind::Overlap);
        }
        let ghost before = *self;
        let _ = self.ships[len - 1].set_active();
        proof {
            let i = len - 1;
            assert(self.ships@ =~= before.ships@.update(i as int, self.ships@[i as int]));
            assert forall|k: int, c: Cell| k != i implies #[trigger] self.ship_covers(k, c)
                == before.ship_covers(k, c) by {
                if 0 <= k < len {
                    assert(self.spec_ships()[k] == before.spec_ships()[k]);
                }
            }
            assert forall|c: Cell| #[trigger] self.ship_covers(i as int, c) implies before.valid_cell(c) by {
                let cs = before.spec_ships()[i as int].cells();
                let j = choose|j: int| 0 <= j < cs.len() && #[trigger] cell(cs[j]) == c;
                assert(before.valid_cell(cell(cs[j])));
            }
            Self::lemma_fleet_step(before, *self, i as int);
            Self::lemma_same_layout(*self, before);
            assert(before.spec_ships()[i as int].wf());
            Self::lemma_fleet_rest(*self, before, i as int);
        }
        Ok(())
    }

    /// Moves the staged ship to `pos`, which must be a straight line of adjacent cells.
    fn restage(&mut self, pos: Vec<[u8; 2]>) -> (r: Result<(), ErrorKind>)
        requires
            old(self).wf(),
            old(self).has_staged(),
        ensures
            final(self).wf(),
            final(self).same_frame(*old(self)),
            final(self).spec_spaces() == old(self).spec_spaces(),
            r is Ok <==> line_ok(pos@),
            r is Ok ==> old(self).restaged(*final(self), pos@),
            r is Err ==> r == Err::<(), ErrorKind>(ErrorKind::InvalidLine) && *final(self) == *old(self),
    {
        if pos.len() == 0 {
            return Err(ErrorKind::InvalidLine);
        }
        if pos.len() >= 2 {
            if line_direction(&pos).is_err() {
                return Err(ErrorKind::InvalidLine);
            }
        }
        let idx = self.ships.len() - 1;
        let ghost before = *self;
        let r = self.ships[idx].set_pos(pos);
        proof {
            if r is Err {
                assert(self.ships@ =~= before.ships@);
            } else {
                assert(self.ships@ =~= before.ships@.update(idx as int, self.ships@[idx as int]));
            }
            assert forall|k: int, c: Cell| #[trigger] self.ship_covers(k, c) == before.ship_covers(k, c) by {
                if 0 <= k < idx {
                    assert(self.spec_ships()[k] == before.spec_ships()[k]);
                }
            }
            Self::lemma_same_covers(*self, before);
            Self::lemma_same_layout(*self, before);
            Self::lemma_fleet_rest(*self, before, idx as int);
        }
        r
    }

    /// Moves the staged ship one cell in `direction`.
    ///
    /// # Errors
    ///
    /// `InvalidLifecycle` when no ship is staged, `OutOfBounds` when a cell would leave the
    /// grid; the player is then unchanged.
    pub fn move_placement_ship(&mut self, direction: Direction) -> (r: Result<(), ErrorKind>)
        requires
            old(self).wf(),
        ensures
            final(self).wf(),
            final(self).same_frame(*old(self)),
            final(self).spec_spaces() == old(self).spec_spaces(),
            r is Err ==> *final(self) == *old(self),
            !old(self).has_staged() ==> r == Err::<(), ErrorKind>(ErrorKind::InvalidLifecycle),
            old(self).has_staged() ==> ({
                let s = old(self).spec_ships().last();
                let nh = step(cell(s.cells()[0]), direction);
                &&& r is Ok <==> old(self).fits(nh, s.spec_dir(), s.cells().len() as int)
                &&& r is Err ==> r == Err::<(), ErrorKind>(ErrorKind::OutOfBounds)
                &&& r is Ok ==> old(self).restaged(*final(self), final(self).spec_ships().last().cells())
                    && Self::laid_out(
                    final(self).spec_ships().last().cells(),
                    nh,
                    s.spec_dir(),
                    s.cells().len() as int,
                ) && final(self).spec_ships().last().spec_dir() == s.spec_dir()
            }),
    {
        let len = self.ships.len();
        if len == 0 || !self.ships[len - 1].is_placement() {
            return Err(ErrorKind::InvalidLifecycle);
        }
        let idx = len - 1;
        let n = self.ships[idx].len();
        assert(self.ships@[idx as int].wf());
        let head = self.ships[idx].pos()[0];
        let dir = self.ships[idx].dir();
        if n > 255 {
            return Err(ErrorKind::OutOfBounds);
        }
        let new_head = match self.movement(&head, direction) {
            Some(h) => h,
            None => return Err(ErrorKind::OutOfBounds),
        };
        let cells = match self.get_ship_position(new_head, dir, n as u8) {
            Some(c) => c,
            None => return Err(ErrorKind::OutOfBounds),
        };
        proof {
            lemma_laid_out_line(cells@, cell(new_head), dir, n as int);
        }
        let ghost cs = cells@;
        let r = self.restage(cells);
        assert(self.spec_ships().last().cells() == cs);
        r
    }

    /// Turns the staged ship 90 degrees clockwise, pulling its head back just far enough for
    /// the whole ship to stay on the grid.
    ///
    /// # Errors
    ///
    /// `InvalidLifecycle` when no ship is staged, `OutOfBounds` when the turned ship cannot lie
    /// on the grid; the player is then unchanged.
    pub fn rotate_placement_ship(&mut self) -> (r: Result<(), ErrorKind>)
        requires
            old(self).wf(),
        ensures
            final(self).wf(),
            final(self).same_frame(*old(self)),
            final(self).spec_spaces() == old(self).spec_spaces(),
            r is Err ==> *final(self) == *old(self),
            !old(self).has_staged() ==> r == Err::<(), ErrorKind>(ErrorKind::InvalidLifecycle),
            old(self).has_staged() ==> ({
                let s = old(self).spec_ships().last();
                let n = s.cells().len() as int;
                let nd = s.spec_dir().spec_rotated();
                let nh = old(self).rotation_head(cell(s.cells()[0]), nd, n);
                &&& r is Ok <==> old(self).can_rotate(cell(s.cells()[0]), nd, n)
                &&& r is Err ==> r == Err::<(), ErrorKind>(ErrorKind::OutOfBounds)
                &&& r is Ok ==> old(self).restaged(*final(self), final(self).spec_ships().last().cells())
                    && Self::laid_out(final(self).spec_ships().last().cells(), nh, nd, n)
            }),
    {
        let len = self.ships.len();
        if len == 0 || !self.ships[len - 1].is_placement() {
            return Err(ErrorKind::InvalidLifecycle);
        }
        let idx = len - 1;
        let n = self.ships[idx].len();
        assert(self.ships@[idx as int].wf());
        let head = self.ships[idx].pos()[0];
        let nd = self.ships[idx].dir().rotated();
        if n > 255 {
            return Err(ErrorKind::OutOfBounds);
        }
        let n8 = n as u8;
        let x = head[0];
        let y = head[1];
        let w = self.grid_size[0];
        let h = self.grid_size[1];
        let new_head = match nd {
            Direction::North => {
                if n8 > h {
                    return Err(ErrorKind::OutOfBounds);
                }
                [x, if y <= h - n8 { y } else { h - n8 }]
            },
            Direction::East => {
                if n8 > w {
                    return Err(ErrorKind::OutOfBounds);
                }
                [if x >= n8 - 1 { x } else { n8 - 1 }, y]
            },
            Direction::South => {
                if n8 > h {
                    return Err(ErrorKind::OutOfBounds);
                }
                [x, if y >= n8 - 1 { y } else { n8 - 1 }]
            },
            Direction::West => {
                if n8 > w {
                    return Err(ErrorKind::OutOfBounds);
                }
                [if x <= w - n8 { x } else { w - n8 }, y]
            },
        };
        assert(cell(new_head) == self.rotation_head(cell(head), nd, n as int));
        let cells = match self.get_ship_position(new_head, nd, n8) {
            Some(c) => c,
            None => return Err(ErrorKind::OutOfBounds),
        };
        proof {
            lemma_laid_out_line(cells@, cell(new_head), nd, n as int);
        }
        let ghost cs = cells@;
        let r = self.restage(cells);
        assert(self.spec_ships().last().cells() == cs);
        r
    }

    /// Returns whether every cell of `pos` lies on the grid.
    fn all_on_grid(&self, pos: &Vec<[u8; 2]>) -> (r: bool)
        ensures
            r == forall|j: int| 0 <= j < pos@.len() ==> #[trigger] self.in_bounds(cell(pos@[j])),
    {
        let mut j: usize = 0;
        while j < pos.len()
            invariant
                j <= pos@.len(),
                forall|k: int| 0 <= k < j ==> #[trigger] self.in_bounds(cell(pos@[k])),
            decreases pos@.len() - j,
        {
            if !self.valid_space(&pos[j]) {
                return false;
            }
            j = j + 1;
        }
        true
    }

    /// Moves the staged ship to `pos`, which must have as many cells as the ship, lie on the
    /// grid and form a straight line of adjacent cells.
    ///
    /// # Errors
    ///
    /// `InvalidLifecycle` when no ship is staged, `OutOfBounds` when a cell of `pos` is off
    /// the grid, `InvalidLine` when `pos` has another length or is not a straight line; the
    /// player is then unchanged.
    pub fn set_placement_ship(&mut self, pos: Vec<[u8; 2]>) -> (r: Result<(), ErrorKind>)
        requires
            old(self).wf(),
        ensures
            final(self).wf(),
            final(self).same_frame(*old(self)),
            final(self).spec_spaces() == old(self).spec_spaces(),
            r is Err ==> *final(self) == *old(self),
            !old(self).has_staged() ==> r == Err::<(), ErrorKind>(ErrorKind::InvalidLifecycle),
            old(self).has_staged() ==> {
                let on_grid = forall|j: int|
                    0 <= j < pos@.len() ==> #[trigger] old(self).in_bounds(cell(pos@[j]));
                let same_len = pos@.len() == old(self).spec_ships().last().cells().len();
                &&& r is Ok <==> same_len && on_grid && line_ok(pos@)
                &&& same_len && !on_grid ==> r == Err::<(), ErrorKind>(ErrorKind::OutOfBounds)
                &&& !(same_len && !on_grid) && r is Err ==> r == Err::<(), ErrorKind>(
                    ErrorKind::InvalidLine,
                )
                &&& r is Ok ==> old(self).restaged(*final(self), pos@)
            },
    {
        let len = self.ships.len();
        if len == 0 || !self.ships[len - 1].is_placement() {
            return Err(ErrorKind::InvalidLifecycle);
        }
        if pos.len() != self.ships[len - 1].len() {
            return Err(ErrorKind::InvalidLine);
        }
        if !self.all_on_grid(&pos) {
            return Err(ErrorKind::OutOfBounds);
        }
        self.restage(pos)
    }

    /// Returns the staged ship.
    ///
    /// # Errors
    ///
    /// `InvalidLifecycle` when no ship is staged.
    pub fn placement_ship(&self) -> (r: Result<&Ship, ErrorKind>)
        ensures
            r is Ok <==> self.has_staged(),
            r matches Ok(s) ==> *s == self.spec_ships().last(),
            r matches Err(e) ==> e == ErrorKind::InvalidLifecycle,
    {
        let len = self.ships.len();
        if len == 0 || !self.ships[len - 1].is_placement() {
            Err(ErrorKind::InvalidLifecycle)
        } else {
            Ok(&self.ships[len - 1])
        }
    }

    /// Moves the grid cursor one cell in `direction`.
    ///
    /// # Errors
    ///
    /// `OutOfBounds` when the cursor would leave the grid; it then stays.
    pub fn move_grid_cursor(&mut self, direction: Direction) -> (r: Result<(), ErrorKind>)
        requires
            old(self).wf(),
        ensures
            final(self).wf(),
            final(self).spec_spaces() == old(self).spec_spaces(),
            final(self).spec_ships() == old(self).spec_ships(),
            r is Ok <==> old(self).in_bounds(step(cell(old(self).cursor()), direction)),
            r is Ok ==> cell(final(self).cursor()) == step(cell(old(self).cursor()), direction),
            r matches Err(e) ==> e == ErrorKind::OutOfBounds && *final(self) == *old(self),
            final(self).width() == old(self).width() && final(self).height() == old(self).height()
                && final(self).ship_count() == old(self).ship_count() && final(self).spec_is_cpu()
                == old(self).spec_is_cpu(),
    {
        match self.movement(&self.grid_cursor, direction) {
            Some(next) => {
                let ghost before = *self;
                self.grid_cursor = next;
                proof {
                    Self::lemma_same_board(*self, before);
                }
                Ok(())
            },
            None => Err(ErrorKind::OutOfBounds),
        }
    }

    /// Puts the grid cursor on `pos`.
    ///
    /// # Errors
    ///
    /// `OutOfBounds` when `pos` is off the grid; the cursor then stays.
    pub fn set_grid_cursor(&mut self, pos: &[u8; 2]) -> (r: Result<(), ErrorKind>)
        requires
            old(self).wf(),
        ensures
            final(self).wf(),
            final(self).spec_spaces() == old(self).spec_spaces(),
            final(self).spec_ships() == old(self).spec_ships(),
            r is Ok <==> old(self).in_bounds(cell(*pos)),
            r is Ok ==> final(self).cursor() == *pos,
            r matches Err(e) ==> e == ErrorKind::OutOfBounds && *final(self) == *old(self),
            final(self).width() == old(self).width() && final(self).height() == old(self).height()
                && final(self).ship_count() == old(self).ship_count() && final(self).spec_is_cpu()
                == old(self).spec_is_cpu(),
    {
        if self.valid_space(pos) {
            let ghost before = *self;
            self.grid_cursor = *pos;
            proof {
                Self::lemma_same_board(*self, before);
            }
            Ok(())
        } else {
            Err(ErrorKind::OutOfBounds)
        }
    }

    /// Appends `(head, d)` to `out` when a ship of `length` cells may be committed there.
    fn consider(&self, head: [u8; 2], d: Direction, length: u8, out: &mut Vec<([u8; 2], Direction)>)
        requires
            self.wf(),
            length >= 1,
        ensures
            final(out)@ == if self.placeable(cell(head), d, length as int) {
                old(out)@.push((head, d))
            } else {
                old(out)@
            },
    {
        if let Some(pos) = self.get_ship_position(head, d, length) {
            let ghost cells = ship_cells(cell(head), d, length as int);
            proof {
                assert forall|j: int| 0 <= j < pos@.len() implies cell(pos@[j]) == cells[j] by {}
                if self.valid_position(pos@) {
                    assert forall|j: int| 0 <= j < cells.len() implies #[trigger] self.valid_cell(cells[j]) by {
                        assert(self.valid_cell(cell(pos@[j])));
                    }
                }
                if self.valid_position_cells(cells) {
                    assert forall|j: int| 0 <= j < pos@.len() implies #[trigger] self.valid_cell(cell(pos@[j])) by {
                        assert(self.valid_cell(cells[j]));
                    }
                }
            }
            if self.valid_ship_position(pos.as_slice()) {
                out.push((head, d));
            }
        }
    }

    /// Returns every head and direction at which a ship of `length` cells may be committed.
    pub fn placements(&self, length: u8) -> (r: Vec<([u8; 2], Direction)>)
        requires
            self.wf(),
            length >= 1,
        ensures
            forall|i: int| 0 <= i < r@.len() ==> #[trigger] self.placeable(cell(r@[i].0), r@[i].1, length as int),
            forall|head: Cell, d: Direction|
                #[trigger] self.placeable(head, d, length as int) ==> exists|i: int|
                    0 <= i < r@.len() && cell(#[trigger] r@[i].0) == head && r@[i].1 == d,
    {
        let mut out: Vec<([u8; 2], Direction)> = Vec::new();
        let w = self.grid_size[0];
        let h = self.grid_size[1];
        let mut x: u8 = 0;
        while x < w
            invariant
                self.wf(),
                length >= 1,
                w == self.width(),
                h == self.height(),
                x <= w,
                forall|i: int| 0 <= i < out@.len() ==> #[trigger] self.placeable(cell(out@[i].0), out@[i].1, length as int),
                forall|head: Cell, d: Direction|
                    #[trigger] self.placeable(head, d, length as int) && head.0 < x ==> exists|i: int|
                        0 <= i < out@.len() && cell(#[trigger] out@[i].0) == head && out@[i].1 == d,
            decreases w - x,
        {
            let mut y: u8 = 0;
            while y < h
                invariant
                    self.wf(),
                    length >= 1,
                    w == self.width(),
                    h == self.height(),
                    x < w,
                    y <= h,
                    forall|i: int| 0 <= i < out@.len() ==> #[trigger] self.placeable(cell(out@[i].0), out@[i].1, length as int),
                    forall|head: Cell, d: Direction|
                        #[trigger] self.placeable(head, d, length as int) && (head.0 < x || (head.0 == x
                            && head.1 < y)) ==> exists|i: int|
                            0 <= i < out@.len() && cell(#[trigger] out@[i].0) == head && out@[i].1 == d,
                decreases h - y,
            {
                let ghost before = out@;
                let head = [x, y];
                self.consider(head, Direction::North, length, &mut out);
                let ghost o1 = out@;
                self.consider(head, Direction::East, length, &mut out);
                let ghost o2 = out@;
                self.consider(head, Direction::South, length, &mut out);
                let ghost o3 = out@;
                self.consider(head, Direction::West, length, &mut out);
                proof {
                    assert forall|i: int| 0 <= i < before.len() implies out@[i] == before[i] by {}
                    assert forall|i: int| 0 <= i < o1.len() implies out@[i] == o1[i] by {}
                    assert forall|i: int| 0 <= i < o2.len() implies out@[i] == o2[i] by {}
                    assert forall|hd: Cell, d: Direction|
                        #[trigger] self.placeable(hd, d, length as int) && (hd.0 < x || (hd.0 == x
                            && hd.1 < y + 1)) implies exists|i: int|
                            0 <= i < out@.len() && cell(#[trigger] out@[i].0) == hd && out@[i].1 == d by {
                        if hd.0 < x || (hd.0 == x && hd.1 < y) {
                            let i = choose|i: int| 0 <= i < before.len() && cell(#[trigger] before[i].0) == hd && before[i].1 == d;
                            assert(out@[i] == before[i]);
                            assert(cell(out@[i].0) == hd);
                        } else {
                            assert(hd == cell(head));
                            match d {
                                Direction::North => {
                                    assert(out@[before.len() as int] == (head, d));
                                    assert(cell(out@[before.len() as int].0) == hd);
                                },
                                Direction::East => {
                                    assert(out@[o1.len() as int] == (head, d));
                                    assert(cell(out@[o1.len() as int].0) == hd);
                                },
                                Direction::South => {
                                    assert(out@[o2.len() as int] == (head, d));
                                    assert(cell(out@[o2.len() as int].0) == hd);
                                },
                                Direction::West => {
                                    assert(out@[o3.len() as int] == (head, d));
                                    assert(cell(out@[o3.len() as int].0) == hd);
                                },
                            }
                        }
                    }
                }
                y = y + 1;
            }
            proof {
                assert forall|hd: Cell, d: Direction|
                    #[trigger] self.placeable(hd, d, length as int) && hd.0 < x + 1 implies exists|i: int|
                        0 <= i < out@.len() && cell(#[trigger] out@[i].0) == hd && out@[i].1 == d by {
                    assert(self.in_bounds(hd));
                }
            }
            x = x + 1;
        }
        proof {
            assert forall|hd: Cell, d: Direction|
                #[trigger] self.placeable(hd, d, length as int) implies exists|i: int|
                    0 <= i < out@.len() && cell(#[trigger] out@[i].0) == hd && out@[i].1 == d by {
                assert(self.in_bounds(hd));
            }
        }
        out
    }

    /// Commits a ship of each of `lengths`, in order, each at a head and direction drawn
    /// uniformly from `rng` among those where it may be committed.
    ///
    /// # Errors
    ///
    /// `Overlap` when some ship has nowhere left to go; the ships placed before it stay.
    pub fn cpu_place_ships(&mut self, lengths: &[u8], rng: &mut StdRng) -> (r: Result<(), ErrorKind>)
        requires
            old(self).wf(),
            !old(self).has_staged(),
            old(self).spec_ships().len() + lengths@.len() <= old(self).ship_count(),
            forall|i: int| 0 <= i < lengths@.len() ==> #[trigger] lengths@[i] >= 1,
        ensures
            final(self).wf(),
            final(self).same_frame(*old(self)),
            final(self).spec_spaces() == old(self).spec_spaces(),
            ({
                let n = old(self).spec_ships().len();
                let placed = final(self).spec_ships().len() - n;
                &&& 0 <= placed <= lengths@.len()
                &&& final(self).spec_ships().subrange(0, n as int) == old(self).spec_ships()
                &&& forall|k: int|
                    n <= k < final(self).spec_ships().len() ==> #[trigger] final(self).spec_ships()[k].lifecycle()
                        == ShipState::Active && final(self).spec_ships()[k].cells().len() == lengths@[k - n]
                &&& r is Ok <==> placed == lengths@.len()
                &&& r is Err ==> r == Err::<(), ErrorKind>(ErrorKind::Overlap) && !final(self).can_place(
                    lengths@[placed] as int,
                )
            }),
    {
        let ghost n = self.spec_ships().len();
        let mut k: usize = 0;
        while k < lengths.len()
            invariant
                self.wf(),
                self.same_frame(*old(self)),
                self.spec_spaces() == old(self).spec_spaces(),
                !self.has_staged(),
                n == old(self).spec_ships().len(),
                k <= lengths@.len(),
                self.spec_ships().len() == n + k,
                n + lengths@.len() <= self.ship_count(),
                forall|i: int| 0 <= i < lengths@.len() ==> #[trigger] lengths@[i] >= 1,
                self.spec_ships().subrange(0, n as int) == old(self).spec_ships(),
                forall|j: int|
                    n <= j < self.spec_ships().len() ==> #[trigger] self.spec_ships()[j].lifecycle()
                        == ShipState::Active && self.spec_ships()[j].cells().len() == lengths@[j - n],
            decreases lengths@.len() - k,
        {
            let length = lengths[k];
            let options = self.placements(length);
            if options.len() == 0 {
                proof {
                    if self.can_place(length as int) {
                        let (hd, d) = choose|hd: Cell, d: Direction| #[trigger] self.placeable(hd, d, length as int);
                        assert(self.placeable(hd, d, length as int));
                    }
                }
                return Err(ErrorKind::Overlap);
            }
            let pick = random_below(rng, options.len());
            let (head, d) = options[pick];
            assert(self.placeable(cell(options@[pick as int].0), options@[pick as int].1, length as int));
            let ghost before = *self;
            let _ = self.add_ship(head, d, length, false);
            proof {
                assert(self.spec_ships().drop_last() == before.spec_ships());
                assert(self.spec_ships().subrange(0, n as int) =~= old(self).spec_ships()) by {
                    assert(self.spec_ships().subrange(0, n as int) =~= before.spec_ships().subrange(0, n as int));
                }
                assert forall|j: int|
                    n <= j < self.spec_ships().len() implies #[trigger] self.spec_ships()[j].lifecycle()
                        == ShipState::Active && self.spec_ships()[j].cells().len() == lengths@[j - n] by {
                    if j < self.spec_ships().len() - 1 {
                        assert(self.spec_ships()[j] == before.spec_ships()[j]);
                    }
                }
            }
            k = k + 1;
        }
        Ok(())
    }

    /// A walk over hit cells ends on an unchecked cell at one distance at most.
    proof fn lemma_run_end_unique(&self, p: Cell, d: Direction, k1: int, k2: int)
        requires
            1 <= k1,
            1 <= k2,
            self.run_ends_unchecked(p, d, k1),
            self.run_ends_unchecked(p, d, k2),
        ensures
            k1 == k2,
    {
        if k1 < k2 {
            assert(self.hit(steps(p, d, k1)));
        } else if k2 < k1 {
            assert(self.hit(steps(p, d, k2)));
        }
    }

    /// Returns every live hit, in storage order.
    fn live_hits(&self) -> (r: Vec<[u8; 2]>)
        requires
            self.wf(),
        ensures
            forall|i: int| 0 <= i < r@.len() ==> #[trigger] self.live_hit(cell(r@[i])),
            forall|c: Cell| #[trigger] self.live_hit(c) ==> listed(r@, c),
            r@.len() > 0 ==> forall|c: Cell| #[trigger] self.live_hit(c) ==> self.index_of(cell(r@[0]))
                <= self.index_of(c),
    {
        let mut out: Vec<[u8; 2]> = Vec::new();
        let mut i: usize = 0;
        while i < self.spaces.len()
            invariant
                self.wf(),
                i <= self.spaces@.len(),
                forall|k: int| 0 <= k < out@.len() ==> #[trigger] self.live_hit(cell(out@[k])),
                forall|k: int| 0 <= k < out@.len() ==> self.index_of(#[trigger] cell(out@[k])) < i,
                forall|c: Cell| #[trigger] self.live_hit(c) && self.index_of(c) < i ==> listed(out@, c),
                out@.len() > 0 ==> forall|c: Cell| #[trigger] self.live_hit(c) ==> self.index_of(
                    cell(out@[0]),
                ) <= self.index_of(c) || i <= self.index_of(c),
            decreases self.spaces@.len() - i,
        {
            let p = *self.spaces[i].pos();
            let ghost c = cell(p);
            proof {
                assert(self.spec_spaces()[i as int].at() == c);
                assert(self.space_at(c).at() == c);
            }
            if self.spaces[i].is_hit() {
                match self.ship(&p) {
                    Some(s) => {
                        if s.is_active() {
                            let ghost before = out@;
                            out.push(p);
                            proof {
                                assert(cell(out@[before.len() as int]) == c);
                                assert forall|c2: Cell| #[trigger] self.live_hit(c2) && self.index_of(c2) < i + 1
                                    implies listed(out@, c2) by {
                                    if self.index_of(c2) < i {
                                        let k = choose|k: int| 0 <= k < before.len() && #[trigger] cell(before[k]) == c2;
                                        assert(cell(out@[k]) == c2);
                                    } else {
                                        assert(self.space_at(c2).at() == c2);
                                    }
                                }
                                assert forall|k: int| 0 <= k < out@.len() implies #[trigger] self.live_hit(cell(out@[k])) by {
                                    if k < before.len() {
                                        assert(out@[k] == before[k]);
                                    }
                                }
                                assert forall|k: int| 0 <= k < out@.len() implies self.index_of(#[trigger] cell(out@[k])) < i + 1 by {
                                    if k < before.len() {
                                        assert(out@[k] == before[k]);
                                    }
                                }
                            }
                            i = i + 1;
                            continue;
                        }
                    },
                    None => {},
                }
            }
            proof {
                assert forall|c2: Cell| #[trigger] self.live_hit(c2) && self.index_of(c2) < i + 1
                    implies listed(out@, c2) by {
                    if self.index_of(c2) == i {
                        assert(self.space_at(c2).at() == c2);
                    }
                }
            }
            i = i + 1;
        }
        proof {
            assert forall|c: Cell| #[trigger] self.live_hit(c) implies self.index_of(c) < i by {
                assert(self.space_at(c).at() == c);
            }
        }
        out
    }

    /// Walks from `pos` along `direction` over hit cells and returns the cell it stops on
    /// when that cell is unchecked; with `check_for_line`, only when at least one hit cell was
    /// crossed.
    pub fn find_unchecked_space(&self, pos: &[u8; 2], direction: Direction, check_for_line: bool) -> (r:
        Option<[u8; 2]>)
        requires
            self.wf(),
            self.in_bounds(cell(*pos)),
        ensures
            r matches Some(q) ==> self.reaches(
                cell(*pos),
                direction,
                cell(q),
                if check_for_line {
                    2
                } else {
                    1
                },
            ),
            r is None ==> forall|k: int|
                (if check_for_line {
                    2int
                } else {
                    1int
                }) <= k ==> !#[trigger] self.run_ends_unchecked(cell(*pos), direction, k),
    {
        let ghost p = cell(*pos);
        let mut cur = self.movement(pos, direction);
        let mut k: u16 = 1;
        loop
            invariant
                self.wf(),
                p == cell(*pos),
                self.in_bounds(p),
                1 <= k <= 256,
                self.hit_run(p, direction, k as int),
                cur matches Some(q) ==> cell(q) == steps(p, direction, k as int) && self.in_bounds(cell(q)),
                cur is None ==> !self.in_bounds(steps(p, direction, k as int)),
            decreases 256 - k,
        {
            match cur {
                None => {
                    proof {
                        assert forall|k2: int| 1 <= k2 implies !#[trigger] self.run_ends_unchecked(p, direction, k2) by {
                            if k2 > k && self.hit_run(p, direction, k2) {
                                assert(self.hit(steps(p, direction, k as int)));
                            }
                            if k2 < k {
                                assert(self.hit(steps(p, direction, k2)));
                            }
                        }
                    }
                    return None;
                },
                Some(q) => {
                    let sp = self.space(&q);
                    if sp.is_hit() {
                        proof {
                            assert(k < 256) by {
                                assert(0 <= steps(p, direction, k as int).0 < 256);
                                assert(0 <= steps(p, direction, k as int).1 < 256);
                            }
                            assert(steps(p, direction, k as int + 1) == step(steps(p, direction, k as int), direction));
                            assert forall|j: int| 1 <= j < k + 1 implies #[trigger] self.hit(steps(p, direction, j)) by {
                                if j < k {
                                    assert(self.hit(steps(p, direction, j)));
                                }
                            }
                        }
                        cur = self.movement(&q, direction);
                        k = k + 1;
                    } else {
                        if sp.is_unchecked() {
                            proof {
                                assert(self.run_ends_unchecked(p, direction, k as int));
                                assert forall|k2: int| 1 <= k2 && #[trigger] self.run_ends_unchecked(p, direction, k2)
                                    implies k2 == k by {
                                    self.lemma_run_end_unique(p, direction, k as int, k2);
                                }
                            }
                            if check_for_line && k == 1 {
                                return None;
                            }
                            return Some(q);
                        }
                        proof {
                            assert forall|k2: int| 1 <= k2 implies !#[trigger] self.run_ends_unchecked(p, direction, k2) by {
                                if k2 > k && self.hit_run(p, direction, k2) {
                                    assert(self.hit(steps(p, direction, k as int)));
                                }
                                if k2 < k {
                                    assert(self.hit(steps(p, direction, k2)));
                                }
                            }
                        }
                        return None;
                    }
                },
            }
        }
    }

    /// Adds to `select` the continuation, along `d`, of the line of hits from `p`.
    fn add_line_target(&self, p: &[u8; 2], d: Direction, select: &mut Vec<[u8; 2]>)
        requires
            self.wf(),
            self.in_bounds(cell(*p)),
            distinct_cells(old(select)@),
        ensures
            distinct_cells(final(select)@),
            forall|x: Cell| #[trigger] listed(final(select)@, x) <==> listed(old(select)@, x)
                || self.line_target(cell(*p), d, x),
    {
        match self.find_unchecked_space(p, d, true) {
            Some(q) => {
                push_unique(select, q);
                proof {
                    assert forall|x: Cell| self.line_target(cell(*p), d, x) implies x == cell(q) by {
                        let k1 = choose|k: int| 2 <= k && #[trigger] self.run_ends_unchecked(cell(*p), d, k)
                            && steps(cell(*p), d, k) == x;
                        let k2 = choose|k: int| 2 <= k && #[trigger] self.run_ends_unchecked(cell(*p), d, k)
                            && steps(cell(*p), d, k) == cell(q);
                        self.lemma_run_end_unique(cell(*p), d, k1, k2);
                    }
                }
            },
            None => {
                proof {
                    assert forall|x: Cell| !self.line_target(cell(*p), d, x) by {
                        if self.line_target(cell(*p), d, x) {
                            let k1 = choose|k: int| 2 <= k && #[trigger] self.run_ends_unchecked(cell(*p), d, k)
                                && steps(cell(*p), d, k) == x;
                        }
                    }
                }
            },
        }
    }

    /// Adds to `select` the neighbour of the live hit `p` along `d`, when it is unchecked and
    /// no line of hits has a continuation.
    fn add_neighbour(&self, p: &[u8; 2], d: Direction, select: &mut Vec<[u8; 2]>)
        requires
            self.wf(),
            self.in_bounds(cell(*p)),
            self.live_hit(cell(*p)),
            !self.has_target(),
            distinct_cells(old(select)@),
        ensures
            distinct_cells(final(select)@),
            forall|x: Cell| #[trigger] listed(final(select)@, x) <==> listed(old(select)@, x) || (x
                == step(cell(*p), d) && self.unchecked(x)),
    {
        let ghost c = cell(*p);
        assert(steps(c, d, 1) == step(c, d));
        match self.find_unchecked_space(p, d, false) {
            Some(q) => {
                proof {
                    let k = choose|k: int| 1 <= k && #[trigger] self.run_ends_unchecked(c, d, k) && steps(c, d, k)
                        == cell(q);
                    if k >= 2 {
                        assert(self.line_target(c, d, cell(q)));
                        assert(self.is_target(cell(q)));
                    }
                }
                push_unique(select, q);
            },
            None => {
                assert(!self.run_ends_unchecked(c, d, 1));
            },
        }
    }

    /// Returns every unchecked cell, in storage order.
    fn unchecked_spaces(&self) -> (r: Vec<[u8; 2]>)
        requires
            self.wf(),
        ensures
            distinct_cells(r@),
            forall|x: Cell| #[trigger] listed(r@, x) <==> self.unchecked(x),
    {
        let mut out: Vec<[u8; 2]> = Vec::new();
        let mut i: usize = 0;
        while i < self.spaces.len()
            invariant
                self.wf(),
                i <= self.spaces@.len(),
                distinct_cells(out@),
                forall|k: int| 0 <= k < out@.len() ==> #[trigger] self.unchecked(cell(out@[k])),
                forall|k: int| 0 <= k < out@.len() ==> self.index_of(#[trigger] cell(out@[k])) < i,
                forall|c: Cell| #[trigger] self.unchecked(c) && self.index_of(c) < i ==> listed(out@, c),
            decreases self.spaces@.len() - i,
        {
            let p = *self.spaces[i].pos();
            let ghost c = cell(p);
            proof {
                assert(self.spec_spaces()[i as int].at() == c);
                assert(self.space_at(c).at() == c);
            }
            let ghost before = out@;
            if self.spaces[i].is_unchecked() {
                out.push(p);
                proof {
                    assert(cell(out@[before.len() as int]) == c);
                    assert forall|k: int| 0 <= k < out@.len() implies #[trigger] self.unchecked(cell(out@[k])) by {
                        if k < before.len() {
                            assert(out@[k] == before[k]);
                        }
                    }
                    assert forall|k: int| 0 <= k < out@.len() implies self.index_of(#[trigger] cell(out@[k])) < i + 1 by {
                        if k < before.len() {
                            assert(out@[k] == before[k]);
                        }
                    }
                    assert forall|k1: int, k2: int| 0 <= k1 < k2 < out@.len() implies #[trigger] cell(out@[k1]) != #[trigger] cell(out@[k2]) by {
                        if k2 < before.len() {
                            assert(out@[k1] == before[k1]);
                            assert(out@[k2] == before[k2]);
                        } else {
                            assert(out@[k1] == before[k1]);
                            assert(self.index_of(cell(before[k1])) < i);
                        }
                    }
                }
            }
            proof {
                assert forall|c2: Cell| #[trigger] self.unchecked(c2) && self.index_of(c2) < i + 1
                    implies listed(out@, c2) by {
                    if self.index_of(c2) < i {
                        let k = choose|k: int| 0 <= k < before.len() && #[trigger] cell(before[k]) == c2;
                        assert(cell(out@[k]) == c2);
                    } else {
                        assert(self.space_at(c2).at() == c2);
                        assert(cell(out@[before.len() as int]) == c2);
                    }
                }
            }
            i = i + 1;
        }
        proof {
            assert forall|x: Cell| #[trigger] listed(out@, x) implies self.unchecked(x) by {
                let k = choose|k: int| 0 <= k < out@.len() && #[trigger] cell(out@[k]) == x;
            }
            assert forall|x: Cell| self.unchecked(x) implies #[trigger] listed(out@, x) by {
                assert(self.space_at(x).at() == x);
            }
        }
        out
    }

    /// Returns the cells worth firing at next, each once: the unchecked cells that continue a
    /// line of live hits; failing those, the unchecked neighbours of the first live hit;
    /// failing those, every unchecked cell.
    pub fn suggested_checks(&self) -> (r: Vec<[u8; 2]>)
        requires
            self.wf(),
        ensures
            distinct_cells(r@),
            forall|q: Cell|
                #![trigger listed(r@, q)]
                #![trigger self.is_suggestion(q)]
                listed(r@, q) <==> self.is_suggestion(q),
            forall|i: int| 0 <= i < r@.len() ==> #[trigger] self.unchecked(cell(r@[i])),
            (exists|q: Cell| #[trigger] self.unchecked(q)) ==> r@.len() > 0,
    {
        let hits = self.live_hits();
        let mut select: Vec<[u8; 2]> = Vec::new();
        let mut a: usize = 0;
        while a < hits.len()
            invariant
                self.wf(),
                a <= hits@.len(),
                forall|i: int| 0 <= i < hits@.len() ==> #[trigger] self.live_hit(cell(hits@[i])),
                distinct_cells(select@),
                forall|x: Cell| #[trigger] listed(select@, x) <==> exists|j: int, d: Direction|
                    0 <= j < a && #[trigger] self.line_target(cell(hits@[j]), d, x),
            decreases hits@.len() - a,
        {
            let p = hits[a];
            assert(self.live_hit(cell(hits@[a as int])));
            let ghost s0 = select@;
            self.add_line_target(&p, Direction::North, &mut select);
            self.add_line_target(&p, Direction::East, &mut select);
            self.add_line_target(&p, Direction::South, &mut select);
            self.add_line_target(&p, Direction::West, &mut select);
            proof {
                assert forall|x: Cell| #[trigger] listed(select@, x) <==> exists|j: int, d: Direction|
                    0 <= j < a + 1 && #[trigger] self.line_target(cell(hits@[j]), d, x) by {
                    if listed(select@, x) && !listed(s0, x) {
                        if self.line_target(cell(p), Direction::North, x) {
                            assert(self.line_target(cell(hits@[a as int]), Direction::North, x));
                        } else if self.line_target(cell(p), Direction::East, x) {
                            assert(self.line_target(cell(hits@[a as int]), Direction::East, x));
                        } else if self.line_target(cell(p), Direction::South, x) {
                            assert(self.line_target(cell(hits@[a as int]), Direction::South, x));
                        } else {
                            assert(self.line_target(cell(hits@[a as int]), Direction::West, x));
                        }
                    }
                    if exists|j: int, d: Direction| 0 <= j < a + 1 && #[trigger] self.line_target(cell(hits@[j]), d, x) {
                        let (j, d) = choose|j: int, d: Direction| 0 <= j < a + 1 && #[trigger] self.line_target(cell(hits@[j]), d, x);
                        if j == a {
                            match d {
                                Direction::North => {},
                                Direction::East => {},
                                Direction::South => {},
                                Direction::West => {},
                            }
                        } else {
                            assert(listed(s0, x));
                        }
                    }
                }
            }
            a = a + 1;
        }
        proof {
            assert forall|x: Cell| #[trigger] listed(select@, x) <==> self.is_target(x) by {
                if listed(select@, x) {
                    let (j, d) = choose|j: int, d: Direction| 0 <= j < hits@.len() && #[trigger] self.line_target(cell(hits@[j]), d, x);
                    assert(self.live_hit(cell(hits@[j])));
                }
                if self.is_target(x) {
                    let (p, d) = choose|p: Cell, d: Direction| self.live_hit(p) && #[trigger] self.line_target(p, d, x);
                    assert(listed(hits@, p));
                    let j = choose|j: int| 0 <= j < hits@.len() && #[trigger] cell(hits@[j]) == p;
                    assert(self.line_target(cell(hits@[j]), d, x));
                }
            }
            if select@.len() > 0 {
                assert(listed(select@, cell(select@[0])));
            }
            if self.has_target() {
                let x = choose|x: Cell| #[trigger] self.is_target(x);
                assert(listed(select@, x));
            }
            if self.has_live_hit() {
                let c = choose|c: Cell| #[trigger] self.live_hit(c);
                assert(listed(hits@, c));
            }
        }
        if hits.len() > 0 && select.len() == 0 {
            let h0 = hits[0];
            let ghost c0 = cell(h0);
            proof {
                assert(self.live_hit(c0));
                let f = self.first_live_hit();
                assert(self.live_hit(f) && forall|c2: Cell| #[trigger] self.live_hit(c2) ==> self.index_of(f) <= self.index_of(c2));
                assert(self.index_of(f) == self.index_of(c0));
                assert(self.space_at(f).at() == f);
                assert(self.space_at(c0).at() == c0);
            }
            self.add_neighbour(&h0, Direction::North, &mut select);
            self.add_neighbour(&h0, Direction::East, &mut select);
            self.add_neighbour(&h0, Direction::South, &mut select);
            self.add_neighbour(&h0, Direction::West, &mut select);
            proof {
                assert forall|x: Cell| #[trigger] listed(select@, x) <==> self.is_widen(x) by {}
                if select@.len() > 0 {
                    assert(listed(select@, cell(select@[0])));
                }
                if self.has_widen() {
                    let x = choose|x: Cell| #[trigger] self.is_widen(x);
                    assert(listed(select@, x));
                }
            }
        }
        if select.len() == 0 {
            select = self.unchecked_spaces();
        }
        proof {
            assert forall|i: int| 0 <= i < select@.len() implies #[trigger] self.unchecked(cell(select@[i])) by {
                assert(listed(select@, cell(select@[i])));
                let x = cell(select@[i]);
                if self.has_target() {
                    let (p, d) = choose|p: Cell, d: Direction| self.live_hit(p) && #[trigger] self.line_target(p, d, x);
                    let k = choose|k: int| 2 <= k && #[trigger] self.run_ends_unchecked(p, d, k) && steps(p, d, k) == x;
                }
            }
            if exists|q: Cell| #[trigger] self.unchecked(q) {
                let q = choose|q: Cell| #[trigger] self.unchecked(q);
                if !self.has_target() && !(self.has_live_hit() && self.has_widen()) {
                    assert(listed(select@, q));
                }
            }
        }
        select
    }

    /// Returns the staged ship for changing in place. The caller takes over keeping it a
    /// straight line of its length; `set_placement_ship` checks that instead.
    ///
    /// # Errors
    ///
    /// `InvalidLifecycle` when no ship is staged.
    pub fn placement_ship_mut(&mut self) -> (r: Result<&mut Ship, ErrorKind>)
        ensures
            r is Ok <==> old(self).has_staged(),
            r matches Err(e) ==> e == ErrorKind::InvalidLifecycle && *final(self) == *old(self),
            r matches Ok(s) ==> {
                &&& *s == old(self).spec_ships().last()
                &&& final(self).spec_ships() == old(self).spec_ships().update(
                    old(self).spec_ships().len() - 1,
                    *final(s),
                )
                &&& final(self).same_frame(*old(self))
                &&& final(self).spec_spaces() == old(self).spec_spaces()
            },
    {
        let len = self.ships.len();
        if len == 0 || !self.ships[len - 1].is_placement() {
            Err(ErrorKind::InvalidLifecycle)
        } else {
            Ok(&mut self.ships[len - 1])
        }
    }

    /// A computer player's committed ships never share a cell and never touch orthogonally.
    pub proof fn lemma_cpu_ships_apart(&self, i1: int, i2: int, a: Cell, b: Cell)
        requires
            self.wf(),
            self.spec_is_cpu(),
            i1 != i2,
            self.ship_covers(i1, a),
            self.ship_covers(i2, b),
        ensures
            a != b,
            !adjacent(a, b),
    {
    }

    /// On an empty fleet, a ship no longer than the grid is wide always has a place: along
    /// the first row from the top-left corner.
    pub proof fn lemma_empty_fleet_can_place(&self, length: int)
        requires
            self.wf(),
            self.spec_ships().len() == 0,
            1 <= length <= self.width(),
            self.height() >= 1,
        ensures
            self.can_place(length),
    {
        let cells = ship_cells((0, 0), Direction::West, length);
        assert forall|c: Cell| !#[trigger] self.occupied(c) by {
            if self.occupied(c) {
                assert(self.ship_covers(self.occupant(c), c));
            }
        }
        assert forall|j: int| 0 <= j < cells.len() implies #[trigger] self.valid_cell(cells[j]) by {
            assert(!self.occupied(step(cells[j], Direction::North)));
            assert(!self.occupied(step(cells[j], Direction::East)));
            assert(!self.occupied(step(cells[j], Direction::South)));
            assert(!self.occupied(step(cells[j], Direction::West)));
        }
        assert(self.placeable((0, 0), Direction::West, length));
    }
}

} // verus!
