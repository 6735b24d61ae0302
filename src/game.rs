use crate::direction::{cell, Cell, Direction};
use crate::error::ErrorKind;
use crate::player::{listed, Player};
use crate::rng::random_below;
use crate::settings::GameSettings;
use crate::ship::{is_line, ShipState};
use crate::space::SpaceState;
use rand::rngs::StdRng;
use vstd::prelude::*;

verus! {

/// The phase of a match.
#[derive(Clone, Copy, Debug, PartialEq, Eq, Structural)]
pub enum GameState {
    /// The players are positioning their ships.
    Placement,
    /// The players take turns firing at each other's grid.
    Active,
    /// One player's fleet has been sunk; the player whose turn it is won.
    Complete,
}

/// A match between a human player (index 0) and a computer player (index 1).
pub struct Game {
    settings: GameSettings,
    players: Vec<Player>,
    state: GameState,
    turn: u8,
    rng: StdRng,
}

impl Game {
    pub closed spec fn phase(&self) -> GameState {
        self.state
    }

    /// The index of the player whose turn it is.
    pub closed spec fn spec_turn(&self) -> int {
        self.turn as int
    }

    /// The index of the other player.
    pub open spec fn spec_not_turn(&self) -> int {
        1 - self.spec_turn()
    }

    pub closed spec fn player(&self, i: int) -> Player {
        self.players@[i]
    }

    /// The match holds exactly two players.
    pub closed spec fn two_players(&self) -> bool {
        self.players@.len() == 2
    }

    pub closed spec fn spec_settings(&self) -> GameSettings {
        self.settings
    }

    /// Whether player `i` has committed every configured ship.
    pub open spec fn placed_all(&self, i: int) -> bool {
        self.player(i).spec_ships().len() == self.spec_settings().ships@.len() && !self.player(
            i,
        ).has_staged()
    }

    /// Every ship of both players has its configured length.
    pub open spec fn lengths_wf(&self) -> bool {
        forall|i: int, k: int|
            0 <= i < 2 && 0 <= k < self.player(i).spec_ships().len() ==> (#[trigger] self.player(
                i,
            ).spec_ships()[k]).cells().len() == self.spec_settings().ships@[k]
    }

    /// A committed ship is sunk exactly when all its cells are hit.
    pub open spec fn sunk_iff_hit(&self) -> bool {
        forall|i: int, k: int|
            0 <= i < 2 && #[trigger] self.player(i).committed(k) ==> (self.player(i).spec_ships()[k].lifecycle()
                == ShipState::Sunk <==> self.player(i).all_hit(k))
    }

    /// What holds while ships are being positioned: nothing has been fired at, and every
    /// player has a ship that is not sunk.
    pub open spec fn placement_wf(&self) -> bool {
        forall|i: int|
            0 <= i < 2 ==> {
                &&& self.player(i).spec_ships().len() >= 1
                &&& forall|k: int|
                    0 <= k < self.player(i).spec_ships().len() ==> #[trigger] self.player(
                        i,
                    ).spec_ships()[k].lifecycle() != ShipState::Sunk
                &&& forall|c: Cell|
                    self.player(i).in_bounds(c) ==> #[trigger] self.player(i).state_at(c)
                        == SpaceState::Unchecked
            }
    }

    /// Everything the invariant says that does not depend on whose turn it is.
    pub open spec fn board_wf(&self) -> bool {
        &&& self.spec_settings().valid()
        &&& self.two_players()
        &&& forall|i: int|
            0 <= i < 2 ==> {
                &&& (#[trigger] self.player(i)).wf()
                &&& self.player(i).width() == self.spec_settings().spaces[0]
                &&& self.player(i).height() == self.spec_settings().spaces[1]
                &&& self.player(i).ship_count() == self.spec_settings().ships@.len()
                &&& self.player(i).spec_is_cpu() == (i == 1)
            }
        &&& self.lengths_wf()
        &&& self.sunk_iff_hit()
        &&& self.phase() == GameState::Placement ==> self.placement_wf()
        &&& self.phase() != GameState::Placement ==> self.placed_all(0) && self.placed_all(1)
        &&& self.phase() == GameState::Active ==> !self.player(0).all_sunk() && !self.player(
            1,
        ).all_sunk()
    }

    pub open spec fn wf(&self) -> bool {
        &&& self.board_wf()
        &&& 0 <= self.spec_turn() < 2
        &&& self.phase() == GameState::Complete ==> self.player(self.spec_not_turn()).all_sunk()
            && !self.player(self.spec_turn()).all_sunk()
    }

    /// The turn-independent invariant depends only on the settings, the players and the phase.
    proof fn lemma_board_wf(a: Game, b: Game)
        requires
            b.board_wf(),
            a.two_players(),
            a.spec_settings() == b.spec_settings(),
            a.player(0) == b.player(0),
            a.player(1) == b.player(1),
            a.phase() == b.phase(),
        ensures
            a.board_wf(),
    {
        assert forall|i: int| 0 <= i < 2 implies a.player(i) == b.player(i) by {
            if i == 0 {
            } else {
            }
        }
        assert forall|i: int| 0 <= i < 2 implies {
            &&& (#[trigger] a.player(i)).wf()
            &&& a.player(i).width() == a.spec_settings().spaces[0]
            &&& a.player(i).height() == a.spec_settings().spaces[1]
            &&& a.player(i).ship_count() == a.spec_settings().ships@.len()
            &&& a.player(i).spec_is_cpu() == (i == 1)
        } by {
            assert(b.player(i).wf());
        }
        assert forall|i: int, k: int|
            0 <= i < 2 && 0 <= k < a.player(i).spec_ships().len() implies (#[trigger] a.player(
                i,
            ).spec_ships()[k]).cells().len() == a.spec_settings().ships@[k] by {
            assert(b.player(i).spec_ships()[k].cells().len() == b.spec_settings().ships@[k]);
        }
        assert forall|i: int, k: int|
            0 <= i < 2 && #[trigger] a.player(i).committed(k) implies (a.player(i).spec_ships()[k].lifecycle()
                == ShipState::Sunk <==> a.player(i).all_hit(k)) by {
            assert(b.player(i).committed(k));
        }
        if a.phase() == GameState::Placement {
            assert forall|i: int| 0 <= i < 2 implies {
                &&& a.player(i).spec_ships().len() >= 1
                &&& forall|k: int|
                    0 <= k < a.player(i).spec_ships().len() ==> #[trigger] a.player(
                        i,
                    ).spec_ships()[k].lifecycle() != ShipState::Sunk
                &&& forall|c: Cell|
                    a.player(i).in_bounds(c) ==> #[trigger] a.player(i).state_at(c)
                        == SpaceState::Unchecked
            } by {
                assert(a.player(i) == b.player(i));
            }
        }
    }

    /// During placement, replacing player `t` by a well-formed player with the same grid and
    /// frame, ships of the configured lengths and none sunk keeps the invariant.
    proof fn lemma_placement_step(a: Game, b: Game, t: int)
        requires
            b.wf(),
            b.phase() == GameState::Placement,
            a.phase() == GameState::Placement,
            a.two_players(),
            a.spec_settings() == b.spec_settings(),
            a.spec_turn() == b.spec_turn(),
            0 <= t < 2,
            a.player(1 - t) == b.player(1 - t),
            a.player(t).wf(),
            a.player(t).width() == b.player(t).width(),
            a.player(t).height() == b.player(t).height(),
            a.player(t).ship_count() == b.player(t).ship_count(),
            a.player(t).spec_is_cpu() == b.player(t).spec_is_cpu(),
            a.player(t).spec_spaces() == b.player(t).spec_spaces(),
            a.player(t).spec_ships().len() >= 1,
            forall|k: int|
                0 <= k < a.player(t).spec_ships().len() ==> #[trigger] a.player(t).spec_ships()[k].lifecycle()
                    != ShipState::Sunk,
            forall|k: int|
                0 <= k < a.player(t).spec_ships().len() ==> (#[trigger] a.player(t).spec_ships()[k]).cells().len()
                    == a.spec_settings().ships@[k],
        ensures
            a.wf(),
    {
        let pa = a.player(t);
        let pb = b.player(t);
        assert forall|c: Cell| pa.in_bounds(c) implies #[trigger] pa.state_at(c) == SpaceState::Unchecked by {
            assert(pb.state_at(c) == SpaceState::Unchecked);
        }
        assert forall|i: int| 0 <= i < 2 implies {
            &&& (#[trigger] a.player(i)).wf()
            &&& a.player(i).width() == a.spec_settings().spaces[0]
            &&& a.player(i).height() == a.spec_settings().spaces[1]
            &&& a.player(i).ship_count() == a.spec_settings().ships@.len()
            &&& a.player(i).spec_is_cpu() == (i == 1)
        } by {
            assert(b.player(i).wf());
        }
        assert forall|i: int, k: int|
            0 <= i < 2 && 0 <= k < a.player(i).spec_ships().len() implies (#[trigger] a.player(
                i,
            ).spec_ships()[k]).cells().len() == a.spec_settings().ships@[k] by {
            if i != t {
                assert(b.player(i).spec_ships()[k].cells().len() == b.spec_settings().ships@[k]);
            }
        }
        assert forall|i: int, k: int|
            0 <= i < 2 && #[trigger] a.player(i).committed(k) implies (a.player(i).spec_ships()[k].lifecycle()
                == ShipState::Sunk <==> a.player(i).all_hit(k)) by {
            if i != t {
                assert(b.player(i).committed(k));
            } else {
                let s = pa.spec_ships()[k];
                assert(s.wf());
                assert(pa.ship_covers(k, cell(s.cells()[0])));
                assert(!pa.hit(cell(s.cells()[0])));
            }
        }
        assert forall|i: int| 0 <= i < 2 implies {
            &&& a.player(i).spec_ships().len() >= 1
            &&& forall|k: int|
                0 <= k < a.player(i).spec_ships().len() ==> #[trigger] a.player(
                    i,
                ).spec_ships()[k].lifecycle() != ShipState::Sunk
            &&& forall|c: Cell|
                a.player(i).in_bounds(c) ==> #[trigger] a.player(i).state_at(c)
                    == SpaceState::Unchecked
        } by {
            if i != t {
                assert(a.player(i) == b.player(i));
            }
        }
        assert(a.placement_wf());
    }

    /// After player `t` moved its staged ship (keeping its length) or left everything as it
    /// was, the invariant still holds.
    proof fn lemma_restage_step(&self, before: Game, t: int, unchanged: bool)
        requires
            before.wf(),
            before.phase() == GameState::Placement,
            t == before.spec_turn(),
            self.spec_settings() == before.spec_settings(),
            self.phase() == before.phase(),
            self.spec_turn() == before.spec_turn(),
            self.two_players(),
            self.player(1 - t) == before.player(1 - t),
            self.player(t).wf(),
            self.player(t).same_frame(before.player(t)),
            self.player(t).spec_spaces() == before.player(t).spec_spaces(),
            unchanged ==> self.player(t) == before.player(t),
            !unchanged ==> before.player(t).has_staged() && before.player(t).restaged(
                self.player(t),
                self.player(t).spec_ships().last().cells(),
            ) && self.player(t).spec_ships().last().cells().len() == before.player(
                t,
            ).spec_ships().last().cells().len(),
        ensures
            self.wf(),
            self.keeps_history(before),
            unchanged ==> self.same_play(before),
    {
        let p = before.player(t);
        let q = self.player(t);
        let m = p.spec_ships().len();
        assert forall|k: int| 0 <= k < q.spec_ships().len() implies #[trigger] q.spec_ships()[k].lifecycle()
            != ShipState::Sunk && q.spec_ships()[k].cells().len() == self.spec_settings().ships@[k] by {
            assert(p.spec_ships()[k].lifecycle() != ShipState::Sunk);
            assert(p.spec_ships()[k].cells().len() == before.spec_settings().ships@[k]);
            if !unchanged && k == m - 1 {
                assert(q.spec_ships()[k] == q.spec_ships().last());
            } else if !unchanged {
                assert(q.spec_ships()[k] == p.spec_ships()[k]);
            }
        }
        assert forall|k: int| 0 <= k < q.spec_ships().len() implies (#[trigger] q.spec_ships()[k]).cells().len()
            == self.spec_settings().ships@[k] by {
            assert(q.spec_ships()[k].lifecycle() != ShipState::Sunk);
        }
        Self::lemma_placement_step(*self, before, t);
        assert forall|c: Cell|
            #[trigger] p.state_at(c) != SpaceState::Unchecked && p.in_bounds(c) implies q.state_at(c)
                == p.state_at(c) by {}
        if t == 0 {
            assert(self.player(1) == before.player(1));
        } else {
            assert(self.player(0) == before.player(0));
        }
    }

    /// Ship `k` is all hit in `a` exactly when it is in `b`, if its cells and their hits agree.
    proof fn lemma_all_hit_same(a: Player, b: Player, k: int)
        requires
            0 <= k < a.spec_ships().len(),
            0 <= k < b.spec_ships().len(),
            a.spec_ships()[k].cells() == b.spec_ships()[k].cells(),
            forall|j: int|
                0 <= j < a.spec_ships()[k].cells().len() ==> #[trigger] a.hit(cell(a.spec_ships()[k].cells()[j]))
                    == b.hit(cell(b.spec_ships()[k].cells()[j])),
        ensures
            a.all_hit(k) == b.all_hit(k),
    {
        if a.all_hit(k) {
            assert forall|j: int| 0 <= j < b.spec_ships()[k].cells().len() implies #[trigger] b.hit(
                cell(b.spec_ships()[k].cells()[j]),
            ) by {
                assert(a.hit(cell(a.spec_ships()[k].cells()[j])));
            }
        }
        if b.all_hit(k) {
            assert forall|j: int| 0 <= j < a.spec_ships()[k].cells().len() implies #[trigger] a.hit(
                cell(a.spec_ships()[k].cells()[j]),
            ) by {
                assert(b.hit(cell(b.spec_ships()[k].cells()[j])));
                assert(a.hit(cell(a.spec_ships()[k].cells()[j])) == b.hit(cell(b.spec_ships()[k].cells()[j])));
            }
        }
    }

    /// Both players' checked cells stay as they were in `earlier`.
    pub open spec fn keeps_history(&self, earlier: Game) -> bool {
        self.player(0).keeps_history(earlier.player(0)) && self.player(1).keeps_history(
            earlier.player(1),
        )
    }

    /// `other` is the same match as this one; only the random generator may differ.
    pub open spec fn same_play(&self, other: Game) -> bool {
        &&& self.spec_settings() == other.spec_settings()
        &&& self.player(0) == other.player(0)
        &&& self.player(1) == other.player(1)
        &&& self.phase() == other.phase()
        &&& self.spec_turn() == other.spec_turn()
    }

    /// Starts a match with `settings`, drawing the computer's choices from `rng`: the human
    /// player (index 0) gets its first ship staged at the top-left corner, and the computer
    /// (index 1) places its whole fleet at random.
    ///
    /// # Errors
    ///
    /// `OutOfBounds` when the settings are not valid (see `GameSettings::valid`), `Overlap`
    /// when the computer's fleet does not fit on the grid.
    pub fn new(settings: GameSettings, rng: StdRng) -> (r: Result<Game, ErrorKind>)
        ensures
            !settings.valid() ==> r == Err::<Game, ErrorKind>(ErrorKind::OutOfBounds),
            settings.valid() ==> r is Ok || r == Err::<Game, ErrorKind>(ErrorKind::Overlap),
            settings.valid() && settings.ships@.len() == 1 ==> r is Ok,
            r matches Ok(g) ==> {
                &&& g.wf()
                &&& g.spec_settings() == settings
                &&& g.phase() == GameState::Placement
                &&& g.spec_turn() == 0
                &&& g.player(0).spec_ships().len() == 1
                &&& g.player(0).has_staged()
                &&& Player::laid_out(
                    g.player(0).spec_ships()[0].cells(),
                    (0, 0),
                    Direction::West,
                    settings.ships@[0] as int,
                )
                &&& g.placed_all(1)
                &&& forall|k: int|
                    0 <= k < g.player(1).spec_ships().len() ==> #[trigger] g.player(1).spec_ships()[k].lifecycle()
                        == ShipState::Active
            },
    {
        if !settings.is_valid() {
            return Err(ErrorKind::OutOfBounds);
        }
        let mut rng = rng;
        let grid = [settings.spaces[0], settings.spaces[1]];
        let n = settings.ships.len();
        let mut human = Player::new(grid, n, false);
        let ghost human0 = human;
        let _ = human.add_placement_ship(settings.ships[0]);
        proof {
            assert(1 <= settings.ships@[0] <= settings.spaces[0]);
            assert(human.spec_ships().len() == 1);
        }
        let mut cpu = Player::new(grid, n, true);
        let ghost fresh = cpu;
        if cpu.cpu_place_ships(settings.ships.as_slice(), &mut rng).is_err() {
            proof {
                if settings.ships@.len() == 1 {
                    assert(cpu.spec_ships().len() == 0);
                    assert(1 <= settings.ships@[0] <= settings.spaces[0]);
                    cpu.lemma_empty_fleet_can_place(settings.ships@[0] as int);
                }
            }
            return Err(ErrorKind::Overlap);
        }
        let ghost h = human;
        let ghost c = cpu;
        let mut players: Vec<Player> = Vec::new();
        players.push(human);
        players.push(cpu);
        let g = Game { settings, players, state: GameState::Placement, turn: 0, rng };
        proof {
            assert(g.player(0) == h);
            assert(g.player(1) == c);
            assert(h.spec_ships()[0] == h.spec_ships().last());
            assert forall|x: Cell| h.in_bounds(x) implies #[trigger] h.state_at(x) == SpaceState::Unchecked by {
                assert(human0.state_at(x) == SpaceState::Unchecked);
            }
            assert forall|x: Cell| c.in_bounds(x) implies #[trigger] c.state_at(x) == SpaceState::Unchecked by {
                assert(fresh.state_at(x) == SpaceState::Unchecked);
            }
            assert(c.spec_ships().subrange(0, 0) =~= fresh.spec_ships());
            assert forall|k: int| 0 <= k < c.spec_ships().len() implies (#[trigger] c.spec_ships()[k]).lifecycle()
                == ShipState::Active && c.spec_ships()[k].cells().len() == g.spec_settings().ships@[k] by {}
            assert(!c.has_staged());
            assert forall|i: int, k: int|
                0 <= i < 2 && 0 <= k < g.player(i).spec_ships().len() implies (#[trigger] g.player(
                    i,
                ).spec_ships()[k]).cells().len() == g.spec_settings().ships@[k] by {
                if i == 0 {
                    assert(k == 0);
                }
            }
            assert forall|i: int, k: int|
                0 <= i < 2 && #[trigger] g.player(i).committed(k) implies (g.player(i).spec_ships()[k].lifecycle()
                    == ShipState::Sunk <==> g.player(i).all_hit(k)) by {
                let p = g.player(i);
                let s = p.spec_ships()[k];
                assert(s.wf());
                assert(p.ship_covers(k, cell(s.cells()[0])));
                assert(!p.hit(cell(s.cells()[0])));
            }
            assert(g.placement_wf());
        }
        Ok(g)
    }
    /// Returns the match's settings.
    pub fn settings(&self) -> (r: &GameSettings)
        ensures
            *r == self.spec_settings(),
    {
        &self.settings
    }

    /// Returns the player whose turn it is.
    pub fn active_player(&self) -> (r: &Player)
        requires
            self.wf(),
        ensures
            *r == self.player(self.spec_turn()),
    {
        &self.players[self.turn as usize]
    }

    /// Returns the player whose turn it is not.
    pub fn inactive_player(&self) -> (r: &Player)
        requires
            self.wf(),
        ensures
            *r == self.player(self.spec_not_turn()),
    {
        &self.players[self.not_turn()]
    }

    /// Returns the player whose turn it is, for changing in place (to move its grid cursor).
    pub fn active_player_mut(&mut self) -> (r: &mut Player)
        requires
            old(self).wf(),
        ensures
            *r == old(self).player(old(self).spec_turn()),
            final(self).player(old(self).spec_turn()) == *final(r),
            final(self).player(old(self).spec_not_turn()) == old(self).player(old(self).spec_not_turn()),
            final(self).spec_settings() == old(self).spec_settings(),
            final(self).phase() == old(self).phase(),
            final(self).spec_turn() == old(self).spec_turn(),
    {
        let t = self.turn as usize;
        &mut self.players[t]
    }

    /// Returns whether the players are positioning their ships.
    pub fn is_state_placement(&self) -> (r: bool)
        ensures
            r == (self.phase() == GameState::Placement),
    {
        self.state == GameState::Placement
    }

    /// Returns whether the players are firing at each other.
    pub fn is_state_active(&self) -> (r: bool)
        ensures
            r == (self.phase() == GameState::Active),
    {
        self.state == GameState::Active
    }

    /// Returns whether the match is over.
    pub fn is_state_complete(&self) -> (r: bool)
        ensures
            r == (self.phase() == GameState::Complete),
    {
        self.state == GameState::Complete
    }

    /// Returns the index of the player whose turn it is.
    pub fn turn(&self) -> (r: usize)
        ensures
            r == self.spec_turn(),
    {
        self.turn as usize
    }

    /// Returns the index of the player whose turn it is not.
    pub fn not_turn(&self) -> (r: usize)
        requires
            self.wf(),
        ensures
            r == self.spec_not_turn(),
    {
        1 - self.turn as usize
    }

    /// Hands the turn to the other player. Once the match is over the turn stays with the
    /// winner.
    pub fn switch_active_player(&mut self)
        requires
            old(self).wf(),
        ensures
            final(self).wf(),
            final(self).spec_settings() == old(self).spec_settings(),
            final(self).player(0) == old(self).player(0),
            final(self).player(1) == old(self).player(1),
            final(self).phase() == old(self).phase(),
            old(self).phase() != GameState::Complete ==> final(self).spec_turn() == old(self).spec_not_turn(),
            old(self).phase() == GameState::Complete ==> final(self).spec_turn() == old(self).spec_turn(),
    {
        let ghost before = *self;
        if self.state != GameState::Complete {
            self.turn = 1 - self.turn;
        }
        proof {
            Self::lemma_board_wf(*self, before);
        }
    }

    /// Returns whether the player whose turn it is has committed every configured ship.
    pub fn active_player_placed_all_ships(&self) -> (r: bool)
        requires
            self.wf(),
        ensures
            r == self.placed_all(self.spec_turn()),
    {
        let player = self.active_player();
        let ships = player.ships();
        let n = ships.len();
        n == self.settings.ships.len() && !ships[n - 1].is_placement()
    }

    /// Returns whether a human player is positioning ships.
    pub fn is_player_placing_ship(&self) -> (r: bool)
        requires
            self.wf(),
        ensures
            r == (self.phase() == GameState::Placement && !self.player(self.spec_turn()).spec_is_cpu()),
    {
        self.state == GameState::Placement && !self.active_player().is_cpu()
    }

    /// Returns whether a human player is choosing a cell to fire at.
    pub fn is_player_selecting_space(&self) -> (r: bool)
        requires
            self.wf(),
        ensures
            r == (self.phase() == GameState::Active && !self.player(self.spec_turn()).spec_is_cpu()),
    {
        self.state == GameState::Active && !self.active_player().is_cpu()
    }

    /// Returns the index of the winner once the match is over.
    pub fn get_winner(&self) -> (r: Option<usize>)
        ensures
            self.phase() == GameState::Complete ==> r == Some(self.spec_turn() as usize),
            self.phase() != GameState::Complete ==> r is None,
    {
        match self.state {
            GameState::Complete => Some(self.turn as usize),
            _ => None,
        }
    }

    /// Starts the firing once both players have committed every ship; player 0 fires first.
    ///
    /// # Errors
    ///
    /// `InvalidLifecycle` when the match is not in placement or a player still has ships to
    /// place; the match is then unchanged.
    pub fn set_state_active(&mut self) -> (r: Result<(), ErrorKind>)
        requires
            old(self).wf(),
        ensures
            final(self).wf(),
            r is Ok <==> old(self).phase() == GameState::Placement && old(self).placed_all(0)
                && old(self).placed_all(1),
            r matches Err(e) ==> e == ErrorKind::InvalidLifecycle && *final(self) == *old(self),
            r is Ok ==> final(self).phase() == GameState::Active && final(self).spec_turn() == 0
                && final(self).player(0) == old(self).player(0) && final(self).player(1) == old(
                self,
            ).player(1) && final(self).spec_settings() == old(self).spec_settings(),
    {
        if self.state != GameState::Placement || !self.player_placed_all(0) || !self.player_placed_all(1) {
            return Err(ErrorKind::InvalidLifecycle);
        }
        self.state = GameState::Active;
        self.turn = 0;
        proof {
            assert forall|i: int| 0 <= i < 2 implies !self.player(i).all_sunk() by {
                assert(self.player(i).spec_ships()[0].lifecycle() != ShipState::Sunk);
            }
        }
        Ok(())
    }

    /// Returns whether player `i` has committed every configured ship.
    fn player_placed_all(&self, i: usize) -> (r: bool)
        requires
            self.wf(),
            i < 2,
        ensures
            r == self.placed_all(i as int),
    {
        let ships = self.players[i].ships();
        let n = ships.len();
        n == self.settings.ships.len() && !ships[n - 1].is_placement()
    }
    /// Commits the staged ship of the player whose turn it is and, while ships remain, stages
    /// the next one at the top-left corner.
    ///
    /// # Errors
    ///
    /// `InvalidLifecycle` outside placement or when that player has no staged ship, `Overlap`
    /// when the staged ship covers an invalid cell; the match is then unchanged.
    pub fn place_ship(&mut self) -> (r: Result<(), ErrorKind>)
        requires
            old(self).wf(),
        ensures
            final(self).wf(),
            final(self).keeps_history(*old(self)),
            final(self).spec_settings() == old(self).spec_settings(),
            final(self).phase() == old(self).phase(),
            final(self).spec_turn() == old(self).spec_turn(),
            final(self).player(old(self).spec_not_turn()) == old(self).player(old(self).spec_not_turn()),
            r is Err ==> final(self).same_play(*old(self)),
            old(self).phase() != GameState::Placement ==> r == Err::<(), ErrorKind>(
                ErrorKind::InvalidLifecycle,
            ),
            old(self).phase() == GameState::Placement ==> ({
                let p = old(self).player(old(self).spec_turn());
                let q = final(self).player(old(self).spec_turn());
                let m = p.spec_ships().len() as int;
                let n = old(self).spec_settings().ships@.len() as int;
                &&& !p.has_staged() ==> r == Err::<(), ErrorKind>(ErrorKind::InvalidLifecycle)
                &&& p.has_staged() && !p.valid_position(p.spec_ships().last().cells()) ==> r == Err::<
                    (),
                    ErrorKind,
                >(ErrorKind::Overlap)
                &&& p.has_staged() && p.valid_position(p.spec_ships().last().cells()) ==> r is Ok
                &&& r is Ok ==> {
                    &&& q.spec_ships().subrange(0, m - 1) == p.spec_ships().subrange(0, m - 1)
                    &&& p.spec_ships()[m - 1].relabelled(q.spec_ships()[m - 1], ShipState::Active)
                    &&& m < n ==> q.spec_ships().len() == m + 1 && q.spec_ships()[m].lifecycle()
                        == ShipState::Placement && Player::laid_out(
                        q.spec_ships()[m].cells(),
                        (0, 0),
                        Direction::West,
                        old(self).spec_settings().ships@[m] as int,
                    )
                    &&& m >= n ==> q.spec_ships().len() == m
                }
            }),
    {
        if self.state != GameState::Placement {
            return Err(ErrorKind::InvalidLifecycle);
        }
        let t = self.turn as usize;
        let ghost before = *self;
        let ghost p = self.player(t as int);
        let m = self.players[t].ships().len();
        match self.players[t].place_placement_ship() {
            Ok(()) => {},
            Err(e) => {
                proof {
                    assert(self.players@ =~= before.players@);
                    assert(self.player(0) == before.player(0));
                    assert(self.player(1) == before.player(1));
                    Self::lemma_board_wf(*self, before);
                }
                return Err(e);
            },
        }
        let ghost placed = self.player(t as int);
        if m < self.settings.ships.len() {
            let length = self.settings.ships[m];
            proof {
                assert(1 <= self.settings.ships@[m as int] <= self.settings.spaces[0]);
                assert(placed.spec_ships()[m - 1].lifecycle() == ShipState::Active);
            }
            let _ = self.players[t].add_placement_ship(length);
        }
        proof {
            let q = self.player(t as int);
            assert(self.players@ =~= before.players@.update(t as int, q));
            assert(self.player(1 - t as int) == before.player(1 - t as int));
            assert(q.spec_ships().subrange(0, m - 1) =~= p.spec_ships().subrange(0, m - 1)) by {
                assert forall|k: int| 0 <= k < m - 1 implies q.spec_ships()[k] == p.spec_ships()[k] by {
                    assert(placed.spec_ships()[k] == p.spec_ships()[k]);
                    if m < self.settings.ships@.len() {
                        assert(q.spec_ships().drop_last() == placed.spec_ships());
                        assert(q.spec_ships()[k] == q.spec_ships().drop_last()[k]);
                    }
                }
            }
            if m < self.settings.ships@.len() {
                assert(q.spec_ships().drop_last() == placed.spec_ships());
                assert(q.spec_ships()[m - 1] == q.spec_ships().drop_last()[m - 1]);
            }
            assert forall|k: int| 0 <= k < q.spec_ships().len() implies #[trigger] q.spec_ships()[k].lifecycle()
                != ShipState::Sunk && q.spec_ships()[k].cells().len() == self.spec_settings().ships@[k] by {
                if k < m - 1 {
                    assert(placed.spec_ships()[k] == p.spec_ships()[k]);
                    if m < self.settings.ships@.len() {
                        assert(q.spec_ships().drop_last() == placed.spec_ships());
                        assert(q.spec_ships()[k] == q.spec_ships().drop_last()[k]);
                    }
                    assert(q.spec_ships()[k] == p.spec_ships()[k]);
                    assert(p.spec_ships()[k].cells().len() == before.spec_settings().ships@[k]);
                } else if k == m - 1 {
                    assert(p.spec_ships()[k].cells().len() == before.spec_settings().ships@[k]);
                }
            }
            assert forall|k: int| 0 <= k < q.spec_ships().len() implies (#[trigger] q.spec_ships()[k]).cells().len()
                == self.spec_settings().ships@[k] by {
                assert(q.spec_ships()[k].lifecycle() != ShipState::Sunk);
            }
            Self::lemma_placement_step(*self, before, t as int);
            assert(self.keeps_history(before)) by {
                assert forall|c: Cell|
                    #[trigger] p.state_at(c) != SpaceState::Unchecked && p.in_bounds(c) implies q.state_at(c)
                        == p.state_at(c) by {}
            }
        }
        Ok(())
    }

    /// Moves the staged ship of the player whose turn it is one cell in `direction`.
    ///
    /// # Errors
    ///
    /// `InvalidLifecycle` outside placement; otherwise as `Player::move_placement_ship`. The
    /// match is then unchanged.
    pub fn move_ship(&mut self, direction: Direction) -> (r: Result<(), ErrorKind>)
        requires
            old(self).wf(),
        ensures
            final(self).wf(),
            final(self).keeps_history(*old(self)),
            final(self).spec_settings() == old(self).spec_settings(),
            final(self).phase() == old(self).phase(),
            final(self).spec_turn() == old(self).spec_turn(),
            final(self).player(old(self).spec_not_turn()) == old(self).player(old(self).spec_not_turn()),
            r is Err ==> final(self).same_play(*old(self)),
            old(self).phase() != GameState::Placement ==> r == Err::<(), ErrorKind>(
                ErrorKind::InvalidLifecycle,
            ),
            old(self).phase() == GameState::Placement ==> ({
                let p = old(self).player(old(self).spec_turn());
                let q = final(self).player(old(self).spec_turn());
                let s = p.spec_ships().last();
                let nh = crate::direction::step(cell(s.cells()[0]), direction);
                &&& !p.has_staged() ==> r == Err::<(), ErrorKind>(ErrorKind::InvalidLifecycle)
                &&& p.has_staged() ==> (r is Ok <==> p.fits(nh, s.spec_dir(), s.cells().len() as int))
                &&& p.has_staged() && r is Err ==> r == Err::<(), ErrorKind>(ErrorKind::OutOfBounds)
                &&& r is Ok ==> p.restaged(q, q.spec_ships().last().cells()) && Player::laid_out(
                    q.spec_ships().last().cells(),
                    nh,
                    s.spec_dir(),
                    s.cells().len() as int,
                )
            }),
    {
        if self.state != GameState::Placement {
            return Err(ErrorKind::InvalidLifecycle);
        }
        let t = self.turn as usize;
        let ghost before = *self;
        let r = self.players[t].move_placement_ship(direction);
        proof {
            assert(self.players@ =~= before.players@.update(t as int, self.player(t as int)));
            self.lemma_restage_step(before, t as int, r is Err);
        }
        r
    }

    /// Turns the staged ship of the player whose turn it is 90 degrees clockwise.
    ///
    /// # Errors
    ///
    /// `InvalidLifecycle` outside placement; otherwise as `Player::rotate_placement_ship`. The
    /// match is then unchanged.
    pub fn rotate_ship(&mut self) -> (r: Result<(), ErrorKind>)
        requires
            old(self).wf(),
        ensures
            final(self).wf(),
            final(self).keeps_history(*old(self)),
            final(self).spec_settings() == old(self).spec_settings(),
            final(self).phase() == old(self).phase(),
            final(self).spec_turn() == old(self).spec_turn(),
            final(self).player(old(self).spec_not_turn()) == old(self).player(old(self).spec_not_turn()),
            r is Err ==> final(self).same_play(*old(self)),
            old(self).phase() != GameState::Placement ==> r == Err::<(), ErrorKind>(
                ErrorKind::InvalidLifecycle,
            ),
            old(self).phase() == GameState::Placement ==> ({
                let p = old(self).player(old(self).spec_turn());
                let q = final(self).player(old(self).spec_turn());
                let s = p.spec_ships().last();
                let n = s.cells().len() as int;
                let nd = s.spec_dir().spec_rotated();
                let nh = p.rotation_head(cell(s.cells()[0]), nd, n);
                &&& !p.has_staged() ==> r == Err::<(), ErrorKind>(ErrorKind::InvalidLifecycle)
                &&& p.has_staged() ==> (r is Ok <==> p.can_rotate(cell(s.cells()[0]), nd, n))
                &&& p.has_staged() && r is Err ==> r == Err::<(), ErrorKind>(ErrorKind::OutOfBounds)
                &&& r is Ok ==> p.restaged(q, q.spec_ships().last().cells()) && Player::laid_out(
                    q.spec_ships().last().cells(),
                    nh,
                    nd,
                    n,
                )
            }),
    {
        if self.state != GameState::Placement {
            return Err(ErrorKind::InvalidLifecycle);
        }
        let t = self.turn as usize;
        let ghost before = *self;
        let r = self.players[t].rotate_placement_ship();
        proof {
            assert(self.players@ =~= before.players@.update(t as int, self.player(t as int)));
            self.lemma_restage_step(before, t as int, r is Err);
        }
        r
    }

    /// Moves the staged ship of the player whose turn it is to `pos`, which must have its
    /// length, lie on the grid and be a straight line.
    ///
    /// # Errors
    ///
    /// `InvalidLifecycle` outside placement; otherwise as `Player::set_placement_ship`. The
    /// match is then unchanged.
    pub fn set_placement_ship(&mut self, pos: Vec<[u8; 2]>) -> (r: Result<(), ErrorKind>)
        requires
            old(self).wf(),
        ensures
            final(self).wf(),
            final(self).keeps_history(*old(self)),
            final(self).spec_settings() == old(self).spec_settings(),
            final(self).phase() == old(self).phase(),
            final(self).spec_turn() == old(self).spec_turn(),
            final(self).player(old(self).spec_not_turn()) == old(self).player(old(self).spec_not_turn()),
            r is Err ==> final(self).same_play(*old(self)),
            old(self).phase() != GameState::Placement ==> r == Err::<(), ErrorKind>(
                ErrorKind::InvalidLifecycle,
            ),
            old(self).phase() == GameState::Placement ==> ({
                let p = old(self).player(old(self).spec_turn());
                let q = final(self).player(old(self).spec_turn());
                let on_grid = forall|j: int|
                    0 <= j < pos@.len() ==> #[trigger] p.in_bounds(cell(pos@[j]));
                let same_len = pos@.len() == p.spec_ships().last().cells().len();
                &&& !p.has_staged() ==> r == Err::<(), ErrorKind>(ErrorKind::InvalidLifecycle)
                &&& p.has_staged() ==> (r is Ok <==> same_len && on_grid && crate::ship::line_ok(
                    pos@,
                ))
                &&& p.has_staged() && same_len && !on_grid ==> r == Err::<(), ErrorKind>(
                    ErrorKind::OutOfBounds,
                )
                &&& p.has_staged() && !(same_len && !on_grid) && r is Err ==> r == Err::<
                    (),
                    ErrorKind,
                >(ErrorKind::InvalidLine)
                &&& r is Ok ==> p.restaged(q, pos@)
            }),
    {
        if self.state != GameState::Placement {
            return Err(ErrorKind::InvalidLifecycle);
        }
        let t = self.turn as usize;
        let ghost before = *self;
        let ghost len = self.player(t as int).spec_ships().last().cells().len();
        let r = self.players[t].set_placement_ship(pos);
        proof {
            assert(self.players@ =~= before.players@.update(t as int, self.player(t as int)));
            if r is Ok {
                assert(self.player(t as int).spec_ships().last().cells().len() == len);
            }
            self.lemma_restage_step(before, t as int, r is Err);
        }
        r
    }
    /// Fires at `pos` on the grid of the player whose turn it is not. A hit that sinks the
    /// last afloat ship of that player ends the match, won by the player whose turn it is.
    ///
    /// # Errors
    ///
    /// `InvalidLifecycle` outside the firing phase, `OutOfBounds` when `pos` is off the grid,
    /// `AlreadyChecked` when that cell was fired at before; the match is then unchanged.
    pub fn select_space(&mut self, pos: &[u8; 2]) -> (r: Result<(), ErrorKind>)
        requires
            old(self).wf(),
        ensures
            final(self).wf(),
            final(self).keeps_history(*old(self)),
            final(self).spec_settings() == old(self).spec_settings(),
            final(self).spec_turn() == old(self).spec_turn(),
            final(self).player(old(self).spec_turn()) == old(self).player(old(self).spec_turn()),
            r is Err ==> final(self).same_play(*old(self)),
            old(self).phase() != GameState::Active ==> r == Err::<(), ErrorKind>(
                ErrorKind::InvalidLifecycle,
            ),
            old(self).phase() == GameState::Active ==> ({
                let o = old(self).player(old(self).spec_not_turn());
                let o2 = final(self).player(old(self).spec_not_turn());
                let c = cell(*pos);
                &&& !o.in_bounds(c) ==> r == Err::<(), ErrorKind>(ErrorKind::OutOfBounds)
                &&& o.in_bounds(c) && !o.unchecked(c) ==> r == Err::<(), ErrorKind>(
                    ErrorKind::AlreadyChecked,
                )
                &&& o.unchecked(c) ==> r is Ok
                &&& r is Ok ==> {
                    &&& o2.state_at(c) == SpaceState::Checked(o.occupied(c))
                    &&& forall|x: Cell|
                        x != c && o.in_bounds(x) ==> #[trigger] o2.state_at(x) == o.state_at(x)
                    &&& o2.spec_ships().len() == o.spec_ships().len()
                    &&& forall|k: int|
                        0 <= k < o.spec_ships().len() ==> (#[trigger] o2.spec_ships()[k]).cells()
                            == o.spec_ships()[k].cells() && o2.spec_ships()[k].spec_dir()
                            == o.spec_ships()[k].spec_dir()
                    &&& forall|k: int|
                        0 <= k < o.spec_ships().len() && !o.ship_covers(k, c) ==> #[trigger] o2.spec_ships()[k]
                            == o.spec_ships()[k]
                    &&& final(self).phase() == GameState::Complete <==> o2.all_sunk()
                    &&& final(self).phase() != GameState::Complete ==> final(self).phase()
                        == GameState::Active
                }
            }),
    {
        if self.state != GameState::Active {
            return Err(ErrorKind::InvalidLifecycle);
        }
        let o = self.not_turn();
        let ghost before = *self;
        let ghost c = cell(*pos);
        let ghost was = self.player(o as int);
        match self.players[o].select_space(pos) {
            Ok(()) => {},
            Err(e) => {
                proof {
                    assert(self.players@ =~= before.players@);
                    assert(self.player(0) == before.player(0));
                    assert(self.player(1) == before.player(1));
                    Self::lemma_board_wf(*self, before);
                }
                return Err(e);
            },
        }
        let ghost fired = self.player(o as int);
        let sunk = self.players[o].sink_ship_if_all_hit(pos);
        let ghost now = self.player(o as int);
        let mut over = false;
        if let Ok(true) = sunk {
            over = self.players[o].all_ships_sunk();
        }
        if over {
            self.state = GameState::Complete;
        }
        proof {
            assert(self.players@ =~= before.players@.update(o as int, now));
            let t = before.spec_turn();
            assert(self.player(t) == before.player(t));
            // Cells other than `c` keep their state.
            assert forall|k: int, j: int|
                0 <= k < was.spec_ships().len() && !was.ship_covers(k, c) && was.committed(k) && 0 <= j
                    < was.spec_ships()[k].cells().len() implies #[trigger] now.hit(
                cell(was.spec_ships()[k].cells()[j]),
            ) == was.hit(cell(was.spec_ships()[k].cells()[j])) by {
                let x = cell(was.spec_ships()[k].cells()[j]);
                assert(was.ship_covers(k, x));
                assert(x != c);
                assert(was.in_bounds(x));
                assert(fired.state_at(x) == was.state_at(x));
            }
            let i = was.occupant(c);
            assert(fired.spec_ships() == was.spec_ships());
            assert(was.occupied(c) ==> fired.occupied(c) && fired.occupant(c) == i) by {
                if was.occupied(c) {
                    let i1 = fired.occupant(c);
                    assert(was.ship_covers(i, c));
                    assert(fired.occupied(c)) by {
                        assert(fired.ship_covers(i, c) == was.ship_covers(i, c));
                    }
                    assert(fired.ship_covers(i1, c));
                    assert(was.ship_covers(i1, c));
                }
            }
            assert(!was.occupied(c) ==> !fired.occupied(c)) by {
                if fired.occupied(c) {
                    let i1 = fired.occupant(c);
                    assert(fired.ship_covers(i1, c));
                    assert(was.ship_covers(i1, c));
                }
            }
            if was.occupied(c) {
                assert(was.ship_covers(i, c));
                let j0 = choose|j: int| 0 <= j < was.spec_ships()[i].cells().len() && #[trigger] cell(was.spec_ships()[i].cells()[j]) == c;
                assert(!was.hit(cell(was.spec_ships()[i].cells()[j0])));
                assert(!was.all_hit(i));
                assert(before.player(o as int).committed(i));
                assert(was.spec_ships()[i].lifecycle() != ShipState::Sunk);
                assert(was.spec_ships()[i].lifecycle() == ShipState::Active);
            }
            assert forall|k: int| 0 <= k < was.spec_ships().len() implies (#[trigger] now.spec_ships()[k]).cells()
                == was.spec_ships()[k].cells() && now.spec_ships()[k].lifecycle() != ShipState::Placement
                    == (was.spec_ships()[k].lifecycle() != ShipState::Placement) by {
                if was.occupied(c) && k == i {
                } else {
                    assert(now.spec_ships()[k] == was.spec_ships()[k]);
                }
            }
            assert forall|k: int|
                0 <= k < was.spec_ships().len() && !was.ship_covers(k, c) implies #[trigger] now.spec_ships()[k]
                    == was.spec_ships()[k] by {
                if was.occupied(c) && k == i {
                    assert(was.ship_covers(i, c));
                }
            }
            assert forall|ii: int, k: int|
                0 <= ii < 2 && #[trigger] self.player(ii).committed(k) implies (self.player(ii).spec_ships()[k].lifecycle()
                    == ShipState::Sunk <==> self.player(ii).all_hit(k)) by {
                if ii != o {
                    assert(self.player(ii) == before.player(ii));
                    assert(before.player(ii).committed(k));
                } else {
                    assert(was.committed(k));
                    assert(before.player(ii).committed(k));
                    assert(now.spec_ships()[k].cells() == was.spec_ships()[k].cells());
                    if was.occupied(c) && k == i {
                        assert forall|j: int| 0 <= j < now.spec_ships()[k].cells().len() implies #[trigger] now.hit(
                            cell(now.spec_ships()[k].cells()[j]),
                        ) == fired.hit(cell(fired.spec_ships()[k].cells()[j])) by {}
                        Self::lemma_all_hit_same(now, fired, k);
                    } else {
                        assert(!was.ship_covers(k, c)) by {
                            if was.ship_covers(k, c) {
                                assert(was.ship_covers(i, c));
                            }
                        }
                        assert forall|j: int| 0 <= j < now.spec_ships()[k].cells().len() implies #[trigger] now.hit(
                            cell(now.spec_ships()[k].cells()[j]),
                        ) == was.hit(cell(was.spec_ships()[k].cells()[j])) by {
                            assert(now.hit(cell(was.spec_ships()[k].cells()[j])) == was.hit(cell(was.spec_ships()[k].cells()[j])));
                        }
                        Self::lemma_all_hit_same(now, was, k);
                    }
                }
            }
            assert forall|k: int|
                0 <= k < self.player(o as int).spec_ships().len() implies (#[trigger] self.player(
                    o as int,
                ).spec_ships()[k]).cells().len() == self.spec_settings().ships@[k] by {
                assert(was.spec_ships()[k].cells().len() == before.spec_settings().ships@[k]);
            }
            assert(!now.has_staged()) by {
                let last = was.spec_ships().len() - 1;
                assert(now.spec_ships()[last].lifecycle() != ShipState::Placement);
            }
            if !over {
                assert(!now.all_sunk()) by {
                    if !(sunk == Ok::<bool, ErrorKind>(true)) {
                        assert(now.spec_ships() == was.spec_ships());
                    }
                }
            }
            assert forall|ii: int| 0 <= ii < 2 implies {
                &&& (#[trigger] self.player(ii)).wf()
                &&& self.player(ii).width() == self.spec_settings().spaces[0]
                &&& self.player(ii).height() == self.spec_settings().spaces[1]
                &&& self.player(ii).ship_count() == self.spec_settings().ships@.len()
                &&& self.player(ii).spec_is_cpu() == (ii == 1)
            } by {
                assert(before.player(ii).wf());
            }
            assert forall|ii: int, k: int|
                0 <= ii < 2 && 0 <= k < self.player(ii).spec_ships().len() implies (#[trigger] self.player(
                    ii,
                ).spec_ships()[k]).cells().len() == self.spec_settings().ships@[k] by {
                if ii != o {
                    assert(before.player(ii).spec_ships()[k].cells().len() == before.spec_settings().ships@[k]);
                }
            }
            assert(self.keeps_history(before)) by {
                assert forall|x: Cell|
                    #[trigger] was.state_at(x) != SpaceState::Unchecked && was.in_bounds(x) implies now.state_at(x)
                        == was.state_at(x) by {}
            }
        }
        Ok(())
    }

    /// Picks, at random from the match's generator, one of the cells that
    /// `Player::suggested_checks` offers on the grid of the player whose turn it is not.
    /// Returns `None` when that grid has no unchecked cell left.
    pub fn suggested_check(&mut self) -> (r: Option<[u8; 2]>)
        requires
            old(self).wf(),
        ensures
            final(self).wf(),
            final(self).same_play(*old(self)),
            r is None <==> !exists|q: Cell| #[trigger] old(self).player(old(self).spec_not_turn()).unchecked(q),
            r matches Some(q) ==> old(self).player(old(self).spec_not_turn()).is_suggestion(cell(q))
                && old(self).player(old(self).spec_not_turn()).unchecked(cell(q)),
    {
        let o = self.not_turn();
        assert(self.player(o as int).wf());
        let candidates = self.players[o].suggested_checks();
        if candidates.len() == 0 {
            proof {
                if exists|q: Cell| #[trigger] self.player(o as int).unchecked(q) {
                    assert(candidates@.len() > 0);
                }
            }
            return None;
        }
        let ghost before = *self;
        let i = random_below(&mut self.rng, candidates.len());
        proof {
            assert(self.player(0) == before.player(0));
            assert(self.player(1) == before.player(1));
            Self::lemma_board_wf(*self, before);
            assert(self.player(o as int).unchecked(cell(candidates@[i as int])));
            assert(listed(candidates@, cell(candidates@[i as int])));
        }
        Some(candidates[i])
    }
    /// Every committed ship is a straight line of adjacent cells, running from its head away
    /// from the way it faces, with the length configured for it, and lies on the grid.
    pub proof fn lemma_committed_ship_is_line(&self, i: int, k: int)
        requires
            self.wf(),
            0 <= i < 2,
            self.player(i).committed(k),
        ensures
            ({
                let s = self.player(i).spec_ships()[k];
                &&& s.cells().len() == self.spec_settings().ships@[k]
                &&& is_line(s.cells(), s.spec_dir())
                &&& forall|j: int|
                    0 <= j < s.cells().len() ==> self.player(i).in_bounds(#[trigger] cell(s.cells()[j]))
            }),
    {
        let p = self.player(i);
        let s = p.spec_ships()[k];
        assert(p.wf());
        assert(s.wf());
        assert(s.cells().len() == self.spec_settings().ships@[k]);
        assert forall|j: int| 0 <= j < s.cells().len() implies p.in_bounds(#[trigger] cell(s.cells()[j])) by {
            assert(p.ship_covers(k, cell(s.cells()[j])));
        }
    }

    /// A committed ship is sunk exactly when every one of its cells has been checked and hit.
    pub proof fn lemma_sunk_iff_all_hit(&self, i: int, k: int)
        requires
            self.wf(),
            0 <= i < 2,
            self.player(i).committed(k),
        ensures
            ({
                let p = self.player(i);
                let s = p.spec_ships()[k];
                s.lifecycle() == ShipState::Sunk <==> forall|j: int|
                    0 <= j < s.cells().len() ==> #[trigger] p.state_at(cell(s.cells()[j]))
                        == SpaceState::Checked(true)
            }),
    {
        let p = self.player(i);
        let s = p.spec_ships()[k];
        assert(p.wf());
        assert(self.player(i).committed(k));
        assert forall|j: int| 0 <= j < s.cells().len() implies p.in_bounds(#[trigger] cell(s.cells()[j])) by {
            assert(p.ship_covers(k, cell(s.cells()[j])));
        }
        if s.lifecycle() == ShipState::Sunk {
            assert forall|j: int| 0 <= j < s.cells().len() implies #[trigger] p.state_at(cell(s.cells()[j]))
                == SpaceState::Checked(true) by {
                assert(p.hit(cell(s.cells()[j])));
            }
        } else {
            if forall|j: int|
                0 <= j < s.cells().len() ==> #[trigger] p.state_at(cell(s.cells()[j]))
                    == SpaceState::Checked(true) {
                assert forall|j: int| 0 <= j < s.cells().len() implies #[trigger] p.hit(cell(s.cells()[j])) by {
                    assert(p.in_bounds(cell(s.cells()[j])));
                    assert(p.state_at(cell(s.cells()[j])) == SpaceState::Checked(true));
                }
                assert(p.all_hit(k));
            }
        }
    }

    /// The match is over exactly when some player has had every ship sunk; that player is the
    /// one whose turn it is not, so the winner is the player who fired the last shot.
    pub proof fn lemma_complete_iff_fleet_sunk(&self)
        requires
            self.wf(),
        ensures
            self.phase() == GameState::Complete <==> (self.player(0).all_sunk() || self.player(
                1,
            ).all_sunk()),
            self.phase() == GameState::Complete ==> self.player(self.spec_not_turn()).all_sunk()
                && !self.player(self.spec_turn()).all_sunk(),
    {
        if self.phase() == GameState::Placement {
            assert(self.player(0).spec_ships()[0].lifecycle() != ShipState::Sunk);
            assert(self.player(1).spec_ships()[0].lifecycle() != ShipState::Sunk);
        }
        if self.phase() == GameState::Complete {
            if self.spec_turn() == 0 {
                assert(self.player(1).all_sunk());
            } else {
                assert(self.player(0).all_sunk());
            }
        }
    }

    /// A checked cell never becomes unchecked nor changes its outcome: the guarantee that
    /// each operation on a match gives about the match before it carries over any sequence
    /// of operations.
    pub proof fn lemma_history_kept(a: Game, b: Game, c: Game)
        requires
            a.wf(),
            b.wf(),
            c.wf(),
            b.spec_settings() == a.spec_settings(),
            b.keeps_history(a),
            c.keeps_history(b),
        ensures
            c.keeps_history(a),
    {
        assert forall|i: int| 0 <= i < 2 implies #[trigger] c.player(i).keeps_history(a.player(i)) by {
            assert(a.player(i).wf());
            assert(b.player(i).wf());
            assert forall|x: Cell|
                #[trigger] a.player(i).state_at(x) != SpaceState::Unchecked && a.player(i).in_bounds(x)
                    implies c.player(i).state_at(x) == a.player(i).state_at(x) by {
                assert(b.player(i).state_at(x) == a.player(i).state_at(x));
                assert(b.player(i).in_bounds(x));
            }
        }
        assert(c.player(0).keeps_history(a.player(0)));
        assert(c.player(1).keeps_history(a.player(1)));
    }
}

} // verus!
