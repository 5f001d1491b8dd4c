//! The world state: players, food, the ticket ledger, and the per-command
//! operations. The periodic phases (movement, collisions, replenishment,
//! broadcasts) live here too, each as a synchronous mutation of this state.

use vstd::prelude::*;
use crate::consts::{
    DEFAULT_MASS, ENTRY_FEE, FOOD_STACK_MAX, GAME_HEIGHT, GAME_WIDTH, HUE_MAX, MASS_LIMIT,
    MAX_PLAYERS, MAX_SPLIT_NUM, NEW_PLAYER_FOOD, POS_MAX, SPLIT_MOMENTUM, WIN_THRESHOLD_MASS,
};
use crate::entity::{in_world, FoodCell, PlayerCell, Position, PositionTrait};
use crate::grid::Grid;
use crate::physics::{dist2, isqrt, mass_to_radius};
use crate::player::{sum_mass, Player};
use crate::rng::rand_u64_between;

verus! {

/// Why a command was rejected.
#[derive(Clone, Copy, Debug, PartialEq, Eq, Structural)]
pub enum GameError {
    PlayerAlreadyInGame,
    NoTicketsAvailable,
}

impl GameError {
    pub fn description(&self) -> (r: String)
        ensures
            *self is PlayerAlreadyInGame ==> r@ == "You are already in game!"@,
            *self is NoTicketsAvailable ==> r@ == "You have no tickets to play!"@,
    {
        match *self {
            GameError::PlayerAlreadyInGame => "You are already in game!".to_owned(),
            GameError::NoTicketsAvailable => "You have no tickets to play!".to_owned(),
        }
    }
}

/// Static configuration echoed to clients.
#[derive(Clone, Copy, Debug, PartialEq, Eq, Structural)]
pub struct ServerInfo {
    pub max_players: i32,
    pub entry_fee: i32,
}

/// One ledger row: how many game entries an identity has paid for.
pub struct TicketEntry {
    pub address: String,
    pub count: i64,
}

/// Ticket counts saturate here; increments beyond it are dropped.
pub const TICKETS_CAP: i64 = 1_000_000_000;

/// Every identity appears at most once in the ledger, with a count in range.
pub open spec fn tickets_wf(s: Seq<TicketEntry>) -> bool {
    &&& forall|i: int, j: int|
        0 <= i < j < s.len() ==> (#[trigger] s[i]).address@ != (#[trigger] s[j]).address@
    &&& forall|i: int| 0 <= i < s.len() ==> 0 <= (#[trigger] s[i]).count <= TICKETS_CAP
}

/// The ticket count an identity holds: its row's count, or zero without one.
pub open spec fn seq_tickets(s: Seq<TicketEntry>, id: Seq<char>) -> int {
    if exists|i: int| 0 <= i < s.len() && (#[trigger] s[i]).address@ == id {
        let i = choose|i: int| 0 <= i < s.len() && (#[trigger] s[i]).address@ == id;
        s[i].count as int
    } else {
        0
    }
}

/// With unique addresses, the count read at a row is the ledger's answer for
/// that row's identity.
pub proof fn lemma_seq_tickets_at(s: Seq<TicketEntry>, i: int)
    requires
        tickets_wf(s),
        0 <= i < s.len(),
    ensures
        seq_tickets(s, s[i].address@) == s[i].count,
{
    let id = s[i].address@;
    assert(exists|j: int| 0 <= j < s.len() && (#[trigger] s[j]).address@ == id);
    let j = choose|j: int| 0 <= j < s.len() && (#[trigger] s[j]).address@ == id;
    if i < j {
        assert(s[i].address@ != s[j].address@);
    }
    if j < i {
        assert(s[j].address@ != s[i].address@);
    }
}

/// Replacing one row with a row for the same identity changes that identity's
/// count and nobody else's.
pub proof fn lemma_seq_tickets_update(s: Seq<TicketEntry>, i: int, e: TicketEntry)
    requires
        tickets_wf(s),
        0 <= i < s.len(),
        e.address@ == s[i].address@,
        0 <= e.count <= TICKETS_CAP,
    ensures
        tickets_wf(s.update(i, e)),
        seq_tickets(s.update(i, e), e.address@) == e.count,
        forall|o: Seq<char>| o != e.address@ ==> seq_tickets(s.update(i, e), o) == seq_tickets(s, o),
{
    let t = s.update(i, e);
    assert forall|a: int, b: int|
        0 <= a < b < t.len() implies (#[trigger] t[a]).address@ != (#[trigger] t[b]).address@ by {
        assert(s[a].address@ != s[b].address@);
    }
    lemma_seq_tickets_at(t, i);
    assert forall|o: Seq<char>| o != e.address@ implies seq_tickets(t, o) == seq_tickets(s, o) by {
        if exists|k: int| 0 <= k < t.len() && (#[trigger] t[k]).address@ == o {
            let k = choose|k: int| 0 <= k < t.len() && (#[trigger] t[k]).address@ == o;
            assert(k != i);
            assert(s[k].address@ == o);
            lemma_seq_tickets_at(s, k);
            lemma_seq_tickets_at(t, k);
        } else {
            if exists|k: int| 0 <= k < s.len() && (#[trigger] s[k]).address@ == o {
                let k = choose|k: int| 0 <= k < s.len() && (#[trigger] s[k]).address@ == o;
                assert(t[k].address@ == o);
            }
        }
    }
}

/// Appending a row for a fresh identity sets its count and changes no other.
pub proof fn lemma_seq_tickets_push(s: Seq<TicketEntry>, e: TicketEntry)
    requires
        tickets_wf(s),
        forall|i: int| 0 <= i < s.len() ==> (#[trigger] s[i]).address@ != e.address@,
        0 <= e.count <= TICKETS_CAP,
    ensures
        tickets_wf(s.push(e)),
        seq_tickets(s.push(e), e.address@) == e.count,
        forall|o: Seq<char>| o != e.address@ ==> seq_tickets(s.push(e), o) == seq_tickets(s, o),
{
    let t = s.push(e);
    assert forall|a: int, b: int|
        0 <= a < b < t.len() implies (#[trigger] t[a]).address@ != (#[trigger] t[b]).address@ by {
        if b < s.len() {
            assert(s[a].address@ != s[b].address@);
        } else {
            assert(t[b] == e);
            assert(s[a].address@ != e.address@);
        }
    }
    lemma_seq_tickets_at(t, s.len() as int);
    assert forall|o: Seq<char>| o != e.address@ implies seq_tickets(t, o) == seq_tickets(s, o) by {
        if exists|k: int| 0 <= k < t.len() && (#[trigger] t[k]).address@ == o {
            let k = choose|k: int| 0 <= k < t.len() && (#[trigger] t[k]).address@ == o;
            assert(k < s.len());
            assert(s[k].address@ == o);
            lemma_seq_tickets_at(s, k);
            lemma_seq_tickets_at(t, k);
        } else {
            if exists|k: int| 0 <= k < s.len() && (#[trigger] s[k]).address@ == o {
                let k = choose|k: int| 0 <= k < s.len() && (#[trigger] s[k]).address@ == o;
                assert(t[k].address@ == o);
            }
        }
    }
}

/// The world after `set_target` hit player `i`: that player's target is the
/// given offset and everything else is as before.
pub open spec fn target_set_at(pre: Seq<Player>, post: Seq<Player>, i: int, x: i64, y: i64) -> bool {
    &&& post.len() == pre.len()
    &&& post[i].id == pre[i].id
    &&& post[i].cells == pre[i].cells
    &&& post[i].target == Some(Position { x, y })
    &&& post[i].visible_range == pre[i].visible_range
    &&& forall|j: int| 0 <= j < pre.len() && j != i ==> post[j] == pre[j]
}

/// Player identities are pairwise distinct.
pub open spec fn ids_unique(s: Seq<Player>) -> bool {
    forall|i: int, j: int| 0 <= i < j < s.len() ==> (#[trigger] s[i]).id@ != (#[trigger] s[j]).id@
}

pub open spec fn players_wf(s: Seq<Player>) -> bool {
    forall|i: int| 0 <= i < s.len() ==> (#[trigger] s[i]).wf()
}

pub open spec fn food_seq_wf(s: Seq<FoodCell>) -> bool {
    forall|i: int| 0 <= i < s.len() ==> (#[trigger] s[i]).wf()
}

/// The whole world state.
pub struct Game {
    pub players: Vec<Player>,
    pub food: Vec<FoodCell>,
    /// Food cells still owed to the world by the pending spawn quota.
    pub food_stack: i64,
    pub tickets: Vec<TicketEntry>,
}

impl Game {
    pub open spec fn wf(&self) -> bool {
        &&& players_wf(self.players@)
        &&& ids_unique(self.players@)
        &&& food_seq_wf(self.food@)
        &&& tickets_wf(self.tickets@)
        &&& 0 <= self.food_stack <= FOOD_STACK_MAX
    }

    pub open spec fn spec_has_player(&self, id: Seq<char>) -> bool {
        exists|i: int| 0 <= i < self.players.len() && (#[trigger] self.players[i]).id@ == id
    }

    pub open spec fn spec_tickets(&self, id: Seq<char>) -> int {
        seq_tickets(self.tickets@, id)
    }

    pub fn new() -> (g: Game)
        ensures
            g.wf(),
            g.players.len() == 0,
            g.food.len() == 0,
            g.food_stack == 0,
            g.tickets.len() == 0,
    {
        Game { players: Vec::new(), food: Vec::new(), food_stack: 0, tickets: Vec::new() }
    }

    /// Index of the player with this identity, if any.
    fn find_player_idx(&self, id: &String) -> (r: Option<usize>)
        ensures
            match r {
                Some(i) => i < self.players.len() && self.players[i as int].id@ == id@,
                None => !self.spec_has_player(id@),
            },
    {
        let mut i: usize = 0;
        while i < self.players.len()
            invariant
                i <= self.players.len(),
                forall|j: int| 0 <= j < i ==> (#[trigger] self.players[j]).id@ != id@,
            decreases self.players.len() - i,
        {
            if self.players[i].id == *id {
                return Some(i);
            }
            i = i + 1;
        }
        None
    }

    /// Index of the ledger row for this identity, if any.
    #[verifier::loop_isolation(false)]
    fn find_ticket_idx(&self, id: &String) -> (r: Option<usize>)
        requires
            tickets_wf(self.tickets@),
        ensures
            match r {
                Some(i) => i < self.tickets.len() && self.tickets[i as int].address@ == id@
                    && self.tickets[i as int].count == self.spec_tickets(id@),
                None => self.spec_tickets(id@) == 0 && forall|j: int|
                    0 <= j < self.tickets.len() ==> (#[trigger] self.tickets[j]).address@ != id@,
            },
    {
        let mut i: usize = 0;
        while i < self.tickets.len()
            invariant
                i <= self.tickets.len(),
                forall|j: int| 0 <= j < i ==> (#[trigger] self.tickets[j]).address@ != id@,
            decreases self.tickets.len() - i,
        {
            if self.tickets[i].address == *id {
                proof {
                    lemma_seq_tickets_at(self.tickets@, i as int);
                }
                return Some(i);
            }
            i = i + 1;
        }
        None
    }

    /// Credits one ticket to the identity (the fee-paid event). The count
    /// saturates at the ledger cap; everything else is untouched.
    pub fn ticket_bought(&mut self, id: String)
        requires
            old(self).wf(),
        ensures
            final(self).wf(),
            final(self).spec_tickets(id@) == if old(self).spec_tickets(id@) < TICKETS_CAP {
                old(self).spec_tickets(id@) + 1
            } else {
                old(self).spec_tickets(id@)
            },
            forall|o: Seq<char>|
                o != id@ ==> final(self).spec_tickets(o) == old(self).spec_tickets(o),
            final(self).players == old(self).players,
            final(self).food == old(self).food,
            final(self).food_stack == old(self).food_stack,
    {
        match self.find_ticket_idx(&id) {
            Some(i) => {
                let c: i64 = self.tickets[i].count;
                let c2: i64 = if c < TICKETS_CAP {
                    c + 1
                } else {
                    c
                };
                let addr = self.tickets[i].address.clone();
                let ghost pre = self.tickets@;
                self.tickets.set(i, TicketEntry { address: addr, count: c2 });
                proof {
                    lemma_seq_tickets_update(
                        pre,
                        i as int,
                        TicketEntry { address: self.tickets[i as int].address, count: c2 },
                    );
                    assert(self.tickets@ =~= pre.update(
                        i as int,
                        TicketEntry { address: self.tickets[i as int].address, count: c2 },
                    ));
                }
            },
            None => {
                let ghost pre = self.tickets@;
                let entry = TicketEntry { address: id, count: 1 };
                proof {
                    lemma_seq_tickets_push(pre, entry);
                }
                self.tickets.push(entry);
            },
        }
    }

    /// The identity's current ticket balance.
    pub fn get_available_tickets(&self, id: &String) -> (r: i64)
        requires
            self.wf(),
        ensures
            r == self.spec_tickets(id@),
    {
        match self.find_ticket_idx(id) {
            Some(i) => self.tickets[i].count,
            None => 0,
        }
    }

    /// Spends one ticket. Fails with `NoTicketsAvailable` exactly when the
    /// identity holds none; on success returns the remaining balance.
    fn use_ticket(&mut self, id: &String) -> (r: Result<i64, GameError>)
        requires
            old(self).wf(),
        ensures
            final(self).wf(),
            old(self).spec_tickets(id@) == 0 ==> r == Result::<i64, GameError>::Err(
                GameError::NoTicketsAvailable,
            ) && *final(self) == *old(self),
            old(self).spec_tickets(id@) > 0 ==> {
                &&& r == Result::<i64, GameError>::Ok((old(self).spec_tickets(id@) - 1) as i64)
                &&& final(self).spec_tickets(id@) == old(self).spec_tickets(id@) - 1
                &&& forall|o: Seq<char>|
                    o != id@ ==> final(self).spec_tickets(o) == old(self).spec_tickets(o)
            },
            final(self).players == old(self).players,
            final(self).food == old(self).food,
            final(self).food_stack == old(self).food_stack,
    {
        match self.find_ticket_idx(id) {
            Some(i) => {
                let c: i64 = self.tickets[i].count;
                if c == 0 {
                    return Err(GameError::NoTicketsAvailable);
                }
                let addr = self.tickets[i].address.clone();
                let ghost pre = self.tickets@;
                self.tickets.set(i, TicketEntry { address: addr, count: c - 1 });
                proof {
                    lemma_seq_tickets_update(
                        pre,
                        i as int,
                        TicketEntry { address: self.tickets[i as int].address, count: (c - 1) as i64 },
                    );
                    assert(self.tickets@ =~= pre.update(
                        i as int,
                        TicketEntry { address: self.tickets[i as int].address, count: (c - 1) as i64 },
                    ));
                }
                Ok(c - 1)
            },
            None => Err(GameError::NoTicketsAvailable),
        }
    }

    /// The static server configuration.
    pub fn get_server_info(&self) -> (r: ServerInfo)
        ensures
            r.max_players == MAX_PLAYERS,
            r.entry_fee == ENTRY_FEE,
    {
        ServerInfo { max_players: MAX_PLAYERS, entry_fee: ENTRY_FEE }
    }
}

/// A uniformly random in-world position, away from the border by at least a
/// default cell's radius.
pub fn random_position() -> (p: Position)
    ensures
        in_world(p),
        crate::physics::spec_mass_to_radius(DEFAULT_MASS as nat) <= p.x <= GAME_WIDTH,
        crate::physics::spec_mass_to_radius(DEFAULT_MASS as nat) <= p.y <= GAME_HEIGHT,
{
    let lo: u64 = mass_to_radius(DEFAULT_MASS);
    proof {
        crate::physics::lemma_sqrt_floor_le(10_000_000, 3162);
    }
    let x = rand_u64_between(lo, GAME_WIDTH);
    let y = rand_u64_between(lo, GAME_HEIGHT);
    Position { x: x as i64, y: y as i64 }
}

/// A uniformly random hue.
pub fn generate_random_hue() -> (h: u16)
    ensures
        h <= HUE_MAX,
{
    rand_u64_between(0, HUE_MAX) as u16
}

/// Signed gap between two circles: center distance minus both radii.
fn circle_gap(px: i64, py: i64, pr: u64, qx: i64, qy: i64, qr: u64) -> (g: i64)
    requires
        0 <= px <= POS_MAX,
        0 <= py <= POS_MAX,
        0 <= qx <= POS_MAX,
        0 <= qy <= POS_MAX,
        pr <= crate::physics::RADIUS_MAX,
        qr <= crate::physics::RADIUS_MAX,
    ensures
        g as int == crate::physics::sqrt_floor(dist2(px as int, py as int, qx as int, qy as int) as nat)
            - pr - qr,
{
    let dx: i64 = if px >= qx {
        px - qx
    } else {
        qx - px
    };
    let dy: i64 = if py >= qy {
        py - qy
    } else {
        qy - py
    };
    proof {
        assert(dx * dx + dy * dy <= 2 * 90_000_000_000_000_000
            && dx * dx + dy * dy == dist2(px as int, py as int, qx as int, qy as int)) by (
        nonlinear_arith)
            requires
                0 <= dx <= 300_000_000,
                0 <= dy <= 300_000_000,
                dx == if px >= qx { px - qx } else { qx - px },
                dy == if py >= qy { py - qy } else { qy - py },
        {}
        crate::physics::lemma_sqrt_floor_le((dx * dx + dy * dy) as nat, 600_000_000);
    }
    let d = isqrt((dx * dx + dy * dy) as u64);
    d as i64 - pr as i64 - qr as i64
}

/// The signed gap between a player's bounding circle and a default-radius
/// cell at a candidate point: center distance minus both radii.
pub open spec fn spec_circle_gap(p: Player, cand: Position) -> int {
    let cx = crate::player::sum_x(p.cells@) / (p.cells@.len() as int);
    let cy = crate::player::sum_y(p.cells@) / (p.cells@.len() as int);
    let pr = crate::physics::spec_mass_to_radius(sum_mass(p.cells@) as nat);
    crate::physics::sqrt_floor(dist2(cx, cy, cand.x as int, cand.y as int) as nat) - pr
        - crate::physics::spec_mass_to_radius(DEFAULT_MASS as nat)
}

/// The smallest circle gap a candidate point leaves to any player
/// (the whole `i64` range when there are none).
pub open spec fn spec_min_gap(players: Seq<Player>, cand: Position) -> int
    decreases players.len(),
{
    if players.len() == 0 {
        0x7fff_ffff_ffff_ffff
    } else {
        let g = spec_circle_gap(players.last(), cand);
        let r = spec_min_gap(players.drop_last(), cand);
        if g < r {
            g
        } else {
            r
        }
    }
}

impl Game {
    /// Picks, among candidate spawn points, the first one maximizing the
    /// smallest circle gap to any existing player.
    #[verifier::loop_isolation(false)]
    pub fn best_spawn_among(&self, candidates: &Vec<Position>) -> (p: Position)
        requires
            self.wf(),
            candidates.len() >= 1,
            forall|t: int| 0 <= t < candidates.len() ==> in_world(#[trigger] candidates[t]),
        ensures
            exists|w: int|
                {
                    &&& 0 <= w < candidates.len()
                    &&& p == candidates[w]
                    &&& (forall|t: int|
                        0 <= t < candidates.len() ==> spec_min_gap(
                            self.players@,
                            #[trigger] candidates[t],
                        ) <= spec_min_gap(self.players@, candidates[w]))
                    &&& (forall|t: int|
                        0 <= t < w ==> spec_min_gap(self.players@, #[trigger] candidates[t])
                            < spec_min_gap(self.players@, candidates[w]))
                },
    {
        let default_radius: u64 = mass_to_radius(DEFAULT_MASS);
        let mut best: usize = 0;
        let mut best_gap: i64 = self.min_gap_at(candidates[0], default_radius);
        let mut c: usize = 1;
        while c < candidates.len()
            invariant
                1 <= c <= candidates.len(),
                best < c,
                default_radius == crate::physics::spec_mass_to_radius(DEFAULT_MASS as nat),
                best_gap as int == spec_min_gap(self.players@, candidates[best as int]),
                forall|t: int|
                    0 <= t < c ==> spec_min_gap(self.players@, #[trigger] candidates[t])
                        <= best_gap as int,
                forall|t: int|
                    0 <= t < best ==> spec_min_gap(self.players@, #[trigger] candidates[t])
                        < best_gap as int,
            decreases candidates.len() - c,
        {
            let g = self.min_gap_at(candidates[c], default_radius);
            if g > best_gap {
                best = c;
                best_gap = g;
            }
            c = c + 1;
        }
        candidates[best]
    }

    /// The smallest circle gap the candidate leaves to any player.
    #[verifier::loop_isolation(false)]
    fn min_gap_at(&self, cand: Position, default_radius: u64) -> (g: i64)
        requires
            self.wf(),
            in_world(cand),
            default_radius == crate::physics::spec_mass_to_radius(DEFAULT_MASS as nat),
        ensures
            g as int == spec_min_gap(self.players@, cand),
    {
        proof {
            crate::physics::lemma_radius_range(DEFAULT_MASS as nat);
        }
        let mut min_gap: i64 = i64::MAX;
        let mut i: usize = 0;
        while i < self.players.len()
            invariant
                i <= self.players.len(),
                min_gap as int == spec_min_gap(self.players@.take(i as int), cand),
            decreases self.players.len() - i,
        {
            let center = self.players[i].position();
            let pr = self.players[i].radius();
            proof {
                crate::player::lemma_sums_bounded(self.players[i as int].cells@);
            }
            let gp = circle_gap(center.x, center.y, pr, cand.x, cand.y, default_radius);
            proof {
                assert(self.players@.take(i as int + 1).drop_last() =~= self.players@.take(
                    i as int,
                ));
                assert(self.players@.take(i as int + 1).last() == self.players@[i as int]);
                assert(gp as int == spec_circle_gap(self.players@[i as int], cand));
            }
            if gp < min_gap {
                min_gap = gp;
            }
            i = i + 1;
        }
        proof {
            assert(self.players@.take(self.players@.len() as int) =~= self.players@);
        }
        min_gap
    }

    /// A spawn position for a new player: ten random candidates are drawn and
    /// the one maximizing the smallest circle gap to any existing player is
    /// kept; with no players in the world the first candidate serves.
    #[verifier::loop_isolation(false)]
    fn get_new_player_position(&self) -> (p: Position)
        requires
            self.wf(),
        ensures
            in_world(p),
            crate::physics::spec_mass_to_radius(DEFAULT_MASS as nat) <= p.x <= GAME_WIDTH,
            crate::physics::spec_mass_to_radius(DEFAULT_MASS as nat) <= p.y <= GAME_HEIGHT,
    {
        if self.players.len() == 0 {
            return random_position();
        }
        let mut candidates: Vec<Position> = Vec::new();
        let mut c: usize = 0;
        while c < 10
            invariant
                candidates.len() == c <= 10,
                forall|t: int|
                    0 <= t < c ==> in_world(#[trigger] candidates[t]) && crate::physics::spec_mass_to_radius(
                        DEFAULT_MASS as nat,
                    ) <= candidates[t].x <= GAME_WIDTH && crate::physics::spec_mass_to_radius(
                        DEFAULT_MASS as nat,
                    ) <= candidates[t].y <= GAME_HEIGHT,
            decreases 10 - c,
        {
            candidates.push(random_position());
            c = c + 1;
        }
        let p = self.best_spawn_among(&candidates);
        proof {
            let w = choose|w: int|
                {
                    &&& 0 <= w < candidates.len()
                    &&& p == candidates[w]
                    &&& (forall|t: int|
                        0 <= t < candidates.len() ==> spec_min_gap(
                            self.players@,
                            #[trigger] candidates[t],
                        ) <= spec_min_gap(self.players@, candidates[w]))
                    &&& (forall|t: int|
                        0 <= t < w ==> spec_min_gap(self.players@, #[trigger] candidates[t])
                            < spec_min_gap(self.players@, candidates[w]))
                };
            assert(in_world(candidates[w]));
        }
        p
    }

    /// Adds a fresh player for the identity at a spawn position, and grows
    /// the food budget. Fails if the identity already has a live player.
    pub fn add_player(&mut self, id: String) -> (r: Result<(), GameError>)
        requires
            old(self).wf(),
        ensures
            final(self).wf(),
            old(self).spec_has_player(id@) ==> r == Result::<(), GameError>::Err(
                GameError::PlayerAlreadyInGame,
            ) && *final(self) == *old(self),
            !old(self).spec_has_player(id@) ==> {
                &&& r == Result::<(), GameError>::Ok(())
                &&& final(self).players.len() == old(self).players.len() + 1
                &&& final(self).players@.subrange(0, old(self).players.len() as int) == old(
                    self,
                ).players@
                &&& final(self).players@.last().id@ == id@
                &&& final(self).players@.last().cells.len() == 1
                &&& final(self).players@.last().cells[0].mass == DEFAULT_MASS
                &&& final(self).players@.last().cells[0].radius
                    == crate::physics::spec_mass_to_radius(DEFAULT_MASS as nat)
                &&& final(self).players@.last().cells[0].momentum == crate::consts::MOMENTUM_FLOOR
                &&& final(self).players@.last().cells[0].last_split is None
                &&& crate::physics::spec_mass_to_radius(DEFAULT_MASS as nat)
                    <= final(self).players@.last().cells[0].pos.x <= GAME_WIDTH
                &&& crate::physics::spec_mass_to_radius(DEFAULT_MASS as nat)
                    <= final(self).players@.last().cells[0].pos.y <= GAME_HEIGHT
                &&& final(self).players@.last().target is None
                &&& final(self).players@.last().visible_range
                    == crate::consts::MINIMUM_VISIBLE_RANGE
                &&& final(self).spec_has_player(id@)
                &&& final(self).food_stack as int == if old(self).food_stack + NEW_PLAYER_FOOD
                    <= FOOD_STACK_MAX {
                    old(self).food_stack + NEW_PLAYER_FOOD
                } else {
                    FOOD_STACK_MAX as int
                }
            },
            final(self).food == old(self).food,
            final(self).tickets == old(self).tickets,
    {
        if let Some(_i) = self.find_player_idx(&id) {
            return Err(GameError::PlayerAlreadyInGame);
        }
        let pos = self.get_new_player_position();
        let hue = generate_random_hue();
        let ghost pre = self.players@;
        let player = Player::new_player(id, pos, hue);
        self.players.push(player);
        if self.food_stack + NEW_PLAYER_FOOD <= FOOD_STACK_MAX {
            self.food_stack = self.food_stack + NEW_PLAYER_FOOD;
        } else {
            self.food_stack = FOOD_STACK_MAX;
        }
        proof {
            assert(self.players@.subrange(0, pre.len() as int) =~= pre);
            assert(self.players@[pre.len() as int].id@ == self.players@.last().id@);
            assert forall|a: int, b: int|
                0 <= a < b < self.players@.len() implies (#[trigger] self.players@[a]).id@ != (
            #[trigger] self.players@[b]).id@ by {
                if b < pre.len() {
                    assert(pre[a].id@ != pre[b].id@);
                } else {
                    assert(self.players@[b].id@ == self.players@.last().id@);
                    assert(pre[a].id@ != self.players@.last().id@);
                }
            }
        }
        Ok(())
    }

    /// Enters the identity into the game: rejected with `PlayerAlreadyInGame`
    /// if a live player exists, with `NoTicketsAvailable` if the ledger holds
    /// no ticket; otherwise one ticket is consumed atomically and a fresh
    /// one-cell player appears. On rejection the world is untouched.
    pub fn enter_game(&mut self, id: String) -> (r: Result<(), GameError>)
        requires
            old(self).wf(),
        ensures
            final(self).wf(),
            old(self).spec_has_player(id@) ==> r == Result::<(), GameError>::Err(
                GameError::PlayerAlreadyInGame,
            ) && *final(self) == *old(self),
            !old(self).spec_has_player(id@) && old(self).spec_tickets(id@) == 0 ==> r
                == Result::<(), GameError>::Err(GameError::NoTicketsAvailable) && *final(self)
                == *old(self),
            !old(self).spec_has_player(id@) && old(self).spec_tickets(id@) > 0 ==> {
                &&& r == Result::<(), GameError>::Ok(())
                &&& final(self).spec_tickets(id@) == old(self).spec_tickets(id@) - 1
                &&& forall|o: Seq<char>|
                    o != id@ ==> final(self).spec_tickets(o) == old(self).spec_tickets(o)
                &&& final(self).players.len() == old(self).players.len() + 1
                &&& final(self).players@.subrange(0, old(self).players.len() as int) == old(
                    self,
                ).players@
                &&& final(self).players@.last().id@ == id@
                &&& final(self).players@.last().cells.len() == 1
                &&& final(self).players@.last().cells[0].mass == DEFAULT_MASS
                &&& final(self).players@.last().cells[0].radius
                    == crate::physics::spec_mass_to_radius(DEFAULT_MASS as nat)
                &&& final(self).players@.last().cells[0].momentum == crate::consts::MOMENTUM_FLOOR
                &&& final(self).players@.last().cells[0].last_split is None
                &&& final(self).players@.last().target is None
                &&& final(self).players@.last().visible_range
                    == crate::consts::MINIMUM_VISIBLE_RANGE
                &&& final(self).spec_has_player(id@)
                &&& final(self).food == old(self).food
                &&& final(self).food_stack as int == if old(self).food_stack + NEW_PLAYER_FOOD
                    <= FOOD_STACK_MAX {
                    old(self).food_stack + NEW_PLAYER_FOOD
                } else {
                    FOOD_STACK_MAX as int
                }
            },
    {
        if let Some(_i) = self.find_player_idx(&id) {
            return Err(GameError::PlayerAlreadyInGame);
        }
        let remaining = self.use_ticket(&id);
        if let Err(e) = remaining {
            return Err(e);
        }
        let r = self.add_player(id);
        proof {
            assert(r is Ok);
        }
        Ok(())
    }

    /// Stores the movement offset for the identity's player; a command for an
    /// identity with no live player is dropped.
    pub fn set_target(&mut self, id: &String, x: i64, y: i64)
        requires
            old(self).wf(),
            -POS_MAX <= x <= POS_MAX,
            -POS_MAX <= y <= POS_MAX,
        ensures
            final(self).wf(),
            !old(self).spec_has_player(id@) ==> *final(self) == *old(self),
            old(self).spec_has_player(id@) ==> exists|i: int|
                0 <= i < old(self).players.len() && (#[trigger] old(self).players[i]).id@ == id@
                    && target_set_at(old(self).players@, final(self).players@, i, x, y),
            final(self).food == old(self).food,
            final(self).tickets == old(self).tickets,
            final(self).food_stack == old(self).food_stack,
    {
        match self.find_player_idx(id) {
            Some(i) => {
                let ghost pre = self.players@;
                let mut p = self.players.remove(i);
                p.target = Some(Position { x, y });
                self.players.insert(i, p);
                proof {
                    assert(self.players@ =~= pre.update(
                        i as int,
                        Player {
                            target: Some(Position { x, y }),
                            ..pre[i as int]
                        },
                    ));
                    assert(self.players@[i as int].id@ == pre[i as int].id@);
                    assert forall|a: int, b: int|
                        0 <= a < b < self.players@.len() implies (#[trigger] self.players@[a]).id@
                        != (#[trigger] self.players@[b]).id@ by {
                        assert(pre[a].id@ != pre[b].id@);
                    }
                }
            },
            None => {},
        }
    }

    /// Removes the identity's player, handing it back; the world is untouched
    /// if no such player exists (removal is idempotent).
    pub fn remove_player(&mut self, id: &String) -> (r: Option<Player>)
        requires
            old(self).wf(),
        ensures
            final(self).wf(),
            !final(self).spec_has_player(id@),
            !old(self).spec_has_player(id@) ==> r is None && *final(self) == *old(self),
            old(self).spec_has_player(id@) ==> r is Some && r->Some_0.id@ == id@ && r->Some_0.wf()
                && final(self).players.len() == old(self).players.len() - 1,
            forall|o: Seq<char>|
                o != id@ ==> (final(self).spec_has_player(o) == old(self).spec_has_player(o)),
            final(self).food == old(self).food,
            final(self).tickets == old(self).tickets,
            final(self).food_stack == old(self).food_stack,
    {
        match self.find_player_idx(id) {
            Some(i) => {
                let ghost pre = self.players@;
                let p = self.players.remove(i);
                proof {
                    let post = self.players@;
                    assert forall|a: int, b: int|
                        0 <= a < b < post.len() implies (#[trigger] post[a]).id@ != (
                    #[trigger] post[b]).id@ by {
                        let a0 = if a < i as int {
                            a
                        } else {
                            a + 1
                        };
                        let b0 = if b < i as int {
                            b
                        } else {
                            b + 1
                        };
                        assert(post[a] == pre[a0] && post[b] == pre[b0]);
                        assert(pre[a0].id@ != pre[b0].id@);
                    }
                    assert forall|k: int| 0 <= k < post.len() implies (#[trigger] post[k]).id@
                        != id@ by {
                        let k0 = if k < i as int {
                            k
                        } else {
                            k + 1
                        };
                        assert(post[k] == pre[k0]);
                        if k0 != i as int {
                            assert(pre[k0].id@ != pre[i as int].id@);
                        }
                    }
                    assert forall|o: Seq<char>|
                        o != id@ && old(self).spec_has_player(o) implies self.spec_has_player(
                        o,
                    ) by {
                        let k = choose|k: int|
                            0 <= k < pre.len() && (#[trigger] pre[k]).id@ == o;
                        let k1 = if k < i as int {
                            k
                        } else {
                            k - 1
                        };
                        assert(k != i as int);
                        assert(post[k1] == pre[k]);
                    }
                    assert forall|o: Seq<char>|
                        o != id@ && self.spec_has_player(o) implies old(self).spec_has_player(
                        o,
                    ) by {
                        let k = choose|k: int|
                            0 <= k < post.len() && (#[trigger] post[k]).id@ == o;
                        let k0 = if k < i as int {
                            k
                        } else {
                            k + 1
                        };
                        assert(post[k] == pre[k0]);
                    }
                }
                Some(p)
            },
            None => None,
        }
    }

    /// Connection loss evicts the player; already-gone identities no-op.
    pub fn player_lost_connection(&mut self, id: &String)
        requires
            old(self).wf(),
        ensures
            final(self).wf(),
            !final(self).spec_has_player(id@),
            !old(self).spec_has_player(id@) ==> *final(self) == *old(self),
            forall|o: Seq<char>|
                o != id@ ==> (final(self).spec_has_player(o) == old(self).spec_has_player(o)),
            final(self).food == old(self).food,
            final(self).tickets == old(self).tickets,
    {
        let _removed = self.remove_player(id);
    }

    /// The winner, if any: an identity whose total mass is maximal among all
    /// players and above the win threshold. Ties fall to the later player in
    /// world order.
    pub fn get_winner(&self) -> (r: Option<String>)
        requires
            self.wf(),
        ensures
            match r {
                Some(id) => exists|i: int|
                    0 <= i < self.players.len() && (#[trigger] self.players[i]).id@ == id@
                        && sum_mass(self.players[i].cells@) > WIN_THRESHOLD_MASS && forall|j: int|
                        0 <= j < self.players.len() ==> sum_mass(
                            (#[trigger] self.players[j]).cells@,
                        ) <= sum_mass(self.players[i].cells@),
                None => forall|i: int|
                    0 <= i < self.players.len() ==> sum_mass((#[trigger] self.players[i]).cells@)
                        <= WIN_THRESHOLD_MASS,
            },
    {
        if self.players.len() == 0 {
            return None;
        }
        let mut best: usize = 0;
        let mut best_mass: u64 = self.players[0].mass();
        let mut i: usize = 1;
        while i < self.players.len()
            invariant
                self.wf(),
                self.players.len() > 0,
                best < i <= self.players.len(),
                best_mass == sum_mass(self.players[best as int].cells@),
                forall|j: int|
                    0 <= j < i ==> sum_mass((#[trigger] self.players[j]).cells@) <= best_mass,
            decreases self.players.len() - i,
        {
            let m = self.players[i].mass();
            if m >= best_mass {
                best = i;
                best_mass = m;
            }
            i = i + 1;
        }
        if best_mass > WIN_THRESHOLD_MASS {
            Some(self.players[best].id.clone())
        } else {
            None
        }
    }
}


/// The surviving half of a split cell: the rounding remainder stays, the
/// radius is rederived, and the cooldown stamp is set.
pub open spec fn split_kept(c: PlayerCell, now: u64) -> PlayerCell {
    PlayerCell {
        mass: (c.mass - c.mass / 2) as u64,
        radius: crate::physics::spec_mass_to_radius((c.mass - c.mass / 2) as nat) as u64,
        last_split: Some(now),
        ..c
    }
}

/// The sibling a split yields: half the mass at the same point, the elevated
/// split momentum, and the cooldown stamp.
pub open spec fn split_twin(c: PlayerCell, now: u64) -> PlayerCell {
    PlayerCell {
        mass: (c.mass / 2) as u64,
        radius: crate::physics::spec_mass_to_radius((c.mass / 2) as nat) as u64,
        momentum: SPLIT_MOMENTUM,
        last_split: Some(now),
        ..c
    }
}

/// The split command's walk over one player's cells: each of the first
/// `orig_len` cells in index order is halved and its twin appended, provided
/// the cell is heavy enough and the list is still under the cap at its turn;
/// appended twins are never themselves re-split.
pub open spec fn split_round(cells: Seq<PlayerCell>, orig_len: int, i: int, now: u64) -> Seq<
    PlayerCell,
>
    decreases orig_len - i,
{
    if i < 0 || i >= orig_len {
        cells
    } else {
        let c = cells[i];
        if cells.len() < MAX_SPLIT_NUM && c.mass >= 2 * DEFAULT_MASS {
            split_round(
                cells.update(i, split_kept(c, now)).push(split_twin(c, now)),
                orig_len,
                i + 1,
                now,
            )
        } else {
            split_round(cells, orig_len, i + 1, now)
        }
    }
}

/// The world after `split` hit player `i`: that player's cells took the split
/// walk (so the cap holds, the count at most doubles and total mass is
/// conserved), everything else is as before.
pub open spec fn split_applied(pre: Seq<Player>, post: Seq<Player>, i: int, now: u64) -> bool {
    &&& post.len() == pre.len()
    &&& post[i].id == pre[i].id
    &&& post[i].target == pre[i].target
    &&& post[i].visible_range == pre[i].visible_range
    &&& post[i].cells@ == split_round(pre[i].cells@, pre[i].cells.len() as int, 0, now)
    &&& pre[i].cells.len() <= post[i].cells.len() <= MAX_SPLIT_NUM
    &&& post[i].cells.len() <= 2 * pre[i].cells.len()
    &&& sum_mass(post[i].cells@) == sum_mass(pre[i].cells@)
    &&& forall|j: int| 0 <= j < pre.len() && j != i ==> post[j] == pre[j]
}

impl Game {
    /// Attempts to split every cell the identity's player held when the
    /// command arrived, in index order, appending each new sibling, while
    /// enforcing the sixteen-cell cap. Total player mass is conserved.
    /// A command for an identity with no live player is dropped.
    #[verifier::loop_isolation(false)]
    pub fn split(&mut self, id: &String, now: u64)
        requires
            old(self).wf(),
        ensures
            final(self).wf(),
            !old(self).spec_has_player(id@) ==> *final(self) == *old(self),
            old(self).spec_has_player(id@) ==> exists|i: int|
                0 <= i < old(self).players.len() && (#[trigger] old(self).players[i]).id@ == id@
                    && split_applied(old(self).players@, final(self).players@, i, now),
            final(self).food == old(self).food,
            final(self).tickets == old(self).tickets,
            final(self).food_stack == old(self).food_stack,
    {
        let idx = match self.find_player_idx(id) {
            Some(i) => i,
            None => {
                return ;
            },
        };
        let ghost pre = self.players@;
        let mut p = self.players.remove(idx);
        let orig_len: usize = p.cells.len();
        let ghost pre_cells = p.cells@;
        let ghost pl0 = p;
        let mut i: usize = 0;
        while i < orig_len
            invariant
                i <= orig_len <= p.cells.len() <= MAX_SPLIT_NUM,
                p.cells.len() <= orig_len + i,
                forall|j: int| 0 <= j < p.cells.len() ==> (#[trigger] p.cells[j]).wf(),
                sum_mass(p.cells@) == sum_mass(pre_cells),
                split_round(pre_cells, orig_len as int, 0, now) == split_round(
                    p.cells@,
                    orig_len as int,
                    i as int,
                    now,
                ),
                p.id == pl0.id,
                p.target == pl0.target,
                p.visible_range == pl0.visible_range,
            decreases orig_len - i,
        {
            if p.cells.len() < MAX_SPLIT_NUM {
                let mut c = p.cells[i];
                let ghost cells0 = p.cells@;
                let r = c.split(now);
                if let Some(nc) = r {
                    p.cells.set(i, c);
                    p.cells.push(nc);
                    proof {
                        crate::player::lemma_sum_mass_update(cells0, i as int, c);
                        crate::player::lemma_sum_mass_push(cells0.update(i as int, c), nc);
                        crate::physics::lemma_radius_range((cells0[i as int].mass - cells0[
                            i as int
                        ].mass / 2) as nat);
                        crate::physics::lemma_radius_range((cells0[i as int].mass / 2) as nat);
                        assert(c == split_kept(cells0[i as int], now));
                        assert(nc == split_twin(cells0[i as int], now));
                        assert(p.cells@ == cells0.update(i as int, split_kept(cells0[i as int], now)).push(
                            split_twin(cells0[i as int], now),
                        ));
                    }
                } else {
                    proof {
                        assert(cells0[i as int].mass < 2 * DEFAULT_MASS);
                    }
                }
            }
            i = i + 1;
        }
        proof {
            assert(split_round(p.cells@, orig_len as int, i as int, now) == p.cells@);
        }
        self.players.insert(idx, p);
        proof {
            assert(self.players@ =~= pre.update(idx as int, self.players@[idx as int]));
            assert(pre_cells.len() == orig_len);
            assert(split_applied(pre, self.players@, idx as int, now));
            assert forall|a: int, b: int|
                0 <= a < b < self.players@.len() implies (#[trigger] self.players@[a]).id@ != (
            #[trigger] self.players@[b]).id@ by {
                assert(pre[a].id@ != pre[b].id@);
            }
        }
    }
}


/// The scoreboard entry a player yields: its identity and its total mass in
/// whole world units, saturated at the 32-bit range.
pub open spec fn spec_score(p: Player) -> u32 {
    let m = sum_mass(p.cells@) / 1000;
    if m > u32::MAX {
        u32::MAX
    } else {
        m as u32
    }
}

/// `r` lists exactly the players' scoreboard entries, reordered by `perm`.
pub open spec fn scores_match(players: Seq<Player>, r: Seq<(String, u32)>, perm: Seq<int>) -> bool {
    &&& perm.len() == players.len()
    &&& r.len() == players.len()
    &&& forall|k: int| 0 <= k < perm.len() ==> 0 <= #[trigger] perm[k] < players.len()
    &&& forall|k1: int, k2: int| 0 <= k1 < k2 < perm.len() ==> perm[k1] != perm[k2]
    &&& forall|k: int|
        0 <= k < r.len() ==> (#[trigger] r[k]).0@ == players[perm[k]].id@ && r[k].1 == spec_score(
            players[perm[k]],
        )
}

impl Game {
    /// The scoreboard: every player's identity with its whole-unit mass,
    /// sorted by descending mass. The result is a permutation of the players'
    /// entries.
    #[verifier::loop_isolation(false)]
    pub fn get_scores(&self) -> (r: Vec<(String, u32)>)
        requires
            self.wf(),
        ensures
            r.len() == self.players.len(),
            forall|k1: int, k2: int| 0 <= k1 < k2 < r.len() ==> r[k1].1 >= r[k2].1,
            exists|perm: Seq<int>| scores_match(self.players@, r@, perm),
    {
        let n: usize = self.players.len();
        let mut out: Vec<(String, u32)> = Vec::new();
        let ghost mut perm: Seq<int> = Seq::empty();
        let mut i: usize = 0;
        while i < n
            invariant
                i <= n,
                out.len() == i,
                perm.len() == i,
                forall|k: int| 0 <= k < i ==> #[trigger] perm[k] == k,
                forall|k: int|
                    0 <= k < i ==> (#[trigger] out[k]).0@ == self.players[perm[k]].id@ && out[k].1
                        == spec_score(self.players[perm[k]]),
            decreases n - i,
        {
            let m: u64 = self.players[i].mass();
            let sc: u64 = m / 1000;
            let sc32: u32 = if sc > 0xffff_ffff {
                0xffff_ffff
            } else {
                sc as u32
            };
            out.push((self.players[i].id.clone(), sc32));
            proof {
                perm = perm.push(i as int);
            }
            i = i + 1;
        }
        // Selection sort by descending score: repeatedly pull the largest
        // remaining entry to the front of the unsorted suffix.
        let mut k: usize = 0;
        while k < n
            invariant
                k <= n,
                out.len() == n,
                perm.len() == n,
                forall|t: int| 0 <= t < n ==> 0 <= #[trigger] perm[t] < n,
                forall|t1: int, t2: int| 0 <= t1 < t2 < n ==> perm[t1] != perm[t2],
                forall|t: int|
                    0 <= t < n ==> (#[trigger] out[t]).0@ == self.players[perm[t]].id@ && out[t].1
                        == spec_score(self.players[perm[t]]),
                forall|a: int, b: int| 0 <= a < b < k ==> out[a].1 >= out[b].1,
                forall|a: int, b: int| 0 <= a < k && k <= b < n ==> out[a].1 >= out[b].1,
            decreases n - k,
        {
            let mut best: usize = k;
            let mut j: usize = k + 1;
            while j < n
                invariant
                    k <= best < j <= n,
                    out.len() == n,
                    forall|t: int| k <= t < j ==> out[best as int].1 >= (#[trigger] out[t]).1,
                decreases n - j,
            {
                if out[j].1 > out[best].1 {
                    best = j;
                }
                j = j + 1;
            }
            let ghost out0 = out@;
            let ghost perm0 = perm;
            let chosen = out.remove(best);
            out.insert(k, chosen);
            proof {
                perm = perm.remove(best as int).insert(k as int, perm0[best as int]);
                assert forall|t: int| 0 <= t < n implies (#[trigger] out@[t]) == (if t < k {
                    out0[t]
                } else if t == k {
                    out0[best as int]
                } else if t <= best {
                    out0[t - 1]
                } else {
                    out0[t]
                }) && (#[trigger] perm[t]) == (if t < k {
                    perm0[t]
                } else if t == k {
                    perm0[best as int]
                } else if t <= best {
                    perm0[t - 1]
                } else {
                    perm0[t]
                }) by {}
                assert forall|t1: int, t2: int| 0 <= t1 < t2 < n implies perm[t1] != perm[t2] by {
                    let m1 = if t1 < k { t1 } else if t1 == k { best as int } else if t1 <= best { t1 - 1 } else { t1 };
                    let m2 = if t2 < k { t2 } else if t2 == k { best as int } else if t2 <= best { t2 - 1 } else { t2 };
                    assert(perm[t1] == perm0[m1] && perm[t2] == perm0[m2]);
                    assert(m1 != m2);
                }
            }
            k = k + 1;
        }
        proof {
            assert(scores_match(self.players@, out@, perm));
        }
        out
    }
}


/// Border clamping of one coordinate: the upper bound is applied first, then
/// the lower, so a world too small for the padding leaves the cell at the
/// padding.
pub open spec fn spec_clamp_coord(v: int, pad: int, limit: int) -> int {
    let v1 = if v > limit - pad {
        limit - pad
    } else {
        v
    };
    if v1 < pad {
        pad
    } else {
        v1
    }
}

/// Momentum decays by one step toward its floor each movement tick.
pub open spec fn spec_decay(m: int) -> int {
    let m1 = if m > 1000 {
        m - 700
    } else {
        m
    };
    if m1 < 1000 {
        1000
    } else {
        m1
    }
}

/// The displacement a cell takes toward the steering vector `(hx, hy)`:
/// its speed along that heading, components rounded toward zero.
pub open spec fn spec_steer_delta(mass: nat, momentum: nat, hx: int, hy: int) -> (int, int) {
    let d2 = hx * hx + hy * hy;
    let dist = crate::physics::sqrt_floor(d2 as nat);
    if dist == 0 {
        (0, 0)
    } else {
        let sp = crate::physics::spec_speed(mass, momentum, dist);
        let dx = if hx >= 0 {
            sp * hx / (dist as int)
        } else {
            -(sp * (-hx) / (dist as int))
        };
        let dy = if hy >= 0 {
            sp * hy / (dist as int)
        } else {
            -(sp * (-hy) / (dist as int))
        };
        (dx, dy)
    }
}

/// One movement integration step of a single cell steering toward the vector
/// `(hx, hy)`: advance by the speed along the heading, decay momentum, then
/// clamp to the world border with a third of the radius as padding.
pub fn step_cell(c: &mut PlayerCell, hx: i64, hy: i64)
    requires
        old(c).wf(),
        -900_000_000 <= hx <= 900_000_000,
        -900_000_000 <= hy <= 900_000_000,
    ensures
        final(c).wf(),
        final(c).mass == old(c).mass,
        final(c).radius == old(c).radius,
        final(c).hue == old(c).hue,
        final(c).last_split == old(c).last_split,
        final(c).momentum == spec_decay(old(c).momentum as int),
        final(c).pos.x == spec_clamp_coord(
            old(c).pos.x + spec_steer_delta(old(c).mass as nat, old(c).momentum as nat, hx as int, hy as int).0,
            old(c).radius as int / 3,
            GAME_WIDTH as int,
        ),
        final(c).pos.y == spec_clamp_coord(
            old(c).pos.y + spec_steer_delta(old(c).mass as nat, old(c).momentum as nat, hx as int, hy as int).1,
            old(c).radius as int / 3,
            GAME_HEIGHT as int,
        ),
{
    proof {
        crate::physics::lemma_radius_range(old(c).mass as nat);
    }
    let ax: u64 = if hx >= 0 {
        hx as u64
    } else {
        (-hx) as u64
    };
    let ay: u64 = if hy >= 0 {
        hy as u64
    } else {
        (-hy) as u64
    };
    proof {
        assert(ax * ax + ay * ay == (hx as int) * (hx as int) + (hy as int) * (hy as int) && ax * ax
            + ay * ay <= 0x8000_0000_0000_0000) by (nonlinear_arith)
            requires
                0 <= ax <= 900_000_000,
                0 <= ay <= 900_000_000,
                ax == if hx >= 0 { hx as int } else { -(hx as int) },
                ay == if hy >= 0 { hy as int } else { -(hy as int) },
        {}
    }
    let dist: u64 = isqrt(ax * ax + ay * ay);
    let mut dx: i64 = 0;
    let mut dy: i64 = 0;
    if dist > 0 {
        let sp: u64 = crate::physics::speed(c.mass, c.momentum, dist);
        proof {
            assert(sp * ax <= 30_000 * 900_000_000) by (nonlinear_arith)
                requires
                    sp <= 30_000,
                    ax <= 900_000_000,
            {}
            assert(sp * ay <= 30_000 * 900_000_000) by (nonlinear_arith)
                requires
                    sp <= 30_000,
                    ay <= 900_000_000,
            {}
        }
        let dxm: u64 = sp * ax / dist;
        let dym: u64 = sp * ay / dist;
        proof {
            vstd::arithmetic::div_mod::lemma_div_is_ordered(0, (sp * ax) as int, dist as int);
            vstd::arithmetic::div_mod::lemma_div_is_ordered(
                (sp * ax) as int,
                27_000_000_000_000,
                dist as int,
            );
            vstd::arithmetic::div_mod::lemma_div_is_ordered(0, (sp * ay) as int, dist as int);
            vstd::arithmetic::div_mod::lemma_div_is_ordered(
                (sp * ay) as int,
                27_000_000_000_000,
                dist as int,
            );
        }
        dx = if hx >= 0 {
            dxm as i64
        } else {
            -(dxm as i64)
        };
        dy = if hy >= 0 {
            dym as i64
        } else {
            -(dym as i64)
        };
    }
    let mut nx: i64 = c.pos.x + dx;
    let mut ny: i64 = c.pos.y + dy;
    // momentum decay
    if c.momentum > 1000 {
        c.momentum = c.momentum - 700;
    }
    if c.momentum < 1000 {
        c.momentum = 1000;
    }
    // border padding
    let pad: i64 = (c.radius / 3) as i64;
    if nx > GAME_WIDTH as i64 - pad {
        nx = GAME_WIDTH as i64 - pad;
    }
    if ny > GAME_HEIGHT as i64 - pad {
        ny = GAME_HEIGHT as i64 - pad;
    }
    if nx < pad {
        nx = pad;
    }
    if ny < pad {
        ny = pad;
    }
    c.pos = Position { x: nx, y: ny };
}

/// Squared-distance overlap test between two cells' circles.
pub open spec fn spec_overlap(a: PlayerCell, b: PlayerCell) -> bool {
    dist2(a.pos.x as int, a.pos.y as int, b.pos.x as int, b.pos.y as int) < (a.radius + b.radius) * (
    a.radius + b.radius)
}

/// Tight overlap: center distance under the radii sum divided by 1.75, i.e.
/// `49 * dist^2 < 16 * total^2`.
pub open spec fn spec_tight_overlap(a: PlayerCell, b: PlayerCell) -> bool {
    49 * dist2(a.pos.x as int, a.pos.y as int, b.pos.x as int, b.pos.y as int) < 16 * ((a.radius
        + b.radius) * (a.radius + b.radius))
}

/// Mass addition saturating at the fixed-point range cap.
pub open spec fn spec_mass_plus(a: int, b: int) -> int {
    if a + b <= MASS_LIMIT {
        a + b
    } else {
        MASS_LIMIT as int
    }
}

/// When the merge scan, reading cell `a` against cell `b`, lets `a` absorb
/// `b`: `a` is at least as heavy, the circles overlap, both split cooldowns
/// have elapsed, and the overlap is tight.
pub open spec fn spec_merges(a: PlayerCell, b: PlayerCell, now: u64) -> bool {
    &&& a.mass >= b.mass
    &&& spec_overlap(a, b)
    &&& a.spec_can_merge(now)
    &&& b.spec_can_merge(now)
    &&& spec_tight_overlap(a, b)
}

/// Merging demands a clear cooldown: two cells stamped by a split, with the
/// cooldown still running on the clock, never merge, however tightly they
/// overlap.
pub proof fn lemma_siblings_on_cooldown_never_merge(a: PlayerCell, b: PlayerCell, now: u64, t: u64)
    requires
        a.last_split == Some(t),
        b.last_split == Some(t),
        t <= now,
        now - t <= crate::consts::MERGE_TIME_MS,
    ensures
        !spec_merges(a, b, now),
        !spec_merges(b, a, now),
{
}

/// Merging demands no more than the cooldown and tight overlap: once both
/// cooldowns have elapsed and the cells sit in tight overlap, the pair
/// merges, absorbed by whichever cell the scan reads first among the
/// heavier-or-equal ones.
pub proof fn lemma_cooldown_clear_tight_overlap_merges(a: PlayerCell, b: PlayerCell, now: u64)
    requires
        a.spec_can_merge(now),
        b.spec_can_merge(now),
        spec_tight_overlap(a, b),
    ensures
        a.mass >= b.mass ==> spec_merges(a, b, now),
        b.mass >= a.mass ==> spec_merges(b, a, now),
        spec_merges(a, b, now) || spec_merges(b, a, now),
{
    let ax = a.pos.x as int;
    let ay = a.pos.y as int;
    let bx = b.pos.x as int;
    let by0 = b.pos.y as int;
    let d2 = dist2(ax, ay, bx, by0);
    let tt = (a.radius + b.radius) * (a.radius + b.radius);
    assert(d2 == (ax - bx) * (ax - bx) + (ay - by0) * (ay - by0));
    assert(0 <= (ax - bx) * (ax - bx) + (ay - by0) * (ay - by0)) by (nonlinear_arith);
    assert(d2 < tt) by (nonlinear_arith)
        requires
            49 * d2 < 16 * tt,
            0 <= d2,
    {}
    assert((bx - ax) * (bx - ax) + (by0 - ay) * (by0 - ay) == (ax - bx) * (ax - bx) + (ay - by0) * (
    ay - by0)) by (nonlinear_arith);
    assert(dist2(bx, by0, ax, ay) == d2);
    assert((b.radius + a.radius) as int * ((b.radius + a.radius) as int) == tt);
}

/// The absorbing cell after a merge: masses added (saturating), radius
/// rederived, cooldown cleared.
pub open spec fn spec_absorbed(a: PlayerCell, b: PlayerCell) -> PlayerCell {
    PlayerCell {
        mass: spec_mass_plus(a.mass as int, b.mass as int) as u64,
        radius: crate::physics::spec_mass_to_radius(
            spec_mass_plus(a.mass as int, b.mass as int) as nat,
        ) as u64,
        last_split: None,
        ..a
    }
}

/// The scanning cell after a repulsion nudge: one world unit away from the
/// partner on each axis, clamped to the coordinate range.
pub open spec fn spec_repelled(a: PlayerCell, b: PlayerCell) -> PlayerCell {
    let nx = if a.pos.x < b.pos.x {
        a.pos.x - 1000
    } else {
        a.pos.x + 1000
    };
    let ny = if a.pos.y < b.pos.y {
        a.pos.y - 1000
    } else {
        a.pos.y + 1000
    };
    let cx = if nx < 0 {
        0
    } else if nx > POS_MAX {
        POS_MAX as int
    } else {
        nx as int
    };
    let cy = if ny < 0 {
        0
    } else if ny > POS_MAX {
        POS_MAX as int
    } else {
        ny as int
    };
    PlayerCell { pos: Position { x: cx as i64, y: cy as i64 }, ..a }
}

/// One pair step of the merge scan, cell `i` scanning cell `j`: merge when
/// `spec_merges` holds; nudge apart when they overlap, `i` is at least as
/// heavy, and a cooldown still runs; otherwise nothing.
pub open spec fn spec_pair_step(cells: Seq<PlayerCell>, i: int, j: int, now: u64) -> (
    Seq<PlayerCell>,
    bool,
) {
    let a = cells[i];
    let b = cells[j];
    if spec_merges(a, b, now) {
        (cells.update(i, spec_absorbed(a, b)).remove(j), true)
    } else if a.mass >= b.mass && spec_overlap(a, b) && !(a.spec_can_merge(now)
        && b.spec_can_merge(now)) {
        (cells.update(i, spec_repelled(a, b)), false)
    } else {
        (cells, false)
    }
}

/// The inner scan of cell `i` against the cells from `j` on, as the movement
/// phase runs it: on a merge the scan stays at `j` (the next cell shifted
/// in) and `i` shifts down when the removed cell was before it.
pub open spec fn spec_scan_from(cells: Seq<PlayerCell>, i: int, j: int, now: u64) -> (
    Seq<PlayerCell>,
    int,
)
    decreases cells.len() - j,
{
    if i < 0 || i >= cells.len() || j < 0 || j >= cells.len() {
        (cells, i)
    } else if j == i {
        spec_scan_from(cells, i, j + 1, now)
    } else {
        let r = spec_pair_step(cells, i, j, now);
        if r.1 {
            let i2 = if j < i {
                i - 1
            } else {
                i
            };
            spec_scan_from(r.0, i2, j, now)
        } else {
            spec_scan_from(r.0, i, j + 1, now)
        }
    }
}

/// The whole merge/repulsion scan: every cell in turn scans all the others.
pub open spec fn spec_merge_scan(cells: Seq<PlayerCell>, i: int, now: u64) -> Seq<PlayerCell>
    decreases cells.len() - i,
    via spec_merge_scan_decreases
{
    if i < 0 || i >= cells.len() {
        cells
    } else {
        let r = spec_scan_from(cells, i, 0, now);
        spec_merge_scan(r.0, r.1 + 1, now)
    }
}

/// The inner scan never grows the room left to scan: the cell count shrinks
/// in step with the scanning index.
pub proof fn lemma_scan_from_measure(cells: Seq<PlayerCell>, i: int, j: int, now: u64)
    ensures
        spec_scan_from(cells, i, j, now).0.len() - spec_scan_from(cells, i, j, now).1 <= cells.len()
            - i,
        0 <= i < cells.len() ==> 0 <= spec_scan_from(cells, i, j, now).1 < spec_scan_from(
            cells,
            i,
            j,
            now,
        ).0.len(),
    decreases cells.len() - j,
{
    if i < 0 || i >= cells.len() || j < 0 || j >= cells.len() {
    } else if j == i {
        lemma_scan_from_measure(cells, i, j + 1, now);
    } else {
        let r = spec_pair_step(cells, i, j, now);
        if r.1 {
            let i2 = if j < i {
                i - 1
            } else {
                i
            };
            assert(r.0.len() == cells.len() - 1);
            lemma_scan_from_measure(r.0, i2, j, now);
        } else {
            assert(r.0.len() == cells.len());
            lemma_scan_from_measure(r.0, i, j + 1, now);
        }
    }
}

#[via_fn]
proof fn spec_merge_scan_decreases(cells: Seq<PlayerCell>, i: int, now: u64) {
    if 0 <= i < cells.len() {
        lemma_scan_from_measure(cells, i, 0, now);
    }
}

/// One same-player pair interaction of the merge scan, scanning cell `i`
/// against cell `j`. Nothing happens unless `i`'s mass is at least `j`'s and
/// the circles overlap. Then: with both split cooldowns clear and the overlap
/// tight, `i` absorbs `j` (masses added, cooldown cleared on the survivor)
/// and `j` is removed; with a cooldown still running, `i` is nudged one world
/// unit away from `j` on each axis instead.
pub fn merge_step(cells: &mut Vec<PlayerCell>, i: usize, j: usize, now: u64) -> (merged: bool)
    requires
        forall|k: int| 0 <= k < old(cells).len() ==> (#[trigger] old(cells)[k]).wf(),
        i < old(cells).len(),
        j < old(cells).len(),
        i != j,
        old(cells).len() <= MAX_SPLIT_NUM,
    ensures
        forall|k: int| 0 <= k < final(cells).len() ==> (#[trigger] final(cells)[k]).wf(),
        merged <==> spec_merges(old(cells)[i as int], old(cells)[j as int], now),
        final(cells)@ == spec_pair_step(old(cells)@, i as int, j as int, now).0,
        merged == spec_pair_step(old(cells)@, i as int, j as int, now).1,
        sum_mass(final(cells)@) <= sum_mass(old(cells)@),
        sum_mass(old(cells)@) <= MASS_LIMIT ==> sum_mass(final(cells)@) == sum_mass(old(cells)@),
{
    proof {
        crate::player::lemma_sums_bounded(cells@);
        if i < j {
            crate::player::lemma_sum_mass_pair(cells@, i as int, j as int);
        } else {
            crate::player::lemma_sum_mass_pair(cells@, j as int, i as int);
        }
        crate::physics::lemma_radius_range(cells@[i as int].mass as nat);
        crate::physics::lemma_radius_range(cells@[j as int].mass as nat);
    }
    let a = cells[i];
    let b = cells[j];
    let ddx: i64 = if a.pos.x >= b.pos.x {
        a.pos.x - b.pos.x
    } else {
        b.pos.x - a.pos.x
    };
    let ddy: i64 = if a.pos.y >= b.pos.y {
        a.pos.y - b.pos.y
    } else {
        b.pos.y - a.pos.y
    };
    proof {
        assert(ddx * ddx + ddy * ddy == dist2(
            a.pos.x as int,
            a.pos.y as int,
            b.pos.x as int,
            b.pos.y as int,
        ) && 0 <= ddx * ddx + ddy * ddy <= 180_000_000_000_000_000) by (nonlinear_arith)
            requires
                0 <= ddx <= 300_000_000,
                0 <= ddy <= 300_000_000,
                ddx == if a.pos.x >= b.pos.x { a.pos.x - b.pos.x } else { b.pos.x - a.pos.x },
                ddy == if a.pos.y >= b.pos.y { a.pos.y - b.pos.y } else { b.pos.y - a.pos.y },
        {}
        assert((a.radius + b.radius) * (a.radius + b.radius) <= 2_560_000_000_000_000_000) by (
        nonlinear_arith)
            requires
                a.radius <= 800_000_000,
                b.radius <= 800_000_000,
        {}
    }
    let d2: u64 = (ddx * ddx + ddy * ddy) as u64;
    let total: u64 = a.radius + b.radius;
    if a.mass < b.mass {
        return false;
    }
    if !(d2 < total * total) {
        return false;
    }
    if a.can_merge(now) && b.can_merge(now) {
        if (49 as u128) * (d2 as u128) < (16 as u128) * ((total * total) as u128) {
            // absorb: the scanning cell survives with the combined mass
            let combined: u64 = if a.mass + b.mass <= MASS_LIMIT {
                a.mass + b.mass
            } else {
                MASS_LIMIT
            };
            let mut survivor = a;
            survivor.update_mass(combined);
            survivor.last_split = None;
            let ghost cells0 = cells@;
            cells.set(i, survivor);
            let _consumed = cells.remove(j);
            proof {
                crate::player::lemma_sum_mass_update(cells0, i as int, survivor);
                crate::player::lemma_sum_mass_remove(cells0.update(i as int, survivor), j as int);
                assert(cells0.update(i as int, survivor)[j as int] == cells0[j as int]);
            }
            return true;
        }
        false
    } else {
        // repel: nudge the scanning cell one unit per axis, clamped to the world
        let mut moved = a;
        let mut mx: i64 = if a.pos.x < b.pos.x {
            a.pos.x - 1000
        } else {
            a.pos.x + 1000
        };
        let mut my: i64 = if a.pos.y < b.pos.y {
            a.pos.y - 1000
        } else {
            a.pos.y + 1000
        };
        if mx < 0 {
            mx = 0;
        }
        if mx > POS_MAX {
            mx = POS_MAX;
        }
        if my < 0 {
            my = 0;
        }
        if my > POS_MAX {
            my = POS_MAX;
        }
        moved.pos = Position { x: mx, y: my };
        let ghost cells0 = cells@;
        cells.set(i, moved);
        proof {
            crate::player::lemma_sum_mass_update(cells0, i as int, moved);
        }
        false
    }
}


/// A cell after one movement integration step toward the heading `(hx, hy)`.
pub open spec fn spec_stepped(c: PlayerCell, hx: int, hy: int) -> PlayerCell {
    let d = spec_steer_delta(c.mass as nat, c.momentum as nat, hx, hy);
    PlayerCell {
        pos: Position {
            x: spec_clamp_coord(c.pos.x + d.0, c.radius as int / 3, GAME_WIDTH as int) as i64,
            y: spec_clamp_coord(c.pos.y + d.1, c.radius as int / 3, GAME_HEIGHT as int) as i64,
        },
        momentum: spec_decay(c.momentum as int) as u64,
        ..c
    }
}

/// A player's cells after movement integration: with a target set, every
/// cell steers toward `centroid + target`; without one, nothing moves.
pub open spec fn spec_moved_cells(cells: Seq<PlayerCell>, target: Option<Position>) -> Seq<
    PlayerCell,
> {
    match target {
        None => cells,
        Some(t) => {
            let cx = crate::player::sum_x(cells) / (cells.len() as int);
            let cy = crate::player::sum_y(cells) / (cells.len() as int);
            Seq::new(
                cells.len(),
                |k: int|
                    spec_stepped(
                        cells[k],
                        cx + t.x - cells[k].pos.x,
                        cy + t.y - cells[k].pos.y,
                    ),
            )
        },
    }
}

/// The same-player merge/repulsion scan: cells are scanned pairwise in list
/// order; a scanning cell with strictly lower mass than its partner is never
/// the absorber, so the outcome is deterministic. Total mass is conserved
/// while it fits the fixed-point range.
#[verifier::loop_isolation(false)]
fn merge_player_cells(cells: &mut Vec<PlayerCell>, now: u64)
    requires
        forall|k: int| 0 <= k < old(cells).len() ==> (#[trigger] old(cells)[k]).wf(),
        1 <= old(cells).len() <= MAX_SPLIT_NUM,
    ensures
        forall|k: int| 0 <= k < final(cells).len() ==> (#[trigger] final(cells)[k]).wf(),
        1 <= final(cells).len() <= old(cells).len(),
        final(cells)@ == spec_merge_scan(old(cells)@, 0, now),
        sum_mass(final(cells)@) <= sum_mass(old(cells)@),
        sum_mass(old(cells)@) <= MASS_LIMIT ==> sum_mass(final(cells)@) == sum_mass(old(cells)@),
{
    let ghost cells0 = old(cells)@;
    let mut i: usize = 0;
    while i < cells.len()
        invariant
            i <= cells.len(),
            1 <= cells.len() <= old(cells).len(),
            forall|k: int| 0 <= k < cells.len() ==> (#[trigger] cells[k]).wf(),
            spec_merge_scan(cells0, 0, now) == spec_merge_scan(cells@, i as int, now),
            sum_mass(cells@) <= sum_mass(old(cells)@),
            sum_mass(old(cells)@) <= MASS_LIMIT ==> sum_mass(cells@) == sum_mass(old(cells)@),
        decreases cells.len() - i,
    {
        let ghost len_at_entry = cells.len();
        let ghost i_at_entry = i;
        let mut j: usize = 0;
        proof {
            assert(spec_merge_scan(cells@, i as int, now) == {
                let r = spec_scan_from(cells@, i as int, 0, now);
                spec_merge_scan(r.0, r.1 + 1, now)
            });
        }
        while j < cells.len()
            invariant
                i < cells.len(),
                j <= cells.len(),
                1 <= cells.len() <= old(cells).len(),
                cells.len() - i <= len_at_entry - i_at_entry,
                forall|k: int| 0 <= k < cells.len() ==> (#[trigger] cells[k]).wf(),
                spec_merge_scan(cells0, 0, now) == {
                    let r = spec_scan_from(cells@, i as int, j as int, now);
                    spec_merge_scan(r.0, r.1 + 1, now)
                },
                sum_mass(cells@) <= sum_mass(old(cells)@),
                sum_mass(old(cells)@) <= MASS_LIMIT ==> sum_mass(cells@) == sum_mass(old(cells)@),
            decreases cells.len() - j,
        {
            if j != i {
                let ghost pre = cells@;
                let merged = merge_step(cells, i, j, now);
                proof {
                    assert(spec_scan_from(pre, i as int, j as int, now) == (if merged {
                        let i2: int = if j < i {
                            i - 1
                        } else {
                            i as int
                        };
                        spec_scan_from(cells@, i2, j as int, now)
                    } else {
                        spec_scan_from(cells@, i as int, j as int + 1, now)
                    }));
                }
                if merged {
                    if j < i {
                        i = i - 1;
                    }
                } else {
                    j = j + 1;
                }
            } else {
                proof {
                    assert(spec_scan_from(cells@, i as int, j as int, now) == spec_scan_from(
                        cells@,
                        i as int,
                        j as int + 1,
                        now,
                    ));
                }
                j = j + 1;
            }
        }
        proof {
            assert(spec_scan_from(cells@, i as int, cells@.len() as int, now) == (cells@, i as int));
        }
        i = i + 1;
    }
    proof {
        assert(spec_merge_scan(cells@, cells@.len() as int, now) == cells@);
    }
}

impl Game {
    /// The movement phase: every cell of every player with a target steers
    /// toward `centroid + target`, advances by its speed, decays momentum and
    /// is clamped to the world border; players without a target hold still.
    /// Afterward every player's cells run one merge/repulsion scan. Player
    /// count and identities are untouched; each player's total mass is
    /// conserved while it fits the fixed-point range.
    #[verifier::loop_isolation(false)]
    pub fn move_players(&mut self, now: u64)
        requires
            old(self).wf(),
        ensures
            final(self).wf(),
            final(self).players.len() == old(self).players.len(),
            forall|i: int|
                0 <= i < old(self).players.len() ==> (#[trigger] final(self).players[i]).id == old(
                    self,
                ).players[i].id && final(self).players[i].target == old(self).players[i].target
                    && final(self).players[i].visible_range == old(self).players[i].visible_range
                    && final(self).players[i].cells.len() <= old(self).players[i].cells.len(),
            forall|i: int|
                0 <= i < old(self).players.len() && sum_mass(
                    (#[trigger] old(self).players[i]).cells@,
                ) <= MASS_LIMIT ==> sum_mass(final(self).players[i].cells@) == sum_mass(
                    old(self).players[i].cells@,
                ),
            forall|i: int|
                0 <= i < old(self).players.len() ==> (#[trigger] final(self).players[i]).cells@
                    == spec_merge_scan(
                    spec_moved_cells(old(self).players[i].cells@, old(self).players[i].target),
                    0,
                    now,
                ),
            final(self).food == old(self).food,
            final(self).tickets == old(self).tickets,
            final(self).food_stack == old(self).food_stack,
    {
        let mut pi: usize = 0;
        while pi < self.players.len()
            invariant
                pi <= self.players.len(),
                self.players.len() == old(self).players.len(),
                self.food == old(self).food,
                self.tickets == old(self).tickets,
                self.food_stack == old(self).food_stack,
                forall|k: int|
                    pi <= k < self.players.len() ==> #[trigger] self.players[k] == old(
                        self,
                    ).players[k],
                forall|k: int|
                    0 <= k < pi ==> (#[trigger] self.players[k]).id == old(self).players[k].id && (
                    self.players[k]).target == old(self).players[k].target && (
                    self.players[k]).visible_range == old(self).players[k].visible_range && (
                    self.players[k]).cells.len() <= old(self).players[k].cells.len() && (
                    self.players[k]).wf(),
                forall|k: int|
                    0 <= k < pi && sum_mass((#[trigger] old(self).players[k]).cells@) <= MASS_LIMIT
                        ==> sum_mass(self.players[k].cells@) == sum_mass(old(self).players[k].cells@),
                forall|k: int|
                    0 <= k < pi && sum_mass((#[trigger] old(self).players[k]).cells@) > MASS_LIMIT
                        ==> sum_mass(self.players[k].cells@) <= sum_mass(old(self).players[k].cells@),
                forall|k: int|
                    0 <= k < pi ==> (#[trigger] self.players[k]).cells@ == spec_merge_scan(
                        spec_moved_cells(old(self).players[k].cells@, old(self).players[k].target),
                        0,
                        now,
                    ),
            decreases self.players.len() - pi,
        {
            let ghost pre_players = self.players@;
            let mut p = self.players.remove(pi);
            let ghost p0 = p;
            match p.target {
                Some(t) => {
                    let center = p.position();
                    let ghost moved = spec_moved_cells(p0.cells@, p0.target);
                    let mut ci: usize = 0;
                    while ci < p.cells.len()
                        invariant
                            ci <= p.cells.len(),
                            p.cells.len() == p0.cells.len(),
                            p.id == p0.id,
                            p.target == p0.target,
                            p.visible_range == p0.visible_range,
                            forall|k: int| 0 <= k < p.cells.len() ==> (#[trigger] p.cells[k]).wf(),
                            forall|k: int| ci <= k < p.cells.len() ==> p.cells[k] == p0.cells[k],
                            forall|k: int| 0 <= k < ci ==> p.cells[k] == moved[k],
                            forall|k: int|
                                0 <= k < p.cells.len() ==> (#[trigger] p.cells[k]).mass
                                    == p0.cells[k].mass,
                            -300_000_000 <= t.x <= 300_000_000,
                            -300_000_000 <= t.y <= 300_000_000,
                            0 <= center.x <= 300_000_000,
                            0 <= center.y <= 300_000_000,
                            center.x as int == crate::player::sum_x(p0.cells@) / (
                            p0.cells@.len() as int),
                            center.y as int == crate::player::sum_y(p0.cells@) / (
                            p0.cells@.len() as int),
                        decreases p.cells.len() - ci,
                    {
                        let mut c = p.cells[ci];
                        let hx: i64 = center.x + t.x - c.pos.x;
                        let hy: i64 = center.y + t.y - c.pos.y;
                        let ghost cells0 = p.cells@;
                        step_cell(&mut c, hx, hy);
                        p.cells.set(ci, c);
                        proof {
                            assert(cells0[ci as int] == p0.cells@[ci as int]);
                            assert(c == spec_stepped(p0.cells@[ci as int], hx as int, hy as int));
                            assert(moved[ci as int] == spec_stepped(
                                p0.cells@[ci as int],
                                center.x as int + t.x - p0.cells@[ci as int].pos.x,
                                center.y as int + t.y - p0.cells@[ci as int].pos.y,
                            ));
                            assert(p.cells@[ci as int] == moved[ci as int]);
                            assert forall|k: int|
                                0 <= k < p.cells.len() implies (#[trigger] p.cells[k]).mass
                                == p0.cells[k].mass by {
                                if k != ci {
                                    assert(p.cells[k] == cells0[k]);
                                }
                            }
                        }
                        ci = ci + 1;
                    }
                    proof {
                        crate::player::lemma_sum_mass_eq_pointwise(p.cells@, p0.cells@);
                        assert(p.cells@ =~= moved);
                    }
                },
                None => {
                    proof {
                        assert(p.cells@ == spec_moved_cells(p0.cells@, p0.target));
                    }
                },
            }
            merge_player_cells(&mut p.cells, now);
            self.players.insert(pi, p);
            proof {
                assert(self.players@ =~= pre_players.update(pi as int, self.players@[pi as int]));
                assert(pre_players[pi as int] == old(self).players@[pi as int]);
            }
            pi = pi + 1;
        }
        proof {
            assert forall|a: int, b: int|
                0 <= a < b < self.players@.len() implies (#[trigger] self.players@[a]).id@ != (
            #[trigger] self.players@[b]).id@ by {
                assert(self.players[a].id == old(self).players[a].id);
                assert(self.players[b].id == old(self).players[b].id);
                assert(old(self).players[a].id@ != old(self).players[b].id@);
            }
        }
    }
}


/// A frozen view of one player cell for a collision pass: its geometry plus
/// the handle (owner index, cell index) it came from.
#[derive(Clone, Copy)]
pub struct CellSnap {
    pub pos: Position,
    pub mass: u64,
    pub radius: u64,
    pub hue: u16,
    pub owner: usize,
    pub cell: usize,
}

impl PositionTrait for CellSnap {
    open spec fn sx(&self) -> int {
        self.pos.x as int
    }

    open spec fn sy(&self) -> int {
        self.pos.y as int
    }

    fn position(&self) -> (p: Position) {
        self.pos
    }
}

impl crate::entity::ToBytes for CellSnap {
    open spec fn bytes_spec(&self) -> Seq<u8> {
        vstd::bytes::spec_u32_to_le_bytes(self.pos.x as u32) + vstd::bytes::spec_u32_to_le_bytes(
            self.pos.y as u32,
        ) + vstd::bytes::spec_u32_to_le_bytes(self.radius as u32) + seq![crate::entity::hue_byte(
            self.hue,
        )]
    }

    fn to_bytes(&self) -> (b: Vec<u8>) {
        let mut b = vstd::bytes::u32_to_le_bytes(#[verifier::truncate] (self.pos.x as u32));
        let mut yb = vstd::bytes::u32_to_le_bytes(#[verifier::truncate] (self.pos.y as u32));
        let mut rb = vstd::bytes::u32_to_le_bytes(#[verifier::truncate] (self.radius as u32));
        b.append(&mut yb);
        b.append(&mut rb);
        let hb: u8 = if self.hue > 255 {
            255
        } else {
            self.hue as u8
        };
        b.push(hb);
        proof {
            assert(b@ =~= self.bytes_spec());
        }
        b
    }
}

/// `snaps` lists every cell of every player, player by player, cell by cell;
/// `base[i]` is where player `i`'s cells start.
pub open spec fn snaps_match(players: Seq<Player>, snaps: Seq<CellSnap>, base: Seq<usize>) -> bool {
    &&& base.len() == players.len()
    &&& forall|i: int|
        0 <= i < players.len() ==> 0 <= #[trigger] base[i] && base[i] + players[i].cells.len()
            <= snaps.len()
    &&& forall|i: int, j: int|
        0 <= i < players.len() && 0 <= j < (#[trigger] players[i]).cells.len() ==> {
            let sn = #[trigger] snaps[base[i] + j];
            &&& sn.owner == i
            &&& sn.cell == j
            &&& sn.pos == players[i].cells[j].pos
            &&& sn.mass == players[i].cells[j].mass
            &&& sn.radius == players[i].cells[j].radius
        }
    &&& forall|s: int|
        0 <= s < snaps.len() ==> {
            let sn = #[trigger] snaps[s];
            &&& sn.owner < players.len()
            &&& sn.cell < players[sn.owner as int].cells.len()
            &&& base[sn.owner as int] + sn.cell == s
        }
}

impl Game {
    /// Freezes every player cell into a snapshot vector, with `base[i]` the
    /// first snapshot index of player `i`.
    #[verifier::loop_isolation(false)]
    fn snapshot_cells(&self) -> (r: (Vec<CellSnap>, Vec<usize>))
        requires
            self.wf(),
        ensures
            snaps_match(self.players@, r.0@, r.1@),
            forall|s: int|
                0 <= s < r.0.len() ==> in_world((#[trigger] r.0[s]).pos) && r.0[s].mass
                    <= MASS_LIMIT && r.0[s].radius <= crate::physics::RADIUS_MAX,
    {
        let mut snaps: Vec<CellSnap> = Vec::new();
        let mut base: Vec<usize> = Vec::new();
        let mut i: usize = 0;
        while i < self.players.len()
            invariant
                i <= self.players.len(),
                base.len() == i,
                snaps.len() <= 16 * i,
                forall|k: int|
                    0 <= k < i ==> 0 <= #[trigger] base@[k]
                        && base@[k]
                        + self.players[k].cells.len() <= snaps.len(),
                forall|k: int, j: int|
                    0 <= k < i && 0 <= j < (#[trigger] self.players[k]).cells.len() ==> {
                        let sn = #[trigger] snaps[base@[k] + j];
                        &&& sn.owner == k
                        &&& sn.cell == j
                        &&& sn.pos == self.players[k].cells[j].pos
                        &&& sn.mass == self.players[k].cells[j].mass
                        &&& sn.radius == self.players[k].cells[j].radius
                    },
                forall|s: int|
                    0 <= s < snaps.len() ==> {
                        let sn = #[trigger] snaps[s];
                        &&& sn.owner < i
                        &&& sn.cell < self.players[sn.owner as int].cells.len()
                        &&& base@[sn.owner as int] + sn.cell == s
                    },
                forall|s: int|
                    0 <= s < snaps.len() ==> in_world((#[trigger] snaps[s]).pos) && snaps[s].mass
                        <= MASS_LIMIT && snaps[s].radius <= crate::physics::RADIUS_MAX,
            decreases self.players.len() - i,
        {
            base.push(snaps.len());
            let mut j: usize = 0;
            while j < self.players[i].cells.len()
                invariant
                    i < self.players.len(),
                    base.len() == i + 1,
                    base[i as int] + j == snaps.len(),
                    j <= self.players[i as int].cells.len(),
                    snaps.len() <= 16 * i + j,
                    forall|k: int|
                        0 <= k < i ==> 0 <= #[trigger] base@[k]
                            && base@[k]
                            + self.players[k].cells.len() <= snaps.len(),
                    forall|k: int, jj: int|
                        0 <= k < i && 0 <= jj < (#[trigger] self.players[k]).cells.len() ==> {
                            let sn = #[trigger] snaps[base@[k] + jj];
                            &&& sn.owner == k
                            &&& sn.cell == jj
                            &&& sn.pos == self.players[k].cells[jj].pos
                            &&& sn.mass == self.players[k].cells[jj].mass
                            &&& sn.radius == self.players[k].cells[jj].radius
                        },
                    forall|jj: int|
                        0 <= jj < j ==> {
                            let sn = #[trigger] snaps[base[i as int] + jj];
                            &&& sn.owner == i
                            &&& sn.cell == jj
                            &&& sn.pos == self.players[i as int].cells[jj].pos
                            &&& sn.mass == self.players[i as int].cells[jj].mass
                            &&& sn.radius == self.players[i as int].cells[jj].radius
                        },
                    forall|s: int|
                        0 <= s < snaps.len() ==> {
                            let sn = #[trigger] snaps[s];
                            &&& (sn.owner < i || (sn.owner == i && sn.cell < j))
                            &&& sn.cell < self.players[sn.owner as int].cells.len()
                            &&& base@[sn.owner as int] + sn.cell
                                == s
                        },
                    forall|s: int|
                        0 <= s < snaps.len() ==> in_world((#[trigger] snaps[s]).pos) && snaps[s].mass
                            <= MASS_LIMIT && snaps[s].radius <= crate::physics::RADIUS_MAX,
                decreases self.players[i as int].cells.len() - j,
            {
                let c = self.players[i].cells[j];
                snaps.push(
                    CellSnap {
                        pos: c.pos,
                        mass: c.mass,
                        radius: c.radius,
                        hue: c.hue,
                        owner: i,
                        cell: j,
                    },
                );
                proof {
                    crate::physics::lemma_radius_range(c.mass as nat);
                }
                j = j + 1;
            }
            i = i + 1;
        }
        (snaps, base)
    }
}


/// A frozen view of one food cell for a collision pass; `items[k]` of the
/// food grid stands for `food[k]`.
#[derive(Clone, Copy)]
pub struct FoodSnap {
    pub pos: Position,
    pub hue: u16,
    pub mass: u64,
    pub radius: u64,
}

impl PositionTrait for FoodSnap {
    open spec fn sx(&self) -> int {
        self.pos.x as int
    }

    open spec fn sy(&self) -> int {
        self.pos.y as int
    }

    fn position(&self) -> (p: Position) {
        self.pos
    }
}

impl crate::entity::ToBytes for FoodSnap {
    open spec fn bytes_spec(&self) -> Seq<u8> {
        vstd::bytes::spec_u32_to_le_bytes(self.pos.x as u32) + vstd::bytes::spec_u32_to_le_bytes(
            self.pos.y as u32,
        ) + seq![crate::entity::hue_byte(self.hue)]
    }

    fn to_bytes(&self) -> (b: Vec<u8>) {
        let mut b = vstd::bytes::u32_to_le_bytes(#[verifier::truncate] (self.pos.x as u32));
        let mut yb = vstd::bytes::u32_to_le_bytes(#[verifier::truncate] (self.pos.y as u32));
        b.append(&mut yb);
        let hb: u8 = if self.hue > 255 {
            255
        } else {
            self.hue as u8
        };
        b.push(hb);
        proof {
            assert(b@ =~= self.bytes_spec());
        }
        b
    }
}

/// Saturating mass addition (the fixed-point range cap).
fn mass_plus(a: u64, b: u64) -> (r: u64)
    requires
        a <= MASS_LIMIT,
        b <= MASS_LIMIT,
    ensures
        r as int == spec_mass_plus(a as int, b as int),
        r <= MASS_LIMIT,
{
    if a + b <= MASS_LIMIT {
        a + b
    } else {
        MASS_LIMIT
    }
}

/// Food claim `cf[k] == Some(a)`: food `k` was consumed by attacker snap `a`.
/// Cell claim `cc[s] == Some(a)`: victim snap `s` was consumed by `a`.
pub open spec fn food_claim_eligible(
    snaps: Seq<CellSnap>,
    foods: Seq<FoodSnap>,
    k: int,
    a: int,
) -> bool {
    &&& 0 <= a < snaps.len()
    &&& crate::physics::spec_collides(
        snaps[a].pos.x as int,
        snaps[a].pos.y as int,
        snaps[a].radius as int,
        foods[k].pos.x as int,
        foods[k].pos.y as int,
    )
}

pub open spec fn cell_claim_eligible(snaps: Seq<CellSnap>, s: int, a: int) -> bool {
    &&& 0 <= a < snaps.len()
    &&& snaps[a].owner != snaps[s].owner
    &&& snaps[a].mass * 10 > snaps[s].mass * 11
    &&& crate::physics::spec_collides(
        snaps[a].pos.x as int,
        snaps[a].pos.y as int,
        snaps[a].radius as int,
        snaps[s].pos.x as int,
        snaps[s].pos.y as int,
    )
}

/// Total food mass the claim map assigns to attacker `a`.
pub open spec fn food_gain_of(cf: Seq<Option<usize>>, foods: Seq<FoodSnap>, a: int) -> int
    decreases cf.len(),
{
    if cf.len() == 0 {
        0
    } else {
        food_gain_of(cf.drop_last(), foods, a) + if cf.last() is Some && cf.last()->Some_0 == a {
            foods[cf.len() - 1].mass as int
        } else {
            0
        }
    }
}

/// Total opposing-cell mass the claim map assigns to attacker `a`.
pub open spec fn cell_gain_of(cc: Seq<Option<usize>>, snaps: Seq<CellSnap>, a: int) -> int
    decreases cc.len(),
{
    if cc.len() == 0 {
        0
    } else {
        cell_gain_of(cc.drop_last(), snaps, a) + if cc.last() is Some && cc.last()->Some_0 == a {
            snaps[cc.len() - 1].mass as int
        } else {
            0
        }
    }
}

proof fn lemma_food_gain_all_none(cf: Seq<Option<usize>>, foods: Seq<FoodSnap>, a: int)
    requires
        forall|k: int| 0 <= k < cf.len() ==> (#[trigger] cf[k]) is None,
    ensures
        food_gain_of(cf, foods, a) == 0,
    decreases cf.len(),
{
    if cf.len() > 0 {
        let pre = cf.drop_last();
        assert forall|k: int| 0 <= k < pre.len() implies (#[trigger] pre[k]) is None by {
            assert(pre[k] == cf[k]);
        }
        lemma_food_gain_all_none(pre, foods, a);
    }
}

proof fn lemma_cell_gain_all_none(cc: Seq<Option<usize>>, snaps: Seq<CellSnap>, a: int)
    requires
        forall|k: int| 0 <= k < cc.len() ==> (#[trigger] cc[k]) is None,
    ensures
        cell_gain_of(cc, snaps, a) == 0,
    decreases cc.len(),
{
    if cc.len() > 0 {
        let pre = cc.drop_last();
        assert forall|k: int| 0 <= k < pre.len() implies (#[trigger] pre[k]) is None by {
            assert(pre[k] == cc[k]);
        }
        lemma_cell_gain_all_none(pre, snaps, a);
    }
}

/// Claiming one more food cell adds its mass to its attacker's total and to
/// no one else's.
proof fn lemma_food_gain_update(cf: Seq<Option<usize>>, foods: Seq<FoodSnap>, k: int, a: usize)
    requires
        0 <= k < cf.len(),
        cf[k] is None,
    ensures
        forall|t: int|
            food_gain_of(#[trigger] cf.update(k, Some(a)), foods, t) == food_gain_of(cf, foods, t)
                + if t == a {
                foods[k].mass as int
            } else {
                0
            },
    decreases cf.len(),
{
    let up = cf.update(k, Some(a));
    if k == cf.len() - 1 {
        assert(up.drop_last() =~= cf.drop_last());
        assert forall|t: int|
            food_gain_of(#[trigger] cf.update(k, Some(a)), foods, t) == food_gain_of(cf, foods, t)
                + (if t == a {
                foods[k].mass as int
            } else {
                0
            }) by {
            assert(food_gain_of(up, foods, t) == food_gain_of(cf.drop_last(), foods, t) + (if t
                == a {
                foods[k].mass as int
            } else {
                0
            }));
            assert(food_gain_of(cf, foods, t) == food_gain_of(cf.drop_last(), foods, t));
        }
    } else {
        assert(up.drop_last() =~= cf.drop_last().update(k, Some(a)));
        assert(cf.drop_last()[k] == cf[k]);
        lemma_food_gain_update(cf.drop_last(), foods, k, a);
        assert(up.last() == cf.last());
        assert forall|t: int|
            food_gain_of(#[trigger] cf.update(k, Some(a)), foods, t) == food_gain_of(cf, foods, t)
                + (if t == a {
                foods[k].mass as int
            } else {
                0
            }) by {
            assert(food_gain_of(cf.drop_last().update(k, Some(a)), foods, t) == food_gain_of(
                cf.drop_last(),
                foods,
                t,
            ) + (if t == a {
                foods[k].mass as int
            } else {
                0
            }));
            assert(food_gain_of(up, foods, t) == food_gain_of(up.drop_last(), foods, t) + (
            if up.last() is Some && up.last()->Some_0 == t {
                foods[up.len() - 1].mass as int
            } else {
                0
            }));
            assert(food_gain_of(cf, foods, t) == food_gain_of(cf.drop_last(), foods, t) + (
            if cf.last() is Some && cf.last()->Some_0 == t {
                foods[cf.len() - 1].mass as int
            } else {
                0
            }));
        }
    }
}

/// Claiming one more opposing cell adds its mass to its attacker's total and
/// to no one else's.
proof fn lemma_cell_gain_update(cc: Seq<Option<usize>>, snaps: Seq<CellSnap>, s: int, a: usize)
    requires
        0 <= s < cc.len(),
        cc[s] is None,
    ensures
        forall|t: int|
            cell_gain_of(#[trigger] cc.update(s, Some(a)), snaps, t) == cell_gain_of(cc, snaps, t)
                + if t == a {
                snaps[s].mass as int
            } else {
                0
            },
    decreases cc.len(),
{
    let up = cc.update(s, Some(a));
    if s == cc.len() - 1 {
        assert(up.drop_last() =~= cc.drop_last());
        assert forall|t: int|
            cell_gain_of(#[trigger] cc.update(s, Some(a)), snaps, t) == cell_gain_of(cc, snaps, t)
                + (if t == a {
                snaps[s].mass as int
            } else {
                0
            }) by {
            assert(cell_gain_of(up, snaps, t) == cell_gain_of(cc.drop_last(), snaps, t) + (if t
                == a {
                snaps[s].mass as int
            } else {
                0
            }));
            assert(cell_gain_of(cc, snaps, t) == cell_gain_of(cc.drop_last(), snaps, t));
        }
    } else {
        assert(up.drop_last() =~= cc.drop_last().update(s, Some(a)));
        assert(cc.drop_last()[s] == cc[s]);
        lemma_cell_gain_update(cc.drop_last(), snaps, s, a);
        assert(up.last() == cc.last());
        assert forall|t: int|
            cell_gain_of(#[trigger] cc.update(s, Some(a)), snaps, t) == cell_gain_of(cc, snaps, t)
                + (if t == a {
                snaps[s].mass as int
            } else {
                0
            }) by {
            assert(cell_gain_of(cc.drop_last().update(s, Some(a)), snaps, t) == cell_gain_of(
                cc.drop_last(),
                snaps,
                t,
            ) + (if t == a {
                snaps[s].mass as int
            } else {
                0
            }));
            assert(cell_gain_of(up, snaps, t) == cell_gain_of(up.drop_last(), snaps, t) + (
            if up.last() is Some && up.last()->Some_0 == t {
                snaps[up.len() - 1].mass as int
            } else {
                0
            }));
            assert(cell_gain_of(cc, snaps, t) == cell_gain_of(cc.drop_last(), snaps, t) + (
            if cc.last() is Some && cc.last()->Some_0 == t {
                snaps[cc.len() - 1].mass as int
            } else {
                0
            }));
        }
    }
}

/// An unclaimed food cell is justified against attacker `t`: either `t`'s
/// query window misses it, or the exact collision test fails.
pub open spec fn food_miss_ok(
    cell_grid: Grid<CellSnap>,
    food_grid: Grid<FoodSnap>,
    k: int,
    t: int,
) -> bool {
    let atk = cell_grid.items[t];
    !(food_grid.in_window(k, atk.pos.x as int, atk.pos.y as int, 2 * (atk.radius as int))
        && crate::physics::spec_collides(
        atk.pos.x as int,
        atk.pos.y as int,
        atk.radius as int,
        food_grid.items[k].pos.x as int,
        food_grid.items[k].pos.y as int,
    ))
}

/// An unclaimed cell is justified against attacker `t`: the window misses it,
/// or it is the attacker's own, or the mass advantage or exact test fails.
pub open spec fn cell_miss_ok(cell_grid: Grid<CellSnap>, v: int, t: int) -> bool {
    let atk = cell_grid.items[t];
    let vic = cell_grid.items[v];
    !(cell_grid.in_window(v, atk.pos.x as int, atk.pos.y as int, 2 * (atk.radius as int))
        && atk.owner != vic.owner && atk.mass * 10 > vic.mass * 11 && crate::physics::spec_collides(
        atk.pos.x as int,
        atk.pos.y as int,
        atk.radius as int,
        vic.pos.x as int,
        vic.pos.y as int,
    ))
}

/// The first-claim consumption pass of a collision phase. Every attacking
/// cell queries the grids within twice its radius; a food cell or opposing
/// cell is claimed by at most one attacker — each claim records its single
/// attacker, so no mass is spent twice — and only under the exact collision
/// test (for cells, also the ten-percent mass advantage and a different
/// owner). Gains accumulate per attacker, saturating at the mass cap.
#[verifier::loop_isolation(false)]
pub fn compute_claims(
    cell_grid: &Grid<CellSnap>,
    food_grid: &Grid<FoodSnap>,
    eat_food: bool,
    eat_cells: bool,
) -> (r: (Vec<Option<usize>>, Vec<Option<usize>>, Vec<u64>))
    requires
        cell_grid.wf(),
        food_grid.wf(),
        forall|s: int|
            0 <= s < cell_grid.items.len() ==> in_world((#[trigger] cell_grid.items[s]).pos)
                && cell_grid.items[s].mass <= MASS_LIMIT && cell_grid.items[s].radius
                <= crate::physics::RADIUS_MAX,
        forall|k: int|
            0 <= k < food_grid.items.len() ==> in_world((#[trigger] food_grid.items[k]).pos)
                && food_grid.items[k].mass <= MASS_LIMIT,
    ensures
        r.0.len() == food_grid.items.len(),
        r.1.len() == cell_grid.items.len(),
        r.2.len() == cell_grid.items.len(),
        forall|k: int|
            0 <= k < r.0.len() && (#[trigger] r.0[k]) is Some ==> food_claim_eligible(
                cell_grid.items@,
                food_grid.items@,
                k,
                r.0[k]->Some_0 as int,
            ),
        forall|s: int|
            0 <= s < r.1.len() && (#[trigger] r.1[s]) is Some ==> cell_claim_eligible(
                cell_grid.items@,
                s,
                r.1[s]->Some_0 as int,
            ),
        forall|a: int| 0 <= a < r.2.len() ==> (#[trigger] r.2[a]) <= MASS_LIMIT,
        forall|a: int|
            0 <= a < r.2.len() ==> (#[trigger] r.2[a]) as int == spec_mass_plus(
                food_gain_of(r.0@, food_grid.items@, a),
                cell_gain_of(r.1@, cell_grid.items@, a),
            ),
        eat_food ==> forall|k: int, t: int|
            0 <= k < r.0.len() && 0 <= t < cell_grid.items.len() && r.0[k] is None
                ==> #[trigger] food_miss_ok(*cell_grid, *food_grid, k, t),
        eat_cells ==> forall|v: int, t: int|
            0 <= v < r.1.len() && 0 <= t < cell_grid.items.len() && r.1[v] is None
                ==> #[trigger] cell_miss_ok(*cell_grid, v, t),
        !eat_food ==> forall|k: int| 0 <= k < r.0.len() ==> (#[trigger] r.0[k]) is None,
        !eat_cells ==> forall|s: int| 0 <= s < r.1.len() ==> (#[trigger] r.1[s]) is None,
{
    let nf: usize = food_grid.items.len();
    let ns: usize = cell_grid.items.len();
    let mut cf: Vec<Option<usize>> = Vec::new();
    let mut k0: usize = 0;
    while k0 < nf
        invariant
            cf.len() == k0 <= nf,
            forall|k: int| 0 <= k < k0 ==> (#[trigger] cf[k]) is None,
        decreases nf - k0,
    {
        cf.push(None);
        k0 = k0 + 1;
    }
    let mut cc: Vec<Option<usize>> = Vec::new();
    let mut s0: usize = 0;
    while s0 < ns
        invariant
            cc.len() == s0 <= ns,
            forall|s: int| 0 <= s < s0 ==> (#[trigger] cc[s]) is None,
        decreases ns - s0,
    {
        cc.push(None);
        s0 = s0 + 1;
    }
    let mut gains: Vec<u64> = Vec::new();
    let mut g0: usize = 0;
    while g0 < ns
        invariant
            gains.len() == g0 <= ns,
            forall|a: int| 0 <= a < g0 ==> (#[trigger] gains[a]) == 0,
        decreases ns - g0,
    {
        gains.push(0);
        g0 = g0 + 1;
    }
    proof {
        assert forall|t: int|
            0 <= t < ns implies (#[trigger] gains[t]) as int == spec_mass_plus(
            food_gain_of(cf@, food_grid.items@, t),
            cell_gain_of(cc@, cell_grid.items@, t),
        ) by {
            lemma_food_gain_all_none(cf@, food_grid.items@, t);
            lemma_cell_gain_all_none(cc@, cell_grid.items@, t);
        }
    }
    let mut a: usize = 0;
    while a < ns
        invariant
            a <= ns,
            cf.len() == nf,
            cc.len() == ns,
            gains.len() == ns,
            forall|t: int|
                0 <= t < ns ==> (#[trigger] gains[t]) as int == spec_mass_plus(
                    food_gain_of(cf@, food_grid.items@, t),
                    cell_gain_of(cc@, cell_grid.items@, t),
                ),
            eat_food ==> forall|k: int, t: int|
                0 <= k < nf && 0 <= t < a && cf[k] is None ==> #[trigger] food_miss_ok(
                    *cell_grid,
                    *food_grid,
                    k,
                    t,
                ),
            eat_cells ==> forall|v: int, t: int|
                0 <= v < ns && 0 <= t < a && cc[v] is None ==> #[trigger] cell_miss_ok(
                    *cell_grid,
                    v,
                    t,
                ),
            forall|k: int|
                0 <= k < nf && (#[trigger] cf[k]) is Some ==> food_claim_eligible(
                    cell_grid.items@,
                    food_grid.items@,
                    k,
                    cf[k]->Some_0 as int,
                ),
            forall|s: int|
                0 <= s < ns && (#[trigger] cc[s]) is Some ==> cell_claim_eligible(
                    cell_grid.items@,
                    s,
                    cc[s]->Some_0 as int,
                ),
            forall|t: int| 0 <= t < ns ==> (#[trigger] gains[t]) <= MASS_LIMIT,
            !eat_food ==> forall|k: int| 0 <= k < nf ==> (#[trigger] cf[k]) is None,
            !eat_cells ==> forall|s: int| 0 <= s < ns ==> (#[trigger] cc[s]) is None,
        decreases ns - a,
    {
        let atk = cell_grid.items[a];
        let range: u64 = 2 * atk.radius;
        if eat_food {
            let hits = food_grid.query(atk.pos, range);
            let mut h: usize = 0;
            while h < hits.len()
                invariant
                    a < ns,
                    atk == cell_grid.items[a as int],
                    h <= hits.len(),
                    cf.len() == nf,
                    cc.len() == ns,
                    gains.len() == ns,
                    forall|t: int| 0 <= t < hits.len() ==> (#[trigger] hits[t]) < nf,
                    forall|k: int|
                        0 <= k < nf && (#[trigger] cf[k]) is Some ==> food_claim_eligible(
                            cell_grid.items@,
                            food_grid.items@,
                            k,
                            cf[k]->Some_0 as int,
                        ),
                    forall|t: int| 0 <= t < ns ==> (#[trigger] gains[t]) <= MASS_LIMIT,
                    forall|t: int|
                        0 <= t < ns ==> (#[trigger] gains[t]) as int == spec_mass_plus(
                            food_gain_of(cf@, food_grid.items@, t),
                            cell_gain_of(cc@, cell_grid.items@, t),
                        ),
                    eat_food ==> forall|k: int, t: int|
                        0 <= k < nf && 0 <= t < a && cf[k] is None ==> #[trigger] food_miss_ok(
                            *cell_grid,
                            *food_grid,
                            k,
                            t,
                        ),
                    forall|t2: int|
                        0 <= t2 < h ==> (#[trigger] cf[hits[t2] as int]) is Some
                            || !crate::physics::spec_collides(
                            atk.pos.x as int,
                            atk.pos.y as int,
                            atk.radius as int,
                            food_grid.items[hits[t2] as int].pos.x as int,
                            food_grid.items[hits[t2] as int].pos.y as int,
                        ),
                decreases hits.len() - h,
            {
                let fi: usize = hits[h];
                if cf[fi].is_none() {
                    let f = food_grid.items[fi];
                    if crate::physics::collides(atk.pos.x, atk.pos.y, atk.radius, f.pos.x, f.pos.y) {
                        let ghost cf0 = cf@;
                        cf.set(fi, Some(a));
                        proof {
                            lemma_food_gain_update(cf0, food_grid.items@, fi as int, a);
                        }
                        let g = mass_plus(gains[a], f.mass);
                        gains.set(a, g);
                    }
                }
                h = h + 1;
            }
            proof {
                assert forall|k: int, t: int|
                    0 <= k < nf && 0 <= t < a + 1 && cf[k] is None implies #[trigger] food_miss_ok(
                    *cell_grid,
                    *food_grid,
                    k,
                    t,
                ) by {
                    if t == a {
                        if food_grid.in_window(
                            k,
                            atk.pos.x as int,
                            atk.pos.y as int,
                            2 * (atk.radius as int),
                        ) {
                            assert(hits@.contains(k as usize));
                            let w = choose|w: int| 0 <= w < hits.len() && hits[w] == k as usize;
                            assert(cf[hits[w] as int] is Some || !crate::physics::spec_collides(
                                atk.pos.x as int,
                                atk.pos.y as int,
                                atk.radius as int,
                                food_grid.items[hits[w] as int].pos.x as int,
                                food_grid.items[hits[w] as int].pos.y as int,
                            ));
                        }
                    }
                }
            }
        }
        if eat_cells {
            let hits = cell_grid.query(atk.pos, range);
            let mut h: usize = 0;
            while h < hits.len()
                invariant
                    a < ns,
                    atk == cell_grid.items[a as int],
                    h <= hits.len(),
                    cf.len() == nf,
                    cc.len() == ns,
                    gains.len() == ns,
                    forall|t: int| 0 <= t < hits.len() ==> (#[trigger] hits[t]) < ns,
                    forall|s: int|
                        0 <= s < ns && (#[trigger] cc[s]) is Some ==> cell_claim_eligible(
                            cell_grid.items@,
                            s,
                            cc[s]->Some_0 as int,
                        ),
                    forall|t: int| 0 <= t < ns ==> (#[trigger] gains[t]) <= MASS_LIMIT,
                    forall|t: int|
                        0 <= t < ns ==> (#[trigger] gains[t]) as int == spec_mass_plus(
                            food_gain_of(cf@, food_grid.items@, t),
                            cell_gain_of(cc@, cell_grid.items@, t),
                        ),
                    eat_cells ==> forall|v: int, t: int|
                        0 <= v < ns && 0 <= t < a && cc[v] is None ==> #[trigger] cell_miss_ok(
                            *cell_grid,
                            v,
                            t,
                        ),
                    forall|t2: int|
                        0 <= t2 < h ==> (#[trigger] cc[hits[t2] as int]) is Some
                            || cell_grid.items[hits[t2] as int].owner == atk.owner || !(atk.mass
                            * 10 > cell_grid.items[hits[t2] as int].mass * 11)
                            || !crate::physics::spec_collides(
                            atk.pos.x as int,
                            atk.pos.y as int,
                            atk.radius as int,
                            cell_grid.items[hits[t2] as int].pos.x as int,
                            cell_grid.items[hits[t2] as int].pos.y as int,
                        ),
                    !eat_food ==> forall|k: int| 0 <= k < nf ==> (#[trigger] cf[k]) is None,
                decreases hits.len() - h,
            {
                let oi: usize = hits[h];
                let o = cell_grid.items[oi];
                if o.owner != atk.owner && cc[oi].is_none() {
                    proof {
                        assert(atk.mass * 10 <= 10_000_000_000_000 && o.mass * 11
                            <= 11_000_000_000_000) by (nonlinear_arith)
                            requires
                                atk.mass <= MASS_LIMIT,
                                o.mass <= MASS_LIMIT,
                        {}
                    }
                    if atk.mass * 10 > o.mass * 11 && crate::physics::collides(
                        atk.pos.x,
                        atk.pos.y,
                        atk.radius,
                        o.pos.x,
                        o.pos.y,
                    ) {
                        let ghost cc0 = cc@;
                        cc.set(oi, Some(a));
                        proof {
                            lemma_cell_gain_update(cc0, cell_grid.items@, oi as int, a);
                        }
                        let g = mass_plus(gains[a], o.mass);
                        gains.set(a, g);
                    }
                }
                h = h + 1;
            }
            proof {
                assert forall|v: int, t: int|
                    0 <= v < ns && 0 <= t < a + 1 && cc[v] is None implies #[trigger] cell_miss_ok(
                    *cell_grid,
                    v,
                    t,
                ) by {
                    if t == a {
                        if cell_grid.in_window(
                            v,
                            atk.pos.x as int,
                            atk.pos.y as int,
                            2 * (atk.radius as int),
                        ) {
                            assert(hits@.contains(v as usize));
                            let w = choose|w: int| 0 <= w < hits.len() && hits[w] == v as usize;
                            assert(cc[hits[w] as int] is Some || cell_grid.items[hits[w] as int].owner
                                == atk.owner || !(atk.mass * 10 > cell_grid.items[hits[w] as int].mass
                                * 11) || !crate::physics::spec_collides(
                                atk.pos.x as int,
                                atk.pos.y as int,
                                atk.radius as int,
                                cell_grid.items[hits[w] as int].pos.x as int,
                                cell_grid.items[hits[w] as int].pos.y as int,
                            ));
                        }
                    }
                }
            }
        }
        a = a + 1;
    }
    (cf, cc, gains)
}


/// `post` is `pre` with exactly the claimed food removed, order kept; `keptf`
/// lists the surviving indices.
pub open spec fn food_filtered(
    pre: Seq<FoodCell>,
    cf: Seq<Option<usize>>,
    post: Seq<FoodCell>,
    keptf: Seq<int>,
) -> bool {
    &&& keptf.len() == post.len()
    &&& forall|t: int| 0 <= t < keptf.len() ==> 0 <= #[trigger] keptf[t] < pre.len()
    &&& forall|t1: int, t2: int| 0 <= t1 < t2 < keptf.len() ==> keptf[t1] < keptf[t2]
    &&& forall|t: int|
        0 <= t < keptf.len() ==> post[t] == pre[#[trigger] keptf[t]] && cf[keptf[t]] is None
    &&& forall|k: int| 0 <= k < pre.len() && (#[trigger] cf[k]) is None ==> keptf.contains(k)
}

/// A player survives a pass exactly when one of its cells went unclaimed.
pub open spec fn player_survives(p: Player, b: int, cc: Seq<Option<usize>>) -> bool {
    exists|j: int| 0 <= j < p.cells.len() && (#[trigger] cc[b + j]) is None
}

/// `post` keeps, in order, exactly the players with an unclaimed cell;
/// identities, targets and remaining cell counts carry over.
pub open spec fn players_filtered(
    pre: Seq<Player>,
    base: Seq<usize>,
    cc: Seq<Option<usize>>,
    gains: Seq<u64>,
    post: Seq<Player>,
    kept: Seq<int>,
) -> bool {
    &&& kept.len() == post.len()
    &&& forall|t: int| 0 <= t < kept.len() ==> 0 <= #[trigger] kept[t] < pre.len()
    &&& forall|t1: int, t2: int| 0 <= t1 < t2 < kept.len() ==> kept[t1] < kept[t2]
    &&& forall|t: int|
        0 <= t < kept.len() ==> (#[trigger] post[t]).id == pre[kept[t]].id && post[t].target
            == pre[kept[t]].target && post[t].cells.len() <= pre[kept[t]].cells.len()
            && player_survives(pre[kept[t]], base[kept[t]] as int, cc) && post[t].visible_range
            as int == crate::player::spec_visible_range(
            crate::physics::spec_mass_to_radius(sum_mass(post[t].cells@) as nat) as nat,
        ) && cells_after_pass(pre[kept[t]].cells@, base[kept[t]] as int, cc, gains, post[t].cells@)
    &&& forall|i: int|
        0 <= i < pre.len() && player_survives(#[trigger] pre[i], base[i] as int, cc)
            ==> kept.contains(i)
}

/// A cell after a pass: its attacker-claimed gains added (radius rederived,
/// saturating at the mass cap), or untouched when it gained nothing.
pub open spec fn cell_with_gain(c: PlayerCell, g: u64) -> PlayerCell {
    if g == 0 {
        c
    } else {
        PlayerCell {
            mass: spec_mass_plus(c.mass as int, g as int) as u64,
            radius: crate::physics::spec_mass_to_radius(
                spec_mass_plus(c.mass as int, g as int) as nat,
            ) as u64,
            ..c
        }
    }
}

/// One player's cells after a pass: exactly the unclaimed cells survive, in
/// order, each with its gains applied.
pub open spec fn cells_after_pass(
    pre_cells: Seq<PlayerCell>,
    b: int,
    cc: Seq<Option<usize>>,
    gains: Seq<u64>,
    post_cells: Seq<PlayerCell>,
) -> bool {
    exists|keptc: Seq<int>|
        {
            &&& keptc.len() == post_cells.len()
            &&& (forall|u: int| 0 <= u < keptc.len() ==> 0 <= #[trigger] keptc[u] < pre_cells.len())
            &&& (forall|u1: int, u2: int| 0 <= u1 < u2 < keptc.len() ==> keptc[u1] < keptc[u2])
            &&& (forall|u: int|
                0 <= u < keptc.len() ==> cc[b + #[trigger] keptc[u]] is None && post_cells[u]
                    == cell_with_gain(pre_cells[keptc[u]], gains[b + keptc[u]]))
            &&& (forall|j: int|
                0 <= j < pre_cells.len() && (#[trigger] cc[b + j]) is None ==> keptc.contains(j))
        }
}

/// A food claim is in order: the attacker exists and its circle covers the
/// food cell's center under the exact collision test.
pub open spec fn food_claim_ok(snaps: Seq<CellSnap>, food: Seq<FoodCell>, k: int, a: int) -> bool {
    &&& 0 <= a < snaps.len()
    &&& crate::physics::spec_collides(
        snaps[a].pos.x as int,
        snaps[a].pos.y as int,
        snaps[a].radius as int,
        food[k].pos.x as int,
        food[k].pos.y as int,
    )
}

/// What one collision pass does, end to end: a snapshot of every cell is
/// taken; food and opposing cells are claimed, each by at most one attacker,
/// only under the exact collision test (cells also need the ten-percent mass
/// advantage and a different owner); then exactly the unclaimed cells and
/// food survive, gains are added to their claiming attackers, visibility
/// windows are recomputed, and players left with no cells are removed.
pub open spec fn pass_post(
    pre_players: Seq<Player>,
    pre_food: Seq<FoodCell>,
    post_players: Seq<Player>,
    post_food: Seq<FoodCell>,
    ate_food: bool,
    ate_cells: bool,
) -> bool {
    exists|w: PassWitness|
        {
            &&& #[trigger] snaps_match(pre_players, w.snaps, w.base)
            &&& w.cf.len() == pre_food.len()
            &&& w.cc.len() == w.snaps.len()
            &&& w.gains.len() == w.snaps.len()
            &&& w.cell_grid.wf()
            &&& w.cell_grid.items@ == w.snaps
            &&& w.cell_grid.cell_size == crate::consts::COLLISION_GRID_CELL
            &&& w.cell_grid.grid_size == GAME_WIDTH / crate::consts::COLLISION_GRID_CELL
            &&& w.food_grid.wf()
            &&& w.food_grid.items.len() == pre_food.len()
            &&& (forall|k: int|
                0 <= k < pre_food.len() ==> (#[trigger] w.food_grid.items[k]).pos == pre_food[k].pos
                    && w.food_grid.items[k].mass == pre_food[k].mass)
            &&& w.food_grid.cell_size == crate::consts::COLLISION_GRID_CELL
            &&& w.food_grid.grid_size == GAME_WIDTH / crate::consts::COLLISION_GRID_CELL
            &&& (forall|k: int|
                0 <= k < w.cf.len() && (#[trigger] w.cf[k]) is Some ==> food_claim_ok(
                    w.snaps,
                    pre_food,
                    k,
                    w.cf[k]->Some_0 as int,
                ))
            &&& (forall|t: int|
                0 <= t < w.cc.len() && (#[trigger] w.cc[t]) is Some ==> cell_claim_eligible(
                    w.snaps,
                    t,
                    w.cc[t]->Some_0 as int,
                ))
            &&& (ate_food ==> forall|k: int, t: int|
                0 <= k < w.cf.len() && 0 <= t < w.snaps.len() && w.cf[k] is None
                    ==> #[trigger] food_miss_ok(w.cell_grid, w.food_grid, k, t))
            &&& (ate_cells ==> forall|v: int, t: int|
                0 <= v < w.cc.len() && 0 <= t < w.snaps.len() && w.cc[v] is None
                    ==> #[trigger] cell_miss_ok(w.cell_grid, v, t))
            &&& (forall|t: int|
                0 <= t < w.gains.len() ==> (#[trigger] w.gains[t]) as int == spec_mass_plus(
                    food_gain_of(w.cf, w.food_grid.items@, t),
                    cell_gain_of(w.cc, w.snaps, t),
                ))
            &&& (!ate_food ==> forall|k: int| 0 <= k < w.cf.len() ==> (#[trigger] w.cf[k]) is None)
            &&& (!ate_cells ==> forall|t: int| 0 <= t < w.cc.len() ==> (#[trigger] w.cc[t]) is None)
            &&& players_filtered(pre_players, w.base, w.cc, w.gains, post_players, w.kept)
            &&& food_filtered(pre_food, w.cf, post_food, w.keptf)
        }
}

/// The pieces a collision pass computed, bundled for `pass_post`.
pub struct PassWitness {
    pub snaps: Seq<CellSnap>,
    pub base: Seq<usize>,
    pub cell_grid: Grid<CellSnap>,
    pub food_grid: Grid<FoodSnap>,
    pub cf: Seq<Option<usize>>,
    pub cc: Seq<Option<usize>>,
    pub gains: Seq<u64>,
    pub kept: Seq<int>,
    pub keptf: Seq<int>,
}

impl Game {
    /// Freezes the food set for a collision pass.
    #[verifier::loop_isolation(false)]
    fn snapshot_food(&self) -> (fs: Vec<FoodSnap>)
        requires
            self.wf(),
        ensures
            fs.len() == self.food.len(),
            forall|k: int|
                0 <= k < fs.len() ==> (#[trigger] fs[k]).pos == self.food[k].pos && fs[k].mass
                    == self.food[k].mass && in_world(fs[k].pos) && fs[k].mass <= MASS_LIMIT,
    {
        let mut fs: Vec<FoodSnap> = Vec::new();
        let mut k: usize = 0;
        while k < self.food.len()
            invariant
                k <= self.food.len(),
                fs.len() == k,
                forall|t: int|
                    0 <= t < k ==> (#[trigger] fs[t]).pos == self.food[t].pos && fs[t].mass
                        == self.food[t].mass && in_world(fs[t].pos) && fs[t].mass <= MASS_LIMIT,
            decreases self.food.len() - k,
        {
            let f = self.food[k];
            fs.push(FoodSnap { pos: f.pos, hue: f.hue, mass: f.mass, radius: f.radius });
            k = k + 1;
        }
        fs
    }

    /// Applies a computed consumption pass: unclaimed cells absorb their
    /// attacker's gains (radius rederived), claimed cells and food leave the
    /// world, every surviving player's visibility window is recomputed from
    /// its new mass, and players left with no cells are removed.
    #[verifier::loop_isolation(false)]
    pub fn apply_claims(
        &mut self,
        snaps: &Vec<CellSnap>,
        base: &Vec<usize>,
        cf: &Vec<Option<usize>>,
        cc: &Vec<Option<usize>>,
        gains: &Vec<u64>,
    )
        requires
            old(self).wf(),
            snaps_match(old(self).players@, snaps@, base@),
            cf.len() == old(self).food.len(),
            cc.len() == snaps.len(),
            gains.len() == snaps.len(),
            forall|t: int| 0 <= t < gains.len() ==> (#[trigger] gains[t]) <= MASS_LIMIT,
        ensures
            final(self).wf(),
            final(self).tickets == old(self).tickets,
            final(self).food_stack == old(self).food_stack,
            exists|keptf: Seq<int>|
                food_filtered(old(self).food@, cf@, final(self).food@, keptf),
            exists|kept: Seq<int>|
                players_filtered(old(self).players@, base@, cc@, gains@, final(self).players@, kept),
    {
        let mut new_players: Vec<Player> = Vec::new();
        let ghost mut kept: Seq<int> = Seq::empty();
        let mut i: usize = 0;
        while i < self.players.len()
            invariant
                i <= self.players.len(),
                self.players == old(self).players,
                self.food == old(self).food,
                kept.len() == new_players.len(),
                forall|t: int| 0 <= t < kept.len() ==> 0 <= #[trigger] kept[t] < i,
                forall|t1: int, t2: int| 0 <= t1 < t2 < kept.len() ==> kept[t1] < kept[t2],
                forall|t: int|
                    0 <= t < kept.len() ==> (#[trigger] new_players[t]).id
                        == self.players[kept[t]].id && new_players[t].target
                        == self.players[kept[t]].target && new_players[t].cells.len()
                        <= self.players[kept[t]].cells.len() && player_survives(
                        self.players[kept[t]],
                        base[kept[t]] as int,
                        cc@,
                    ) && new_players[t].wf() && new_players[t].visible_range as int
                        == crate::player::spec_visible_range(
                        crate::physics::spec_mass_to_radius(
                            sum_mass(new_players[t].cells@) as nat,
                        ) as nat,
                    ) && cells_after_pass(
                        self.players[kept[t]].cells@,
                        base[kept[t]] as int,
                        cc@,
                        gains@,
                        new_players[t].cells@,
                    ),
                forall|ii: int|
                    0 <= ii < i && player_survives(
                        #[trigger] self.players[ii],
                        base[ii] as int,
                        cc@,
                    ) ==> kept.contains(ii),
            decreases self.players.len() - i,
        {
            let b: usize = base[i];
            let n_cells: usize = self.players[i].cells.len();
            let mut new_cells: Vec<PlayerCell> = Vec::new();
            let ghost mut keptc: Seq<int> = Seq::empty();
            let mut j: usize = 0;
            while j < n_cells
                invariant
                    i < self.players.len(),
                    self.players == old(self).players,
                    b == base[i as int],
                    n_cells == self.players[i as int].cells.len(),
                    j <= n_cells,
                    new_cells.len() <= j,
                    forall|t: int| 0 <= t < new_cells.len() ==> (#[trigger] new_cells[t]).wf(),
                    (new_cells.len() > 0) == (exists|jj: int|
                        0 <= jj < j && (#[trigger] cc@[b + jj]) is None),
                    keptc.len() == new_cells.len(),
                    forall|u: int| 0 <= u < keptc.len() ==> 0 <= #[trigger] keptc[u] < j,
                    forall|u1: int, u2: int| 0 <= u1 < u2 < keptc.len() ==> keptc[u1] < keptc[u2],
                    forall|u: int|
                        0 <= u < keptc.len() ==> cc@[b + #[trigger] keptc[u]] is None
                            && new_cells[u] == cell_with_gain(
                            self.players[i as int].cells[keptc[u]],
                            gains[b + keptc[u]],
                        ),
                    forall|jj: int|
                        0 <= jj < j && (#[trigger] cc@[b + jj]) is None ==> keptc.contains(jj),
                decreases n_cells - j,
            {
                let si: usize = b + j;
                if cc[si].is_none() {
                    let mut c = self.players[i].cells[j];
                    let g: u64 = gains[si];
                    if g > 0 {
                        let nm = mass_plus(c.mass, g);
                        c.update_mass(nm);
                    }
                    let ghost keptc0 = keptc;
                    new_cells.push(c);
                    proof {
                        assert(cc@[b + j] is None);
                        assert(c == cell_with_gain(
                            self.players[i as int].cells[j as int],
                            gains@[b + j],
                        ));
                        keptc = keptc.push(j as int);
                        assert forall|jj: int| keptc0.contains(jj) implies keptc.contains(jj) by {
                            let w = choose|w: int| 0 <= w < keptc0.len() && keptc0[w] == jj;
                            assert(keptc[w] == jj);
                        }
                        assert(keptc[keptc0.len() as int] == j as int);
                        assert(keptc.contains(j as int));
                    }
                }
                j = j + 1;
            }
            proof {
                if new_cells.len() > 0 {
                    assert(cells_after_pass(
                        self.players[i as int].cells@,
                        b as int,
                        cc@,
                        gains@,
                        new_cells@,
                    ));
                }
            }
            if new_cells.len() > 0 {
                let mut p = Player {
                    id: self.players[i].id.clone(),
                    cells: new_cells,
                    target: self.players[i].target,
                    visible_range: self.players[i].visible_range,
                };
                p.update_visible_range();
                let ghost kept0 = kept;
                new_players.push(p);
                proof {
                    kept = kept.push(i as int);
                    assert forall|ii: usize| kept0.contains(ii as int) implies kept.contains(
                        ii as int,
                    ) by {
                        let w = choose|w: int| 0 <= w < kept0.len() && kept0[w] == ii as int;
                        assert(kept[w] == ii as int);
                    }
                    assert(kept[kept0.len() as int] == i as int);
                    assert(kept.contains(i as int));
                }
            }
            i = i + 1;
        }
        self.players = new_players;
        let mut new_food: Vec<FoodCell> = Vec::new();
        let ghost mut keptf: Seq<int> = Seq::empty();
        let mut k: usize = 0;
        while k < self.food.len()
            invariant
                k <= self.food.len(),
                self.food == old(self).food,
                cf.len() == self.food.len(),
                keptf.len() == new_food.len(),
                forall|t: int| 0 <= t < keptf.len() ==> 0 <= #[trigger] keptf[t] < k,
                forall|t1: int, t2: int| 0 <= t1 < t2 < keptf.len() ==> keptf[t1] < keptf[t2],
                forall|t: int|
                    0 <= t < keptf.len() ==> new_food[t] == self.food[#[trigger] keptf[t]]
                        && cf@[keptf[t]] is None,
                forall|kk: int| 0 <= kk < k && (#[trigger] cf@[kk]) is None ==> keptf.contains(kk),
            decreases self.food.len() - k,
        {
            if cf[k].is_none() {
                let ghost keptf0 = keptf;
                new_food.push(self.food[k]);
                proof {
                    keptf = keptf.push(k as int);
                    assert forall|kk: int| keptf0.contains(kk) implies keptf.contains(kk) by {
                        let w = choose|w: int| 0 <= w < keptf0.len() && keptf0[w] == kk;
                        assert(keptf[w] == kk);
                    }
                    assert(keptf[keptf0.len() as int] == k as int);
                    assert(keptf.contains(k as int));
                }
            }
            k = k + 1;
        }
        self.food = new_food;
        proof {
            assert forall|a: int, b2: int|
                0 <= a < b2 < self.players@.len() implies (#[trigger] self.players@[a]).id@ != (
            #[trigger] self.players@[b2]).id@ by {
                assert(self.players@[a].id == old(self).players@[kept[a]].id);
                assert(self.players@[b2].id == old(self).players@[kept[b2]].id);
                assert(old(self).players@[kept[a]].id@ != old(self).players@[kept[b2]].id@);
            }
            assert forall|t: int| 0 <= t < self.food@.len() implies (
            #[trigger] self.food@[t]).wf() by {
                assert(self.food@[t] == old(self).food@[keptf[t]]);
                assert(old(self).food@[keptf[t]].wf());
            }
            assert(players_filtered(old(self).players@, base@, cc@, gains@, self.players@, kept));
            assert(food_filtered(old(self).food@, cf@, self.food@, keptf));
        }
    }

    /// The combined collision pass: both food and opposing-cell consumption
    /// are computed over fresh grid snapshots with first-claim semantics,
    /// then applied; players left with no cells are removed from the world.
    pub fn check_collisions(&mut self)
        requires
            old(self).wf(),
        ensures
            final(self).wf(),
            final(self).tickets == old(self).tickets,
            final(self).food_stack == old(self).food_stack,
            pass_post(
                old(self).players@,
                old(self).food@,
                final(self).players@,
                final(self).food@,
                true,
                true,
            ),
    {
        let (snaps, base) = self.snapshot_cells();
        let fsnaps = self.snapshot_food();
        let cell_grid = Grid::new(GAME_WIDTH, crate::consts::COLLISION_GRID_CELL, snaps);
        let food_grid = Grid::new(GAME_WIDTH, crate::consts::COLLISION_GRID_CELL, fsnaps);
        let (cf, cc, gains) = compute_claims(&cell_grid, &food_grid, true, true);
        let ghost pre_players = self.players@;
        let ghost pre_food = self.food@;
        self.apply_claims(&cell_grid.items, &base, &cf, &cc, &gains);
        proof {
            witness_pass(
                pre_players,
                pre_food,
                self.players@,
                self.food@,
                cell_grid,
                food_grid,
                base@,
                cf@,
                cc@,
                gains@,
                true,
                true,
            );
        }
    }

    /// The food-collision phase: grid-based food consumption with
    /// first-claim semantics; players are never removed by food.
    pub fn check_food_collisions(&mut self)
        requires
            old(self).wf(),
        ensures
            final(self).wf(),
            final(self).tickets == old(self).tickets,
            final(self).food_stack == old(self).food_stack,
            final(self).players.len() == old(self).players.len(),
            forall|i: int|
                0 <= i < old(self).players.len() ==> (#[trigger] final(self).players[i]).id == old(
                    self,
                ).players[i].id && final(self).players[i].target == old(self).players[i].target,
            pass_post(
                old(self).players@,
                old(self).food@,
                final(self).players@,
                final(self).food@,
                true,
                false,
            ),
    {
        let (snaps, base) = self.snapshot_cells();
        let fsnaps = self.snapshot_food();
        let cell_grid = Grid::new(GAME_WIDTH, crate::consts::COLLISION_GRID_CELL, snaps);
        let food_grid = Grid::new(GAME_WIDTH, crate::consts::COLLISION_GRID_CELL, fsnaps);
        let (cf, cc, gains) = compute_claims(&cell_grid, &food_grid, true, false);
        let ghost pre_players = self.players@;
        let ghost pre_food = self.food@;
        self.apply_claims(&cell_grid.items, &base, &cf, &cc, &gains);
        proof {
            let kept = choose|kept: Seq<int>|
                players_filtered(pre_players, base@, cc@, gains@, self.players@, kept);
            assert forall|i: int| 0 <= i < pre_players.len() implies kept.contains(i) by {
                assert(pre_players[i].cells.len() >= 1);
                assert(0 <= base@[i] + 0 < cc@.len());
                let j0: int = 0;
                assert(cc@[base@[i] + j0] is None);
                assert(0 <= j0 < pre_players[i].cells.len() && cc@[base@[i] as int + j0] is None);
                assert(player_survives(pre_players[i], base@[i] as int, cc@));
            }
            crate::player::lemma_increasing_identity(kept, pre_players.len() as int);
            assert forall|i: int|
                0 <= i < pre_players.len() implies (#[trigger] self.players[i]).id
                == pre_players[i].id && self.players[i].target == pre_players[i].target by {
                assert(kept[i] == i);
            }
            witness_pass(
                pre_players,
                pre_food,
                self.players@,
                self.food@,
                cell_grid,
                food_grid,
                base@,
                cf@,
                cc@,
                gains@,
                true,
                false,
            );
        }
    }

    /// The player-collision phase: grid-based opposing-cell consumption with
    /// the ten-percent advantage rule and first-claim semantics; players
    /// whose last cell is consumed are removed.
    pub fn check_players_collisions(&mut self)
        requires
            old(self).wf(),
        ensures
            final(self).wf(),
            final(self).tickets == old(self).tickets,
            final(self).food_stack == old(self).food_stack,
            final(self).food@ == old(self).food@,
            pass_post(
                old(self).players@,
                old(self).food@,
                final(self).players@,
                final(self).food@,
                false,
                true,
            ),
    {
        let (snaps, base) = self.snapshot_cells();
        let fsnaps = self.snapshot_food();
        let cell_grid = Grid::new(GAME_WIDTH, crate::consts::COLLISION_GRID_CELL, snaps);
        let food_grid = Grid::new(GAME_WIDTH, crate::consts::COLLISION_GRID_CELL, fsnaps);
        let (cf, cc, gains) = compute_claims(&cell_grid, &food_grid, false, true);
        let ghost pre_players = self.players@;
        let ghost pre_food = self.food@;
        self.apply_claims(&cell_grid.items, &base, &cf, &cc, &gains);
        proof {
            let keptf = choose|keptf: Seq<int>|
                food_filtered(pre_food, cf@, self.food@, keptf);
            assert forall|k: int| 0 <= k < pre_food.len() implies keptf.contains(k) by {
                assert(cf@[k] is None);
            }
            crate::player::lemma_increasing_identity(keptf, pre_food.len() as int);
            assert forall|t: int| 0 <= t < self.food@.len() implies self.food@[t] == pre_food[t] by {
                assert(keptf[t] == t);
                assert(self.food@[t] == pre_food[keptf[t]]);
            }
            assert(self.food@ =~= pre_food);
            witness_pass(
                pre_players,
                pre_food,
                self.players@,
                self.food@,
                cell_grid,
                food_grid,
                base@,
                cf@,
                cc@,
                gains@,
                false,
                true,
            );
        }
    }
}


/// Packages one computed pass as a `pass_post` witness.
proof fn witness_pass(
    pre_players: Seq<Player>,
    pre_food: Seq<FoodCell>,
    post_players: Seq<Player>,
    post_food: Seq<FoodCell>,
    cell_grid: Grid<CellSnap>,
    food_grid: Grid<FoodSnap>,
    base: Seq<usize>,
    cf: Seq<Option<usize>>,
    cc: Seq<Option<usize>>,
    gains: Seq<u64>,
    ate_food: bool,
    ate_cells: bool,
)
    requires
        snaps_match(pre_players, cell_grid.items@, base),
        cell_grid.wf(),
        cell_grid.cell_size == crate::consts::COLLISION_GRID_CELL,
        cell_grid.grid_size == GAME_WIDTH / crate::consts::COLLISION_GRID_CELL,
        food_grid.wf(),
        food_grid.cell_size == crate::consts::COLLISION_GRID_CELL,
        food_grid.grid_size == GAME_WIDTH / crate::consts::COLLISION_GRID_CELL,
        food_grid.items.len() == pre_food.len(),
        forall|k: int|
            0 <= k < food_grid.items.len() ==> (#[trigger] food_grid.items[k]).pos
                == pre_food[k].pos && food_grid.items[k].mass == pre_food[k].mass,
        cf.len() == food_grid.items.len(),
        cc.len() == cell_grid.items.len(),
        gains.len() == cell_grid.items.len(),
        forall|k: int|
            0 <= k < cf.len() && (#[trigger] cf[k]) is Some ==> food_claim_eligible(
                cell_grid.items@,
                food_grid.items@,
                k,
                cf[k]->Some_0 as int,
            ),
        forall|t: int|
            0 <= t < cc.len() && (#[trigger] cc[t]) is Some ==> cell_claim_eligible(
                cell_grid.items@,
                t,
                cc[t]->Some_0 as int,
            ),
        forall|t: int|
            0 <= t < gains.len() ==> (#[trigger] gains[t]) as int == spec_mass_plus(
                food_gain_of(cf, food_grid.items@, t),
                cell_gain_of(cc, cell_grid.items@, t),
            ),
        ate_food ==> forall|k: int, t: int|
            0 <= k < cf.len() && 0 <= t < cell_grid.items.len() && cf[k] is None
                ==> #[trigger] food_miss_ok(cell_grid, food_grid, k, t),
        ate_cells ==> forall|v: int, t: int|
            0 <= v < cc.len() && 0 <= t < cell_grid.items.len() && cc[v] is None
                ==> #[trigger] cell_miss_ok(cell_grid, v, t),
        !ate_food ==> forall|k: int| 0 <= k < cf.len() ==> (#[trigger] cf[k]) is None,
        !ate_cells ==> forall|t: int| 0 <= t < cc.len() ==> (#[trigger] cc[t]) is None,
        exists|kept: Seq<int>|
            players_filtered(pre_players, base, cc, gains, post_players, kept),
        exists|keptf: Seq<int>| food_filtered(pre_food, cf, post_food, keptf),
    ensures
        pass_post(pre_players, pre_food, post_players, post_food, ate_food, ate_cells),
{
    let kept = choose|kept: Seq<int>|
        players_filtered(pre_players, base, cc, gains, post_players, kept);
    let keptf = choose|keptf: Seq<int>| food_filtered(pre_food, cf, post_food, keptf);
    let snaps = cell_grid.items@;
    let w = PassWitness { snaps, base, cell_grid, food_grid, cf, cc, gains, kept, keptf };
    assert forall|k: int| 0 <= k < w.cf.len() && (#[trigger] w.cf[k]) is Some implies food_claim_ok(
        w.snaps,
        pre_food,
        k,
        w.cf[k]->Some_0 as int,
    ) by {
        assert(food_claim_eligible(snaps, food_grid.items@, k, cf[k]->Some_0 as int));
        assert(food_grid.items[k].pos == pre_food[k].pos);
    }
    assert(snaps_match(pre_players, w.snaps, w.base));
    assert(players_filtered(pre_players, w.base, w.cc, w.gains, post_players, w.kept));
    assert(food_filtered(pre_food, w.cf, post_food, w.keptf));
}

/// A deep copy of a player.
fn clone_player(p: &Player) -> (r: Player)
    ensures
        r.id@ == p.id@,
        r.cells@ == p.cells@,
        r.target == p.target,
        r.visible_range == p.visible_range,
{
    let cells = p.cells.clone();
    proof {
        assert(cells@ =~= p.cells@);
    }
    Player { id: p.id.clone(), cells, target: p.target, visible_range: p.visible_range }
}

/// A frozen copy of the whole world, taken for the broadcast phases so they
/// can encode and send without holding the world lock.
pub struct State {
    pub players: Vec<Player>,
    pub food: Vec<FoodCell>,
}

impl Game {
    /// Clones players and food for a broadcast pass.
    #[verifier::loop_isolation(false)]
    pub fn get_state(&self) -> (st: State)
        requires
            self.wf(),
        ensures
            st.players.len() == self.players.len(),
            forall|i: int|
                0 <= i < self.players.len() ==> (#[trigger] st.players[i]).id@
                    == self.players[i].id@ && st.players[i].cells@ == self.players[i].cells@
                    && st.players[i].target == self.players[i].target && st.players[i].visible_range
                    == self.players[i].visible_range,
            st.food@ == self.food@,
    {
        let mut players: Vec<Player> = Vec::new();
        let mut i: usize = 0;
        while i < self.players.len()
            invariant
                i <= self.players.len(),
                players.len() == i,
                forall|k: int|
                    0 <= k < i ==> (#[trigger] players[k]).id@ == self.players[k].id@
                        && players[k].cells@ == self.players[k].cells@ && players[k].target
                        == self.players[k].target && players[k].visible_range
                        == self.players[k].visible_range,
            decreases self.players.len() - i,
        {
            players.push(clone_player(&self.players[i]));
            i = i + 1;
        }
        let food = self.food.clone();
        proof {
            assert(food@ =~= self.food@);
        }
        State { players, food }
    }

    /// The replenishment phase: spawns up to `amount` food cells at random
    /// positions, bounded by the pending food budget, which shrinks by the
    /// number actually spawned.
    #[verifier::loop_isolation(false)]
    pub fn add_food(&mut self, amount: i64)
        requires
            old(self).wf(),
            0 <= amount,
            old(self).food.len() + amount < 0x8000_0000_0000_0000,
        ensures
            final(self).wf(),
            final(self).food.len() == old(self).food.len() + (if amount <= old(self).food_stack {
                amount as int
            } else {
                old(self).food_stack as int
            }),
            final(self).food_stack == old(self).food_stack - (if amount <= old(self).food_stack {
                amount
            } else {
                old(self).food_stack
            }),
            final(self).food@.subrange(0, old(self).food.len() as int) == old(self).food@,
            final(self).players == old(self).players,
            final(self).tickets == old(self).tickets,
    {
        let take: i64 = if amount <= self.food_stack {
            amount
        } else {
            self.food_stack
        };
        self.food_stack = self.food_stack - take;
        let ghost pre_food = self.food@;
        let mut n: i64 = 0;
        while n < take
            invariant
                0 <= n <= take,
                take <= amount,
                self.food.len() == pre_food.len() + n,
                self.food@.subrange(0, pre_food.len() as int) == pre_food,
                food_seq_wf(self.food@),
                self.players == old(self).players,
                self.tickets == old(self).tickets,
                self.food_stack == old(self).food_stack - take,
            decreases take - n,
        {
            let pos = random_position();
            let hue = generate_random_hue();
            let ghost f0 = self.food@;
            self.food.push(FoodCell::new(pos, hue));
            proof {
                assert(self.food@.subrange(0, pre_food.len() as int) =~= f0.subrange(
                    0,
                    pre_food.len() as int,
                ));
            }
            n = n + 1;
        }
    }
}

} // verus!
