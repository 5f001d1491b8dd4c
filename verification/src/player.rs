//! A player: an identity owning one to sixteen cells, a movement target and a
//! visibility window.

use vstd::prelude::*;
use crate::consts::{
    HUE_MAX, MASS_LIMIT, MAX_SPLIT_NUM, MINIMUM_VISIBLE_RANGE, PLAYER_MASS_LIMIT, POS_MAX,
};
use crate::entity::{in_world, PlayerCell, Position, PositionTrait};
use crate::physics::{isqrt, mass_to_radius, spec_mass_to_radius, sqrt_floor, RADIUS_MAX};

verus! {

/// Total mass of a sequence of cells.
pub open spec fn sum_mass(s: Seq<PlayerCell>) -> int
    decreases s.len(),
{
    if s.len() == 0 {
        0
    } else {
        sum_mass(s.drop_last()) + s.last().mass
    }
}

/// Sum of the x coordinates of a sequence of cells.
pub open spec fn sum_x(s: Seq<PlayerCell>) -> int
    decreases s.len(),
{
    if s.len() == 0 {
        0
    } else {
        sum_x(s.drop_last()) + s.last().pos.x
    }
}

/// Sum of the y coordinates of a sequence of cells.
pub open spec fn sum_y(s: Seq<PlayerCell>) -> int
    decreases s.len(),
{
    if s.len() == 0 {
        0
    } else {
        sum_y(s.drop_last()) + s.last().pos.y
    }
}

pub proof fn lemma_sums_bounded(s: Seq<PlayerCell>)
    requires
        forall|i: int| 0 <= i < s.len() ==> (#[trigger] s[i]).wf(),
    ensures
        0 <= sum_mass(s) <= s.len() * MASS_LIMIT,
        0 <= sum_x(s) <= s.len() * POS_MAX,
        0 <= sum_y(s) <= s.len() * POS_MAX,
    decreases s.len(),
{
    if s.len() > 0 {
        lemma_sums_bounded(s.drop_last());
        assert((s.len() - 1) * MASS_LIMIT + MASS_LIMIT == s.len() * MASS_LIMIT) by (nonlinear_arith);
        assert((s.len() - 1) * POS_MAX + POS_MAX == s.len() * POS_MAX) by (nonlinear_arith);
    }
}

/// Appending a cell adds its mass to the total.
pub proof fn lemma_sum_mass_push(s: Seq<PlayerCell>, c: PlayerCell)
    ensures
        sum_mass(s.push(c)) == sum_mass(s) + c.mass,
{
    assert(s.push(c).drop_last() =~= s);
    assert(s.push(c).last() == c);
}

/// Replacing one cell shifts the total by the mass difference.
pub proof fn lemma_sum_mass_update(s: Seq<PlayerCell>, i: int, c: PlayerCell)
    requires
        0 <= i < s.len(),
    ensures
        sum_mass(s.update(i, c)) == sum_mass(s) - s[i].mass + c.mass,
    decreases s.len(),
{
    let t = s.update(i, c);
    if i == s.len() - 1 {
        assert(t.drop_last() =~= s.drop_last());
        assert(t.last() == c);
    } else {
        assert(t.drop_last() =~= s.drop_last().update(i, c));
        lemma_sum_mass_update(s.drop_last(), i, c);
        assert(t.last() == s.last());
        assert(s.drop_last()[i] == s[i]);
    }
}

/// Removing a cell subtracts its mass from the total.
pub proof fn lemma_sum_mass_remove(s: Seq<PlayerCell>, i: int)
    requires
        0 <= i < s.len(),
    ensures
        sum_mass(s.remove(i)) == sum_mass(s) - s[i].mass,
    decreases s.len(),
{
    let t = s.remove(i);
    if i == s.len() - 1 {
        assert(t =~= s.drop_last());
    } else {
        assert(t.drop_last() =~= s.drop_last().remove(i));
        lemma_sum_mass_remove(s.drop_last(), i);
        assert(t.last() == s.last());
        assert(s.drop_last()[i] == s[i]);
    }
}


/// Masses are nonnegative, so any one cell bounds the total from below.
pub proof fn lemma_sum_mass_nonneg(s: Seq<PlayerCell>)
    ensures
        sum_mass(s) >= 0,
    decreases s.len(),
{
    if s.len() > 0 {
        lemma_sum_mass_nonneg(s.drop_last());
    }
}

pub proof fn lemma_sum_mass_at(s: Seq<PlayerCell>, i: int)
    requires
        0 <= i < s.len(),
    ensures
        sum_mass(s) >= s[i].mass,
    decreases s.len(),
{
    lemma_sum_mass_nonneg(s.drop_last());
    if i < s.len() - 1 {
        lemma_sum_mass_at(s.drop_last(), i);
        assert(s.drop_last()[i] == s[i]);
    }
}

/// Two distinct cells together bound the total from below.
pub proof fn lemma_sum_mass_pair(s: Seq<PlayerCell>, i: int, j: int)
    requires
        0 <= i < j < s.len(),
    ensures
        sum_mass(s) >= s[i].mass + s[j].mass,
    decreases s.len(),
{
    if j == s.len() - 1 {
        lemma_sum_mass_at(s.drop_last(), i);
        assert(s.drop_last()[i] == s[i]);
    } else {
        lemma_sum_mass_pair(s.drop_last(), i, j);
        assert(s.drop_last()[i] == s[i]);
        assert(s.drop_last()[j] == s[j]);
    }
}


/// Cell-for-cell equal masses give equal totals.
pub proof fn lemma_sum_mass_eq_pointwise(s: Seq<PlayerCell>, t: Seq<PlayerCell>)
    requires
        s.len() == t.len(),
        forall|k: int| 0 <= k < s.len() ==> (#[trigger] s[k]).mass == t[k].mass,
    ensures
        sum_mass(s) == sum_mass(t),
    decreases s.len(),
{
    if s.len() > 0 {
        lemma_sum_mass_eq_pointwise(s.drop_last(), t.drop_last());
    }
}


/// A strictly increasing index sequence over `0..n` never outgrows `n`.
pub proof fn lemma_increasing_in_range(s: Seq<int>, n: int)
    requires
        n >= 0,
        forall|t: int| 0 <= t < s.len() ==> 0 <= #[trigger] s[t] < n,
        forall|t1: int, t2: int| 0 <= t1 < t2 < s.len() ==> s[t1] < s[t2],
    ensures
        s.len() <= n,
        forall|t: int| 0 <= t < s.len() ==> #[trigger] s[t] >= t,
    decreases s.len(),
{
    if s.len() > 0 {
        let s2 = s.drop_last();
        assert forall|t: int| 0 <= t < s2.len() implies 0 <= #[trigger] s2[t] < n by {
            assert(s2[t] == s[t]);
        }
        assert forall|t1: int, t2: int| 0 <= t1 < t2 < s2.len() implies s2[t1] < s2[t2] by {
            assert(s2[t1] == s[t1] && s2[t2] == s[t2]);
        }
        lemma_increasing_in_range(s2, n);
        assert forall|t: int| 0 <= t < s.len() implies #[trigger] s[t] >= t by {
            if t < s.len() - 1 {
                assert(s2[t] == s[t] && s2[t] >= t);
            } else if s.len() >= 2 {
                assert(s2[s.len() - 2] == s[s.len() - 2]);
                assert(s2[s.len() - 2] >= s.len() - 2);
                assert(s[s.len() - 1] > s[s.len() - 2]);
            }
        }
        assert(s[s.len() - 1] >= s.len() - 1);
        assert(s[s.len() - 1] < n);
    }
}

/// A strictly increasing index sequence over `0..n` that contains every
/// index is the identity.
pub proof fn lemma_increasing_identity(s: Seq<int>, n: int)
    requires
        n >= 0,
        forall|t: int| 0 <= t < s.len() ==> 0 <= #[trigger] s[t] < n,
        forall|t1: int, t2: int| 0 <= t1 < t2 < s.len() ==> s[t1] < s[t2],
        forall|k: int| 0 <= k < n ==> s.contains(k),
    ensures
        s.len() == n,
        forall|t: int| 0 <= t < s.len() ==> #[trigger] s[t] == t,
    decreases n,
{
    lemma_increasing_in_range(s, n);
    if n == 0 {
        assert(s.len() == 0);
    } else {
        assert(s.contains(n - 1));
        let w = choose|w: int| 0 <= w < s.len() && s[w] == n - 1;
        assert(w == s.len() - 1) by {
            if w < s.len() - 1 {
                assert(s[w] < s[s.len() - 1]);
                assert(s[s.len() - 1] < n);
            }
        }
        let s2 = s.drop_last();
        assert forall|t: int| 0 <= t < s2.len() implies 0 <= #[trigger] s2[t] < n - 1 by {
            assert(s2[t] == s[t]);
            assert(s[t] < s[s.len() - 1]);
        }
        assert forall|t1: int, t2: int| 0 <= t1 < t2 < s2.len() implies s2[t1] < s2[t2] by {
            assert(s2[t1] == s[t1] && s2[t2] == s[t2]);
        }
        assert forall|k: int| 0 <= k < n - 1 implies s2.contains(k) by {
            assert(s.contains(k));
            let w2 = choose|w2: int| 0 <= w2 < s.len() && s[w2] == k;
            assert(w2 != s.len() - 1);
            assert(s2[w2] == k);
        }
        lemma_increasing_identity(s2, n - 1);
        assert forall|t: int| 0 <= t < s.len() implies #[trigger] s[t] == t by {
            if t < s.len() - 1 {
                assert(s2[t] == t);
            }
        }
    }
}

/// In a strictly increasing in-range sequence, each entry leaves room for the
/// entries after it: `s[t] < n - (len - 1 - t)`.
pub proof fn lemma_increasing_suffix_bound(s: Seq<int>, n: int, t: int)
    requires
        forall|t0: int| 0 <= t0 < s.len() ==> 0 <= #[trigger] s[t0] < n,
        forall|t1: int, t2: int| 0 <= t1 < t2 < s.len() ==> s[t1] < s[t2],
        0 <= t < s.len(),
    ensures
        s[t] <= n - (s.len() - t),
    decreases s.len() - t,
{
    if t == s.len() - 1 {
        assert(s[t] < n);
    } else {
        lemma_increasing_suffix_bound(s, n, t + 1);
        assert(s[t] < s[t + 1]);
    }
}

/// The visibility window a radius grants:
/// `120 * sqrt(max(radius - 22, 0)) + 550`, in milli-units.
pub open spec fn spec_visible_range(radius: nat) -> int {
    let sub: nat = if radius > 22_000 {
        ((radius - 22_000) * 1000) as nat
    } else {
        0
    };
    120 * (sqrt_floor(sub) as int) + MINIMUM_VISIBLE_RANGE
}

/// Visibility windows stay within this bound for radii in range.
pub const VISIBLE_RANGE_MAX: u64 = 120_000_000;

pub proof fn lemma_visible_range_bounds(radius: nat)
    requires
        radius <= RADIUS_MAX,
    ensures
        MINIMUM_VISIBLE_RANGE <= spec_visible_range(radius) <= VISIBLE_RANGE_MAX,
{
    if radius > 22_000 {
        crate::physics::lemma_sqrt_floor_le(((radius - 22_000) * 1000) as nat, 894_500);
    }
}

pub struct Player {
    /// The account identity; globally unique and used as the ledger key.
    pub id: String,
    pub cells: Vec<PlayerCell>,
    /// Movement offset relative to the player's centroid.
    pub target: Option<Position>,
    pub visible_range: u64,
}

impl Player {
    /// Well-formedness: between one and sixteen cells, every cell well
    /// formed, and the visibility window within its derivable bounds.
    pub open spec fn wf(&self) -> bool {
        &&& 1 <= self.cells.len() <= MAX_SPLIT_NUM
        &&& forall|i: int| 0 <= i < self.cells.len() ==> (#[trigger] self.cells[i]).wf()
        &&& MINIMUM_VISIBLE_RANGE <= self.visible_range <= VISIBLE_RANGE_MAX
        &&& match self.target {
            None => true,
            Some(t) => -POS_MAX <= t.x <= POS_MAX && -POS_MAX <= t.y <= POS_MAX,
        }
    }

    /// Total mass of the player, as a specification.
    pub open spec fn spec_mass(&self) -> int {
        sum_mass(self.cells@)
    }

    pub fn new_player(id: String, pos: Position, hue: u16) -> (p: Player)
        requires
            in_world(pos),
            hue <= HUE_MAX,
        ensures
            p.wf(),
            p.id == id,
            p.cells.len() == 1,
            p.cells[0].wf(),
            p.cells[0].pos == pos,
            p.cells[0].mass == crate::consts::DEFAULT_MASS,
            p.cells[0].hue == hue,
            p.cells[0].momentum == crate::consts::MOMENTUM_FLOOR,
            p.cells[0].last_split is None,
            p.cells[0].radius == spec_mass_to_radius(crate::consts::DEFAULT_MASS as nat),
            p.target is None,
            p.visible_range == MINIMUM_VISIBLE_RANGE,
    {
        let cell = PlayerCell::new(pos, hue);
        let mut cells: Vec<PlayerCell> = Vec::new();
        cells.push(cell);
        Player { id, cells, target: None, visible_range: MINIMUM_VISIBLE_RANGE }
    }

    /// Total mass: the sum of the cells' masses.
    pub fn mass(&self) -> (m: u64)
        requires
            self.wf(),
        ensures
            m == self.spec_mass(),
            m <= PLAYER_MASS_LIMIT,
    {
        let mut total: u64 = 0;
        let mut i: usize = 0;
        proof {
            lemma_sums_bounded(self.cells@);
        }
        while i < self.cells.len()
            invariant
                self.wf(),
                i <= self.cells.len(),
                total == sum_mass(self.cells@.take(i as int)),
                total <= i * MASS_LIMIT,
            decreases self.cells.len() - i,
        {
            proof {
                assert(self.cells@.take(i as int + 1).drop_last() =~= self.cells@.take(i as int));
                assert(self.cells@.take(i as int + 1).last() == self.cells@[i as int]);
                assert((i as int) * MASS_LIMIT + MASS_LIMIT == (i as int + 1) * MASS_LIMIT)
                    by (nonlinear_arith);
                assert((i as int + 1) * MASS_LIMIT <= 16 * MASS_LIMIT) by (nonlinear_arith)
                    requires
                        i as int + 1 <= 16,
                {}
            }
            total = total + self.cells[i].mass;
            i = i + 1;
        }
        proof {
            assert(self.cells@.take(self.cells@.len() as int) =~= self.cells@);
            assert((self.cells@.len()) * MASS_LIMIT <= 16 * MASS_LIMIT) by (nonlinear_arith)
                requires
                    self.cells@.len() <= 16,
            {}
        }
        total
    }

    /// The player's radius is derived from its total mass.
    pub fn radius(&self) -> (r: u64)
        requires
            self.wf(),
        ensures
            r == spec_mass_to_radius(self.spec_mass() as nat),
            r <= RADIUS_MAX,
    {
        let m = self.mass();
        proof {
            lemma_sums_bounded(self.cells@);
        }
        mass_to_radius(m)
    }

    /// The player's position: the centroid of its cells.
    pub fn position(&self) -> (p: Position)
        requires
            self.wf(),
        ensures
            p.x as int == sum_x(self.cells@) / (self.cells@.len() as int),
            p.y as int == sum_y(self.cells@) / (self.cells@.len() as int),
            in_world(p),
    {
        let mut tx: i64 = 0;
        let mut ty: i64 = 0;
        let mut i: usize = 0;
        proof {
            lemma_sums_bounded(self.cells@);
        }
        while i < self.cells.len()
            invariant
                self.wf(),
                i <= self.cells.len(),
                tx == sum_x(self.cells@.take(i as int)),
                ty == sum_y(self.cells@.take(i as int)),
                0 <= tx <= i * POS_MAX,
                0 <= ty <= i * POS_MAX,
            decreases self.cells.len() - i,
        {
            proof {
                assert(self.cells@.take(i as int + 1).drop_last() =~= self.cells@.take(i as int));
                assert(self.cells@.take(i as int + 1).last() == self.cells@[i as int]);
                assert((i as int) * POS_MAX + POS_MAX == (i as int + 1) * POS_MAX)
                    by (nonlinear_arith);
                assert((i as int + 1) * POS_MAX <= 16 * POS_MAX) by (nonlinear_arith)
                    requires
                        i as int + 1 <= 16,
                {}
            }
            tx = tx + self.cells[i].pos.x;
            ty = ty + self.cells[i].pos.y;
            i = i + 1;
        }
        let n: i64 = self.cells.len() as i64;
        proof {
            assert(self.cells@.take(self.cells@.len() as int) =~= self.cells@);
            let len = self.cells@.len() as int;
            assert(0 <= sum_x(self.cells@) / len <= POS_MAX) by (nonlinear_arith)
                requires
                    1 <= len <= 16,
                    0 <= sum_x(self.cells@) <= len * POS_MAX,
            {}
            assert(0 <= sum_y(self.cells@) / len <= POS_MAX) by (nonlinear_arith)
                requires
                    1 <= len <= 16,
                    0 <= sum_y(self.cells@) <= len * POS_MAX,
            {}
        }
        Position { x: tx / n, y: ty / n }
    }

    /// Recomputes the visibility window from the current total mass.
    pub fn update_visible_range(&mut self)
        requires
            old(self).wf(),
        ensures
            final(self).visible_range == spec_visible_range(
                spec_mass_to_radius(old(self).spec_mass() as nat) as nat,
            ),
            final(self).id == old(self).id,
            final(self).cells == old(self).cells,
            final(self).target == old(self).target,
            final(self).wf(),
    {
        let r = self.radius();
        let sub: u64 = if r > 22_000 {
            (r - 22_000) * 1000
        } else {
            0
        };
        proof {
            lemma_visible_range_bounds(spec_mass_to_radius(self.spec_mass() as nat) as nat);
        }
        self.visible_range = 120 * isqrt(sub) + MINIMUM_VISIBLE_RANGE;
    }

    /// Whether a point falls inside this player's visibility box.
    pub open spec fn spec_is_visible(&self, px: int, py: int) -> bool {
        let cx = sum_x(self.cells@) / (self.cells@.len() as int);
        let cy = sum_y(self.cells@) / (self.cells@.len() as int);
        let half = self.visible_range as int / 2;
        &&& cx - half <= px <= cx + half
        &&& cy - half <= py <= cy + half
    }

    pub fn is_visible(&self, p: Position) -> (b: bool)
        requires
            self.wf(),
            -POS_MAX <= p.x <= POS_MAX,
            -POS_MAX <= p.y <= POS_MAX,
        ensures
            b == self.spec_is_visible(p.x as int, p.y as int),
    {
        let half: i64 = (self.visible_range / 2) as i64;
        let center = self.position();
        center.x - half <= p.x && p.x <= center.x + half && center.y - half <= p.y && p.y
            <= center.y + half
    }
}

} // verus!
