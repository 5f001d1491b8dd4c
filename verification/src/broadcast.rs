//! The per-tick broadcast encodings: a tag-0 snapshot of nearby player cells
//! for every receiver, and a tag-1 snapshot of nearby food. Both lean on the
//! spatial grid's memoized bucket encodings, so that receivers with
//! overlapping visibility windows share the encoding work of one tick.

use vstd::prelude::*;
use vstd::bytes::{spec_u32_to_le_bytes, u32_to_le_bytes};
use crate::consts::{BROADCAST_GRID_CELL, GAME_WIDTH, POS_MAX};
use crate::entity::{FoodCell, PlayerCell, ToBytes};
use crate::game::Game;
use crate::grid::Grid;
use crate::player::{sum_x, sum_y, Player};

verus! {

/// Every cell of every player, player by player.
pub open spec fn all_cells(players: Seq<Player>) -> Seq<PlayerCell>
    decreases players.len(),
{
    if players.len() == 0 {
        Seq::empty()
    } else {
        all_cells(players.drop_last()) + players.last().cells@
    }
}

/// The 13-byte header of a tag-0 snapshot message for a receiver: the tag,
/// the receiver's centroid and its visibility window.
pub open spec fn state_header(p: Player) -> Seq<u8> {
    let cx = sum_x(p.cells@) / (p.cells@.len() as int);
    let cy = sum_y(p.cells@) / (p.cells@.len() as int);
    seq![0u8] + spec_u32_to_le_bytes(cx as u32) + spec_u32_to_le_bytes(cy as u32)
        + spec_u32_to_le_bytes(p.visible_range as u32)
}

/// A broadcast grid over the given items: built with the broadcast bucket
/// size over the world, its buckets holding exactly the in-world items in
/// ascending index order — which pins the grid's window bytes.
pub open spec fn is_broadcast_grid<T: crate::entity::PositionTrait + crate::entity::ToBytes>(
    g: Grid<T>,
    items: Seq<T>,
) -> bool {
    &&& g.wf()
    &&& g.items@ == items
    &&& g.cell_size == BROADCAST_GRID_CELL
    &&& g.grid_size == GAME_WIDTH / BROADCAST_GRID_CELL
    &&& forall|b: int, j1: int, j2: int|
        0 <= b < g.buckets.len() && 0 <= j1 < j2 < g.buckets[b].len() ==> #[trigger] g.buckets[b][j1]
            < #[trigger] g.buckets[b][j2]
}

/// The window bytes a receiver at centroid `(cx, cy)` with window `vr` sees.
pub open spec fn visible_window_bytes<
    T: crate::entity::PositionTrait + crate::entity::ToBytes,
>(g: Grid<T>, cx: int, cy: int, vr: int) -> Seq<u8> {
    g.window_bytes(g.win_lo(cx, vr), g.win_hi(cx, vr), g.win_lo(cy, vr), g.win_hi(cy, vr))
}

/// The body of player `i`'s snapshot message over grid `g`: the window bytes
/// around its centroid.
pub open spec fn player_window_bytes<
    T: crate::entity::PositionTrait + crate::entity::ToBytes,
>(g: Grid<T>, p: Player) -> Seq<u8> {
    let cx = sum_x(p.cells@) / (p.cells@.len() as int);
    let cy = sum_y(p.cells@) / (p.cells@.len() as int);
    visible_window_bytes(g, cx, cy, p.visible_range as int)
}

impl Game {
    /// One tag-0 snapshot message per player: the header, then the 13-byte
    /// records of every player cell whose grid bucket falls in the
    /// receiver's visibility window. Bucket encodings are computed once and
    /// shared between receivers.
    #[verifier::loop_isolation(false)]
    #[verifier::rlimit(90)]
    pub fn build_state_messages(&self) -> (msgs: Vec<(String, Vec<u8>)>)
        requires
            self.wf(),
        ensures
            msgs.len() == self.players.len(),
            forall|i: int| 0 <= i < msgs.len() ==> (#[trigger] msgs[i]).0@ == self.players[i].id@,
            forall|i: int|
                0 <= i < msgs.len() ==> (#[trigger] msgs[i]).1@.len() >= 13 && msgs[i].1@.subrange(
                    0,
                    13,
                ) == state_header(self.players[i]) && (msgs[i].1@.len() - 13) % 13 == 0,
            exists|g: Grid<PlayerCell>|
                #[trigger] is_broadcast_grid(g, all_cells(self.players@)) && forall|i: int|
                    0 <= i < msgs.len() ==> (#[trigger] msgs[i]).1@.skip(13) == player_window_bytes(
                        g,
                        self.players[i],
                    ),
    {
        let mut cells: Vec<PlayerCell> = Vec::new();
        let mut i: usize = 0;
        while i < self.players.len()
            invariant
                i <= self.players.len(),
                cells.len() <= 16 * i,
                cells@ == all_cells(self.players@.take(i as int)),
                forall|k: int| 0 <= k < cells.len() ==> (#[trigger] cells[k]).wf(),
            decreases self.players.len() - i,
        {
            proof {
                assert(self.players@.take(i as int + 1).drop_last() =~= self.players@.take(
                    i as int,
                ));
                assert(self.players@.take(i as int + 1).last() == self.players@[i as int]);
            }
            let ghost row_start = cells@;
            let mut j: usize = 0;
            while j < self.players[i].cells.len()
                invariant
                    i < self.players.len(),
                    j <= self.players[i as int].cells.len(),
                    cells.len() <= 16 * i + j,
                    cells@ == row_start + self.players[i as int].cells@.take(j as int),
                    row_start == all_cells(self.players@.take(i as int)),
                    forall|k: int| 0 <= k < cells.len() ==> (#[trigger] cells[k]).wf(),
                decreases self.players[i as int].cells.len() - j,
            {
                cells.push(self.players[i].cells[j]);
                proof {
                    assert(cells@ =~= row_start + self.players[i as int].cells@.take(
                        j as int + 1,
                    ));
                }
                j = j + 1;
            }
            proof {
                assert(self.players[i as int].cells@.take(
                    self.players[i as int].cells@.len() as int,
                ) =~= self.players[i as int].cells@);
                assert(cells@ =~= all_cells(self.players@.take(i as int + 1)));
            }
            i = i + 1;
        }
        proof {
            assert(self.players@.take(self.players@.len() as int) =~= self.players@);
        }
        let mut grid = Grid::<PlayerCell>::new(GAME_WIDTH, BROADCAST_GRID_CELL, cells);
        let ghost g0 = grid;
        proof {
            vstd::bytes::lemma_auto_spec_u32_to_from_le_bytes();
            assert(is_broadcast_grid(g0, all_cells(self.players@)));
        }
        let mut msgs: Vec<(String, Vec<u8>)> = Vec::new();
        let mut p: usize = 0;
        while p < self.players.len()
            invariant
                p <= self.players.len(),
                msgs.len() == p,
                grid.wf(),
                grid.cell_size == BROADCAST_GRID_CELL,
                grid.grid_size == GAME_WIDTH / BROADCAST_GRID_CELL,
                grid.items@ == g0.items@,
                grid.buckets@ == g0.buckets@,
                forall|k: int| 0 <= k < grid.items.len() ==> (#[trigger] grid.items[k]).wf(),
                forall|k: int| 0 <= k < p ==> (#[trigger] msgs[k]).0@ == self.players[k].id@,
                forall|k: int|
                    0 <= k < p ==> (#[trigger] msgs[k]).1@.len() >= 13 && msgs[k].1@.subrange(0, 13)
                        == state_header(self.players[k]) && (msgs[k].1@.len() - 13) % 13 == 0,
                forall|k: int|
                    0 <= k < p ==> (#[trigger] msgs[k]).1@.skip(13) == player_window_bytes(
                        g0,
                        self.players[k],
                    ),
            decreases self.players.len() - p,
        {
            let center = self.players[p].position();
            let vr: u64 = self.players[p].visible_range;
            let mut m: Vec<u8> = Vec::new();
            m.push(0u8);
            let mut xb = u32_to_le_bytes(center.x as u32);
            let mut yb = u32_to_le_bytes(center.y as u32);
            let mut vb = u32_to_le_bytes(vr as u32);
            m.append(&mut xb);
            m.append(&mut yb);
            m.append(&mut vb);
            proof {
                assert(m@ =~= state_header(self.players[p as int]));
            }
            let ghost g0 = grid;
            let mut body = grid.query_serialized(center, vr);
            proof {
                assert forall|k: int|
                    0 <= k < g0.items.len() implies (#[trigger] g0.items[k]).bytes_spec().len()
                    == 13 by {
                    assert(g0.items[k].wf());
                }
                g0.lemma_window_bytes_multiple(
                    13,
                    g0.win_lo(center.x as int, vr as int),
                    g0.win_hi(center.x as int, vr as int),
                    g0.win_lo(center.y as int, vr as int),
                    g0.win_hi(center.y as int, vr as int),
                );
            }
            let ghost mpre = m@;
            let ghost bodyv = body@;
            m.append(&mut body);
            proof {
                assert(m@.subrange(0, 13) =~= mpre);
                assert(mpre.len() == 13);
                assert(m@.skip(13) =~= bodyv);
                assert(player_window_bytes(g0, self.players[p as int]) == visible_window_bytes(
                    g0,
                    center.x as int,
                    center.y as int,
                    vr as int,
                ));
                assert(bodyv == visible_window_bytes(g0, center.x as int, center.y as int, vr as int));
                assert(m@.skip(13) == player_window_bytes(g0, self.players[p as int]));
            }
            msgs.push((self.players[p].id.clone(), m));
            p = p + 1;
        }
        msgs
    }

    /// One tag-1 food snapshot message per player: the tag byte, then the
    /// 9-byte records of every food cell whose grid bucket falls in the
    /// receiver's visibility window.
    #[verifier::loop_isolation(false)]
    #[verifier::rlimit(90)]
    pub fn build_food_messages(&self) -> (msgs: Vec<(String, Vec<u8>)>)
        requires
            self.wf(),
        ensures
            msgs.len() == self.players.len(),
            forall|i: int| 0 <= i < msgs.len() ==> (#[trigger] msgs[i]).0@ == self.players[i].id@,
            forall|i: int|
                0 <= i < msgs.len() ==> (#[trigger] msgs[i]).1@.len() >= 1 && msgs[i].1@[0] == 1u8
                    && (msgs[i].1@.len() - 1) % 9 == 0,
            exists|g: Grid<FoodCell>|
                #[trigger] is_broadcast_grid(g, self.food@) && forall|i: int|
                    0 <= i < msgs.len() ==> (#[trigger] msgs[i]).1@.skip(1) == player_window_bytes(
                        g,
                        self.players[i],
                    ),
    {
        let mut food: Vec<FoodCell> = Vec::new();
        let mut i: usize = 0;
        while i < self.food.len()
            invariant
                i <= self.food.len(),
                food.len() == i,
                food@ == self.food@.take(i as int),
                forall|k: int| 0 <= k < i ==> (#[trigger] food[k]).wf(),
            decreases self.food.len() - i,
        {
            food.push(self.food[i]);
            proof {
                assert(food@ =~= self.food@.take(i as int + 1));
            }
            i = i + 1;
        }
        proof {
            assert(self.food@.take(self.food@.len() as int) =~= self.food@);
        }
        let mut grid = Grid::<FoodCell>::new(GAME_WIDTH, BROADCAST_GRID_CELL, food);
        let ghost g0 = grid;
        proof {
            vstd::bytes::lemma_auto_spec_u32_to_from_le_bytes();
            assert(is_broadcast_grid(g0, self.food@));
        }
        let mut msgs: Vec<(String, Vec<u8>)> = Vec::new();
        let mut p: usize = 0;
        while p < self.players.len()
            invariant
                p <= self.players.len(),
                msgs.len() == p,
                grid.wf(),
                grid.cell_size == BROADCAST_GRID_CELL,
                grid.grid_size == GAME_WIDTH / BROADCAST_GRID_CELL,
                grid.items@ == g0.items@,
                grid.buckets@ == g0.buckets@,
                forall|k: int| 0 <= k < grid.items.len() ==> (#[trigger] grid.items[k]).wf(),
                forall|k: int| 0 <= k < p ==> (#[trigger] msgs[k]).0@ == self.players[k].id@,
                forall|k: int|
                    0 <= k < p ==> (#[trigger] msgs[k]).1@.len() >= 1 && msgs[k].1@[0] == 1u8 && (
                    msgs[k].1@.len() - 1) % 9 == 0,
                forall|k: int|
                    0 <= k < p ==> (#[trigger] msgs[k]).1@.skip(1) == player_window_bytes(
                        g0,
                        self.players[k],
                    ),
            decreases self.players.len() - p,
        {
            let center = self.players[p].position();
            let vr: u64 = self.players[p].visible_range;
            let mut m: Vec<u8> = Vec::new();
            m.push(1u8);
            let ghost g0 = grid;
            let mut body = grid.query_serialized(center, vr);
            proof {
                assert forall|k: int|
                    0 <= k < g0.items.len() implies (#[trigger] g0.items[k]).bytes_spec().len()
                    == 9 by {
                    assert(g0.items[k].wf());
                }
                g0.lemma_window_bytes_multiple(
                    9,
                    g0.win_lo(center.x as int, vr as int),
                    g0.win_hi(center.x as int, vr as int),
                    g0.win_lo(center.y as int, vr as int),
                    g0.win_hi(center.y as int, vr as int),
                );
            }
            let ghost bodyv = body@;
            m.append(&mut body);
            proof {
                assert(m@.skip(1) =~= bodyv);
                assert(bodyv == visible_window_bytes(
                    g0,
                    center.x as int,
                    center.y as int,
                    vr as int,
                ));
                assert(m@.skip(1) == player_window_bytes(g0, self.players[p as int]));
            }
            msgs.push((self.players[p].id.clone(), m));
            p = p + 1;
        }
        msgs
    }
}

} // verus!
