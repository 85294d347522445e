//! Turning a room set and its mandatory edges into concrete corridor
//! paths.
//!
//! `Basic` draws exactly one corridor per mandatory edge.  `Secondary`
//! additionally tries one random extra connection per room and keeps it
//! only when it is short enough, adding redundant shortcuts without
//! arbitrarily long stray corridors.

use vstd::prelude::*;
use crate::random::RandomSource;
use crate::room::{Room, joins_rooms, rooms_intersect};
use crate::generator::{rooms_ok, pairwise_separated};
use crate::tunnels::Tunneler;
use crate::vectors::Vector2Int;

verus! {

/// Selects which corridors are drawn for a room set.
pub enum ConnectionStrategy {
    /// One corridor per mandatory edge, nothing else.
    Basic,
    /// Mandatory corridors first, then per room one random extra corridor,
    /// kept only if it has at most this many tiles.
    Secondary(u32),
}

/// Every mandatory edge names two rooms of the set.
pub open spec fn edges_in_range(conns: Seq<(usize, usize)>, n: int) -> bool {
    forall|k: int| 0 <= k < conns.len()
        ==> (#[trigger] conns[k]).0 < n && conns[k].1 < n
}

/// The path joins two distinct rooms of the set.
pub open spec fn secondary_ok(t: Tunneler, rooms: Seq<Room>, path: Seq<Vector2Int>) -> bool {
    exists|i: int, j: int|
        0 <= i < rooms.len() && 0 <= j < rooms.len() && i != j
            && #[trigger] joins_rooms(t, path, rooms[i], rooms[j])
}

/// The first `conns.len()` paths realize the mandatory edges in order;
/// any path after them is a kept secondary corridor: it joins two distinct
/// rooms of the set and respects the strategy's length cap.
pub open spec fn plan_post(
    strategy: ConnectionStrategy,
    t: Tunneler,
    rooms: Seq<Room>,
    conns: Seq<(usize, usize)>,
    paths: Seq<Vec<Vector2Int>>,
) -> bool {
    &&& paths.len() >= conns.len()
    &&& forall|k: int| 0 <= k < conns.len()
        ==> joins_rooms(t, (#[trigger] paths[k])@, rooms[conns[k].0 as int], rooms[conns[k].1 as int])
    &&& forall|k: int| conns.len() <= k < paths.len()
        ==> secondary_ok(t, rooms, (#[trigger] paths[k])@)
    &&& match strategy {
        ConnectionStrategy::Basic => paths.len() == conns.len(),
        ConnectionStrategy::Secondary(max_dist) =>
            forall|k: int| conns.len() <= k < paths.len()
                ==> (#[trigger] paths[k])@.len() <= max_dist,
    }
}

impl ConnectionStrategy {
    /// Draws the corridors for the given rooms and mandatory edges with the
    /// given tunneler.  Mandatory edges are always realized, in order; with
    /// `Secondary`, extra corridors over the length cap are silently
    /// dropped, so a cap of 0 on rooms that never touch reduces the output
    /// to exactly the mandatory corridors.
    pub fn plan(
        &self,
        rooms: &Vec<Room>,
        conns: &Vec<(usize, usize)>,
        tunneler: &Tunneler,
        rng: &mut RandomSource,
    ) -> (paths: Vec<Vec<Vector2Int>>)
        requires
            rooms_ok(rooms@),
            edges_in_range(conns@, rooms@.len() as int),
        ensures
            plan_post(*self, *tunneler, rooms@, conns@, paths@),
            (match *self {
                ConnectionStrategy::Secondary(max_dist) =>
                    max_dist == 0 && pairwise_separated(rooms@, 0),
                ConnectionStrategy::Basic => false,
            }) ==> paths@.len() == conns@.len(),
    {
        let mut paths: Vec<Vec<Vector2Int>> = Vec::new();
        let mut k: usize = 0;
        while k < conns.len()
            invariant
                rooms_ok(rooms@),
                edges_in_range(conns@, rooms@.len() as int),
                k <= conns@.len(),
                paths@.len() == k,
                forall|m: int| 0 <= m < k
                    ==> joins_rooms(*tunneler, (#[trigger] paths@[m])@,
                        rooms@[conns@[m].0 as int], rooms@[conns@[m].1 as int]),
            decreases conns@.len() - k,
        {
            let (ia, ib) = conns[k];
            let path = rooms[ia].join(&rooms[ib], tunneler, rng);
            paths.push(path);
            k = k + 1;
        }

        let max_dist = match self {
            ConnectionStrategy::Basic => {
                return paths;
            },
            ConnectionStrategy::Secondary(max_dist) => *max_dist,
        };

        let ghost mandatory = paths@;
        let n = rooms.len();
        if n == 0 {
            return paths;
        }
        let mut i: usize = 0;
        while i < n
            invariant
                rooms_ok(rooms@),
                n == rooms@.len(),
                n > 0,
                i <= n,
                mandatory.len() == conns@.len(),
                forall|m: int| 0 <= m < mandatory.len()
                    ==> joins_rooms(*tunneler, (#[trigger] mandatory[m])@,
                        rooms@[conns@[m].0 as int], rooms@[conns@[m].1 as int]),
                paths@.len() >= mandatory.len(),
                forall|m: int| 0 <= m < mandatory.len() ==> #[trigger] paths@[m] == mandatory[m],
                forall|m: int| mandatory.len() <= m < paths@.len()
                    ==> secondary_ok(*tunneler, rooms@, (#[trigger] paths@[m])@),
                forall|m: int| mandatory.len() <= m < paths@.len()
                    ==> (#[trigger] paths@[m])@.len() <= max_dist,
                pairwise_separated(rooms@, 0) && max_dist == 0
                    ==> paths@.len() == mandatory.len(),
            decreases n - i,
        {
            let j = rng.index(n);
            if j != i {
                let ghost prev = paths@;
                let path = rooms[i].join(&rooms[j], tunneler, rng);
                let ghost pv = path@;
                if path.len() <= max_dist as usize {
                    proof {
                        if pairwise_separated(rooms@, 0) && max_dist == 0 {
                            assert(!rooms_intersect(rooms@[i as int], rooms@[j as int], 0));
                            crate::room::lemma_disjoint_join_nonempty(
                                *tunneler, path@, rooms@[i as int], rooms@[j as int]);
                            assert(false);
                        }
                    }
                    paths.push(path);
                    proof {
                        assert(forall|m: int| 0 <= m < prev.len() ==> #[trigger] paths@[m] == prev[m]);
                        let last = paths@.len() - 1;
                        assert(paths@[last]@ == pv);
                        assert(joins_rooms(*tunneler, paths@[last]@, rooms@[i as int], rooms@[j as int]));
                        assert(secondary_ok(*tunneler, rooms@, paths@[last]@));
                    }
                }
            }
            i = i + 1;
        }
        proof {
            assert forall|k: int| 0 <= k < conns@.len()
                implies joins_rooms(*tunneler, (#[trigger] paths@[k])@,
                    rooms@[conns@[k].0 as int], rooms@[conns@[k].1 as int]) by {
                assert(paths@[k] == mandatory[k]);
            }
        }
        paths
    }
}

} // verus!
