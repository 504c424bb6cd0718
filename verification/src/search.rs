use vstd::prelude::*;
use crate::hex::{Cube, adjacent, is_neighbor_at};
use crate::world::World;

verus! {

/// Default movement allowance of an army for one turn, in tiles. The cost
/// model is a policy of the world, not of the search: `reachable_in` takes
/// the budget as a parameter.
pub const MOVE_ALLOWANCE: u32 = 2;

/// A tile is passable for `player`: it exists, its terrain permits army
/// presence, and it is not occupied by a hostile army (hostile-occupied
/// tiles are attack candidates, not movement destinations).
pub open spec fn passable(w: World, player: u32, c: Cube) -> bool {
    w.has_tile(c) && w.tile_at(c).category.spec_allows_army() && match w.tile_at(c).army {
        Some(a) => a.owner_index == player,
        None => true,
    }
}

/// The source holds an army of `player` that may still move this turn.
pub open spec fn movable_army(w: World, src: Cube, player: u32) -> bool {
    w.has_tile(src) && match w.tile_at(src).army {
        Some(a) => a.owner_index == player && a.can_move,
        None => false,
    }
}

/// The coordinates reachable from `src` in at most `k` unit steps over
/// passable tiles. The source itself is always a member, whatever stands
/// on it.
pub open spec fn reach_set(w: World, player: u32, src: Cube, k: nat) -> Set<Cube>
    decreases k,
{
    if k == 0 {
        Set::empty().insert(src)
    } else {
        let prev = reach_set(w, player, src, (k - 1) as nat);
        prev.union(
            Set::new(
                |c: Cube|
                    c.wf() && passable(w, player, c) && exists|p: Cube|
                        prev.contains(p) && adjacent(p, c),
            ),
        )
    }
}

/// Everything reachable in at least one step is passable and well-formed:
/// the search never yields a destination whose terrain forbids army
/// presence or that is held by a hostile army.
pub proof fn lemma_reach_passable(w: World, player: u32, src: Cube, k: nat, c: Cube)
    requires
        reach_set(w, player, src, k).contains(c),
        c != src,
    ensures
        passable(w, player, c),
        c.wf(),
    decreases k,
{
    if k > 0 {
        let prev = reach_set(w, player, src, (k - 1) as nat);
        if prev.contains(c) {
            lemma_reach_passable(w, player, src, (k - 1) as nat, c);
        }
    }
}

/// Every component of every reachable coordinate is within `k` of the
/// matching component of the source.
pub proof fn lemma_reach_near(w: World, player: u32, src: Cube, k: nat, c: Cube)
    requires
        reach_set(w, player, src, k).contains(c),
    ensures
        src.q - k <= c.q <= src.q + k,
        src.r - k <= c.r <= src.r + k,
        src.s - k <= c.s <= src.s + k,
    decreases k,
{
    if k > 0 {
        let prev = reach_set(w, player, src, (k - 1) as nat);
        if prev.contains(c) {
            lemma_reach_near(w, player, src, (k - 1) as nat, c);
        } else {
            let p = choose|p: Cube| prev.contains(p) && adjacent(p, c);
            lemma_reach_near(w, player, src, (k - 1) as nat, p);
            let i = choose|i: int| 0 <= i < 6 && is_neighbor_at(p, c, i);
        }
    }
}

/// Whether `v` holds `c`.
fn contains_cube(v: &Vec<Cube>, c: Cube) -> (r: bool)
    ensures
        r == v@.contains(c),
{
    let mut k: usize = 0;
    while k < v.len()
        invariant
            0 <= k <= v@.len(),
            forall|j: int| 0 <= j < k ==> v[j] != c,
        decreases v@.len() - k,
    {
        if v[k] == c {
            proof {
                assert(v@[k as int] == c);
            }
            return true;
        }
        k = k + 1;
    }
    false
}

/// Executable passability test.
fn passable_at(w: &World, player: u32, c: Cube) -> (r: bool)
    requires
        w.wf(),
    ensures
        r == passable(*w, player, c),
{
    match w.get(c) {
        Some(t) => t.category.allows_army() && match t.army {
            Some(a) => a.owner_index == player,
            None => true,
        },
        None => false,
    }
}

/// Breadth-first expansion from `src`, bounded by `budget` unit steps: the
/// returned destinations are exactly the coordinates (other than the
/// source) reachable over passable tiles, each listed once. The per-node
/// passability policy is the world's; the budget is the caller's.
#[verifier::loop_isolation(false)]
pub fn reachable_in(w: &World, player: u32, src: Cube, budget: u32) -> (v: Vec<Cube>)
    requires
        w.wf(),
        src.wf(),
        budget <= 1000,
        src.margin(budget as int + 1),
    ensures
        forall|c: Cube|
            v@.contains(c) <==> (reach_set(*w, player, src, budget as nat).contains(c) && c
                != src),
        forall|k1: int, k2: int| 0 <= k1 < k2 < v@.len() ==> v[k1] != v[k2],
{
    let mut visited: Vec<Cube> = Vec::new();
    visited.push(src);
    let mut step: u32 = 0;
    proof {
        assert(visited@[0] == src);
        assert(reach_set(*w, player, src, 0).contains(src));
        assert forall|c: Cube| visited@.contains(c) implies reach_set(*w, player, src, 0).contains(
            c,
        ) by {
            let j = choose|j: int| 0 <= j < visited@.len() && visited@[j] == c;
            assert(visited@[j] == src);
        }
    }
    while step < budget
        invariant
            0 <= step <= budget,
            forall|c: Cube|
                visited@.contains(c) <==> reach_set(*w, player, src, step as nat).contains(c),
            forall|j: int| 0 <= j < visited@.len() ==> (#[trigger] visited[j]).wf(),
            forall|k1: int, k2: int| 0 <= k1 < k2 < visited@.len() ==> visited[k1] != visited[k2],
        decreases budget - step,
    {
        let ghost snap: Seq<Cube> = visited@;
        proof {
            let prev = reach_set(*w, player, src, step as nat);
            let nxt = reach_set(*w, player, src, (step + 1) as nat);
            assert forall|j: int| 0 <= j < visited@.len() implies nxt.contains(
                #[trigger] visited[j],
            ) by {
                assert(visited@.contains(visited@[j]));
                assert(prev.contains(visited@[j]));
            }
        }
        let frontier_len = visited.len();
        let mut i: usize = 0;
        while i < frontier_len
            invariant
                0 <= i <= frontier_len,
                frontier_len == snap.len(),
                visited@.len() >= snap.len(),
                forall|j: int| 0 <= j < snap.len() ==> visited[j] == snap[j],
                forall|c: Cube|
                    snap.contains(c) <==> reach_set(*w, player, src, step as nat).contains(c),
                forall|j: int|
                    0 <= j < visited@.len() ==> reach_set(*w, player, src, (step + 1) as nat)
                        .contains(#[trigger] visited[j]),
                forall|j: int| 0 <= j < visited@.len() ==> (#[trigger] visited[j]).wf(),
                forall|j0: int, c: Cube|
                    0 <= j0 < i && c.wf() && passable(*w, player, c) && #[trigger] adjacent(
                        snap[j0],
                        c,
                    ) ==> visited@.contains(c),
                forall|k1: int, k2: int|
                    0 <= k1 < k2 < visited@.len() ==> visited[k1] != visited[k2],
            decreases frontier_len - i,
        {
            let p = visited[i];
            proof {
                assert(snap.contains(p)) by {
                    assert(snap[i as int] == p);
                }
                assert(reach_set(*w, player, src, step as nat).contains(p));
                lemma_reach_near(*w, player, src, step as nat, p);
            }
            let nbrs = p.neighbors();
            let mut t: usize = 0;
            while t < 6
                invariant
                    0 <= t <= 6,
                    visited@.len() >= snap.len(),
                    forall|j: int| 0 <= j < snap.len() ==> visited[j] == snap[j],
                    forall|j: int|
                        0 <= j < visited@.len() ==> reach_set(*w, player, src, (step + 1) as nat)
                            .contains(#[trigger] visited[j]),
                    forall|j: int| 0 <= j < visited@.len() ==> (#[trigger] visited[j]).wf(),
                    forall|j0: int, c: Cube|
                        0 <= j0 < i && c.wf() && passable(*w, player, c) && #[trigger] adjacent(
                            snap[j0],
                            c,
                        ) ==> visited@.contains(c),
                    forall|tt: int|
                        0 <= tt < t && (#[trigger] nbrs[tt]).wf() && passable(*w, player, nbrs[tt])
                            ==> visited@.contains(nbrs[tt]),
                    forall|k1: int, k2: int|
                        0 <= k1 < k2 < visited@.len() ==> visited[k1] != visited[k2],
                decreases 6 - t,
            {
                let c = nbrs[t];
                if passable_at(w, player, c) && !contains_cube(&visited, c) {
                    let ghost vpre: Seq<Cube> = visited@;
                    proof {
                        assert(is_neighbor_at(p, c, t as int));
                        assert(adjacent(p, c));
                        assert(c.wf());
                        assert(reach_set(*w, player, src, (step + 1) as nat).contains(c)) by {
                            let prev = reach_set(*w, player, src, step as nat);
                            assert(prev.contains(p));
                        }
                    }
                    visited.push(c);
                    proof {
                        assert(visited@[vpre.len() as int] == c);
                        assert forall|j0: int, cc: Cube|
                            0 <= j0 < i && cc.wf() && passable(*w, player, cc) && #[trigger] adjacent(
                                snap[j0],
                                cc,
                            ) implies visited@.contains(cc) by {
                            let jj = choose|jj: int| 0 <= jj < vpre.len() && vpre[jj] == cc;
                            assert(visited@[jj] == cc);
                        }
                        assert forall|tt: int|
                            0 <= tt < t + 1 && (#[trigger] nbrs[tt]).wf() && passable(
                                *w,
                                player,
                                nbrs[tt],
                            ) implies visited@.contains(nbrs[tt]) by {
                            if tt < t {
                                let jj = choose|jj: int|
                                    0 <= jj < vpre.len() && vpre[jj] == nbrs[tt];
                                assert(visited@[jj] == nbrs[tt]);
                            } else {
                                assert(visited@[vpre.len() as int] == nbrs[tt]);
                            }
                        }
                    }
                }
                t = t + 1;
            }
            proof {
                assert forall|j0: int, c: Cube|
                    0 <= j0 < i + 1 && c.wf() && passable(*w, player, c) && #[trigger] adjacent(
                        snap[j0],
                        c,
                    ) implies visited@.contains(c) by {
                    if j0 == i {
                        let ii = choose|ii: int| 0 <= ii < 6 && is_neighbor_at(snap[j0], c, ii);
                        assert(nbrs[ii] == c);
                    }
                }
            }
            i = i + 1;
        }
        proof {
            let nxt = reach_set(*w, player, src, (step + 1) as nat);
            let prev = reach_set(*w, player, src, step as nat);
            assert forall|c: Cube| nxt.contains(c) implies visited@.contains(c) by {
                if prev.contains(c) {
                    assert(snap.contains(c));
                    let j = choose|j: int| 0 <= j < snap.len() && snap[j] == c;
                    assert(visited@[j] == c);
                } else {
                    let p = choose|p: Cube| prev.contains(p) && adjacent(p, c);
                    assert(snap.contains(p));
                    let j0 = choose|j0: int| 0 <= j0 < snap.len() && snap[j0] == p;
                    assert(adjacent(snap[j0], c));
                    assert(c.wf() && passable(*w, player, c));
                }
            }
        }
        step = step + 1;
    }
    let mut out: Vec<Cube> = Vec::new();
    let mut k: usize = 0;
    while k < visited.len()
        invariant
            0 <= k <= visited@.len(),
            forall|j: int|
                0 <= j < out@.len() ==> (#[trigger] out[j]) != src && exists|m: int|
                    0 <= m < k && out[j] == visited[m],
            forall|m: int|
                0 <= m < k && (#[trigger] visited[m]) != src ==> out@.contains(visited[m]),
            forall|k1: int, k2: int| 0 <= k1 < k2 < out@.len() ==> out[k1] != out[k2],
        decreases visited@.len() - k,
    {
        let c = visited[k];
        if !(c == src) {
            proof {
                assert forall|j: int| 0 <= j < out@.len() implies out@[j] != c by {
                    if out@[j] == c {
                        let m = choose|m: int| 0 <= m < k && out@[j] == visited[m];
                        assert(visited[m] == visited[k as int]);
                    }
                }
            }
            let ghost opre: Seq<Cube> = out@;
            out.push(c);
            proof {
                assert(out@[opre.len() as int] == c);
                assert forall|m: int|
                    0 <= m < k + 1 && (#[trigger] visited[m]) != src implies out@.contains(
                    visited[m],
                ) by {
                    if m < k {
                        let j0 = choose|j: int| 0 <= j < opre.len() && opre[j] == visited[m];
                        assert(out@[j0] == visited[m]);
                    } else {
                        assert(out@[opre.len() as int] == visited[m]);
                    }
                }
            }
        }
        k = k + 1;
    }
    proof {
        assert forall|c: Cube|
            reach_set(*w, player, src, budget as nat).contains(c) && c != src implies out@.contains(
            c,
        ) by {
            assert(visited@.contains(c));
            let m = choose|m: int| 0 <= m < visited@.len() && visited@[m] == c;
        }
        assert forall|c: Cube| out@.contains(c) implies reach_set(*w, player, src, budget as nat)
            .contains(c) && c != src by {
            let j = choose|j: int| 0 <= j < out@.len() && out@[j] == c;
            let m = choose|m: int| 0 <= m < visited@.len() && out@[j] == visited@[m];
            assert(visited@.contains(visited@[m]));
        }
    }
    out
}

impl World {
    /// All legal destinations this turn for the army at `src` owned by
    /// `player`: empty when the source has no tile, no army of that player,
    /// or an army that may no longer move; otherwise exactly the passable
    /// coordinates reachable within the movement allowance, source
    /// excluded, each listed once.
    #[verifier::loop_isolation(false)]
    pub fn get_all_legal_moves(&self, src: Cube, player: u32) -> (v: Vec<Cube>)
        requires
            self.wf(),
            src.wf(),
            src.margin(MOVE_ALLOWANCE as int + 1),
        ensures
            !movable_army(*self, src, player) ==> v@.len() == 0,
            movable_army(*self, src, player) ==> forall|c: Cube|
                v@.contains(c) <==> (reach_set(*self, player, src, MOVE_ALLOWANCE as nat)
                    .contains(c) && c != src),
            forall|k: int| 0 <= k < v@.len() ==> passable(*self, player, #[trigger] v[k]),
            forall|k1: int, k2: int| 0 <= k1 < k2 < v@.len() ==> v[k1] != v[k2],
    {
        let movable = match self.get(src) {
            Some(t) => match t.army {
                Some(a) => a.owner_index == player && a.can_move,
                None => false,
            },
            None => false,
        };
        if !movable {
            let v: Vec<Cube> = Vec::new();
            return v;
        }
        let v = reachable_in(self, player, src, MOVE_ALLOWANCE);
        proof {
            assert forall|k: int| 0 <= k < v@.len() implies passable(
                *self,
                player,
                #[trigger] v[k],
            ) by {
                assert(v@.contains(v@[k]));
                lemma_reach_passable(*self, player, src, MOVE_ALLOWANCE as nat, v@[k]);
            }
        }
        v
    }
}

} // verus!
