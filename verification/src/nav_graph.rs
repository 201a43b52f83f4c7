//! Directional navigation graph over the characters of an overlay: for each
//! node (global character index) its `[north, south, east, west]` targets.
//! A target equal to the node count `n` means "no neighbour in that
//! direction".
//!
//! Geometry (box centres, candidate costs, their ordering) is the caller's:
//! this module takes each node's candidates per direction, best first, and
//! builds the graph from them in three phases — a greedy local assignment, a
//! fill of the empty directions from global candidates followed by a repair
//! pass that makes the graph strongly connected, and a last fill from the
//! wrap-around candidates.
use vstd::prelude::*;

verus! {

/// Each node's targets as a sequence.
pub open spec fn rows(e: Seq<[usize; 4]>) -> Seq<Seq<usize>> {
    e.map_values(|a: [usize; 4]| a@)
}

/// Node `u` has a real target in direction `d`.
pub open spec fn has_edge(e: Seq<Seq<usize>>, n: int, u: int, d: int) -> bool {
    0 <= u < n && u < e.len() && 0 <= d < 4 && e[u][d] < n
}

/// The target of node `u` in direction `d`.
pub open spec fn dest(e: Seq<Seq<usize>>, u: int, d: int) -> int {
    e[u][d] as int
}

/// `v` can be reached from `s` in at most `k` steps.
pub open spec fn reach_within(e: Seq<Seq<usize>>, n: int, s: int, v: int, k: nat) -> bool
    decreases k,
{
    v == s || (k > 0 && exists|d: int|
        #[trigger] has_edge(e, n, s, d) && reach_within(e, n, dest(e, s, d), v, (k - 1) as nat))
}

/// `v` can be reached from `s` by following targets.
pub open spec fn reaches(e: Seq<Seq<usize>>, n: int, s: int, v: int) -> bool {
    exists|k: nat| #[trigger] reach_within(e, n, s, v, k)
}

/// Every node is reached from node 0 and reaches node 0, so every node
/// reaches every other.
pub open spec fn strongly_connected(e: Seq<Seq<usize>>, n: int) -> bool {
    &&& forall|v: int| 0 <= v < n ==> #[trigger] reaches(e, n, 0, v)
    &&& forall|v: int| 0 <= v < n ==> #[trigger] reaches(e, n, v, 0)
}

/// A step along a real target extends a path by one.
proof fn lemma_step_first(e: Seq<Seq<usize>>, n: int, s: int, d: int, v: int, k: nat)
    requires
        has_edge(e, n, s, d),
        reach_within(e, n, dest(e, s, d), v, k),
    ensures
        reach_within(e, n, s, v, k + 1),
{
    assert(reach_within(e, n, s, v, k + 1)) by {
        assert(has_edge(e, n, s, d) && reach_within(e, n, dest(e, s, d), v, k));
    }
}

/// A path followed by one more real target is a path one step longer.
proof fn lemma_step_last(e: Seq<Seq<usize>>, n: int, s: int, u: int, d: int, k: nat)
    requires
        reach_within(e, n, s, u, k),
        has_edge(e, n, u, d),
    ensures
        reach_within(e, n, s, dest(e, u, d), k + 1),
    decreases k,
{
    let t = dest(e, u, d);
    if u == s {
        assert(reach_within(e, n, t, t, k));
        lemma_step_first(e, n, s, d, t, k);
    } else {
        let d0 = choose|d0: int|
            #[trigger] has_edge(e, n, s, d0) && reach_within(
                e,
                n,
                dest(e, s, d0),
                u,
                (k - 1) as nat,
            );
        lemma_step_last(e, n, dest(e, s, d0), u, d, (k - 1) as nat);
        lemma_step_first(e, n, s, d0, t, k);
    }
}

/// A set of nodes that holds `s` and every target of its members holds
/// everything reachable from `s`.
proof fn lemma_closed_forward(e: Seq<Seq<usize>>, n: int, mark: Seq<bool>, s: int, v: int, k: nat)
    requires
        mark.len() == n,
        0 <= s < n,
        mark[s],
        forall|u: int, d: int| 0 <= u < n && #[trigger] has_edge(e, n, u, d) && mark[u] ==> mark[dest(e, u, d)],
        reach_within(e, n, s, v, k),
    ensures
        0 <= v < n && mark[v],
    decreases k,
{
    if v != s {
        let d0 = choose|d0: int|
            #[trigger] has_edge(e, n, s, d0) && reach_within(
                e,
                n,
                dest(e, s, d0),
                v,
                (k - 1) as nat,
            );
        lemma_closed_forward(e, n, mark, dest(e, s, d0), v, (k - 1) as nat);
    }
}

/// A set of nodes that holds `t` and every node with a target in it holds
/// every node that reaches `t`.
proof fn lemma_closed_backward(e: Seq<Seq<usize>>, n: int, mark: Seq<bool>, t: int, u: int, k: nat)
    requires
        mark.len() == n,
        0 <= t < n,
        0 <= u < n,
        mark[t],
        forall|w: int, d: int| 0 <= w < n && #[trigger] has_edge(e, n, w, d) && mark[dest(e, w, d)] ==> mark[w],
        reach_within(e, n, u, t, k),
    ensures
        mark[u],
    decreases k,
{
    if u != t {
        let d0 = choose|d0: int|
            #[trigger] has_edge(e, n, u, d0) && reach_within(
                e,
                n,
                dest(e, u, d0),
                t,
                (k - 1) as nat,
            );
        lemma_closed_backward(e, n, mark, t, dest(e, u, d0), (k - 1) as nat);
    }
}

/// Number of `true` entries.
pub open spec fn count_true(s: Seq<bool>) -> nat
    decreases s.len(),
{
    if s.len() == 0 {
        0
    } else {
        count_true(s.drop_last()) + if s.last() {
            1nat
        } else {
            0nat
        }
    }
}

proof fn lemma_count_bound(s: Seq<bool>)
    ensures
        count_true(s) <= s.len(),
    decreases s.len(),
{
    if s.len() > 0 {
        lemma_count_bound(s.drop_last());
    }
}

proof fn lemma_count_none(s: Seq<bool>)
    requires
        forall|j: int| 0 <= j < s.len() ==> !s[j],
    ensures
        count_true(s) == 0,
    decreases s.len(),
{
    if s.len() > 0 {
        lemma_count_none(s.drop_last());
    }
}

proof fn lemma_count_mark(s: Seq<bool>, i: int)
    requires
        0 <= i < s.len(),
        !s[i],
    ensures
        count_true(s.update(i, true)) == count_true(s) + 1,
    decreases s.len(),
{
    let u = s.update(i, true);
    if i == s.len() - 1 {
        assert(u.drop_last() =~= s.drop_last());
    } else {
        assert(u.drop_last() =~= s.drop_last().update(i, true));
        lemma_count_mark(s.drop_last(), i);
    }
}

/// Which nodes can be reached from `start`.
pub fn compute_reachable(edges: &Vec<[usize; 4]>, n: usize, start: usize) -> (r: Vec<bool>)
    requires
        start < n <= edges.len(),
    ensures
        r.len() == n,
        forall|v: int| 0 <= v < n ==> r@[v] == reaches(rows(edges@), n as int, start as int, v),
{
    let ghost e = rows(edges@);
    let mut visited: Vec<bool> = Vec::new();
    let mut i: usize = 0;
    while i < n
        invariant
            i <= n,
            visited.len() == i,
            forall|j: int| 0 <= j < i ==> !visited@[j],
        decreases n - i,
    {
        visited.push(false);
        i += 1;
    }
    proof {
        lemma_count_none(visited@);
        lemma_count_mark(visited@, start as int);
        assert(reach_within(e, n as int, start as int, start as int, 0));
    }
    visited.set(start, true);
    let mut marked: usize = 1;
    let mut stack: Vec<usize> = Vec::new();
    stack.push(start);
    proof {
        assert forall|u: int, d: int|
            0 <= u < n && #[trigger] has_edge(e, n as int, u, d) && visited@[u] && !stack@.contains(
                u as usize,
            ) implies visited@[dest(e, u, d)] by {
            assert(stack@[0] == start);
        }
    }
    while stack.len() > 0
        invariant
            n <= edges.len(),
            e == rows(edges@),
            start < n,
            visited.len() == n,
            marked == count_true(visited@),
            visited@[start as int],
            forall|j: int| 0 <= j < stack.len() ==> #[trigger] stack@[j] < n && visited@[stack@[j] as int],
            forall|v: int| 0 <= v < n && #[trigger] visited@[v] ==> reaches(e, n as int, start as int, v),
            forall|u: int, d: int|
                0 <= u < n && #[trigger] has_edge(e, n as int, u, d) && visited@[u] && !stack@.contains(u as usize)
                    ==> visited@[dest(e, u, d)],
        decreases n - marked, stack.len(),
    {
        proof {
            lemma_count_bound(visited@);
        }
        let ghost before = stack@;
        let u = stack.pop().unwrap();
        let row = edges[u];
        proof {
            assert(before =~= stack@.push(u));
            assert forall|w: int, dd: int|
                0 <= w < n && w != u && #[trigger] has_edge(e, n as int, w, dd) && visited@[w]
                    && !stack@.contains(w as usize) implies visited@[dest(e, w, dd)] by {
                if before.contains(w as usize) {
                    let j = choose|j: int| 0 <= j < before.len() && before[j] == w as usize;
                    if j < stack.len() {
                        assert(stack@[j] == w);
                    }
                }
            }
        }
        let ghost m0 = marked;
        let ghost s0 = stack.len();
        let mut d: usize = 0;
        while d < 4
            invariant
                n <= edges.len(),
                e == rows(edges@),
                start < n,
                u < n,
                row@ == e[u as int],
                visited.len() == n,
                marked == count_true(visited@),
                visited@[start as int],
                visited@[u as int],
                d <= 4,
                marked >= m0,
                marked <= n,
                stack.len() == s0 + (marked - m0),
                forall|j: int| 0 <= j < stack.len() ==> #[trigger] stack@[j] < n && visited@[stack@[j] as int],
                forall|v: int| 0 <= v < n && #[trigger] visited@[v] ==> reaches(e, n as int, start as int, v),
                forall|dd: int| 0 <= dd < d && #[trigger] has_edge(e, n as int, u as int, dd) ==> visited@[dest(e, u as int, dd)],
                forall|w: int, dd: int|
                    0 <= w < n && w != u && #[trigger] has_edge(e, n as int, w, dd) && visited@[w] && !stack@.contains(w as usize)
                        ==> visited@[dest(e, w, dd)],
            decreases 4 - d,
        {
            let v = row[d];
            if v < n && !visited[v] {
                proof {
                    assert(has_edge(e, n as int, u as int, d as int));
                    let k = choose|k: nat| #[trigger] reach_within(e, n as int, start as int, u as int, k);
                    lemma_step_last(e, n as int, start as int, u as int, d as int, k);
                    lemma_count_mark(visited@, v as int);
                    lemma_count_bound(visited@.update(v as int, true));
                }
                let ghost vis0 = visited@;
                let ghost st0 = stack@;
                visited.set(v, true);
                marked = marked + 1;
                stack.push(v);
                proof {
                    assert forall|w: int, dd: int|
                        0 <= w < n && w != u && #[trigger] has_edge(e, n as int, w, dd) && visited@[w]
                            && !stack@.contains(w as usize) implies visited@[dest(e, w, dd)] by {
                        assert(stack@[st0.len() as int] == v);
                        if st0.contains(w as usize) {
                            let j = choose|j: int| 0 <= j < st0.len() && st0[j] == w as usize;
                            assert(stack@[j] == w);
                        }
                        assert(vis0[w]);
                    }
                }
            }
            d += 1;
        }
    }
    proof {
        assert forall|v: int| 0 <= v < n implies visited@[v] == reaches(e, n as int, start as int, v) by {
            if reaches(e, n as int, start as int, v) {
                let k = choose|k: nat| #[trigger] reach_within(e, n as int, start as int, v, k);
                lemma_closed_forward(e, n as int, visited@, start as int, v, k);
            }
        }
    }
    visited
}


/// Some real target of `row` is marked.
fn points_into(row: [usize; 4], n: usize, mark: &Vec<bool>) -> (r: bool)
    requires
        mark.len() == n,
    ensures
        r == exists|d: int| 0 <= d < 4 && row@[d] < n && #[trigger] mark@[row@[d] as int],
{
    let mut d: usize = 0;
    while d < 4
        invariant
            d <= 4,
            mark.len() == n,
            forall|dd: int| 0 <= dd < d ==> !(row@[dd] < n && #[trigger] mark@[row@[dd] as int]),
        decreases 4 - d,
    {
        let v = row[d];
        if v < n && mark[v] {
            return true;
        }
        d += 1;
    }
    false
}

/// Which nodes can reach `target`.
pub fn compute_reverse_reachable(edges: &Vec<[usize; 4]>, n: usize, target: usize) -> (r: Vec<
    bool,
>)
    requires
        target < n <= edges.len(),
    ensures
        r.len() == n,
        forall|u: int| 0 <= u < n ==> r@[u] == reaches(rows(edges@), n as int, u, target as int),
{
    let ghost e = rows(edges@);
    let mut can_reach: Vec<bool> = Vec::new();
    let mut i: usize = 0;
    while i < n
        invariant
            i <= n,
            can_reach.len() == i,
            forall|j: int| 0 <= j < i ==> !can_reach@[j],
        decreases n - i,
    {
        can_reach.push(false);
        i += 1;
    }
    proof {
        lemma_count_none(can_reach@);
        lemma_count_mark(can_reach@, target as int);
        assert(reach_within(e, n as int, target as int, target as int, 0));
    }
    can_reach.set(target, true);
    let mut marked: usize = 1;
    let mut changed = true;
    while changed
        invariant
            n <= edges.len(),
            e == rows(edges@),
            target < n,
            can_reach.len() == n,
            marked == count_true(can_reach@),
            can_reach@[target as int],
            forall|v: int| 0 <= v < n && #[trigger] can_reach@[v] ==> reaches(e, n as int, v, target as int),
            !changed ==> forall|w: int, d: int|
                0 <= w < n && #[trigger] has_edge(e, n as int, w, d) && can_reach@[dest(e, w, d)] ==> can_reach@[w],
        decreases n - marked, if changed { 1int } else { 0int },
    {
        proof {
            lemma_count_bound(can_reach@);
        }
        let ghost m0 = marked;
        let ghost c0 = can_reach@;
        changed = false;
        let mut u: usize = 0;
        while u < n
            invariant
                n <= edges.len(),
                e == rows(edges@),
                target < n,
                u <= n,
                can_reach.len() == n,
                marked == count_true(can_reach@),
                marked <= n,
                can_reach@[target as int],
                forall|v: int| 0 <= v < n && #[trigger] can_reach@[v] ==> reaches(e, n as int, v, target as int),
                changed ==> marked > m0,
                !changed ==> can_reach@ == c0 && marked == m0,
                !changed ==> forall|w: int, d: int|
                    0 <= w < u && #[trigger] has_edge(e, n as int, w, d) && c0[dest(e, w, d)] ==> c0[w],
            decreases n - u,
        {
            if !can_reach[u] {
                let row = edges[u];
                if points_into(row, n, &can_reach) {
                    proof {
                        let d = choose|d: int| 0 <= d < 4 && row@[d] < n && #[trigger] can_reach@[row@[d] as int];
                        assert(has_edge(e, n as int, u as int, d));
                        let w = dest(e, u as int, d);
                        assert(reaches(e, n as int, w, target as int));
                        let k = choose|k: nat| #[trigger] reach_within(e, n as int, w, target as int, k);
                        lemma_step_first(e, n as int, u as int, d, target as int, k);
                        lemma_count_mark(can_reach@, u as int);
                        lemma_count_bound(can_reach@.update(u as int, true));
                    }
                    can_reach.set(u, true);
                    marked = marked + 1;
                    changed = true;
                } else {
                    proof {
                        assert forall|d: int| #[trigger] has_edge(e, n as int, u as int, d) && can_reach@[dest(e, u as int, d)] implies false by {
                            assert(row@[d] < n && can_reach@[row@[d] as int]);
                        }
                    }
                }
            }
            u += 1;
        }
    }
    proof {
        assert forall|u: int| 0 <= u < n implies can_reach@[u] == reaches(e, n as int, u, target as int) by {
            if reaches(e, n as int, u, target as int) {
                let k = choose|k: nat| #[trigger] reach_within(e, n as int, u, target as int, k);
                lemma_closed_backward(e, n as int, can_reach@, target as int, u, k);
            }
        }
    }
    can_reach
}

/// Whether every node reaches every other: all are reached from node 0 and
/// all reach node 0. With no nodes, trivially so.
pub fn is_strongly_connected(edges: &Vec<[usize; 4]>, n: usize) -> (r: bool)
    requires
        n <= edges.len(),
    ensures
        r == strongly_connected(rows(edges@), n as int),
{
    if n == 0 {
        return true;
    }
    let forward = compute_reachable(edges, n, 0);
    let mut i: usize = 0;
    while i < n
        invariant
            i <= n,
            forward.len() == n,
            forall|v: int| 0 <= v < n ==> forward@[v] == reaches(rows(edges@), n as int, 0, v),
            forall|v: int| 0 <= v < i ==> #[trigger] forward@[v],
        decreases n - i,
    {
        if !forward[i] {
            proof {
                assert(!reaches(rows(edges@), n as int, 0, i as int));
            }
            return false;
        }
        i += 1;
    }
    let backward = compute_reverse_reachable(edges, n, 0);
    let mut j: usize = 0;
    while j < n
        invariant
            j <= n,
            backward.len() == n,
            forward.len() == n,
            forall|v: int| 0 <= v < n ==> forward@[v] == reaches(rows(edges@), n as int, 0, v),
            forall|v: int| 0 <= v < n ==> backward@[v] == reaches(rows(edges@), n as int, v, 0),
            forall|v: int| 0 <= v < n ==> #[trigger] forward@[v],
            forall|v: int| 0 <= v < j ==> #[trigger] backward@[v],
        decreases n - j,
    {
        if !backward[j] {
            proof {
                assert(!(reaches(rows(edges@), n as int, 0, j as int) && reaches(rows(edges@), n as int, j as int, 0)));
                assert(!strongly_connected(rows(edges@), n as int));
            }
            return false;
        }
        j += 1;
    }
    proof {
        assert forall|v: int| 0 <= v < n implies #[trigger] reaches(rows(edges@), n as int, 0, v) by {
            assert(forward@[v]);
        }
        assert forall|v: int| 0 <= v < n implies #[trigger] reaches(rows(edges@), n as int, v, 0) by {
            assert(backward@[v]);
        }
    }
    true
}


/// The first index in `[lo, hi)` at which `p` holds, `hi` if none.
pub open spec fn first_index(p: spec_fn(int) -> bool, lo: int, hi: int) -> int
    decreases hi - lo,
{
    if lo >= hi {
        hi
    } else if p(lo) {
        lo
    } else {
        first_index(p, lo + 1, hi)
    }
}

pub proof fn lemma_first_index(p: spec_fn(int) -> bool, lo: int, hi: int)
    requires
        lo <= hi,
    ensures
        lo <= first_index(p, lo, hi) <= hi,
        first_index(p, lo, hi) < hi ==> p(first_index(p, lo, hi)),
        forall|j: int| #![trigger p(j)] lo <= j < first_index(p, lo, hi) ==> !p(j),
    decreases hi - lo,
{
    if lo < hi && !p(lo) {
        lemma_first_index(p, lo + 1, hi);
    }
}

/// The first index in `[lo, hi)` at which `p` holds is `i`.
pub proof fn lemma_first_index_is(p: spec_fn(int) -> bool, lo: int, hi: int, i: int)
    requires
        lo <= i <= hi,
        i == hi || p(i),
        forall|j: int| #![trigger p(j)] lo <= j < i ==> !p(j),
    ensures
        first_index(p, lo, hi) == i,
    decreases i - lo,
{
    if lo < i {
        lemma_first_index_is(p, lo + 1, hi, i);
    }
}

/// The first direction in which node `u` has a real target (4 if none).
pub open spec fn first_edge(e: Seq<Seq<usize>>, n: int, u: int) -> int {
    first_index(|d: int| has_edge(e, n, u, d), 0, 4)
}

/// The smallest node that node 0 does not reach (`n` if none).
pub open spec fn first_unreached(e: Seq<Seq<usize>>, n: int) -> int {
    first_index(|v: int| !reaches(e, n, 0, v), 0, n)
}

/// The smallest node that does not reach node 0 (`n` if none).
pub open spec fn first_unreaching(e: Seq<Seq<usize>>, n: int) -> int {
    first_index(|v: int| !reaches(e, n, v, 0), 0, n)
}

/// The graph with node `u`'s direction-`d` target replaced by `v`.
pub open spec fn retarget(e: Seq<Seq<usize>>, u: int, d: int, v: usize) -> Seq<Seq<usize>> {
    e.update(u, e[u].update(d, v))
}

/// The connectivity repair, run for at most `fuel` rounds; `None` when a
/// round meets a node that reaches nothing leading back to node 0 while one
/// of its directions is empty (that round cannot be carried out).
///
/// Each round on a graph that is not yet strongly connected changes one
/// target: while some node is not reached from node 0, node 0's first real
/// target is redirected to the smallest such node; once all are reached, the
/// north target of the smallest node that cannot get back to node 0 becomes
/// node 0. A round with nothing to redirect ends the repair.
pub open spec fn repair(e: Seq<Seq<usize>>, n: int, fuel: nat) -> Option<Seq<Seq<usize>>>
    decreases fuel,
{
    if fuel == 0 || strongly_connected(e, n) {
        Some(e)
    } else if first_unreached(e, n) < n {
        if first_edge(e, n, 0) < 4 {
            repair(
                retarget(e, 0, first_edge(e, n, 0), first_unreached(e, n) as usize),
                n,
                (fuel - 1) as nat,
            )
        } else {
            Some(e)
        }
    } else {
        let u = first_unreaching(e, n);
        if forall|d: int| 0 <= d < 4 ==> #[trigger] e[u][d] < n {
            repair(retarget(e, u, 0, 0), n, (fuel - 1) as nat)
        } else {
            None
        }
    }
}

/// A node whose every target is empty reaches only itself.
proof fn lemma_isolated(e: Seq<Seq<usize>>, n: int, s: int, v: int, k: nat)
    requires
        forall|d: int| !#[trigger] has_edge(e, n, s, d),
        reach_within(e, n, s, v, k),
    ensures
        v == s,
{
}

/// Reachability as a bit per node, then as the ascending list of the
/// unmarked nodes.
fn unmarked_nodes(mark: &Vec<bool>) -> (r: Vec<usize>)
    ensures
        forall|k: int| 0 <= k < r.len() ==> #[trigger] r@[k] < mark.len() && !mark@[r@[k] as int],
        forall|k1: int, k2: int| 0 <= k1 < k2 < r.len() ==> r@[k1] < r@[k2],
        forall|v: int| 0 <= v < mark.len() && !mark@[v] ==> #[trigger] r@.contains(v as usize),
{
    let mut r: Vec<usize> = Vec::new();
    let mut i: usize = 0;
    while i < mark.len()
        invariant
            i <= mark.len(),
            forall|k: int| 0 <= k < r.len() ==> #[trigger] r@[k] < i && !mark@[r@[k] as int],
            forall|k1: int, k2: int| 0 <= k1 < k2 < r.len() ==> r@[k1] < r@[k2],
            forall|v: int| 0 <= v < i && !mark@[v] ==> #[trigger] r@.contains(v as usize),
        decreases mark.len() - i,
    {
        if !mark[i] {
            let ghost r0 = r@;
            r.push(i);
            proof {
                assert forall|v: int| 0 <= v <= i && !mark@[v] implies #[trigger] r@.contains(v as usize) by {
                    if v < i {
                        assert(r0.contains(v as usize));
                        let k = choose|k: int| 0 <= k < r0.len() && r0[k] == v as usize;
                        assert(r@[k] == v);
                    } else {
                        assert(r@[r0.len() as int] == v);
                    }
                }
            }
        }
        i += 1;
    }
    r
}

/// The head of the ascending list of unmarked nodes is the first unmarked.
proof fn lemma_head_is_first(mark: Seq<bool>, list: Seq<usize>, p: spec_fn(int) -> bool)
    requires
        list.len() > 0,
        forall|v: int| 0 <= v < mark.len() ==> p(v) == !mark[v],
        forall|k: int| 0 <= k < list.len() ==> #[trigger] list[k] < mark.len() && !mark[list[k] as int],
        forall|k1: int, k2: int| 0 <= k1 < k2 < list.len() ==> list[k1] < list[k2],
        forall|v: int| 0 <= v < mark.len() && !mark[v] ==> #[trigger] list.contains(v as usize),
    ensures
        first_index(p, 0, mark.len() as int) == list[0],
{
    let h = list[0] as int;
    assert forall|j: int| #![trigger p(j)] 0 <= j < h implies !p(j) by {
        if !mark[j] {
            assert(list.contains(j as usize));
            let k = choose|k: int| 0 <= k < list.len() && list[k] == j as usize;
            if k > 0 {
                assert(list[0] < list[k]);
            }
        }
    }
    lemma_first_index_is(p, 0, mark.len() as int, h);
}

/// The repair round's choice while some node is not reached from node 0:
/// the first reached node, direction and unreached node such that the
/// direction's old target is a reached node and the new one is neither the
/// node itself nor among its targets.
fn choose_forward_fix(edges: &Vec<[usize; 4]>, n: usize, reached: &Vec<bool>, unreached: &Vec<usize>) -> (r:
    Option<(usize, usize, usize)>)
    requires
        0 < n <= edges.len(),
        reached.len() == n,
        forall|v: int| 0 <= v < n ==> reached@[v] == reaches(rows(edges@), n as int, 0, v),
        unreached.len() > 0,
        forall|k: int| 0 <= k < unreached.len() ==> #[trigger] unreached@[k] < n && !reached@[unreached@[k] as int],
        forall|k1: int, k2: int| 0 <= k1 < k2 < unreached.len() ==> unreached@[k1] < unreached@[k2],
        forall|v: int| 0 <= v < n && !reached@[v] ==> #[trigger] unreached@.contains(v as usize),
    ensures
        first_edge(rows(edges@), n as int, 0) < 4 ==> r == Some(
            (0usize, first_edge(rows(edges@), n as int, 0) as usize, first_unreached(rows(edges@), n as int) as usize),
        ),
        first_edge(rows(edges@), n as int, 0) == 4 ==> r is None,
{
    let ghost e = rows(edges@);
    let ghost fe = first_edge(e, n as int, 0);
    proof {
        let p = |d: int| has_edge(e, n as int, 0, d);
        lemma_first_index(p, 0, 4);
        assert(fe == first_index(p, 0, 4));
        assert forall|j: int| 0 <= j < fe implies !has_edge(e, n as int, 0, j) by {
            assert(!p(j));
        }
        lemma_head_is_first(reached@, unreached@, |v: int| !reaches(e, n as int, 0, v));
        assert(reach_within(e, n as int, 0, 0, 0));
        assert(reached@[0]);
    }
    let mut u: usize = 0;
    while u < n
        invariant
            0 < n <= edges.len(),
            e == rows(edges@),
            reached.len() == n,
            forall|v: int| 0 <= v < n ==> reached@[v] == reaches(e, n as int, 0, v),
            unreached.len() > 0,
            forall|k: int| 0 <= k < unreached.len() ==> #[trigger] unreached@[k] < n && !reached@[unreached@[k] as int],
            unreached@[0] == first_unreached(e, n as int),
            fe == first_edge(e, n as int, 0),
            0 <= fe <= 4,
            fe < 4 ==> has_edge(e, n as int, 0, fe),
            forall|j: int| 0 <= j < fe ==> !has_edge(e, n as int, 0, j),
            reached@[0],
            u <= n,
            u > 0 ==> fe == 4,
        decreases n - u,
    {
        if reached[u] {
            proof {
                if u > 0 {
                    let k = choose|k: nat| #[trigger] reach_within(e, n as int, 0, u as int, k);
                    assert forall|d: int| !#[trigger] has_edge(e, n as int, 0, d) by {
                        if 0 <= d < 4 {
                            assert(!has_edge(e, n as int, 0, d));
                        }
                    }
                    lemma_isolated(e, n as int, 0, u as int, k);
                }
            }
            let row = edges[u];
            let mut d: usize = 0;
            while d < 4
                invariant
                    0 < n <= edges.len(),
                    e == rows(edges@),
                    u == 0,
                    row@ == e[0],
                    reached.len() == n,
                    forall|v: int| 0 <= v < n ==> reached@[v] == reaches(e, n as int, 0, v),
                    unreached.len() > 0,
                    forall|k: int| 0 <= k < unreached.len() ==> #[trigger] unreached@[k] < n && !reached@[unreached@[k] as int],
                    unreached@[0] == first_unreached(e, n as int),
                    fe == first_edge(e, n as int, 0),
                    0 <= fe <= 4,
                    fe < 4 ==> has_edge(e, n as int, 0, fe),
                    forall|j: int| 0 <= j < fe ==> !has_edge(e, n as int, 0, j),
                    reached@[0],
                    d <= fe,
                decreases 4 - d,
            {
                let old_v = row[d];
                if old_v < n && reached[old_v] {
                    proof {
                        assert(has_edge(e, n as int, 0, d as int));
                        assert(d == fe);
                    }
                    let v = unreached[0];
                    if v != u && !row_contains(row, v) {
                        return Some((u, d, v));
                    }
                    proof {
                        assert(v != 0) by {
                            assert(!reached@[v as int]);
                        }
                        assert forall|dd: int| 0 <= dd < 4 implies row@[dd] != v by {
                            if row@[dd] == v {
                                assert(has_edge(e, n as int, 0, dd));
                                lemma_step_last(e, n as int, 0, 0, dd, 0);
                            }
                        }
                    }
                } else {
                    proof {
                        if old_v < n {
                            assert(has_edge(e, n as int, 0, d as int));
                            lemma_step_last(e, n as int, 0, 0, d as int, 0);
                        }
                        assert(!has_edge(e, n as int, 0, d as int));
                    }
                }
                d += 1;
            }
            proof {
                assert(fe == 4);
            }
        }
        u += 1;
    }
    None
}

/// Some target of `row` is `v`.
fn row_contains(row: [usize; 4], v: usize) -> (r: bool)
    ensures
        r == row@.contains(v),
{
    let mut d: usize = 0;
    while d < 4
        invariant
            d <= 4,
            forall|dd: int| 0 <= dd < d ==> row@[dd] != v,
        decreases 4 - d,
    {
        if row[d] == v {
            proof {
                assert(row@[d as int] == v);
            }
            return true;
        }
        d += 1;
    }
    false
}


/// The repair round's choice once every node is reached from node 0: for
/// the first node that cannot get back to node 0, whose targets therefore
/// all lead nowhere useful, the first direction and node that can get back
/// and is neither the node nor one of its targets. `None` when that node has
/// an empty direction, which the round cannot look up; `Some(None)` when no
/// choice exists.
fn choose_backward_fix(edges: &Vec<[usize; 4]>, n: usize, back: &Vec<bool>, stuck: &Vec<usize>) -> (r:
    Option<Option<(usize, usize, usize)>>)
    requires
        0 < n <= edges.len(),
        back.len() == n,
        forall|v: int| 0 <= v < n ==> back@[v] == reaches(rows(edges@), n as int, v, 0),
        stuck.len() > 0,
        forall|k: int| 0 <= k < stuck.len() ==> #[trigger] stuck@[k] < n && !back@[stuck@[k] as int],
        forall|k1: int, k2: int| 0 <= k1 < k2 < stuck.len() ==> stuck@[k1] < stuck@[k2],
        forall|v: int| 0 <= v < n && !back@[v] ==> #[trigger] stuck@.contains(v as usize),
    ensures
        ({
            let u = first_unreaching(rows(edges@), n as int);
            if forall|d: int| 0 <= d < 4 ==> #[trigger] rows(edges@)[u][d] < n {
                r == Some(Some((u as usize, 0usize, 0usize)))
            } else {
                r is None
            }
        }),
{
    let ghost e = rows(edges@);
    proof {
        lemma_head_is_first(back@, stuck@, |v: int| !reaches(e, n as int, v, 0));
        assert(reach_within(e, n as int, 0, 0, 0));
        assert(back@[0]);
    }
    let mut k: usize = 0;
    while k < stuck.len()
        invariant
            k == 0,
            0 < n <= edges.len(),
            e == rows(edges@),
            back.len() == n,
            back@[0],
            forall|v: int| 0 <= v < n ==> back@[v] == reaches(e, n as int, v, 0),
            stuck.len() > 0,
            forall|k: int| 0 <= k < stuck.len() ==> #[trigger] stuck@[k] < n && !back@[stuck@[k] as int],
            stuck@[0] == first_unreaching(e, n as int),
            0 <= first_unreaching(e, n as int) < n,
        decreases stuck.len() - k,
    {
        let u = stuck[k];
        let row = edges[u];
        let ghost ui = u as int;
        let mut all_cant = true;
        let mut d: usize = 0;
        while d < 4 && all_cant
            invariant
                0 < n <= edges.len(),
                e == rows(edges@),
                u < n,
                row@ == e[ui],
                ui == u,
                back.len() == n,
                forall|v: int| 0 <= v < n ==> back@[v] == reaches(e, n as int, v, 0),
                !back@[ui],
                ui == first_unreaching(e, n as int),
                all_cant,
                d <= 4,
                forall|dd: int| 0 <= dd < d ==> #[trigger] row@[dd] < n,
            decreases 4 - d,
        {
            let t = row[d];
            if t >= n {
                proof {
                    assert(!(e[ui][d as int] < n));
                    assert(ui == first_unreaching(e, n as int));
                    assert(!(forall|dd: int| 0 <= dd < 4 ==> #[trigger] e[ui][dd] < n));
                }
                return None;
            }
            if back[t] {
                proof {
                    assert(has_edge(e, n as int, ui, d as int));
                    let kk = choose|kk: nat| #[trigger] reach_within(e, n as int, t as int, 0, kk);
                    lemma_step_first(e, n as int, ui, d as int, 0, kk);
                }
                all_cant = false;
            }
            d += 1;
        }
        proof {
            assert(forall|dd: int| 0 <= dd < 4 ==> #[trigger] e[ui][dd] < n);
        }
        if all_cant {
            let mut dir: usize = 0;
            while dir < 4
                invariant
                    dir == 0,
                    0 < n <= edges.len(),
                    e == rows(edges@),
                    u < n,
                    ui == u,
                    row@ == e[ui],
                    back.len() == n,
                    back@[0],
                    forall|v: int| 0 <= v < n ==> back@[v] == reaches(e, n as int, v, 0),
                    !back@[ui],
                    ui == first_unreaching(e, n as int),
                    forall|dd: int| 0 <= dd < 4 ==> #[trigger] e[ui][dd] < n,
                decreases 4 - dir,
            {
                let mut v: usize = 0;
                while v < n
                    invariant
                        v == 0,
                        dir == 0,
                        0 < n <= edges.len(),
                        e == rows(edges@),
                        u < n,
                        ui == u,
                        row@ == e[ui],
                        back.len() == n,
                        back@[0],
                        forall|w: int| 0 <= w < n ==> back@[w] == reaches(e, n as int, w, 0),
                        !back@[ui],
                        ui == first_unreaching(e, n as int),
                        forall|dd: int| 0 <= dd < 4 ==> #[trigger] e[ui][dd] < n,
                    decreases n - v,
                {
                    proof {
                        assert(u != 0);
                        assert forall|dd: int| 0 <= dd < 4 implies row@[dd] != 0 by {
                            if row@[dd] == 0 {
                                assert(has_edge(e, n as int, ui, dd));
                                assert(reach_within(e, n as int, 0, 0, 0));
                                lemma_step_first(e, n as int, ui, dd, 0, 0);
                            }
                        }
                    }
                    if v == u || row_contains(row, v) {
                        v += 1;
                        continue;
                    }
                    if back[v] {
                        return Some(Some((u, dir, v)));
                    }
                    v += 1;
                }
                dir += 1;
            }
        }
        k += 1;
    }
    Some(None)
}

/// Redirect node `u`'s direction-`d` target to `v`.
fn set_target(edges: &mut Vec<[usize; 4]>, u: usize, d: usize, v: usize)
    requires
        u < old(edges).len(),
        d < 4,
    ensures
        rows(final(edges)@) == retarget(rows(old(edges)@), u as int, d as int, v),
        final(edges).len() == old(edges).len(),
{
    let mut row = edges[u];
    row[d] = v;
    proof {
        broadcast use vstd::array::group_array_axioms;
        assert(row@ =~= old(edges)@[u as int]@.update(d as int, v));
    }
    edges.set(u, row);
    proof {
        assert(rows(edges@) =~= retarget(rows(old(edges)@), u as int, d as int, v));
    }
}

/// Make the graph strongly connected where the repair allows, in at most `n`
/// rounds (see [`repair`]). Returns `false`, with the targets in an
/// unspecified state, exactly when a round meets a node that cannot get back
/// to node 0 while one of its directions is empty.
pub fn enforce_connectivity(edges: &mut Vec<[usize; 4]>, n: usize) -> (ok: bool)
    requires
        n <= old(edges).len(),
    ensures
        final(edges).len() == old(edges).len(),
        ok == repair(rows(old(edges)@), n as int, n as nat) is Some,
        ok ==> rows(final(edges)@) == repair(rows(old(edges)@), n as int, n as nat).unwrap(),
{
    let ghost e0 = rows(edges@);
    let mut it: usize = 0;
    while it < n
        invariant
            n <= edges.len(),
            e0 == rows(old(edges)@),
            edges.len() == e0.len(),
            it <= n,
            repair(e0, n as int, n as nat) == repair(rows(edges@), n as int, (n - it) as nat),
        decreases n - it,
    {
        let ghost e = rows(edges@);
        if is_strongly_connected(edges, n) {
            proof {
                assert(repair(e, n as int, (n - it) as nat) == Some(e));
            }
            return true;
        }
        let reached = compute_reachable(edges, n, 0);
        let unreached = unmarked_nodes(&reached);
        if unreached.len() > 0 {
            proof {
                lemma_head_is_first(reached@, unreached@, |v: int| !reaches(e, n as int, 0, v));
                lemma_first_index(|v: int| !reaches(e, n as int, 0, v), 0, n as int);
                let p = |d: int| has_edge(e, n as int, 0, d);
                lemma_first_index(p, 0, 4);
                assert(first_edge(e, n as int, 0) == first_index(p, 0, 4));
            }
            match choose_forward_fix(edges, n, &reached, &unreached) {
                Some((u, d, v)) => {
                    set_target(edges, u, d, v);
                }
                None => {
                    return true;
                },
            }
        } else {
            proof {
                let p = |v: int| !reaches(e, n as int, 0, v);
                assert forall|j: int| #![trigger p(j)] 0 <= j < n implies !p(j) by {
                    assert(!unreached@.contains(j as usize));
                    assert(reached@[j]);
                }
                lemma_first_index_is(p, 0, n as int, n as int);
            }
            let back = compute_reverse_reachable(edges, n, 0);
            let stuck = unmarked_nodes(&back);
            if stuck.len() == 0 {
                proof {
                    assert forall|v: int| 0 <= v < n implies #[trigger] reaches(e, n as int, 0, v) by {
                        assert(!unreached@.contains(v as usize));
                        assert(reached@[v]);
                    }
                    assert forall|v: int| 0 <= v < n implies #[trigger] reaches(e, n as int, v, 0) by {
                        assert(!stuck@.contains(v as usize));
                        assert(back@[v]);
                    }
                }
                return true;
            }
            proof {
                lemma_head_is_first(back@, stuck@, |v: int| !reaches(e, n as int, v, 0));
            }
            match choose_backward_fix(edges, n, &back, &stuck) {
                None => {
                    return false;
                },
                Some(None) => {
                    return true;
                },
                Some(Some((u, d, v))) => {
                    set_target(edges, u, d, v);
                },
            }
        }
        it += 1;
    }
    true
}


/// Direction `d` of a tentative assignment `r` is settled: it has a target,
/// and no earlier direction has the same one.
pub open spec fn settled(r: Seq<usize>, n: int, d: int) -> bool {
    r[d] != n && forall|k: int| 0 <= k < d ==> #[trigger] r[k] != r[d]
}

/// The first unsettled direction (4 if all are settled).
pub open spec fn first_unsettled(r: Seq<usize>, n: int) -> int {
    first_index(unsettled_at(r, n), 0, 4)
}

pub open spec fn unsettled_at(r: Seq<usize>, n: int) -> spec_fn(int) -> bool {
    |d: int| !settled(r, n, d)
}

pub open spec fn free_at(list: Seq<usize>, taken: Seq<usize>, n: int) -> spec_fn(int) -> bool {
    |k: int| list[k] != n && !taken.contains(list[k])
}

pub open spec fn untaken_at(taken: Seq<usize>) -> spec_fn(int) -> bool {
    |j: int| !taken.contains(j as usize)
}

/// Index in `list` of the first candidate that is a node and not yet taken.
pub open spec fn first_free_candidate(list: Seq<usize>, taken: Seq<usize>, n: int) -> int {
    first_index(free_at(list, taken, n), 0, list.len() as int)
}

/// The smallest node not yet taken (`n` if every node is).
pub open spec fn smallest_untaken(taken: Seq<usize>, n: int) -> int {
    first_index(untaken_at(taken), 0, n)
}

/// The best candidate of each direction, or `n` where a list is empty.
pub open spec fn first_choices(lists: Seq<Seq<usize>>, n: int) -> Seq<usize> {
    Seq::new(4, |d: int| if lists[d].len() > 0 { lists[d][0] } else { n as usize })
}

/// Conflict resolution, one round per step, from assignment `r`: the first
/// unsettled direction takes its next candidate not taken by an earlier
/// direction; failing that, a direction that had a (shared) target takes the
/// smallest untaken node; failing that (or when the direction was simply
/// empty), resolution ends.
pub open spec fn resolve(r: Seq<usize>, n: int, lists: Seq<Seq<usize>>, fuel: nat) -> Seq<usize>
    decreases fuel,
{
    let d = first_unsettled(r, n);
    if fuel == 0 || d >= 4 {
        r
    } else {
        let taken = r.take(d);
        let k = first_free_candidate(lists[d], taken, n);
        if k < lists[d].len() {
            resolve(r.update(d, lists[d][k]), n, lists, (fuel - 1) as nat)
        } else if r[d] != n && smallest_untaken(taken, n) < n {
            resolve(r.update(d, smallest_untaken(taken, n) as usize), n, lists, (fuel - 1) as nat)
        } else {
            r
        }
    }
}

/// The greedy assignment of one node from its candidate lists
/// `[north, south, east, west]`, best first: each direction's best candidate,
/// then conflict resolution (which takes at most four rounds).
pub open spec fn greedy(lists: Seq<Seq<usize>>, n: int) -> Seq<usize> {
    resolve(first_choices(lists, n), n, lists, 5)
}

/// Settling the first unsettled direction with a node not taken by the
/// earlier directions moves the first unsettled direction further on.
proof fn lemma_settle(r: Seq<usize>, n: int, d: int, x: usize)
    requires
        r.len() == 4,
        d == first_unsettled(r, n),
        0 <= d < 4,
        x != n,
        !r.take(d).contains(x),
    ensures
        first_unsettled(r.update(d, x), n) > d,
{
    let p = unsettled_at(r, n);
    let r2 = r.update(d, x);
    let p2 = unsettled_at(r2, n);
    lemma_first_index(p, 0, 4);
    lemma_first_index(p2, 0, 4);
    let f = first_index(p2, 0, 4);
    if f <= d {
        assert(p2(f));
        if f < d {
            assert(!p(f));
            assert forall|k: int| 0 <= k < f implies #[trigger] r2[k] != r2[f] by {
                assert(r2[k] == r[k]);
            }
        } else {
            assert forall|k: int| 0 <= k < d implies #[trigger] r2[k] != r2[d] by {
                assert(r.take(d)[k] == r[k]);
            }
        }
    }
}

/// The first unsettled direction of `r`.
fn find_unsettled(r: &[usize; 4], n: usize) -> (d: usize)
    ensures
        d == first_unsettled(r@, n as int),
{
    let ghost p = unsettled_at(r@, n as int);
    let mut d: usize = 0;
    while d < 4
        invariant
            d <= 4,
            p == unsettled_at(r@, n as int),
            forall|j: int| 0 <= j < d ==> !#[trigger] p(j),
        decreases 4 - d,
    {
        let x = r[d];
        let mut ok = x != n;
        let mut k: usize = 0;
        while k < d
            invariant
                k <= d < 4,
                x == r@[d as int],
                ok == (x != n && forall|j: int| 0 <= j < k ==> #[trigger] r@[j] != x),
            decreases d - k,
        {
            if r[k] == x {
                ok = false;
            }
            k += 1;
        }
        if !ok {
            proof {
                assert(p(d as int));
                lemma_first_index_is(p, 0, 4, d as int);
            }
            return d;
        }
        proof {
            assert(!p(d as int));
        }
        d += 1;
    }
    proof {
        lemma_first_index_is(p, 0, 4, 4);
    }
    4
}

/// `v` is among the first `d` entries of `r`.
fn taken_before(r: &[usize; 4], d: usize, v: usize) -> (b: bool)
    requires
        d <= 4,
    ensures
        b == r@.take(d as int).contains(v),
{
    let mut k: usize = 0;
    while k < d
        invariant
            k <= d <= 4,
            forall|j: int| 0 <= j < k ==> r@[j] != v,
        decreases d - k,
    {
        if r[k] == v {
            proof {
                assert(r@.take(d as int)[k as int] == v);
            }
            return true;
        }
        k += 1;
    }
    proof {
        assert forall|j: int| 0 <= j < r@.take(d as int).len() implies r@.take(d as int)[j] != v by {
            assert(r@.take(d as int)[j] == r@[j]);
        }
    }
    false
}

/// The first candidate of `list` that is a node and not taken by the first
/// `d` entries of `r`.
fn free_candidate(list: &Vec<usize>, r: &[usize; 4], d: usize, n: usize) -> (c: Option<usize>)
    requires
        d <= 4,
    ensures
        ({
            let k = first_free_candidate(list@, r@.take(d as int), n as int);
            if k < list.len() {
                c == Some(list@[k])
            } else {
                c is None
            }
        }),
{
    let ghost p = free_at(list@, r@.take(d as int), n as int);
    let mut k: usize = 0;
    while k < list.len()
        invariant
            k <= list.len(),
            d <= 4,
            p == free_at(list@, r@.take(d as int), n as int),
            forall|j: int| 0 <= j < k ==> !#[trigger] p(j),
        decreases list.len() - k,
    {
        let v = list[k];
        if v != n && !taken_before(r, d, v) {
            proof {
                assert(p(k as int));
                lemma_first_index_is(p, 0, list.len() as int, k as int);
            }
            return Some(v);
        }
        proof {
            assert(!p(k as int));
        }
        k += 1;
    }
    proof {
        lemma_first_index_is(p, 0, list.len() as int, list.len() as int);
    }
    None
}

/// The smallest node not taken by the first `d` entries of `r`.
fn untaken_node(r: &[usize; 4], d: usize, n: usize) -> (c: Option<usize>)
    requires
        d <= 4,
    ensures
        ({
            let j = smallest_untaken(r@.take(d as int), n as int);
            if j < n {
                c == Some(j as usize)
            } else {
                c is None
            }
        }),
{
    let ghost p = untaken_at(r@.take(d as int));
    let mut j: usize = 0;
    while j < n
        invariant
            j <= n,
            d <= 4,
            p == untaken_at(r@.take(d as int)),
            forall|i: int| 0 <= i < j ==> !#[trigger] p(i),
        decreases n - j,
    {
        if !taken_before(r, d, j) {
            proof {
                assert(p(j as int));
                lemma_first_index_is(p, 0, n as int, j as int);
            }
            return Some(j);
        }
        proof {
            assert(!p(j as int));
        }
        j += 1;
    }
    proof {
        lemma_first_index_is(p, 0, n as int, n as int);
    }
    None
}

/// Greedy assignment of one node's targets from its candidate lists, best
/// first: each direction's first candidate (or `n` when it has none), then
/// conflicts resolved one direction at a time (see [`resolve`]).
pub fn greedy_assignment(
    i: usize,
    n: usize,
    north: &Vec<usize>,
    south: &Vec<usize>,
    east: &Vec<usize>,
    west: &Vec<usize>,
) -> (r: [usize; 4])
    ensures
        r@ == greedy(seq![north@, south@, east@, west@], n as int),
{
    let ghost lists = seq![north@, south@, east@, west@];
    let mut result: [usize; 4] = [n, n, n, n];
    if north.len() > 0 {
        result[0] = north[0];
    }
    if south.len() > 0 {
        result[1] = south[0];
    }
    if east.len() > 0 {
        result[2] = east[0];
    }
    if west.len() > 0 {
        result[3] = west[0];
    }
    proof {
        broadcast use vstd::array::group_array_axioms;
        assert(result@ =~= first_choices(lists, n as int));
    }
    let ghost mut steps: int = 0;
    let mut stop = false;
    proof {
        lemma_first_index(unsettled_at(result@, n as int), 0, 4);
    }
    while !stop
        invariant
            lists == seq![north@, south@, east@, west@],
            0 <= steps <= 4,
            !stop ==> steps <= first_unsettled(result@, n as int),
            greedy(lists, n as int) == resolve(result@, n as int, lists, (5 - steps) as nat),
            stop ==> resolve(result@, n as int, lists, (5 - steps) as nat) == result@,
        decreases 2 * (4 - steps) + if stop { 0int } else { 1int },
    {
        proof {
            lemma_first_index(unsettled_at(result@, n as int), 0, 4);
        }
        let d = find_unsettled(&result, n);
        if d == 4 {
            stop = true;
        } else {
            let list = if d == 0 {
                north
            } else if d == 1 {
                south
            } else if d == 2 {
                east
            } else {
                west
            };
            proof {
                assert(list@ == lists[d as int]);
            }
            let ghost r0 = result@;
            match free_candidate(list, &result, d, n) {
                Some(alt) => {
                    proof {
                        let k = first_free_candidate(list@, r0.take(d as int), n as int);
                        lemma_first_index(free_at(list@, r0.take(d as int), n as int), 0, list.len() as int);
                        lemma_settle(r0, n as int, d as int, alt);
                    }
                    result[d] = alt;
                    proof {
                        broadcast use vstd::array::group_array_axioms;
                        assert(result@ =~= r0.update(d as int, alt));
                        steps = steps + 1;
                    }
                },
                None => {
                    if result[d] != n {
                        match untaken_node(&result, d, n) {
                            Some(j) => {
                                proof {
                                    lemma_first_index(untaken_at(r0.take(d as int)), 0, n as int);
                                    lemma_settle(r0, n as int, d as int, j);
                                }
                                result[d] = j;
                                proof {
                                    broadcast use vstd::array::group_array_axioms;
                                    assert(result@ =~= r0.update(d as int, j));
                                    steps = steps + 1;
                                }
                            },
                            None => {
                                stop = true;
                            },
                        }
                    } else {
                        stop = true;
                    }
                },
            }
        }
    }
    result
}


/// Each node's candidates per direction, best first (node indices).
pub struct CandidateLists {
    pub north: Vec<Vec<usize>>,
    pub south: Vec<Vec<usize>>,
    pub east: Vec<Vec<usize>>,
    pub west: Vec<Vec<usize>>,
}

impl CandidateLists {
    /// Node `i`'s lists `[north, south, east, west]`.
    pub open spec fn of(&self, i: int) -> Seq<Seq<usize>> {
        seq![self.north@[i]@, self.south@[i]@, self.east@[i]@, self.west@[i]@]
    }

    /// Lists for at least `n` nodes in every direction.
    pub open spec fn covers(&self, n: int) -> bool {
        n <= self.north.len() && n <= self.south.len() && n <= self.east.len() && n <= self.west.len()
    }
}

/// Node `i`'s greedy assignment for every node `i < n`.
pub fn greedy_assignment_all(n: usize, lists: &CandidateLists) -> (r: Vec<[usize; 4]>)
    requires
        lists.covers(n as int),
    ensures
        r.len() == n,
        forall|i: int| 0 <= i < n ==> #[trigger] r@[i]@ == greedy(lists.of(i), n as int),
{
    let mut edges: Vec<[usize; 4]> = Vec::new();
    let mut i: usize = 0;
    while i < n
        invariant
            i <= n,
            lists.covers(n as int),
            edges.len() == i,
            forall|j: int| 0 <= j < i ==> #[trigger] edges@[j]@ == greedy(lists.of(j), n as int),
        decreases n - i,
    {
        let row = greedy_assignment(
            i,
            n,
            &lists.north[i],
            &lists.south[i],
            &lists.east[i],
            &lists.west[i],
        );
        edges.push(row);
        i += 1;
    }
    edges
}

/// `v` can still fill one of a node's directions: it is neither the node
/// `i` itself nor already among the targets `occ`.
pub open spec fn usable(v: usize, i: int, occ: Seq<usize>) -> bool {
    v != i && !occ.contains(v)
}

pub open spec fn usable_at(list: Seq<usize>, i: int, occ: Seq<usize>) -> spec_fn(int) -> bool {
    |k: int| usable(list[k], i, occ)
}

/// How many candidates of `list` are usable.
pub open spec fn count_usable(list: Seq<usize>, i: int, occ: Seq<usize>) -> int
    decreases list.len(),
{
    if list.len() == 0 {
        0
    } else {
        count_usable(list.drop_last(), i, occ) + if usable(list.last(), i, occ) {
            1int
        } else {
            0int
        }
    }
}

/// The empty directions of `occ` among the first `m`, in order.
pub open spec fn empty_dirs(occ: Seq<usize>, n: int, m: int) -> Seq<int>
    decreases m,
{
    if m <= 0 {
        Seq::empty()
    } else if occ[m - 1] >= n {
        empty_dirs(occ, n, m - 1).push(m - 1)
    } else {
        empty_dirs(occ, n, m - 1)
    }
}

/// Direction `x` comes before `y`: fewer usable candidates, or as many and
/// a smaller direction index.
pub open spec fn comes_before(x: int, y: int, counts: Seq<int>) -> bool {
    counts[x] < counts[y] || (counts[x] == counts[y] && x < y)
}

/// `x` inserted into `s` before the first element it comes before.
pub open spec fn insert_dir(s: Seq<int>, x: int, counts: Seq<int>) -> Seq<int>
    decreases s.len(),
{
    if s.len() == 0 {
        seq![x]
    } else if comes_before(x, s[0], counts) {
        seq![x] + s
    } else {
        seq![s[0]] + insert_dir(s.drop_first(), x, counts)
    }
}

/// `s` ordered by [`comes_before`] (insertion order for ties, which cannot
/// arise between distinct directions).
pub open spec fn order_dirs(s: Seq<int>, counts: Seq<int>) -> Seq<int>
    decreases s.len(),
{
    if s.len() == 0 {
        s
    } else {
        insert_dir(order_dirs(s.drop_last(), counts), s.last(), counts)
    }
}

/// Directions of `order` filled in turn, each with its first usable
/// candidate, if any.
pub open spec fn fill_dirs(occ: Seq<usize>, order: Seq<int>, lists: Seq<Seq<usize>>, i: int) -> Seq<usize>
    decreases order.len(),
{
    if order.len() == 0 {
        occ
    } else {
        let d = order[0];
        let k = first_index(usable_at(lists[d], i, occ), 0, lists[d].len() as int);
        let next = if k < lists[d].len() {
            occ.update(d, lists[d][k])
        } else {
            occ
        };
        fill_dirs(next, order.drop_first(), lists, i)
    }
}

/// Node `i`'s targets `occ` with its empty directions filled from `lists`:
/// the directions with the fewest usable candidates go first.
pub open spec fn fill_node(occ: Seq<usize>, n: int, lists: Seq<Seq<usize>>, i: int) -> Seq<usize> {
    let counts = Seq::new(4, |d: int| count_usable(lists[d], i, occ));
    fill_dirs(occ, order_dirs(empty_dirs(occ, n, 4), counts), lists, i)
}

proof fn lemma_insert_dir(s: Seq<int>, x: int, counts: Seq<int>, p: int)
    requires
        0 <= p <= s.len(),
        p < s.len() ==> comes_before(x, s[p], counts),
        forall|j: int| 0 <= j < p ==> !comes_before(x, #[trigger] s[j], counts),
    ensures
        insert_dir(s, x, counts) == s.insert(p, x),
    decreases s.len(),
{
    if s.len() == 0 {
        assert(insert_dir(s, x, counts) =~= s.insert(p, x));
    } else if p == 0 {
        assert(insert_dir(s, x, counts) =~= s.insert(p, x));
    } else {
        let t = s.drop_first();
        assert forall|j: int| 0 <= j < p - 1 implies !comes_before(x, #[trigger] t[j], counts) by {
            assert(t[j] == s[j + 1]);
        }
        if p - 1 < t.len() {
            assert(t[p - 1] == s[p]);
        }
        lemma_insert_dir(t, x, counts, p - 1);
        assert(insert_dir(s, x, counts) =~= s.insert(p, x));
    }
}

/// Node indices as integers.
pub open spec fn as_ints(s: Seq<usize>) -> Seq<int> {
    s.map_values(|x: usize| x as int)
}

/// How many candidates of `list` are usable.
fn count_usable_exec(list: &Vec<usize>, i: usize, occ: [usize; 4]) -> (c: usize)
    ensures
        c == count_usable(list@, i as int, occ@),
{
    let mut c: usize = 0;
    let mut k: usize = 0;
    while k < list.len()
        invariant
            k <= list.len(),
            c <= k,
            c == count_usable(list@.take(k as int), i as int, occ@),
        decreases list.len() - k,
    {
        proof {
            assert(list@.take(k + 1).drop_last() =~= list@.take(k as int));
        }
        let v = list[k];
        if v != i && !row_contains(occ, v) {
            c = c + 1;
        }
        k += 1;
    }
    proof {
        assert(list@.take(list.len() as int) =~= list@);
    }
    c
}

/// The first usable candidate of `list`.
fn first_usable(list: &Vec<usize>, i: usize, occ: [usize; 4]) -> (c: Option<usize>)
    ensures
        ({
            let k = first_index(usable_at(list@, i as int, occ@), 0, list.len() as int);
            if k < list.len() {
                c == Some(list@[k])
            } else {
                c is None
            }
        }),
{
    let ghost p = usable_at(list@, i as int, occ@);
    let mut k: usize = 0;
    while k < list.len()
        invariant
            k <= list.len(),
            p == usable_at(list@, i as int, occ@),
            forall|j: int| 0 <= j < k ==> !#[trigger] p(j),
        decreases list.len() - k,
    {
        let v = list[k];
        if v != i && !row_contains(occ, v) {
            proof {
                assert(p(k as int));
                lemma_first_index_is(p, 0, list.len() as int, k as int);
            }
            return Some(v);
        }
        proof {
            assert(!p(k as int));
        }
        k += 1;
    }
    proof {
        lemma_first_index_is(p, 0, list.len() as int, list.len() as int);
    }
    None
}

/// Fill node `i`'s empty directions (targets `>= n`) from `lists`
/// `[north, south, east, west]`: the directions with the fewest usable
/// candidates (counted against the targets as they were) go first, each
/// taking its first candidate that is neither `i` nor already a target.
pub fn fill_empty_directions(
    i: usize,
    n: usize,
    row: [usize; 4],
    north: &Vec<usize>,
    south: &Vec<usize>,
    east: &Vec<usize>,
    west: &Vec<usize>,
) -> (r: [usize; 4])
    ensures
        r@ == fill_node(row@, n as int, seq![north@, south@, east@, west@], i as int),
{
    let ghost lists = seq![north@, south@, east@, west@];
    let ghost occ0 = row@;
    let c0 = count_usable_exec(north, i, row);
    let c1 = count_usable_exec(south, i, row);
    let c2 = count_usable_exec(east, i, row);
    let c3 = count_usable_exec(west, i, row);
    let counts: [usize; 4] = [c0, c1, c2, c3];
    let ghost cs = Seq::new(4, |d: int| count_usable(lists[d], i as int, occ0));
    proof {
        assert(counts@[0] == cs[0] && counts@[1] == cs[1] && counts@[2] == cs[2] && counts@[3] == cs[3]);
    }
    // The empty directions, then their order.
    let mut order: Vec<usize> = Vec::new();
    let mut d: usize = 0;
    while d < 4
        invariant
            d <= 4,
            occ0 == row@,
            forall|j: int| 0 <= j < 4 ==> counts@[j] == #[trigger] cs[j],
            forall|j: int| 0 <= j < order.len() ==> #[trigger] order@[j] < 4,
            as_ints(order@) == order_dirs(empty_dirs(occ0, n as int, d as int), cs),
        decreases 4 - d,
    {
        if row[d] >= n {
            let mut p: usize = 0;
            while p < order.len() && !(counts[d] < counts[order[p]] || (counts[d] == counts[order[p]] && d < order[p]))
                invariant
                    p <= order.len(),
                    d < 4,
                    forall|j: int| 0 <= j < 4 ==> counts@[j] == #[trigger] cs[j],
                    forall|j: int| 0 <= j < order.len() ==> #[trigger] order@[j] < 4,
                    forall|j: int| 0 <= j < p ==> !comes_before(d as int, #[trigger] as_ints(order@)[j], cs),
                decreases order.len() - p,
            {
                p += 1;
            }
            proof {
                let s = as_ints(order@);
                lemma_insert_dir(s, d as int, cs, p as int);
                assert(empty_dirs(occ0, n as int, d + 1) == empty_dirs(occ0, n as int, d as int).push(d as int));
                let e = empty_dirs(occ0, n as int, d + 1);
                assert(e.drop_last() =~= empty_dirs(occ0, n as int, d as int));
            }
            let ghost before = order@;
            order.insert(p, d);
            proof {
                assert(as_ints(order@) =~= as_ints(before).insert(p as int, d as int));
            }
        }
        d += 1;
    }
    // Fill in that order.
    let mut occ = row;
    let mut q: usize = 0;
    proof {
        assert(as_ints(order@).skip(0) =~= as_ints(order@));
    }
    while q < order.len()
        invariant
            q <= order.len(),
            forall|j: int| 0 <= j < order.len() ==> #[trigger] order@[j] < 4,
            fill_node(occ0, n as int, lists, i as int) == fill_dirs(occ@, as_ints(order@).skip(q as int), lists, i as int),
            lists == seq![north@, south@, east@, west@],
        decreases order.len() - q,
    {
        let dir = order[q];
        let list = if dir == 0 {
            north
        } else if dir == 1 {
            south
        } else if dir == 2 {
            east
        } else {
            west
        };
        let ghost o = as_ints(order@).skip(q as int);
        proof {
            assert(list@ == lists[dir as int]);
            assert(o[0] == dir);
            assert(o.drop_first() =~= as_ints(order@).skip(q + 1));
        }
        let ghost occ_before = occ@;
        match first_usable(list, i, occ) {
            Some(v) => {
                occ[dir] = v;
                proof {
                    broadcast use vstd::array::group_array_axioms;
                    assert(occ@ =~= occ_before.update(dir as int, v));
                }
            },
            None => {},
        }
        q += 1;
    }
    proof {
        assert(as_ints(order@).skip(order.len() as int) =~= Seq::<int>::empty());
    }
    occ
}


/// Node `i`'s greedy assignment, for every node.
pub open spec fn greedy_rows(n: int, local: CandidateLists) -> Seq<Seq<usize>> {
    Seq::new(n as nat, |i: int| greedy(local.of(i), n))
}

/// The first `n` nodes' empty directions filled from `lists`.
pub open spec fn filled_rows(e: Seq<Seq<usize>>, n: int, lists: CandidateLists) -> Seq<Seq<usize>> {
    Seq::new(e.len(), |i: int| if i < n { fill_node(e[i], n, lists.of(i), i) } else { e[i] })
}

/// The graph of a handful of nodes: node `i` points to the next four nodes
/// round the ring.
pub open spec fn ring_rows(n: int) -> Seq<Seq<usize>> {
    Seq::new(
        n as nat,
        |i: int| seq![((i + 1) % n) as usize, ((i + 2) % n) as usize, ((i + 3) % n) as usize, ((i + 4) % n) as usize],
    )
}

/// The graph built from candidate lists, as `(targets, greedy targets)`:
/// fewer than five nodes form a ring; otherwise the greedy assignment from
/// the local candidates, its empty directions filled from the global ones,
/// the connectivity repair, and a last fill from the wrap-around ones.
/// `None` when the repair cannot be carried out.
pub open spec fn built(n: int, local: CandidateLists, global: CandidateLists, wrap: CandidateLists) -> Option<
    (Seq<Seq<usize>>, Seq<Seq<usize>>),
> {
    if n < 5 {
        Some((ring_rows(n), ring_rows(n)))
    } else {
        let first = greedy_rows(n, local);
        match repair(filled_rows(first, n, global), n, n as nat) {
            Some(repaired) => Some((filled_rows(repaired, n, wrap), first)),
            None => None,
        }
    }
}

/// Fill the empty directions of the first `n` nodes from `lists`.
fn fill_all(edges: &mut Vec<[usize; 4]>, n: usize, lists: &CandidateLists)
    requires
        n <= old(edges).len(),
        lists.covers(n as int),
    ensures
        final(edges).len() == old(edges).len(),
        rows(final(edges)@) == filled_rows(rows(old(edges)@), n as int, *lists),
{
    let ghost e0 = rows(edges@);
    let mut i: usize = 0;
    while i < n
        invariant
            i <= n <= edges.len(),
            e0 == rows(old(edges)@),
            lists.covers(n as int),
            edges.len() == e0.len(),
            forall|j: int| 0 <= j < i ==> #[trigger] rows(edges@)[j] == fill_node(e0[j], n as int, lists.of(j), j),
            forall|j: int| i <= j < edges.len() ==> #[trigger] rows(edges@)[j] == e0[j],
        decreases n - i,
    {
        let row = edges[i];
        proof {
            assert(rows(edges@)[i as int] == edges@[i as int]@);
            assert(row@ == e0[i as int]);
        }
        let filled = fill_empty_directions(
            i,
            n,
            row,
            &lists.north[i],
            &lists.south[i],
            &lists.east[i],
            &lists.west[i],
        );
        let ghost before = edges@;
        edges.set(i, filled);
        proof {
            assert forall|j: int| 0 <= j < edges.len() implies #[trigger] rows(edges@)[j] == (if j == i {
                filled@
            } else {
                rows(before)[j]
            }) by {
                assert(rows(edges@)[j] == edges@[j]@);
                assert(rows(before)[j] == before[j]@);
            }
            assert(filled@ == fill_node(e0[i as int], n as int, lists.of(i as int), i as int));
        }
        i += 1;
    }
    proof {
        assert(rows(edges@) =~= filled_rows(e0, n as int, *lists));
    }
}

/// For each node (global character index) its targets
/// `[north, south, east, west]`; a target `>= n` means none.
#[derive(Clone, Debug)]
pub struct NavGraph {
    pub edges: Vec<[usize; 4]>,
    pub initial_edges: Vec<[usize; 4]>,
    pub n: usize,
}

impl NavGraph {
    /// The target of node `idx` in direction `dir` (north, south, east,
    /// west = 0, 1, 2, 3), if there is one.
    pub fn navigate(&self, idx: usize, dir: usize) -> (r: Option<usize>)
        requires
            idx < self.n && dir < 4 ==> idx < self.edges.len(),
        ensures
            r == (if idx < self.n && dir < 4 && self.edges@[idx as int]@[dir as int] < self.n {
                Some(self.edges@[idx as int]@[dir as int])
            } else {
                None
            }),
    {
        if idx >= self.n || dir >= 4 {
            return None;
        }
        let target = self.edges[idx][dir];
        if target >= self.n {
            return None;
        }
        Some(target)
    }

    /// The ring graph of `n` nodes (used below five nodes): node `i` points
    /// to the next four nodes round the ring.
    pub fn fallback(n: usize) -> (g: Self)
        requires
            n <= usize::MAX - 4,
        ensures
            g.n == n,
            rows(g.edges@) == ring_rows(n as int),
            rows(g.initial_edges@) == ring_rows(n as int),
    {
        let mut edges: Vec<[usize; 4]> = Vec::new();
        let mut i: usize = 0;
        while i < n
            invariant
                i <= n <= usize::MAX - 4,
                edges.len() == i,
                forall|j: int| 0 <= j < i ==> #[trigger] rows(edges@)[j] == ring_rows(n as int)[j],
            decreases n - i,
        {
            let row: [usize; 4] = [(i + 1) % n, (i + 2) % n, (i + 3) % n, (i + 4) % n];
            proof {
                assert(row@ =~= ring_rows(n as int)[i as int]);
            }
            let ghost before = edges@;
            edges.push(row);
            proof {
                assert forall|j: int| 0 <= j <= i implies #[trigger] rows(edges@)[j] == ring_rows(n as int)[j] by {
                    assert(rows(edges@)[j] == edges@[j]@);
                    if j < i {
                        assert(rows(before)[j] == before[j]@);
                    }
                }
            }
            i += 1;
        }
        let initial_edges = copy_rows(&edges);
        proof {
            assert(rows(edges@) =~= ring_rows(n as int));
        }
        NavGraph { edges, initial_edges, n }
    }

    /// The graph over `n` nodes from their candidate lists (see [`built`]):
    /// `local` for the greedy assignment, `global` for the first fill and the
    /// connectivity repair, `wrap` for the last fill. `None` when the repair
    /// cannot be carried out.
    pub fn from_candidates(
        n: usize,
        local: &CandidateLists,
        global: &CandidateLists,
        wrap: &CandidateLists,
    ) -> (g: Option<Self>)
        requires
            n >= 5 ==> local.covers(n as int) && global.covers(n as int) && wrap.covers(n as int),
        ensures
            g is Some == built(n as int, *local, *global, *wrap) is Some,
            g is Some ==> g.unwrap().n == n && (rows(g.unwrap().edges@), rows(
                g.unwrap().initial_edges@,
            )) == built(n as int, *local, *global, *wrap).unwrap(),
    {
        if n < 5 {
            return Some(Self::fallback(n));
        }
        let mut edges = greedy_assignment_all(n, local);
        proof {
            assert(rows(edges@) =~= greedy_rows(n as int, *local));
        }
        let initial_edges = copy_rows(&edges);
        fill_all(&mut edges, n, global);
        if !enforce_connectivity(&mut edges, n) {
            return None;
        }
        fill_all(&mut edges, n, wrap);
        Some(NavGraph { edges, initial_edges, n })
    }
}

/// A copy of `e`.
fn copy_rows(e: &Vec<[usize; 4]>) -> (r: Vec<[usize; 4]>)
    ensures
        r@ == e@,
{
    let mut r: Vec<[usize; 4]> = Vec::new();
    let mut i: usize = 0;
    while i < e.len()
        invariant
            i <= e.len(),
            r@ == e@.take(i as int),
        decreases e.len() - i,
    {
        r.push(e[i]);
        proof {
            assert(e@.take(i + 1) =~= e@.take(i as int).push(e@[i as int]));
        }
        i += 1;
    }
    proof {
        assert(e@.take(e.len() as int) =~= e@);
    }
    r
}


proof fn lemma_ring_north(n: int, i: int)
    requires
        0 <= i < n <= usize::MAX,
    ensures
        ring_rows(n)[i][0] == (if i + 1 < n {
            i + 1
        } else {
            0
        }),
        has_edge(ring_rows(n), n, i, 0),
{
    if i + 1 < n {
        vstd::arithmetic::div_mod::lemma_small_mod((i + 1) as nat, n as nat);
    } else {
        vstd::arithmetic::div_mod::lemma_mod_self_0(n);
    }
}

/// Round the ring northwards from `s`, every later node is reached.
proof fn lemma_ring_forward(n: int, s: int, v: int)
    requires
        0 <= s <= v < n <= usize::MAX,
    ensures
        reach_within(ring_rows(n), n, s, v, (v - s) as nat),
    decreases v - s,
{
    if s < v {
        lemma_ring_north(n, s);
        lemma_ring_forward(n, s + 1, v);
        lemma_step_first(ring_rows(n), n, s, 0, v, (v - s - 1) as nat);
    }
}

/// The ring graph of the small-graph fallback is strongly connected: going
/// north from any node visits every node and comes back round.
pub proof fn law_fallback_ring_connected(count: usize)
    requires
        count >= 1,
    ensures
        strongly_connected(ring_rows(count as int), count as int),
{
    let n = count as int;
    let e = ring_rows(n);
    assert forall|v: int| 0 <= v < n implies #[trigger] reaches(e, n, 0, v) by {
        lemma_ring_forward(n, 0, v);
    }
    assert forall|v: int| 0 <= v < n implies #[trigger] reaches(e, n, v, 0) by {
        lemma_ring_forward(n, v, n - 1);
        lemma_ring_north(n, n - 1);
        lemma_step_last(e, n, v, n - 1, 0, (n - 1 - v) as nat);
    }
}

} // verus!
