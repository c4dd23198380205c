//! Next-hop discovery: the known routes, seen as an undirected graph over
//! servers, and a breadth-first search in it.
use crate::messages::ServerId;
use vstd::prelude::*;

verus! {

broadcast use vstd::seq_lib::lemma_seq_contains_after_push;

/// The routes, each as its sequence of servers.
pub open spec fn routes_view(routes: Seq<Vec<ServerId>>) -> Seq<Seq<ServerId>> {
    routes.map_values(|r: Vec<ServerId>| r@)
}

/// `a` and `b` are joined by route `r`: they stand next to each other in it,
/// or one is this server `me` and the other the route's next hop, its last server.
pub open spec fn route_link(r: Seq<ServerId>, me: ServerId, a: ServerId, b: ServerId) -> bool {
    ||| (r.len() > 0 && ((a == me && b == r.last()) || (b == me && a == r.last())))
    ||| exists|j: int|
        #![trigger r[j]]
        0 <= j < r.len() - 1 && ((r[j] == a && r[j + 1] == b) || (r[j] == b && r[j + 1] == a))
}

/// `a` and `b` are joined by one of the routes.
pub open spec fn linked(routes: Seq<Seq<ServerId>>, me: ServerId, a: ServerId, b: ServerId) -> bool {
    exists|i: int| 0 <= i < routes.len() && route_link(#[trigger] routes[i], me, a, b)
}

/// `p` is a walk through the graph of the routes that starts at `me`.
pub open spec fn is_path(routes: Seq<Seq<ServerId>>, me: ServerId, p: Seq<ServerId>) -> bool {
    &&& p.len() > 0
    &&& p[0] == me
    &&& forall|k: int| 0 <= k < p.len() - 1 ==> linked(routes, me, #[trigger] p[k], p[k + 1])
}

/// Some walk from `me` ends at `x`.
pub open spec fn reachable(routes: Seq<Seq<ServerId>>, me: ServerId, x: ServerId) -> bool {
    exists|p: Seq<ServerId>| is_path(routes, me, p) && p.last() == x
}

/// Server `x` stands in one of the routes.
pub open spec fn mentioned(routes: Seq<Seq<ServerId>>, x: ServerId) -> bool {
    exists|i: int, j: int|
        #![trigger routes[i][j]]
        0 <= i < routes.len() && 0 <= j < routes[i].len() && routes[i][j] == x
}

/// The joined pairs listed in `edges`.
pub open spec fn has_edge(edges: Seq<(ServerId, ServerId)>, a: ServerId, b: ServerId) -> bool {
    edges.contains((a, b))
}

/// Lists every joined pair of servers, in both directions.
fn edges_of(routes: &Vec<Vec<ServerId>>, me: ServerId) -> (edges: Vec<(ServerId, ServerId)>)
    ensures
        forall|k: int|
            0 <= k < edges@.len() ==> linked(
                routes_view(routes@),
                me,
                (#[trigger] edges@[k]).0,
                edges@[k].1,
            ),
        forall|k: int|
            0 <= k < edges@.len() ==> (#[trigger] edges@[k]).0 == me || mentioned(
                routes_view(routes@),
                edges@[k].0,
            ),
        forall|k: int|
            0 <= k < edges@.len() ==> (#[trigger] edges@[k]).1 == me || mentioned(
                routes_view(routes@),
                edges@[k].1,
            ),
        forall|a: ServerId, b: ServerId|
            #[trigger] linked(routes_view(routes@), me, a, b) ==> has_edge(
                edges@,
                a,
                b,
            ),
{
    let ghost rs = routes_view(routes@);
    let mut edges: Vec<(ServerId, ServerId)> = Vec::new();
    let mut i: usize = 0;
    while i < routes.len()
        invariant
            i <= routes@.len(),
            rs == routes_view(routes@),
            forall|a: ServerId, b: ServerId, i2: int|
                0 <= i2 < i && #[trigger] route_link(rs[i2], me, a, b) ==> has_edge(edges@, a, b),
            forall|k: int|
                0 <= k < edges@.len() ==> linked(rs, me, (#[trigger] edges@[k]).0, edges@[k].1),
            forall|k: int|
                0 <= k < edges@.len() ==> (#[trigger] edges@[k]).0 == me || mentioned(
                    rs,
                    edges@[k].0,
                ),
            forall|k: int|
                0 <= k < edges@.len() ==> (#[trigger] edges@[k]).1 == me || mentioned(
                    rs,
                    edges@[k].1,
                ),
        decreases routes@.len() - i,
    {
        let r = &routes[i];
        let ghost ri = rs[i as int];
        assert(ri == r@);
        let n = r.len();
        if n > 0 {
            let last = r[n - 1];
            proof {
                assert(route_link(rs[i as int], me, me, last));
                assert(route_link(rs[i as int], me, last, me));
                assert(mentioned(rs, last)) by {
                    assert(rs[i as int][n - 1] == last);
                }
            }
            edges.push((me, last));
            edges.push((last, me));
        }
        let mut j: usize = 1;
        while j < n
            invariant
                1 <= j <= n + 1,
                i < routes@.len(),
                n == r@.len(),
                r@ == rs[i as int],
                rs == routes_view(routes@),
                forall|a: ServerId, b: ServerId, i2: int|
                    0 <= i2 < i && #[trigger] route_link(rs[i2], me, a, b) ==> has_edge(
                        edges@,
                        a,
                        b,
                    ),
                n > 0 ==> has_edge(edges@, me, r@.last()) && has_edge(edges@, r@.last(), me),
                forall|jj: int|
                    0 <= jj && jj + 1 < j && jj + 1 < n ==> has_edge(edges@, #[trigger] r@[jj], r@[jj + 1])
                        && has_edge(edges@, r@[jj + 1], r@[jj]),
                forall|k: int|
                    0 <= k < edges@.len() ==> linked(rs, me, (#[trigger] edges@[k]).0, edges@[k].1),
                forall|k: int|
                    0 <= k < edges@.len() ==> (#[trigger] edges@[k]).0 == me || mentioned(
                        rs,
                        edges@[k].0,
                    ),
                forall|k: int|
                    0 <= k < edges@.len() ==> (#[trigger] edges@[k]).1 == me || mentioned(
                        rs,
                        edges@[k].1,
                    ),
            decreases n + 1 - j,
        {
            let a = r[j - 1];
            let b = r[j];
            proof {
                assert(route_link(rs[i as int], me, a, b));
                assert(route_link(rs[i as int], me, b, a));
                assert(rs[i as int][j - 1] == a);
                assert(rs[i as int][j as int] == b);
            }
            edges.push((a, b));
            edges.push((b, a));
            j = j + 1;
        }
        proof {
            assert forall|a: ServerId, b: ServerId, i2: int|
                0 <= i2 < i + 1 && #[trigger] route_link(rs[i2], me, a, b) implies has_edge(
                edges@,
                a,
                b,
            ) by {
                if i2 == i {
                    if !(n > 0 && ((a == me && b == r@.last()) || (b == me && a == r@.last()))) {
                        let jj = choose|jj: int|
                            #![trigger r@[jj]]
                            0 <= jj < r@.len() - 1 && ((r@[jj] == a && r@[jj + 1] == b) || (
                            r@[jj] == b && r@[jj + 1] == a));
                        assert(has_edge(edges@, r@[jj], r@[jj + 1]));
                    }
                }
            }
        }
        i = i + 1;
    }
    proof {
        assert forall|a: ServerId, b: ServerId| #[trigger] linked(rs, me, a, b) implies has_edge(
            edges@,
            a,
            b,
        ) by {
            let i2 = choose|i2: int| 0 <= i2 < rs.len() && route_link(#[trigger] rs[i2], me, a, b);
        }
    }
    edges
}

/// Whether `v` is listed.
fn listed(seen: &Vec<ServerId>, v: ServerId) -> (r: bool)
    ensures
        r == seen@.contains(v),
{
    let mut t: usize = 0;
    while t < seen.len()
        invariant
            t <= seen@.len(),
            forall|u: int| 0 <= u < t ==> seen@[u] != v,
        decreases seen@.len() - t,
    {
        if seen[t] == v {
            return true;
        }
        t = t + 1;
    }
    false
}

/// Every listed server is `me` or the far end of a listed pair.
spec fn within(seen: Seq<ServerId>, edges: Seq<(ServerId, ServerId)>, me: ServerId) -> bool {
    forall|t: int|
        0 <= t < seen.len() ==> #[trigger] seen[t] == me || exists|k: int|
            0 <= k < edges.len() && edges[k].1 == seen[t]
}

/// The search tree: each server found after `me` records the index of the
/// server it was reached from, joined to it and found before it.
spec fn tree(
    rs: Seq<Seq<ServerId>>,
    me: ServerId,
    seen: Seq<ServerId>,
    parent: Seq<usize>,
) -> bool {
    &&& seen.len() == parent.len()
    &&& seen.len() > 0
    &&& seen[0] == me
    &&& forall|t: int|
        0 < t < seen.len() ==> (#[trigger] parent[t]) < t && linked(
            rs,
            me,
            seen[parent[t] as int],
            seen[t],
        )
}

/// Distinct servers drawn from `me` and the far ends of the pairs are no more
/// than the pairs plus one.
proof fn lemma_within_bound(seen: Seq<ServerId>, edges: Seq<(ServerId, ServerId)>, me: ServerId)
    requires
        seen.no_duplicates(),
        within(seen, edges, me),
    ensures
        seen.len() <= edges.len() + 1,
{
    let universe = seq![me] + edges.map_values(|e: (ServerId, ServerId)| e.1);
    assert forall|x: ServerId| seen.to_set().contains(x) implies universe.to_set().contains(x) by {
        let t = choose|t: int| 0 <= t < seen.len() && seen[t] == x;
        assert(within(seen, edges, me));
        if x == me {
            assert(universe[0] == me);
        } else {
            let k = choose|k: int| 0 <= k < edges.len() && edges[k].1 == seen[t];
            assert(universe[k + 1] == x);
        }
    }
    seen.unique_seq_to_set();
    universe.lemma_cardinality_of_set();
    vstd::set_lib::lemma_len_subset(seen.to_set(), universe.to_set());
}

/// Servers that a walk of at most `k` steps from `me` reaches.
pub open spec fn within_steps(rs: Seq<Seq<ServerId>>, me: ServerId, k: nat, v: ServerId) -> bool
    decreases k,
{
    if k == 0 {
        v == me
    } else {
        ||| within_steps(rs, me, (k - 1) as nat, v)
        ||| exists|u: ServerId|
            #[trigger] linked(rs, me, u, v) && within_steps(rs, me, (k - 1) as nat, u)
    }
}

/// A walk of `n` servers reaches its end within `n - 1` steps.
proof fn lemma_path_within(rs: Seq<Seq<ServerId>>, me: ServerId, p: Seq<ServerId>)
    requires
        is_path(rs, me, p),
    ensures
        within_steps(rs, me, (p.len() - 1) as nat, p.last()),
    decreases p.len(),
{
    if p.len() > 1 {
        let q = p.drop_last();
        assert forall|k: int| 0 <= k < q.len() - 1 implies linked(rs, me, #[trigger] q[k], q[k + 1]) by {
            assert(q[k] == p[k]);
            assert(q[k + 1] == p[k + 1]);
            assert(linked(rs, me, p[k], p[k + 1]));
        }
        lemma_path_within(rs, me, q);
        let n = p.len() as int;
        assert(linked(rs, me, p[n - 2], p[n - 1]));
        assert(q.last() == p[n - 2]);
    }
}

/// What is reached within `j` steps is reached within any `k >= j` steps.
proof fn lemma_within_mono(rs: Seq<Seq<ServerId>>, me: ServerId, j: nat, k: nat, v: ServerId)
    requires
        j <= k,
        within_steps(rs, me, j, v),
    ensures
        within_steps(rs, me, k, v),
    decreases k,
{
    if j < k {
        lemma_within_mono(rs, me, j, (k - 1) as nat, v);
    }
}

/// Once one more step reaches nothing new, no number of steps does.
proof fn lemma_within_stable(rs: Seq<Seq<ServerId>>, me: ServerId, k: nat, m: nat, v: ServerId)
    requires
        k <= m,
        forall|x: ServerId| #[trigger] within_steps(rs, me, k + 1, x) ==> within_steps(rs, me, k, x),
        within_steps(rs, me, m, v),
    ensures
        within_steps(rs, me, k, v),
    decreases m,
{
    if m > k {
        if within_steps(rs, me, (m - 1) as nat, v) {
            lemma_within_stable(rs, me, k, (m - 1) as nat, v);
        } else {
            let u = choose|u: ServerId|
                #[trigger] linked(rs, me, u, v) && within_steps(rs, me, (m - 1) as nat, u);
            lemma_within_stable(rs, me, k, (m - 1) as nat, u);
            assert(within_steps(rs, me, k + 1, v));
        }
    }
}

/// Each listed server is reached within its level and, past the first, not
/// within one step less.
spec fn levels(rs: Seq<Seq<ServerId>>, me: ServerId, seen: Seq<ServerId>, depth: Seq<nat>) -> bool {
    &&& depth.len() == seen.len()
    &&& forall|t: int| 0 <= t < seen.len() ==> within_steps(rs, me, #[trigger] depth[t], seen[t])
    &&& forall|t: int|
        0 <= t < seen.len() && #[trigger] depth[t] > 0 ==> !within_steps(
            rs,
            me,
            (depth[t] - 1) as nat,
            seen[t],
        )
}

/// Down the search tree the level grows by one at each step.
spec fn tree_depths(parent: Seq<usize>, depth: Seq<nat>) -> bool {
    &&& depth.len() > 0
    &&& depth[0] == 0
    &&& forall|t: int| 0 < t < depth.len() ==> #[trigger] depth[t] == depth[parent[t] as int] + 1
}

/// The walk from `me` down the search tree to the server at index `t`.
fn trace(
    seen: &Vec<ServerId>,
    parent: &Vec<usize>,
    t: usize,
    Ghost(rs): Ghost<Seq<Seq<ServerId>>>,
    Ghost(me): Ghost<ServerId>,
    Ghost(depth): Ghost<Seq<nat>>,
) -> (p: Vec<ServerId>)
    requires
        tree(rs, me, seen@, parent@),
        tree_depths(parent@, depth),
        depth.len() == seen@.len(),
        t < seen@.len(),
    ensures
        is_path(rs, me, p@),
        p@.last() == seen@[t as int],
        p@.len() == depth[t as int] + 1,
{
    let mut rev: Vec<ServerId> = Vec::new();
    rev.push(seen[t]);
    let mut cur = t;
    while cur != 0
        invariant
            tree(rs, me, seen@, parent@),
            tree_depths(parent@, depth),
            depth.len() == seen@.len(),
            cur < seen@.len(),
            t < seen@.len(),
            rev@.len() >= 1,
            rev@.len() == depth[t as int] - depth[cur as int] + 1,
            rev@[0] == seen@[t as int],
            rev@.last() == seen@[cur as int],
            forall|k: int| 0 <= k < rev@.len() - 1 ==> linked(rs, me, rev@[k + 1], #[trigger] rev@[k]),
        decreases cur,
    {
        let ghost before = rev@;
        let ghost c = cur as int;
        cur = parent[cur];
        rev.push(seen[cur]);
        assert(rev@[before.len() - 1] == seen@[c]);
        assert(depth[c] == depth[cur as int] + 1);
    }
    let mut p: Vec<ServerId> = Vec::new();
    let mut k: usize = rev.len();
    while k > 0
        invariant
            k <= rev@.len(),
            rev@.len() >= 1,
            rev@.last() == me,
            rev@[0] == seen@[t as int],
            p@.len() == rev@.len() - k,
            forall|m: int| 0 <= m < p@.len() ==> #[trigger] p@[m] == rev@[rev@.len() - 1 - m],
            forall|m: int| 0 <= m < rev@.len() - 1 ==> linked(rs, me, rev@[m + 1], #[trigger] rev@[m]),
        decreases k,
    {
        k = k - 1;
        p.push(rev[k]);
    }
    proof {
        assert forall|m: int| 0 <= m < p@.len() - 1 implies linked(rs, me, #[trigger] p@[m], p@[m + 1]) by {
            let n = rev@.len();
            assert(p@[m + 1] == rev@[n - 2 - m]);
            assert(rev@[(n - 2 - m) + 1] == p@[m]);
        }
    }
    p
}

/// A shortest walk from `me` to `dest` in the graph of the routes, or `None`
/// where no walk reaches `dest`.
pub fn shortest_path(routes: &Vec<Vec<ServerId>>, me: ServerId, dest: ServerId) -> (r: Option<
    Vec<ServerId>,
>)
    ensures
        dest == me ==> (r matches Some(p) && p@ == seq![me]),
        r matches Some(p) ==> is_path(routes_view(routes@), me, p@) && p@.last() == dest,
        r matches Some(p) ==> forall|q: Seq<ServerId>|
            is_path(routes_view(routes@), me, q) && q.last() == dest ==> p@.len() <= q.len(),
        r is None <==> !reachable(routes_view(routes@), me, dest),
        dest != me && !mentioned(routes_view(routes@), dest) ==> r is None,
{
    let ghost rs = routes_view(routes@);
    let edges = edges_of(routes, me);
    let mut seen: Vec<ServerId> = vec![me];
    let mut parent: Vec<usize> = vec![0];
    let ghost mut depth: Seq<nat> = seq![0];
    let ghost mut level: nat = 0;
    let mut lo: usize = 0;
    let mut hi: usize = 1;
    proof {
        assert(seen@.no_duplicates());
        assert(within(seen@, edges@, me));
        assert(seen@[0] == me);
        assert forall|v: ServerId| within_steps(rs, me, level, v) implies seen@.contains(v) by {
            assert(seen@[0] == v);
        }
    }
    while lo < hi
        invariant
            rs == routes_view(routes@),
            forall|k: int| 0 <= k < edges@.len() ==> linked(rs, me, (#[trigger] edges@[k]).0, edges@[k].1),
            forall|k: int|
                0 <= k < edges@.len() ==> (#[trigger] edges@[k]).1 == me || mentioned(
                    rs,
                    edges@[k].1,
                ),
            forall|a: ServerId, b: ServerId| #[trigger] linked(rs, me, a, b) ==> has_edge(edges@, a, b),
            lo <= hi,
            hi == seen@.len(),
            seen@.len() <= edges@.len() + 1,
            tree(rs, me, seen@, parent@),
            seen@.no_duplicates(),
            within(seen@, edges@, me),
            forall|x: int| 0 <= x < lo ==> #[trigger] seen@[x] != dest,
            levels(rs, me, seen@, depth),
            tree_depths(parent@, depth),
            forall|t: int| 0 <= t < lo ==> #[trigger] depth[t] < level,
            forall|t: int| lo <= t < hi ==> #[trigger] depth[t] == level,
            forall|v: ServerId| #[trigger] within_steps(rs, me, level, v) ==> seen@.contains(v),
        decreases edges@.len() + 1 - lo,
    {
        let ghost pre = seen@;
        let ghost dpre = depth;
        let mut t: usize = lo;
        while t < hi
            invariant
                rs == routes_view(routes@),
                    forall|k: int|
                    0 <= k < edges@.len() ==> linked(rs, me, (#[trigger] edges@[k]).0, edges@[k].1),
                forall|k: int|
                    0 <= k < edges@.len() ==> (#[trigger] edges@[k]).1 == me || mentioned(
                        rs,
                        edges@[k].1,
                    ),
                lo <= t,
                lo < hi,
                hi <= seen@.len(),
                pre.len() == hi,
                forall|x: int| 0 <= x < hi ==> #[trigger] seen@[x] == pre[x],
                tree(rs, me, seen@, parent@),
                seen@.no_duplicates(),
                within(seen@, edges@, me),
                forall|x: int| 0 <= x < t ==> #[trigger] seen@[x] != dest,
                levels(rs, me, seen@, depth),
                tree_depths(parent@, depth),
                forall|x: int| 0 <= x < lo ==> #[trigger] depth[x] < level,
                forall|x: int| lo <= x < hi ==> #[trigger] depth[x] == level,
                forall|x: int| hi <= x < seen@.len() ==> #[trigger] depth[x] == level + 1,
                forall|v: ServerId| #[trigger] within_steps(rs, me, level, v) ==> seen@.contains(v),
                forall|t2: int, b: ServerId|
                    #![trigger has_edge(edges@, seen@[t2], b)]
                    lo <= t2 < t && has_edge(edges@, seen@[t2], b) ==> seen@.contains(b),
            decreases hi - t,
        {
            let u = seen[t];
            if u == dest {
                let p = trace(&seen, &parent, t, Ghost(rs), Ghost(me), Ghost(depth));
                proof {
                    assert(depth[t as int] == level);
                    assert forall|q: Seq<ServerId>|
                        is_path(rs, me, q) && q.last() == dest implies p@.len() <= q.len() by {
                        lemma_path_within(rs, me, q);
                        if q.len() - 1 < level {
                            lemma_within_mono(rs, me, (q.len() - 1) as nat, (level - 1) as nat, dest);
                        }
                    }
                    assert(reachable(rs, me, dest));
                    if dest == me {
                        assert(seen@[0] == seen@[t as int]);
                        assert(t == 0);
                        assert(p@ =~= seq![me]);
                    }
                }
                return Some(p);
            }
            let mut k: usize = 0;
            while k < edges.len()
                invariant
                    rs == routes_view(routes@),
                            forall|k: int|
                        0 <= k < edges@.len() ==> linked(
                            rs,
                            me,
                            (#[trigger] edges@[k]).0,
                            edges@[k].1,
                        ),
                    forall|k: int|
                        0 <= k < edges@.len() ==> (#[trigger] edges@[k]).1 == me || mentioned(
                            rs,
                            edges@[k].1,
                        ),
                    lo <= t < hi <= seen@.len(),
                    pre.len() == hi,
                    forall|x: int| 0 <= x < hi ==> #[trigger] seen@[x] == pre[x],
                    u == seen@[t as int],
                    tree(rs, me, seen@, parent@),
                    seen@.no_duplicates(),
                    within(seen@, edges@, me),
                    forall|x: int| 0 <= x <= t ==> #[trigger] seen@[x] != dest,
                    levels(rs, me, seen@, depth),
                    tree_depths(parent@, depth),
                    forall|x: int| 0 <= x < lo ==> #[trigger] depth[x] < level,
                    forall|x: int| lo <= x < hi ==> #[trigger] depth[x] == level,
                    forall|x: int| hi <= x < seen@.len() ==> #[trigger] depth[x] == level + 1,
                    forall|v: ServerId| #[trigger] within_steps(rs, me, level, v) ==> seen@.contains(v),
                    forall|t2: int, b: ServerId|
                        #![trigger has_edge(edges@, seen@[t2], b)]
                        lo <= t2 < t && has_edge(edges@, seen@[t2], b) ==> seen@.contains(b),
                    forall|k2: int|
                        0 <= k2 < k && (#[trigger] edges@[k2]).0 == u ==> seen@.contains(
                            edges@[k2].1,
                        ),
                decreases edges@.len() - k,
            {
                let (a, b) = edges[k];
                if a == u && !listed(&seen, b) {
                    let ghost before = seen@;
                    let ghost dbefore = depth;
                    seen.push(b);
                    parent.push(t);
                    proof {
                        depth = depth.push((level + 1) as nat);
                        assert(edges@[k as int] == (a, b));
                        assert(linked(rs, me, u, b));
                        assert(seen@[t as int] == u);
                        assert(dbefore[t as int] == level);
                        assert(within_steps(rs, me, level, u));
                        assert(within_steps(rs, me, level + 1, b));
                        assert(!within_steps(rs, me, level, b));
                        assert(seen@.no_duplicates()) by {
                            assert(forall|x: int| 0 <= x < before.len() ==> before[x] != b);
                        }
                        assert(within(seen@, edges@, me)) by {
                            assert(seen@[before.len() as int] == edges@[k as int].1);
                        }
                        assert(levels(rs, me, seen@, depth)) by {
                            assert(depth[before.len() as int] == level + 1);
                            assert(seen@[before.len() as int] == b);
                        }
                        assert(tree_depths(parent@, depth)) by {
                            assert(parent@[before.len() as int] == t);
                        }
                        assert forall|x: int| 0 <= x < hi implies #[trigger] seen@[x] == pre[x] by {
                            assert(seen@[x] == before[x]);
                        }
                        assert forall|x: int| 0 <= x <= t implies #[trigger] seen@[x] != dest by {
                            assert(seen@[x] == before[x]);
                        }
                    }
                }
                k = k + 1;
            }
            proof {
                assert forall|t2: int, b: ServerId|
                    #![trigger has_edge(edges@, seen@[t2], b)]
                    lo <= t2 < t + 1 && has_edge(edges@, seen@[t2], b) implies seen@.contains(b) by {
                    if t2 == t {
                        let k2 = choose|k2: int| 0 <= k2 < edges@.len() && edges@[k2] == (u, b);
                        assert(edges@[k2].0 == u);
                    }
                }
            }
            t = t + 1;
        }
        proof {
            assert forall|v: ServerId| #[trigger] within_steps(rs, me, level + 1, v) implies seen@.contains(v) by {
                if !within_steps(rs, me, level, v) {
                    let u = choose|u: ServerId|
                        #[trigger] linked(rs, me, u, v) && within_steps(rs, me, level, u);
                    assert(seen@.contains(u));
                    let tu = choose|tu: int| 0 <= tu < seen@.len() && seen@[tu] == u;
                    if tu >= hi {
                        assert(depth[tu] == level + 1);
                    } else if depth[tu] < level {
                        assert(within_steps(rs, me, depth[tu], u));
                        assert(within_steps(rs, me, depth[tu] + 1, v));
                        lemma_within_mono(rs, me, depth[tu] + 1, level, v);
                    } else {
                        assert(has_edge(edges@, seen@[tu], v));
                    }
                }
            }
            lemma_within_bound(seen@, edges@, me);
            level = level + 1;
        }
        lo = hi;
        hi = seen.len();
    }
    proof {
        assert(!seen@.contains(dest));
        assert forall|x: ServerId| #[trigger] within_steps(rs, me, level + 1, x) implies within_steps(
            rs,
            me,
            level,
            x,
        ) by {
            if !within_steps(rs, me, level, x) {
                let u = choose|u: ServerId|
                    #[trigger] linked(rs, me, u, x) && within_steps(rs, me, level, u);
                assert(seen@.contains(u));
                let tu = choose|tu: int| 0 <= tu < seen@.len() && seen@[tu] == u;
                assert(depth[tu] < level);
                assert(within_steps(rs, me, depth[tu], u));
                assert(within_steps(rs, me, depth[tu] + 1, x));
                lemma_within_mono(rs, me, depth[tu] + 1, level, x);
            }
        }
        if reachable(rs, me, dest) {
            let q = choose|q: Seq<ServerId>| is_path(rs, me, q) && q.last() == dest;
            lemma_path_within(rs, me, q);
            if q.len() - 1 <= level {
                lemma_within_mono(rs, me, (q.len() - 1) as nat, level, dest);
            } else {
                lemma_within_stable(rs, me, level, (q.len() - 1) as nat, dest);
            }
        }
    }
    None
}

} // verus!
