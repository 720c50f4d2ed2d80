//! The conjecture graph: an append-only store of nodes, each a label
//! plus six optional neighbor references by id, quotiented by the
//! union-find in `union_find`.

use vstd::prelude::*;
use vstd::seq_lib::*;
use crate::union_find::UnionFind;
use crate::{Connection, EngineError, ExploreQuery, GuessRequestMap, Vertex};

verus! {

/// A conjecture node: a room label (or the not-yet-observed sentinel)
/// and one optional neighbor id per door.
#[derive(Debug, Clone, Copy)]
pub struct Node {
    pub label: u8,
    pub neighbors: [Option<usize>; 6],
}

impl Node {
    pub fn new(label: u8) -> (r: Self)
        ensures
            r.label == label,
            forall|d: int| 0 <= d < 6 ==> r.neighbors[d] is None,
    {
        Self { label, neighbors: [None, None, None, None, None, None] }
    }
}

/// The basic shape invariant tying a node store to its union-find:
/// enough capacity, representatives of live ids live, representatives
/// of unused ids untouched, and neighbor references in range.
pub open spec fn nodes_wf(nodes: Seq<Node>, uf: UnionFind) -> bool {
    &&& uf.wf()
    &&& nodes.len() <= uf.capacity()
    &&& forall|i: int| 0 <= i < nodes.len() ==> 0 <= #[trigger] uf.root_of(i) < nodes.len()
    &&& forall|j: int| nodes.len() <= j < uf.capacity() ==> #[trigger] uf.root_of(j) == j
    &&& forall|i: int, d: int|
        0 <= i < nodes.len() && 0 <= d < 6 && (#[trigger] nodes[i].neighbors[d]) is Some
            ==> nodes[i].neighbors[d]->0 < nodes.len()
}

/// Every pair of ids in one class agrees on every door slot, closed or
/// open with the same target id.
pub open spec fn groups_consistent(nodes: Seq<Node>, uf: UnionFind) -> bool {
    forall|x: int, y: int, d: int|
        #![trigger uf.same_class(x, y), nodes[x].neighbors[d], nodes[y].neighbors[d]]
        0 <= x < nodes.len() && 0 <= y < nodes.len() && 0 <= d < 6 && uf.same_class(x, y)
            ==> nodes[x].neighbors[d] == nodes[y].neighbors[d]
}

/// Walk a plan from class `cur` through settled doors under the
/// canonical view; `None` when a door is closed, out of range, or the
/// plan holds a charcoal action.
pub open spec fn traverse(nodes: Seq<Node>, uf: UnionFind, cur: int, plan: Seq<ExploreQuery>) -> Option<int>
    decreases plan.len(),
{
    if plan.len() == 0 {
        Some(cur)
    } else {
        match plan[0] {
            ExploreQuery::Charcoal { label } => None,
            ExploreQuery::Open { door } => {
                if 0 <= cur < nodes.len() && door < 6 {
                    match nodes[cur].neighbors[door as int] {
                        Some(j) => traverse(nodes, uf, uf.root_of(j as int), plan.drop_first()),
                        None => None,
                    }
                } else {
                    None
                }
            },
        }
    }
}

/// A class is reachable when some all-open plan walks to it from the
/// start class.
pub open spec fn reachable(nodes: Seq<Node>, uf: UnionFind, c: int) -> bool {
    exists|plan: Seq<ExploreQuery>| traverse(nodes, uf, uf.root_of(0), plan) == Some(c)
}

/// Every open neighbor slot holds a canonical id.
pub open spec fn slots_canonical(nodes: Seq<Node>, uf: UnionFind) -> bool {
    forall|i: int, d: int|
        0 <= i < nodes.len() && 0 <= d < 6 && (#[trigger] nodes[i].neighbors[d]) is Some
            ==> uf.root_of(nodes[i].neighbors[d]->0 as int) == nodes[i].neighbors[d]->0 as int
}

} // verus!

verus! {

/// Uniting two live ids keeps the store's shape invariant: class
/// representatives of live ids stay live and unused ids stay untouched.
pub proof fn lemma_wf_after_unite(nodes: Seq<Node>, pre: UnionFind, post: UnionFind, a: int, b: int)
    requires
        nodes_wf(nodes, pre),
        0 <= a < nodes.len(),
        0 <= b < nodes.len(),
        post.wf(),
        post.capacity() == pre.capacity(),
        forall|x: int, y: int|
            0 <= x < post.capacity() && 0 <= y < post.capacity() ==> (#[trigger] post.same_class(
                x,
                y,
            ) <==> (pre.same_class(x, y) || (pre.same_class(x, a) && pre.same_class(y, b)) || (
            pre.same_class(x, b) && pre.same_class(y, a)))),
        forall|x: int|
            0 <= x < post.capacity() ==> (#[trigger] post.root_of(x) == pre.root_of(x)
                || post.root_of(x) == post.root_of(a)),
        post.root_of(a) == pre.root_of(a) || post.root_of(a) == pre.root_of(b),
    ensures
        nodes_wf(nodes, post),
{
    assert forall|j: int| nodes.len() <= j < post.capacity() implies #[trigger] post.root_of(j)
        == j by {
        if post.root_of(j) != pre.root_of(j) {
            assert(post.root_of(j) == post.root_of(a));
            assert(post.same_class(j, a));
            assert(pre.root_of(j) == j);
            assert(pre.root_of(a) < nodes.len());
            assert(!pre.same_class(j, a));
            assert(pre.root_of(b) < nodes.len());
            assert(!pre.same_class(j, b));
        }
    }
}

} // verus!

verus! {

/// Number of set entries in a boolean table.
pub open spec fn count_true(s: Seq<bool>) -> int
    decreases s.len(),
{
    if s.len() == 0 {
        0
    } else {
        count_true(s.drop_last()) + if s.last() {
            1int
        } else {
            0int
        }
    }
}

/// The count lies between 0 and the table's length.
pub proof fn lemma_count_true_bound(s: Seq<bool>)
    ensures
        0 <= count_true(s) <= s.len(),
    decreases s.len(),
{
    if s.len() > 0 {
        lemma_count_true_bound(s.drop_last());
    }
}

/// Setting one clear entry raises the count by one.
pub proof fn lemma_count_true_update(s: Seq<bool>, i: int)
    requires
        0 <= i < s.len(),
        !s[i],
    ensures
        count_true(s.update(i, true)) == count_true(s) + 1,
    decreases s.len(),
{
    let t = s.update(i, true);
    if i == s.len() - 1 {
        assert(t.drop_last() =~= s.drop_last());
    } else {
        assert(t.drop_last() =~= s.drop_last().update(i, true));
        lemma_count_true_update(s.drop_last(), i);
    }
}

/// A table with no set entry counts zero.
pub proof fn lemma_count_all_false(s: Seq<bool>)
    requires
        forall|j: int| 0 <= j < s.len() ==> !(#[trigger] s[j]),
    ensures
        count_true(s) == 0,
    decreases s.len(),
{
    if s.len() > 0 {
        lemma_count_all_false(s.drop_last());
    }
}

/// Extending a defined walk by one settled door lands in that door's
/// canonical target.
pub proof fn lemma_traverse_push(
    nodes: Seq<Node>,
    uf: UnionFind,
    from: int,
    pl: Seq<ExploreQuery>,
    door: usize,
    v: int,
)
    requires
        traverse(nodes, uf, from, pl) == Some(v),
        0 <= v < nodes.len(),
        door < 6,
        nodes[v].neighbors[door as int] is Some,
    ensures
        traverse(nodes, uf, from, pl.push(ExploreQuery::Open { door })) == Some(
            uf.root_of(nodes[v].neighbors[door as int]->0 as int),
        ),
    decreases pl.len(),
{
    let ext = pl.push(ExploreQuery::Open { door });
    if pl.len() == 0 {
        assert(from == v);
        assert(ext[0] == (ExploreQuery::Open { door }));
        assert(ext.drop_first() =~= Seq::<ExploreQuery>::empty());
        let j = nodes[v].neighbors[door as int]->0;
        assert(traverse(nodes, uf, from, ext) == traverse(
            nodes,
            uf,
            uf.root_of(j as int),
            ext.drop_first(),
        ));
    } else {
        match pl[0] {
            ExploreQuery::Open { door: d0 } => {
                assert(traverse(nodes, uf, from, pl) == Some(v));
                assert(0 <= from < nodes.len() && d0 < 6 && nodes[from].neighbors[d0 as int] is Some);
                let j0 = nodes[from].neighbors[d0 as int]->0;
                let nxt = uf.root_of(j0 as int);
                assert(traverse(nodes, uf, nxt, pl.drop_first()) == Some(v));
                assert(ext[0] == pl[0]);
                assert(ext.drop_first() =~= pl.drop_first().push(ExploreQuery::Open { door }));
                lemma_traverse_push(nodes, uf, nxt, pl.drop_first(), door, v);
                assert(traverse(nodes, uf, from, ext) == traverse(
                    nodes,
                    uf,
                    nxt,
                    ext.drop_first(),
                ));
            },
            ExploreQuery::Charcoal { .. } => {
                assert(false);
            },
        }
    }
}

/// The visited table is closed under settled canonical edges.
pub open spec fn visited_closed(nodes: Seq<Node>, uf: UnionFind, vis: Seq<bool>) -> bool {
    forall|c: int, d: int|
        0 <= c < nodes.len() && 0 <= d < 6 && vis[c] && (#[trigger] nodes[c].neighbors[d]) is Some
            ==> vis[uf.root_of(nodes[c].neighbors[d]->0 as int)]
}

/// Whatever a plan reaches from a visited class is visited too, when
/// the visited set is closed under settled edges.
proof fn lemma_reachable_visited(
    nodes: Seq<Node>,
    uf: UnionFind,
    vis: Seq<bool>,
    from: int,
    plan: Seq<ExploreQuery>,
)
    requires
        nodes_wf(nodes, uf),
        vis.len() == nodes.len(),
        0 <= from < nodes.len(),
        vis[from],
        visited_closed(nodes, uf, vis),
        traverse(nodes, uf, from, plan) is Some,
    ensures
        0 <= traverse(nodes, uf, from, plan)->0 < nodes.len(),
        vis[traverse(nodes, uf, from, plan)->0],
    decreases plan.len(),
{
    if plan.len() > 0 {
        match plan[0] {
            ExploreQuery::Open { door } => {
                let j = nodes[from].neighbors[door as int]->0;
                let nxt = uf.root_of(j as int);
                assert(vis[nxt]);
                lemma_reachable_visited(nodes, uf, vis, nxt, plan.drop_first());
            },
            ExploreQuery::Charcoal { .. } => {
                assert(false);
            },
        }
    }
}

} // verus!

verus! {

/// Breadth-first search over the settled canonical edges from the start
/// class.  Returns a plan that walks to the first closed door found and
/// opens it, or `None` exactly when every door on every reachable class
/// is settled — the engine's terminating condition.
pub fn construct_door_open_plan(nodes: &[Node], uf: &mut UnionFind) -> (r: Option<
    Vec<ExploreQuery>,
>)
    requires
        nodes_wf(nodes@, *old(uf)),
        nodes@.len() > 0,
    ensures
        *final(uf) == *old(uf),
        r is None <==> no_closed_reachable(nodes@, *old(uf)),
        r matches Some(plan) ==> {
            let t = traverse(nodes@, *old(uf), old(uf).root_of(0), plan@.drop_last());
            &&& plan@.len() >= 1
            &&& crate::engine::all_open(plan@)
            &&& t is Some
            &&& 0 <= t->0 < nodes@.len()
            &&& plan@.last() is Open
            &&& plan@.last()->Open_door < 6
            &&& nodes@[t->0].neighbors[plan@.last()->Open_door as int] is None
        },
{
    let n = nodes.len();
    let r0 = uf.root(0);
    proof {
        uf.lemma_root_idempotent(0);
    }
    let mut vis: Vec<bool> = Vec::new();
    let mut prev: Vec<Option<(usize, usize)>> = Vec::new();
    let mut depth: Vec<usize> = Vec::new();
    let mut i: usize = 0;
    while i < n
        invariant
            i <= n,
            vis@.len() == i,
            prev@.len() == i,
            depth@.len() == i,
            forall|j: int| 0 <= j < i ==> !(#[trigger] vis@[j]),
            forall|j: int| 0 <= j < i ==> (#[trigger] prev@[j]) is None,
            forall|j: int| 0 <= j < i ==> (#[trigger] depth@[j]) == 0,
        decreases n - i,
    {
        vis.push(false);
        prev.push(None);
        depth.push(0);
        i = i + 1;
    }
    let ghost vis0 = vis@;
    vis[r0] = true;
    proof {
        lemma_count_all_false(vis0);
        lemma_count_true_update(vis0, r0 as int);
        lemma_count_true_bound(vis@);
    }
    let mut queue: std::collections::VecDeque<usize> = std::collections::VecDeque::new();
    queue.push_back(r0);
    proof {
        assert(traverse(nodes@, *uf, uf.root_of(0), Seq::<ExploreQuery>::empty()) == Some(
            r0 as int,
        ));
        assert(reachable(nodes@, *uf, r0 as int));
        assert(queue@[0] == r0);
        assert(queue@.contains(r0));
    }
    let mut found: Option<(usize, usize)> = None;
    while queue.len() > 0
        invariant
            nodes_wf(nodes@, *uf),
            *uf == *old(uf),
            n == nodes@.len(),
            n > 0,
            r0 < n,
            r0 as int == uf.root_of(0),
            vis@.len() == n,
            prev@.len() == n,
            depth@.len() == n,
            vis@[r0 as int],
            count_true(vis@) <= n,
            forall|k: int| 0 <= k < queue@.len() ==> (#[trigger] queue@[k]) < n,
            forall|k: int| 0 <= k < queue@.len() ==> vis@[#[trigger] queue@[k] as int],
            forall|k1: int, k2: int|
                0 <= k1 < k2 < queue@.len() ==> queue@[k1] != queue@[k2],
            forall|c: int|
                0 <= c < n && #[trigger] vis@[c] ==> uf.root_of(c) == c && reachable(
                    nodes@,
                    *uf,
                    c,
                ),
            forall|c: int|
                0 <= c < n && #[trigger] vis@[c] ==> depth@[c] < count_true(vis@),
            forall|c: int|
                0 <= c < n && #[trigger] vis@[c] && c != r0 ==> prev@[c] is Some,
            forall|c: int|
                0 <= c < n && (#[trigger] prev@[c]) is Some ==> {
                    let p = (prev@[c]->0).0;
                    let dr = (prev@[c]->0).1;
                    &&& p < n
                    &&& dr < 6
                    &&& vis@[p as int]
                    &&& vis@[c]
                    &&& nodes@[p as int].neighbors[dr as int] is Some
                    &&& uf.root_of(nodes@[p as int].neighbors[dr as int]->0 as int) == c
                    &&& depth@[p as int] < depth@[c]
                },
            forall|c: int, d: int|
                0 <= c < n && 0 <= d < 6 && #[trigger] vis@[c] && !queue@.contains(c as usize)
                    ==> ((nodes@[c].neighbors[d] is None ==> found is Some) && (
                (#[trigger] nodes@[c].neighbors[d]) is Some ==> vis@[uf.root_of(
                    nodes@[c].neighbors[d]->0 as int,
                )])),
            found matches Some((v, d)) ==> (v < n && d < 6 && vis@[v as int]
                && nodes@[v as int].neighbors[d as int] is None),
        decreases 7 * (n - count_true(vis@)) + queue@.len(),
    {
        let ghost pre_q = queue@;
        let v = match queue.pop_front() {
            Some(v) => v,
            None => {
                proof {
                    assert(false);
                }
                vstd::pervasive::unreached()
            },
        };
        let ghost q_after_pop = queue@;
        let ghost vis_at_pop = vis@;
        proof {
            assert forall|c: usize| pre_q.contains(c) && c != v implies queue@.contains(c) by {
                let k = choose|k: int| 0 <= k < pre_q.len() && pre_q[k] == c;
                assert(k != 0);
                assert(queue@[k - 1] == c);
            }
            assert forall|k1: int, k2: int|
                0 <= k1 < k2 < queue@.len() implies queue@[k1] != queue@[k2] by {
                assert(queue@[k1] == pre_q[k1 + 1]);
                assert(queue@[k2] == pre_q[k2 + 1]);
            }
            assert(!queue@.contains(v)) by {
                if queue@.contains(v) {
                    let k = choose|k: int| 0 <= k < queue@.len() && queue@[k] == v;
                    assert(pre_q[k + 1] == v);
                    assert(pre_q[0] == v);
                }
            }
        }
        let mut door: usize = 0;
        while door < 6
            invariant
                nodes_wf(nodes@, *uf),
                *uf == *old(uf),
                n == nodes@.len(),
                n > 0,
                r0 < n,
                r0 as int == uf.root_of(0),
                vis@.len() == n,
                prev@.len() == n,
                depth@.len() == n,
                vis@[r0 as int],
                count_true(vis@) <= n,
                door <= 6,
                v < n,
                vis@[v as int],
                depth@[v as int] < count_true(vis@),
                forall|k: int| 0 <= k < queue@.len() ==> (#[trigger] queue@[k]) < n,
                forall|k: int| 0 <= k < queue@.len() ==> vis@[#[trigger] queue@[k] as int],
                forall|k1: int, k2: int|
                    0 <= k1 < k2 < queue@.len() ==> queue@[k1] != queue@[k2],
                !queue@.contains(v),
                7 * (n - count_true(vis@)) + queue@.len() <= 7 * (n - count_true(vis_at_pop))
                    + q_after_pop.len(),
                count_true(vis_at_pop) <= count_true(vis@),
                forall|c: int|
                    0 <= c < n && #[trigger] vis@[c] ==> uf.root_of(c) == c && reachable(
                        nodes@,
                        *uf,
                        c,
                    ),
                forall|c: int|
                    0 <= c < n && #[trigger] vis@[c] ==> depth@[c] < count_true(vis@),
                forall|c: int|
                    0 <= c < n && #[trigger] vis@[c] && c != r0 ==> prev@[c] is Some,
                forall|c: int|
                    0 <= c < n && (#[trigger] prev@[c]) is Some ==> {
                        let p = (prev@[c]->0).0;
                        let dr = (prev@[c]->0).1;
                        &&& p < n
                        &&& dr < 6
                        &&& vis@[p as int]
                        &&& vis@[c]
                        &&& nodes@[p as int].neighbors[dr as int] is Some
                        &&& uf.root_of(nodes@[p as int].neighbors[dr as int]->0 as int) == c
                        &&& depth@[p as int] < depth@[c]
                    },
                forall|c: int, d: int|
                    0 <= c < n && 0 <= d < 6 && #[trigger] vis@[c] && !queue@.contains(c as usize)
                        && c != v ==> ((nodes@[c].neighbors[d] is None ==> found is Some) && (
                    (#[trigger] nodes@[c].neighbors[d]) is Some ==> vis@[uf.root_of(
                        nodes@[c].neighbors[d]->0 as int,
                    )])),
                forall|d: int|
                    0 <= d < door ==> ((nodes@[v as int].neighbors[d] is None ==> found is Some)
                        && ((#[trigger] nodes@[v as int].neighbors[d]) is Some ==> vis@[uf.root_of(
                        nodes@[v as int].neighbors[d]->0 as int,
                    )])),
                found matches Some((fv, fd)) ==> (fv < n && fd < 6 && vis@[fv as int]
                    && nodes@[fv as int].neighbors[fd as int] is None),
            decreases 6 - door,
        {
            match nodes[v].neighbors[door] {
                Some(next) => {
                    let nx = uf.root(next);
                    proof {
                        uf.lemma_root_idempotent(next as int);
                    }
                    if !vis[nx] {
                        let ghost pre_vis = vis@;
                        vis[nx] = true;
                        prev[nx] = Some((v, door));
                        let dv = depth[v];
                        depth[nx] = dv + 1;
                        let ghost pre_push_q = queue@;
                        queue.push_back(nx);
                        proof {
                            lemma_count_true_update(pre_vis, nx as int);
                            lemma_count_true_bound(vis@);
                            assert forall|c: usize| pre_push_q.contains(c) implies queue@.contains(
                                c,
                            ) by {
                                let k = choose|k: int|
                                    0 <= k < pre_push_q.len() && pre_push_q[k] == c;
                                assert(queue@[k] == c);
                            }
                            assert forall|c: usize|
                                queue@.contains(c) && c != nx implies pre_push_q.contains(c) by {
                                let k = choose|k: int| 0 <= k < queue@.len() && queue@[k] == c;
                                assert(k < pre_push_q.len());
                                assert(pre_push_q[k] == c);
                            }
                            assert(queue@[queue@.len() - 1] == nx);
                            assert(queue@.contains(nx));
                            assert(!pre_push_q.contains(v));
                            assert(!queue@.contains(v)) by {
                                assert(nx != v);
                            }
                            assert(reachable(nodes@, *uf, nx as int)) by {
                                let pl = choose|pl: Seq<ExploreQuery>|
                                    traverse(nodes@, *uf, uf.root_of(0), pl) == Some(v as int);
                                let pl2 = pl.push(ExploreQuery::Open { door });
                                lemma_traverse_push(nodes@, *uf, uf.root_of(0), pl, door, v as int);
                                assert(traverse(nodes@, *uf, uf.root_of(0), pl2) == Some(
                                    nx as int,
                                ));
                            }
                        }
                    }
                },
                None => {
                    if found.is_none() {
                        found = Some((v, door));
                    }
                },
            }
            door = door + 1;
        }
        proof {
            assert forall|c: int, d: int|
                0 <= c < n && 0 <= d < 6 && #[trigger] vis@[c] && !queue@.contains(c as usize)
                    implies ((nodes@[c].neighbors[d] is None ==> found is Some) && ((
            #[trigger] nodes@[c].neighbors[d]) is Some ==> vis@[uf.root_of(
                nodes@[c].neighbors[d]->0 as int,
            )])) by {
                if c != v as int {
                }
            }
        }
    }
    let (target, fdoor) = match found {
        Some(pair) => pair,
        None => {
            proof {
                assert forall|c: int, d: int|
                    0 <= c < nodes@.len() && 0 <= d < 6 && reachable(
                        nodes@,
                        *old(uf),
                        c,
                    ) implies (#[trigger] nodes@[c].neighbors[d]) is Some by {
                    let pl = choose|pl: Seq<ExploreQuery>|
                        traverse(nodes@, *old(uf), old(uf).root_of(0), pl) == Some(c);
                    lemma_reachable_visited(nodes@, *uf, vis@, r0 as int, pl);
                    assert(vis@[c]);
                }
            }
            return None;
        },
    };
    // walk the parent pointers back to the start class, collecting the
    // doors in reverse
    let mut rev_doors: Vec<usize> = Vec::new();
    let ghost mut tail: Seq<ExploreQuery> = Seq::empty();
    let mut cur = target;
    while cur != r0
        invariant
            nodes_wf(nodes@, *uf),
            *uf == *old(uf),
            n == nodes@.len(),
            r0 < n,
            r0 as int == uf.root_of(0),
            vis@.len() == n,
            prev@.len() == n,
            depth@.len() == n,
            cur < n,
            vis@[cur as int],
            target < n,
            traverse(nodes@, *uf, cur as int, tail) == Some(target as int),
            tail.len() == rev_doors@.len(),
            forall|k: int|
                0 <= k < tail.len() ==> tail[k] == (ExploreQuery::Open {
                    door: rev_doors@[tail.len() - 1 - k],
                }) && rev_doors@[tail.len() - 1 - k] < 6,
            forall|c: int|
                0 <= c < n && #[trigger] vis@[c] && c != r0 ==> prev@[c] is Some,
            forall|c: int|
                0 <= c < n && (#[trigger] prev@[c]) is Some ==> {
                    let p = (prev@[c]->0).0;
                    let dr = (prev@[c]->0).1;
                    &&& p < n
                    &&& dr < 6
                    &&& vis@[p as int]
                    &&& vis@[c]
                    &&& nodes@[p as int].neighbors[dr as int] is Some
                    &&& uf.root_of(nodes@[p as int].neighbors[dr as int]->0 as int) == c
                    &&& depth@[p as int] < depth@[c]
                },
        decreases depth@[cur as int],
    {
        let (p, dr) = match prev[cur] {
            Some(pair) => pair,
            None => {
                proof {
                    assert(false);
                }
                vstd::pervasive::unreached()
            },
        };
        proof {
            let newtail = seq![ExploreQuery::Open { door: dr }] + tail;
            assert(newtail.drop_first() =~= tail);
            assert(traverse(nodes@, *uf, p as int, newtail) == Some(target as int));
            tail = newtail;
        }
        rev_doors.push(dr);
        proof {
            assert forall|k: int|
                0 <= k < tail.len() implies tail[k] == (ExploreQuery::Open {
                    door: rev_doors@[tail.len() - 1 - k],
                }) && rev_doors@[tail.len() - 1 - k] < 6 by {
                if k > 0 {
                    assert(tail[k] == tail.drop_first()[k - 1]);
                }
            }
        }
        cur = p;
    }
    let mut plan: Vec<ExploreQuery> = Vec::new();
    let mut i: usize = rev_doors.len();
    while i > 0
        invariant
            i <= rev_doors@.len(),
            tail.len() == rev_doors@.len(),
            plan@.len() == rev_doors@.len() - i,
            forall|k: int|
                0 <= k < tail.len() ==> tail[k] == (ExploreQuery::Open {
                    door: rev_doors@[tail.len() - 1 - k],
                }) && rev_doors@[tail.len() - 1 - k] < 6,
            forall|k: int| 0 <= k < plan@.len() ==> plan@[k] == tail[k],
        decreases i,
    {
        i = i - 1;
        plan.push(ExploreQuery::open(rev_doors[i]));
    }
    proof {
        assert(plan@ =~= tail);
    }
    plan.push(ExploreQuery::open(fdoor));
    proof {
        assert(plan@.drop_last() =~= tail);
        assert(plan@.last() == (ExploreQuery::Open { door: fdoor }));
        assert(traverse(nodes@, *old(uf), old(uf).root_of(0), plan@.drop_last()) == Some(
            target as int,
        ));
        assert(nodes@[target as int].neighbors[fdoor as int] is None);
        assert(reachable(nodes@, *old(uf), target as int));
    }
    Some(plan)
}

} // verus!

verus! {

/// Number of assigned entries in an index table.
pub open spec fn count_some(s: Seq<Option<usize>>) -> int
    decreases s.len(),
{
    if s.len() == 0 {
        0
    } else {
        count_some(s.drop_last()) + if s.last() is Some {
            1int
        } else {
            0int
        }
    }
}

/// Assigning one vacant entry raises the count by one.
pub proof fn lemma_count_some_update(s: Seq<Option<usize>>, i: int, v: usize)
    requires
        0 <= i < s.len(),
        s[i] is None,
    ensures
        count_some(s.update(i, Some(v))) == count_some(s) + 1,
    decreases s.len(),
{
    let t = s.update(i, Some(v));
    if i == s.len() - 1 {
        assert(t.drop_last() =~= s.drop_last());
    } else {
        assert(t.drop_last() =~= s.drop_last().update(i, Some(v)));
        lemma_count_some_update(s.drop_last(), i, v);
    }
}

/// The count lies between 0 and the table's length.
pub proof fn lemma_count_some_bound(s: Seq<Option<usize>>)
    ensures
        0 <= count_some(s) <= s.len(),
    decreases s.len(),
{
    if s.len() > 0 {
        lemma_count_some_bound(s.drop_last());
    }
}

/// A table with no assigned entry counts zero.
pub proof fn lemma_count_some_all_none(s: Seq<Option<usize>>)
    requires
        forall|j: int| 0 <= j < s.len() ==> (#[trigger] s[j]) is None,
    ensures
        count_some(s) == 0,
    decreases s.len(),
{
    if s.len() > 0 {
        lemma_count_some_all_none(s.drop_last());
    }
}

/// Set doors in one row of the used-door table.
pub open spec fn count_row(row: [bool; 6]) -> int {
    (if row[0] {
        1int
    } else {
        0int
    }) + (if row[1] {
        1int
    } else {
        0int
    }) + (if row[2] {
        1int
    } else {
        0int
    }) + (if row[3] {
        1int
    } else {
        0int
    }) + (if row[4] {
        1int
    } else {
        0int
    }) + (if row[5] {
        1int
    } else {
        0int
    })
}

/// Set doors in the whole used-door table.
pub open spec fn count_used(s: Seq<[bool; 6]>) -> int
    decreases s.len(),
{
    if s.len() == 0 {
        0
    } else {
        count_used(s.drop_last()) + count_row(s.last())
    }
}

/// A table with no set door counts zero.
pub proof fn lemma_count_used_none(s: Seq<[bool; 6]>)
    requires
        forall|c: int, d: int| 0 <= c < s.len() && 0 <= d < 6 ==> !(#[trigger] s[c][d]),
    ensures
        count_used(s) == 0,
    decreases s.len(),
{
    if s.len() > 0 {
        assert forall|c: int, d: int|
            0 <= c < s.drop_last().len() && 0 <= d < 6 implies !(#[trigger] s.drop_last()[c][d]) by {
            assert(s.drop_last()[c] == s[c]);
        }
        lemma_count_used_none(s.drop_last());
        let c = s.len() - 1;
        assert(!s[c][0] && !s[c][1] && !s[c][2] && !s[c][3] && !s[c][4] && !s[c][5]);
        assert(count_row(s.last()) == 0);
    }
}

/// Replacing one row changes the count by the row counts' difference.
pub proof fn lemma_count_used_update(s: Seq<[bool; 6]>, i: int, row: [bool; 6])
    requires
        0 <= i < s.len(),
    ensures
        count_used(s.update(i, row)) == count_used(s) + count_row(row) - count_row(s[i]),
    decreases s.len(),
{
    let t = s.update(i, row);
    if i == s.len() - 1 {
        assert(t.drop_last() =~= s.drop_last());
    } else {
        assert(t.drop_last() =~= s.drop_last().update(i, row));
        lemma_count_used_update(s.drop_last(), i, row);
    }
}

/// When every indexed class has all six doors used and every other row
/// is clear, the used count is six per indexed class.
pub proof fn lemma_count_used_full(s: Seq<[bool; 6]>, map: Seq<Option<usize>>)
    requires
        s.len() == map.len(),
        forall|c: int, d: int|
            0 <= c < s.len() && 0 <= d < 6 && map[c] is Some ==> #[trigger] s[c][d],
        forall|c: int, d: int|
            0 <= c < s.len() && 0 <= d < 6 && map[c] is None ==> !(#[trigger] s[c][d]),
    ensures
        count_used(s) == 6 * count_some(map),
    decreases s.len(),
{
    if s.len() > 0 {
        assert forall|c: int, d: int|
            0 <= c < s.drop_last().len() && 0 <= d < 6 && map.drop_last()[c] is Some implies #[trigger] s.drop_last()[c][d] by {
            assert(map.drop_last()[c] == map[c]);
            assert(s.drop_last()[c] == s[c]);
        }
        assert forall|c: int, d: int|
            0 <= c < s.drop_last().len() && 0 <= d < 6 && map.drop_last()[c] is None implies !(#[trigger] s.drop_last()[c][d]) by {
            assert(map.drop_last()[c] == map[c]);
            assert(s.drop_last()[c] == s[c]);
        }
        lemma_count_used_full(s.drop_last(), map.drop_last());
        let c = s.len() - 1;
        if map[c] is Some {
            assert(s[c][0] && s[c][1] && s[c][2] && s[c][3] && s[c][4] && s[c][5]);
            assert(count_row(s.last()) == 6);
        } else {
            assert(!s[c][0] && !s[c][1] && !s[c][2] && !s[c][3] && !s[c][4] && !s[c][5]);
            assert(count_row(s.last()) == 0);
        }
    }
}

/// One endpoint of a connection.
pub open spec fn touches(conn: Connection, r: int, d: int) -> bool {
    (conn.from.room == r && conn.from.door == d) || (conn.to.room == r && conn.to.door == d)
}

/// A connection of an `n`-room map: rooms and doors in range, the two
/// directed doors distinct, and the `from` side lexicographically first.
pub open spec fn connection_wf(conn: Connection, n: int) -> bool {
    &&& conn.from.room < n
    &&& conn.to.room < n
    &&& conn.from.door < 6
    &&& conn.to.door < 6
    &&& (conn.from.room < conn.to.room || (conn.from.room == conn.to.room && conn.from.door
        <= conn.to.door))
    &&& !(conn.from.room == conn.to.room && conn.from.door == conn.to.door)
}

/// Strict lexicographic order of connections.
pub open spec fn conn_lt(a: Connection, b: Connection) -> bool {
    if a.from.room != b.from.room {
        a.from.room < b.from.room
    } else if a.from.door != b.from.door {
        a.from.door < b.from.door
    } else if a.to.room != b.to.room {
        a.to.room < b.to.room
    } else {
        a.to.door < b.to.door
    }
}

/// Some listed connection touches door `d` of room `r`.
pub open spec fn covered(conns: Seq<Connection>, r: int, d: int) -> bool {
    exists|k: int| 0 <= k < conns.len() && touches(#[trigger] conns[k], r, d)
}

/// Every door of every reachable class is settled: the guess builder's
/// success condition and the plan generator's terminating condition.
pub open spec fn no_closed_reachable(nodes: Seq<Node>, uf: UnionFind) -> bool {
    forall|c: int, d: int|
        0 <= c < nodes.len() && 0 <= d < 6 && reachable(nodes, uf, c) ==> (
        #[trigger] nodes[c].neighbors[d]) is Some
}

/// The canonical classes reachable from the start class.
pub open spec fn reachable_classes(nodes: Seq<Node>, uf: UnionFind) -> Set<usize> {
    Set::new(
        |c: usize|
            (c as int) < nodes.len() && uf.root_of(c as int) == c as int && reachable(
                nodes,
                uf,
                c as int,
            ),
    )
}

/// Every listed connection reflects the conjecture: under the class
/// enumeration `cls`, each endpoint's door leads to the class on the
/// connection's other side.
#[verifier::opaque]
pub open spec fn conns_tied(
    conns: Seq<Connection>,
    nodes: Seq<Node>,
    uf: UnionFind,
    cls: Seq<usize>,
) -> bool {
    forall|k: int|
        0 <= k < conns.len() ==> {
            let a = cls[(#[trigger] conns[k]).from.room as int] as int;
            let da = conns[k].from.door as int;
            let b = cls[conns[k].to.room as int] as int;
            let db = conns[k].to.door as int;
            &&& nodes[a].neighbors[da] is Some
            &&& uf.root_of(nodes[a].neighbors[da]->0 as int) == b
            &&& nodes[b].neighbors[db] is Some
            &&& uf.root_of(nodes[b].neighbors[db]->0 as int) == a
        }
}

/// The emitted map is the conjecture's quotient under the enumeration
/// `cls`: one distinct reachable class per room, the start class first
/// and every reachable class listed; room labels are the classes'
/// labels; and every connection mirrors the classes' door structure.
pub open spec fn guess_tied(
    m: GuessRequestMap,
    nodes: Seq<Node>,
    uf: UnionFind,
    n: int,
    cls: Seq<usize>,
) -> bool {
    &&& cls.len() == n
    &&& (n > 0 ==> cls[0] as int == uf.root_of(0))
    &&& forall|k: int|
        0 <= k < n ==> (#[trigger] cls[k]) < nodes.len() && uf.root_of(cls[k] as int)
            == cls[k] as int && reachable(nodes, uf, cls[k] as int)
    &&& forall|k1: int, k2: int| 0 <= k1 < k2 < n ==> cls[k1] != cls[k2]
    &&& forall|c: usize| #[trigger] reachable_classes(nodes, uf).contains(c) ==> cls.contains(c)
    &&& forall|k: int| 0 <= k < n ==> (#[trigger] m.rooms@[k]) == nodes[cls[k] as int].label
    &&& conns_tied(m.connections@, nodes, uf, cls)
}

/// Indicator: door `d` of class `a` is settled and leads to class `b`.
pub open spec fn door_to(nodes: Seq<Node>, uf: UnionFind, a: int, d: int, b: int) -> int {
    if nodes[a].neighbors[d] is Some && uf.root_of(nodes[a].neighbors[d]->0 as int) == b {
        1int
    } else {
        0int
    }
}

/// Number of doors of class `a` leading to class `b`.
pub open spec fn doors_between(nodes: Seq<Node>, uf: UnionFind, a: int, b: int) -> int {
    door_to(nodes, uf, a, 0, b) + door_to(nodes, uf, a, 1, b) + door_to(nodes, uf, a, 2, b)
        + door_to(nodes, uf, a, 3, b) + door_to(nodes, uf, a, 4, b) + door_to(nodes, uf, a, 5, b)
}

/// Number of already-paired doors of class `a` leading to class `b`.
pub open spec fn used_to(
    nodes: Seq<Node>,
    uf: UnionFind,
    used: Seq<[bool; 6]>,
    a: int,
    b: int,
) -> int {
    (if used[a][0] == true {
        door_to(nodes, uf, a, 0, b)
    } else {
        0int
    }) + (if used[a][1] == true {
        door_to(nodes, uf, a, 1, b)
    } else {
        0int
    }) + (if used[a][2] == true {
        door_to(nodes, uf, a, 2, b)
    } else {
        0int
    }) + (if used[a][3] == true {
        door_to(nodes, uf, a, 3, b)
    } else {
        0int
    }) + (if used[a][4] == true {
        door_to(nodes, uf, a, 4, b)
    } else {
        0int
    }) + (if used[a][5] == true {
        door_to(nodes, uf, a, 5, b)
    } else {
        0int
    })
}

/// Between any two reachable classes the door counts match both ways,
/// and no class has an odd number of doors onto itself: what it means
/// for the conjecture to describe an involutive pairing, and the
/// condition under which the guess builder owes success.
pub open spec fn degree_symmetric(nodes: Seq<Node>, uf: UnionFind) -> bool {
    forall|a: int, b: int|
        #![trigger doors_between(nodes, uf, a, b)]
        0 <= a < nodes.len() && 0 <= b < nodes.len() && uf.root_of(a) == a && uf.root_of(b) == b
            && reachable(nodes, uf, a) && reachable(nodes, uf, b) ==> ((a != b ==> doors_between(
            nodes,
            uf,
            a,
            b,
        ) == doors_between(nodes, uf, b, a)) && (a == b ==> doors_between(nodes, uf, a, a) % 2
            == 0))
}

/// The pairing built so far consumes doors evenly: equally many paired
/// doors each way between two classes, an even number onto one class.
#[verifier::opaque]
pub open spec fn pairing_balanced(
    nodes: Seq<Node>,
    uf: UnionFind,
    map: Seq<Option<usize>>,
    used: Seq<[bool; 6]>,
) -> bool {
    forall|a: int, b: int|
        #![trigger used_to(nodes, uf, used, a, b)]
        0 <= a < nodes.len() && 0 <= b < nodes.len() && map[a] is Some && map[b] is Some ==> ((a
            != b ==> used_to(nodes, uf, used, a, b) == used_to(nodes, uf, used, b, a)) && (a == b
            ==> used_to(nodes, uf, used, a, a) % 2 == 0))
}

/// Marking one door raises one paired-door count by that door's
/// indicator and leaves every other count alone.
proof fn lemma_used_to_mark(
    nodes: Seq<Node>,
    uf: UnionFind,
    pre: Seq<[bool; 6]>,
    new: Seq<[bool; 6]>,
    c: int,
    dd: int,
    a: int,
    b: int,
)
    requires
        pre.len() == new.len(),
        0 <= c < pre.len(),
        0 <= dd < 6,
        !pre[c][dd],
        forall|x: int, y: int|
            0 <= x < pre.len() && 0 <= y < 6 ==> #[trigger] new[x][y] == (pre[x][y] || (x == c && y
                == dd)),
        0 <= a < pre.len(),
    ensures
        used_to(nodes, uf, new, a, b) == used_to(nodes, uf, pre, a, b) + if a == c {
            door_to(nodes, uf, c, dd, b)
        } else {
            0int
        },
{
    assert(new[a][0] == (pre[a][0] || (a == c && 0 == dd)));
    assert(new[a][1] == (pre[a][1] || (a == c && 1 == dd)));
    assert(new[a][2] == (pre[a][2] || (a == c && 2 == dd)));
    assert(new[a][3] == (pre[a][3] || (a == c && 3 == dd)));
    assert(new[a][4] == (pre[a][4] || (a == c && 4 == dd)));
    assert(new[a][5] == (pre[a][5] || (a == c && 5 == dd)));
}

/// Pairing one fresh door with its reverse keeps the paired-door
/// counts balanced.
proof fn lemma_balance_mark_pair(
    nodes: Seq<Node>,
    uf: UnionFind,
    map: Seq<Option<usize>>,
    pre_used: Seq<[bool; 6]>,
    mid_used: Seq<[bool; 6]>,
    used: Seq<[bool; 6]>,
    c: int,
    d: int,
    nc: int,
    rd: int,
)
    requires
        pre_used.len() == nodes.len(),
        mid_used.len() == nodes.len(),
        used.len() == nodes.len(),
        map.len() == nodes.len(),
        0 <= c < nodes.len(),
        0 <= nc < nodes.len(),
        0 <= d < 6,
        0 <= rd < 6,
        !pre_used[c][d],
        !mid_used[nc][rd],
        nodes[c].neighbors[d] is Some,
        uf.root_of(nodes[c].neighbors[d]->0 as int) == nc,
        nodes[nc].neighbors[rd] is Some,
        uf.root_of(nodes[nc].neighbors[rd]->0 as int) == c,
        forall|x: int, y: int|
            0 <= x < nodes.len() && 0 <= y < 6 ==> #[trigger] mid_used[x][y] == (pre_used[x][y]
                || (x == c && y == d)),
        forall|x: int, y: int|
            0 <= x < nodes.len() && 0 <= y < 6 ==> #[trigger] used[x][y] == (mid_used[x][y] || (x
                == nc && y == rd)),
        pairing_balanced(nodes, uf, map, pre_used),
    ensures
        pairing_balanced(nodes, uf, map, used),
{
    reveal(pairing_balanced);
    assert(door_to(nodes, uf, c, d, nc) == 1);
    assert(door_to(nodes, uf, nc, rd, c) == 1);
    assert forall|a: int, b: int|
        #![trigger used_to(nodes, uf, used, a, b)]
        0 <= a < nodes.len() && 0 <= b < nodes.len() && map[a] is Some && map[b] is Some implies ((
    a != b ==> used_to(nodes, uf, used, a, b) == used_to(nodes, uf, used, b, a)) && (a == b
        ==> used_to(nodes, uf, used, a, a) % 2 == 0)) by {
        lemma_used_to_mark(nodes, uf, pre_used, mid_used, c, d, a, b);
        lemma_used_to_mark(nodes, uf, mid_used, used, nc, rd, a, b);
        lemma_used_to_mark(nodes, uf, pre_used, mid_used, c, d, b, a);
        lemma_used_to_mark(nodes, uf, mid_used, used, nc, rd, b, a);
        assert(used_to(nodes, uf, pre_used, a, b) == used_to(nodes, uf, pre_used, b, a) || a == b);
    }
}

/// When the door degrees are symmetric and the pairing so far is
/// balanced, an unpaired door's target class always offers an unused
/// reverse door.
proof fn lemma_reverse_exists(
    nodes: Seq<Node>,
    uf: UnionFind,
    map: Seq<Option<usize>>,
    used: Seq<[bool; 6]>,
    c: int,
    nc: int,
    d: int,
)
    requires
        nodes.len() == used.len(),
        map.len() == used.len(),
        0 <= c < nodes.len(),
        0 <= nc < nodes.len(),
        0 <= d < 6,
        map[c] is Some,
        map[nc] is Some,
        uf.root_of(c) == c,
        uf.root_of(nc) == nc,
        reachable(nodes, uf, c),
        reachable(nodes, uf, nc),
        nodes[c].neighbors[d] is Some,
        uf.root_of(nodes[c].neighbors[d]->0 as int) == nc,
        !used[c][d],
        pairing_balanced(nodes, uf, map, used),
        degree_symmetric(nodes, uf),
    ensures
        exists|d2: int|
            0 <= d2 < 6 && (#[trigger] nodes[nc].neighbors[d2]) is Some && uf.root_of(
                nodes[nc].neighbors[d2]->0 as int,
            ) == c && !used[nc][d2] && !(nc == c && d2 == d),
{
    if forall|d2: int|
        0 <= d2 < 6 && (#[trigger] nodes[nc].neighbors[d2]) is Some && uf.root_of(
            nodes[nc].neighbors[d2]->0 as int,
        ) == c && !(nc == c && d2 == d) ==> used[nc][d2] {
        lemma_no_reverse_contradiction(nodes, uf, map, used, c, nc, d);
    }
}

/// Helper for `lemma_reverse_exists`: if every reverse candidate were
/// already used, the paired-door counts could not balance.
proof fn lemma_no_reverse_contradiction(
    nodes: Seq<Node>,
    uf: UnionFind,
    map: Seq<Option<usize>>,
    used: Seq<[bool; 6]>,
    c: int,
    nc: int,
    d: int,
)
    requires
        nodes.len() == used.len(),
        map.len() == used.len(),
        0 <= c < nodes.len(),
        0 <= nc < nodes.len(),
        0 <= d < 6,
        map[c] is Some,
        map[nc] is Some,
        uf.root_of(c) == c,
        uf.root_of(nc) == nc,
        reachable(nodes, uf, c),
        reachable(nodes, uf, nc),
        nodes[c].neighbors[d] is Some,
        uf.root_of(nodes[c].neighbors[d]->0 as int) == nc,
        !used[c][d],
        pairing_balanced(nodes, uf, map, used),
        degree_symmetric(nodes, uf),
        forall|d2: int|
            0 <= d2 < 6 && (#[trigger] nodes[nc].neighbors[d2]) is Some && uf.root_of(
                nodes[nc].neighbors[d2]->0 as int,
            ) == c && !(nc == c && d2 == d) ==> used[nc][d2],
    ensures
        exists|d2: int|
            0 <= d2 < 6 && (#[trigger] nodes[nc].neighbors[d2]) is Some && uf.root_of(
                nodes[nc].neighbors[d2]->0 as int,
            ) == c && !used[nc][d2] && !(nc == c && d2 == d),
{
    reveal(pairing_balanced);
    assert(doors_between(nodes, uf, c, nc) == doors_between(nodes, uf, nc, c));
    if c != nc {
        assert(used_to(nodes, uf, used, nc, c) == doors_between(nodes, uf, nc, c)) by {
            assert(forall|d2: int|
                0 <= d2 < 6 && door_to(nodes, uf, nc, d2, c) == 1 ==> #[trigger] used[nc as int][d2]);
        }
        assert(used_to(nodes, uf, used, c, nc) <= doors_between(nodes, uf, c, nc) - 1) by {
            assert(door_to(nodes, uf, c, d, nc) == 1);
            assert(!used[c][d]);
        }
        assert(used_to(nodes, uf, used, c, nc) == used_to(nodes, uf, used, nc, c));
        assert(false);
    } else {
        assert(used_to(nodes, uf, used, c, c) >= doors_between(nodes, uf, c, c) - 1) by {
            assert(forall|d2: int|
                0 <= d2 < 6 && d2 != d && door_to(nodes, uf, c, d2, c) == 1 ==> #[trigger] used[c as int][d2]);
        }
        assert(used_to(nodes, uf, used, c, c) <= doors_between(nodes, uf, c, c) - 1) by {
            assert(door_to(nodes, uf, c, d, c) == 1);
            assert(!used[c][d]);
        }
        assert(doors_between(nodes, uf, c, c) % 2 == 0);
        assert(used_to(nodes, uf, used, c, c) % 2 == 0);
        assert(false);
    }
}

/// What the guess builder promises of an emitted map over `n` rooms:
/// one label per room taken from a reachable class, the start room at
/// index 0, and exactly `3 n` connections, strictly sorted, well formed,
/// covering every door of every room exactly once.
pub open spec fn guess_wf(m: GuessRequestMap, nodes: Seq<Node>, uf: UnionFind, n: int) -> bool {
    &&& m.rooms@.len() == n
    &&& m.starting_room == 0
    &&& m.connections@.len() == 3 * n
    &&& forall|k: int|
        0 <= k < m.connections@.len() ==> connection_wf(#[trigger] m.connections@[k], n)
    &&& forall|k1: int, k2: int|
        0 <= k1 < k2 < m.connections@.len() ==> conn_lt(m.connections@[k1], m.connections@[k2])
    &&& forall|r: int, d: int| 0 <= r < n && 0 <= d < 6 ==> #[trigger] covered(m.connections@, r, d)
    &&& forall|k1: int, k2: int, r: int, d: int|
        #![trigger touches(m.connections@[k1], r, d), touches(m.connections@[k2], r, d)]
        0 <= k1 < k2 < m.connections@.len() ==> !(touches(m.connections@[k1], r, d) && touches(
            m.connections@[k2],
            r,
            d,
        ))
    &&& exists|cls: Seq<usize>| #[trigger] guess_tied(m, nodes, uf, n, cls)
}

} // verus!

verus! {

/// The facts about the index tables and the conjecture that the guess
/// builder's pairing phase never changes.
pub open spec fn frozen_inv(
    nodes: Seq<Node>,
    uf: UnionFind,
    map: Seq<Option<usize>>,
    classes: Seq<usize>,
    len: int,
) -> bool {
    &&& classes.len() == count_some(map)
    &&& forall|k: int|
        0 <= k < classes.len() ==> (#[trigger] classes[k]) < len && uf.root_of(classes[k] as int)
            == classes[k] as int && map[classes[k] as int] == Some(k as usize)
    &&& forall|c: int|
        0 <= c < len && (#[trigger] map[c]) is Some ==> (map[c]->0 as int) < classes.len()
            && classes[map[c]->0 as int] == c
    &&& forall|c: int, d: int|
        0 <= c < len && 0 <= d < 6 && (#[trigger] map[c]) is Some ==> ((
        #[trigger] nodes[c].neighbors[d]) is Some && map[uf.root_of(
            nodes[c].neighbors[d]->0 as int,
        )] is Some)
}

/// Each endpoint lies on at most one listed connection.
pub open spec fn conns_unique(conns: Seq<Connection>) -> bool {
    forall|k1: int, k2: int, r: int, d: int|
        #![trigger touches(conns[k1], r, d), touches(conns[k2], r, d)]
        0 <= k1 < k2 < conns.len() ==> !(touches(conns[k1], r, d) && touches(conns[k2], r, d))
}

/// Every used slot's room and door are covered by some connection.
pub open spec fn used_covered(
    map: Seq<Option<usize>>,
    used: Seq<[bool; 6]>,
    conns: Seq<Connection>,
    len: int,
) -> bool {
    forall|c: int, d: int|
        0 <= c < len && 0 <= d < 6 && (#[trigger] used[c][d]) ==> (map[c] is Some && covered(
            conns,
            map[c]->0 as int,
            d,
        ))
}

/// The relation between the used-door table and the connection list
/// that the pairing phase maintains door by door.
pub open spec fn build_inv(
    map: Seq<Option<usize>>,
    classes: Seq<usize>,
    used: Seq<[bool; 6]>,
    num_used: int,
    conns: Seq<Connection>,
    len: int,
    n: int,
) -> bool {
    &&& forall|c: int, d: int|
        0 <= c < len && 0 <= d < 6 && map[c] is None ==> !(#[trigger] used[c][d])
    &&& num_used == count_used(used)
    &&& conns.len() * 2 == num_used
    &&& forall|k: int| 0 <= k < conns.len() ==> connection_wf(#[trigger] conns[k], n)
    &&& forall|k1: int, k2: int| 0 <= k1 < k2 < conns.len() ==> conn_lt(conns[k1], conns[k2])
    &&& forall|k: int|
        0 <= k < conns.len() ==> used[classes[(#[trigger] conns[k]).from.room as int] as int][conns[k].from.door as int]
            && used[classes[conns[k].to.room as int] as int][conns[k].to.door as int]
}

/// A fresh pairing's endpoints were unused, so appending it keeps every
/// endpoint on at most one connection.
proof fn lemma_push_unique(
    map: Seq<Option<usize>>,
    classes: Seq<usize>,
    pre_used: Seq<[bool; 6]>,
    pre_conns: Seq<Connection>,
    conns: Seq<Connection>,
    newc: Connection,
    ci: int,
    d: int,
    c: int,
    nc: int,
    rj: int,
    rd: int,
    len: int,
)
    requires
        conns_unique(pre_conns),
        forall|k: int|
            0 <= k < pre_conns.len() ==> pre_used[classes[(#[trigger] pre_conns[k]).from.room as int] as int][pre_conns[k].from.door as int]
                && pre_used[classes[pre_conns[k].to.room as int] as int][pre_conns[k].to.door as int],
        conns == pre_conns.push(newc),
        newc.from.room == ci && newc.from.door == d && newc.to.room == rj && newc.to.door == rd,
        0 <= ci,
        0 <= rj,
        classes[ci] == c,
        classes[rj] == nc,
        !pre_used[c][d],
        !pre_used[nc][rd],
        !(nc == c && rd == d),
        forall|k: int|
            0 <= k < pre_conns.len() ==> (#[trigger] pre_conns[k]).from.room < classes.len()
                && pre_conns[k].to.room < classes.len() && pre_conns[k].from.door < 6
                && pre_conns[k].to.door < 6,
        ci < classes.len(),
        rj < classes.len(),
        0 <= d < 6,
        0 <= rd < 6,
    ensures
        conns_unique(conns),
{
    assert forall|k1: int, k2: int, r: int, dd: int|
        #![trigger touches(conns[k1], r, dd), touches(conns[k2], r, dd)]
        0 <= k1 < k2 < conns.len() implies !(touches(conns[k1], r, dd) && touches(
        conns[k2],
        r,
        dd,
    )) by {
        if k2 == conns.len() - 1 {
            assert(conns[k2] == newc);
            assert(conns[k1] == pre_conns[k1]);
            if touches(conns[k1], r, dd) && touches(newc, r, dd) {
                if r == ci && dd == d {
                    assert(pre_used[classes[r] as int][dd]);
                    assert(false);
                }
                if r == rj && dd == rd {
                    assert(pre_used[classes[r] as int][dd]);
                    assert(false);
                }
            }
        } else {
            assert(conns[k1] == pre_conns[k1]);
            assert(conns[k2] == pre_conns[k2]);
        }
    }
}

/// Every already-used slot stays covered after the push, and the two
/// freshly used slots are covered by the new connection.
proof fn lemma_push_covered(
    map: Seq<Option<usize>>,
    classes: Seq<usize>,
    pre_used: Seq<[bool; 6]>,
    used: Seq<[bool; 6]>,
    pre_conns: Seq<Connection>,
    conns: Seq<Connection>,
    newc: Connection,
    ci: int,
    d: int,
    c: int,
    nc: int,
    rj: int,
    rd: int,
    len: int,
)
    requires
        used_covered(map, pre_used, pre_conns, len),
        pre_used.len() == len,
        used.len() == len,
        forall|c2: int, dd: int|
            0 <= c2 < len && 0 <= dd < 6 ==> #[trigger] used[c2][dd] == (pre_used[c2][dd] || (c2
                == c && dd == d) || (c2 == nc && dd == rd)),
        conns == pre_conns.push(newc),
        newc.from.room == ci && newc.from.door == d && newc.to.room == rj && newc.to.door == rd,
        0 <= c < len,
        0 <= nc < len,
        map[c] == Some(ci as usize),
        map[nc] == Some(rj as usize),
        0 <= ci,
        0 <= rj,
        ci as usize as int == ci,
        rj as usize as int == rj,
    ensures
        used_covered(map, used, conns, len),
{
    assert forall|c2: int, dd: int|
        0 <= c2 < len && 0 <= dd < 6 && (#[trigger] used[c2][dd]) implies (map[c2] is Some
        && covered(conns, map[c2]->0 as int, dd)) by {
        if pre_used[c2][dd] {
            let k = choose|k: int|
                0 <= k < pre_conns.len() && touches(#[trigger] pre_conns[k], map[c2]->0 as int, dd);
            assert(conns[k] == pre_conns[k]);
            assert(touches(conns[k], map[c2]->0 as int, dd));
            assert(covered(conns, map[c2]->0 as int, dd));
        } else {
            assert(conns[conns.len() - 1] == newc);
            if c2 == c && dd == d {
                assert(touches(newc, ci, d));
                assert(covered(conns, ci, dd));
            } else {
                assert(c2 == nc && dd == rd);
                assert(touches(newc, rj, rd));
                assert(covered(conns, rj, dd));
            }
        }
    }
}

/// Marking a fresh pairing's two directed doors and appending the
/// oriented connection preserves the pairing-phase relation.
#[verifier::rlimit(100)]
proof fn lemma_build_inv_push(
    map: Seq<Option<usize>>,
    classes: Seq<usize>,
    pre_used: Seq<[bool; 6]>,
    used: Seq<[bool; 6]>,
    pre_conns: Seq<Connection>,
    conns: Seq<Connection>,
    pre_num: int,
    ci: int,
    d: int,
    c: int,
    nc: int,
    rj: int,
    rd: int,
    n: int,
    len: int,
)
    requires
        build_inv(map, classes, pre_used, pre_num, pre_conns, len, n),
        n == classes.len(),
        forall|k: int| 0 <= k < classes.len() ==> (#[trigger] classes[k]) < len,
        n <= len,
        len <= 0x0400_0000,
        map.len() == len,
        pre_used.len() == len,
        used.len() == len,
        0 <= ci < n,
        0 <= d < 6,
        0 <= rd < 6,
        0 <= c < len,
        0 <= nc < len,
        0 <= rj < n,
        classes[ci] == c,
        map[c] == Some(ci as usize),
        map[nc] == Some(rj as usize),
        classes[rj] == nc,
        !pre_used[c][d],
        !pre_used[nc][rd],
        !(nc == c && rd == d),
        forall|c2: int, dd: int|
            0 <= c2 < len && 0 <= dd < 6 ==> #[trigger] used[c2][dd] == (pre_used[c2][dd] || (c2
                == c && dd == d) || (c2 == nc && dd == rd)),
        count_used(used) == pre_num + 2,
        conns == pre_conns.push(
            (Connection {
                from: Vertex { room: ci as usize, door: d as usize },
                to: Vertex { room: rj as usize, door: rd as usize },
            }),
        ),
        forall|cj: int, d2: int|
            0 <= cj < ci && 0 <= d2 < 6 ==> #[trigger] pre_used[classes[cj] as int][d2],
        forall|d2: int| 0 <= d2 < d ==> #[trigger] pre_used[classes[ci] as int][d2],
        forall|k: int|
            0 <= k < pre_conns.len() ==> ((#[trigger] pre_conns[k]).from.room < ci || (
            pre_conns[k].from.room == ci && pre_conns[k].from.door < d)),
    ensures
        build_inv(map, classes, used, pre_num + 2, conns, len, n),
        forall|k: int|
            0 <= k < conns.len() ==> ((#[trigger] conns[k]).from.room < ci || (conns[k].from.room
                == ci && conns[k].from.door <= d)),
{
    let newc = (Connection {
        from: Vertex { room: ci as usize, door: d as usize },
        to: Vertex { room: rj as usize, door: rd as usize },
    });
    // the pairing orients itself: the partner door lies on a later room,
    // or behind a later door of the same room
    assert(rj > ci || (rj == ci && rd > d)) by {
        if rj < ci {
            assert(pre_used[classes[rj] as int][rd]);
        }
        if rj == ci && rd < d {
            assert(pre_used[classes[ci] as int][rd]);
        }
    }
    assert(connection_wf(newc, n));
    assert forall|k: int| 0 <= k < conns.len() implies connection_wf(#[trigger] conns[k], n) by {
        if k < pre_conns.len() {
            assert(conns[k] == pre_conns[k]);
        } else {
            assert(conns[k] == newc);
        }
    }
    assert forall|k1: int, k2: int|
        0 <= k1 < k2 < conns.len() implies conn_lt(conns[k1], conns[k2]) by {
        if k2 == conns.len() - 1 {
            assert(conns[k1] == pre_conns[k1]);
            assert(conns[k2] == newc);
        } else {
            assert(conns[k1] == pre_conns[k1]);
            assert(conns[k2] == pre_conns[k2]);
        }
    }
    assert forall|k: int|
        0 <= k < conns.len() implies used[classes[(#[trigger] conns[k]).from.room as int] as int][conns[k].from.door as int]
        && used[classes[conns[k].to.room as int] as int][conns[k].to.door as int] by {
        if k < pre_conns.len() {
            assert(conns[k] == pre_conns[k]);
            let fr = pre_conns[k].from.room as int;
            let fd = pre_conns[k].from.door as int;
            let tr = pre_conns[k].to.room as int;
            let td = pre_conns[k].to.door as int;
            assert(pre_used[classes[fr] as int][fd]);
            assert(pre_used[classes[tr] as int][td]);
            assert(connection_wf(pre_conns[k], n));
            assert((classes[fr] as int) < len);
            assert((classes[tr] as int) < len);
            assert(used[classes[fr] as int][fd]);
            assert(used[classes[tr] as int][td]);
        } else {
            assert(conns[k] == newc);
            assert(used[classes[ci] as int][d]);
            assert(used[classes[rj] as int][rd]);
        }
    }
    assert forall|k: int|
        0 <= k < conns.len() implies ((#[trigger] conns[k]).from.room < ci || (conns[k].from.room
            == ci && conns[k].from.door <= d)) by {
        if k < pre_conns.len() {
            assert(conns[k] == pre_conns[k]);
        } else {
            assert(conns[k] == newc);
        }
    }
}

/// Mark one directed door used and bump the used count.
fn mark_used(used: &mut Vec<[bool; 6]>, num_used: &mut usize, c: usize, d: usize)
    requires
        c < old(used)@.len(),
        d < 6,
        !old(used)@[c as int][d as int],
        *old(num_used) as int == count_used(old(used)@),
        old(used)@.len() <= 0x0400_0000,
    ensures
        final(used)@.len() == old(used)@.len(),
        *final(num_used) as int == count_used(final(used)@),
        *final(num_used) as int == *old(num_used) as int + 1,
        forall|c2: int, d2: int|
            0 <= c2 < old(used)@.len() && 0 <= d2 < 6 ==> #[trigger] final(used)@[c2][d2] == (old(
                used,
            )@[c2][d2] || (c2 == c as int && d2 == d as int)),
{
    let ghost pre = used@;
    let mut row = used[c];
    row[d] = true;
    used[c] = row;
    proof {
        lemma_count_used_update(pre, c as int, row);
        lemma_count_used_bound(pre);
        assert(count_row(row) == count_row(pre[c as int]) + 1);
    }
    *num_used = *num_used + 1;
}

/// Mark both directed doors used and append the oriented connection.
#[verifier::rlimit(100)]
fn record_pair(
    nodes: &[Node],
    uf: &UnionFind,
    map: &Vec<Option<usize>>,
    classes: &Vec<usize>,
    used: &mut Vec<[bool; 6]>,
    num_used: &mut usize,
    conns: &mut Vec<Connection>,
    ci: usize,
    d: usize,
    c: usize,
    nc: usize,
    rj: usize,
    rd: usize,
    n: usize,
) -> (r: Result<(), EngineError>)
    requires
        nodes@.len() == old(used)@.len(),
        nodes@[c as int].neighbors[d as int] is Some,
        uf.root_of(nodes@[c as int].neighbors[d as int]->0 as int) == nc as int,
        nodes@[nc as int].neighbors[rd as int] is Some,
        uf.root_of(nodes@[nc as int].neighbors[rd as int]->0 as int) == c as int,
        conns_tied(old(conns)@, nodes@, *uf, classes@),
        pairing_balanced(nodes@, *uf, map@, old(used)@),
        uf.root_of(c as int) == c as int,
        uf.root_of(nc as int) == nc as int,
        n == classes@.len(),
        forall|k: int| 0 <= k < classes@.len() ==> (#[trigger] classes@[k]) < old(used)@.len(),
        n <= old(used)@.len(),
        map@.len() == old(used)@.len(),
        old(used)@.len() <= 0x0400_0000,
        ci < n,
        d < 6,
        rd < 6,
        c < old(used)@.len(),
        nc < old(used)@.len(),
        c == classes@[ci as int],
        map@[c as int] == Some(ci as usize),
        map@[nc as int] == Some(rj),
        rj < n,
        classes@[rj as int] == nc,
        !old(used)@[c as int][d as int],
        !old(used)@[nc as int][rd as int],
        !(nc == c && rd == d),
        *old(num_used) as int == count_used(old(used)@),
        build_inv(
            map@,
            classes@,
            old(used)@,
            *old(num_used) as int,
            old(conns)@,
            old(used)@.len() as int,
            n as int,
        ),
        conns_unique(old(conns)@),
        used_covered(map@, old(used)@, old(conns)@, old(used)@.len() as int),
        forall|cj: int, d2: int|
            0 <= cj < ci && 0 <= d2 < 6 ==> #[trigger] old(used)@[classes@[cj] as int][d2],
        forall|d2: int| 0 <= d2 < d ==> #[trigger] old(used)@[classes@[ci as int] as int][d2],
        forall|k: int|
            0 <= k < old(conns)@.len() ==> ((#[trigger] old(conns)@[k]).from.room < ci || (old(
                conns,
            )@[k].from.room == ci && old(conns)@[k].from.door < d)),
    ensures
        final(used)@.len() == old(used)@.len(),
        r is Ok,
        *final(num_used) as int == count_used(final(used)@),
        conns_unique(final(conns)@),
        used_covered(map@, final(used)@, final(conns)@, old(used)@.len() as int),
        conns_tied(final(conns)@, nodes@, *uf, classes@),
        pairing_balanced(nodes@, *uf, map@, final(used)@),
        build_inv(
            map@,
            classes@,
            final(used)@,
            *final(num_used) as int,
            final(conns)@,
            old(used)@.len() as int,
            n as int,
        ),
        forall|c2: int, d2: int|
            0 <= c2 < old(used)@.len() && 0 <= d2 < 6 && old(used)@[c2][d2]
                ==> (#[trigger] final(used)@[c2][d2]),
        final(used)@[classes@[ci as int] as int][d as int],
        forall|k: int|
            0 <= k < final(conns)@.len() ==> ((#[trigger] final(conns)@[k]).from.room < ci || (
            final(conns)@[k].from.room == ci && final(conns)@[k].from.door <= d)),
{
    let len = used.len();
    let ghost pre_used = used@;
    let ghost pre_conns = conns@;
    let ghost pre_num = *num_used as int;
    mark_used(used, num_used, c, d);
    let ghost mid_used = used@;
    proof {
        assert(!used@[nc as int][rd as int]);
    }
    mark_used(used, num_used, nc, rd);
    proof {
        assert forall|c2: int, dd: int| 0 <= c2 < len && 0 <= dd < 6 implies #[trigger] used@[c2][dd]
            == (pre_used[c2][dd] || (c2 == c as int && dd == d as int) || (c2 == nc as int && dd
            == rd as int)) by {}
    }
    conns.push(
        Connection { from: Vertex { room: ci, door: d }, to: Vertex { room: rj, door: rd } },
    );
    proof {
        assert forall|c2: int, dd: int| 0 <= c2 < len && 0 <= dd < 6 implies #[trigger] used@[c2][dd]
            == (pre_used[c2][dd] || (c2 == c as int && dd == d as int) || (c2 == nc as int && dd
            == rd as int)) by {}
        lemma_balance_mark_pair(
            nodes@,
            *uf,
            map@,
            pre_used,
            mid_used,
            used@,
            c as int,
            d as int,
            nc as int,
            rd as int,
        );
        lemma_build_inv_push(
            map@,
            classes@,
            pre_used,
            used@,
            pre_conns,
            conns@,
            pre_num,
            ci as int,
            d as int,
            c as int,
            nc as int,
            rj as int,
            rd as int,
            n as int,
            len as int,
        );
        let newc = (Connection {
            from: Vertex { room: ci, door: d },
            to: Vertex { room: rj, door: rd },
        });
        lemma_push_unique(
            map@,
            classes@,
            pre_used,
            pre_conns,
            conns@,
            newc,
            ci as int,
            d as int,
            c as int,
            nc as int,
            rj as int,
            rd as int,
            len as int,
        );
        lemma_push_covered(
            map@,
            classes@,
            pre_used,
            used@,
            pre_conns,
            conns@,
            newc,
            ci as int,
            d as int,
            c as int,
            nc as int,
            rj as int,
            rd as int,
            len as int,
        );
        reveal(conns_tied);
        assert forall|k: int| 0 <= k < conns@.len() implies {
            let a = classes@[(#[trigger] conns@[k]).from.room as int] as int;
            let da = conns@[k].from.door as int;
            let b = classes@[conns@[k].to.room as int] as int;
            let db = conns@[k].to.door as int;
            &&& nodes@[a].neighbors[da] is Some
            &&& uf.root_of(nodes@[a].neighbors[da]->0 as int) == b
            &&& nodes@[b].neighbors[db] is Some
            &&& uf.root_of(nodes@[b].neighbors[db]->0 as int) == a
        } by {
            if k < pre_conns.len() {
                assert(conns@[k] == pre_conns[k]);
            } else {
                assert(conns@[k] == newc);
            }
        }
    }
    Ok(())
}

/// Pair one directed door with the first unused door of its target
/// class that points back, unless the door is already paired.
#[verifier::rlimit(100)]
fn pair_door(
    nodes: &[Node],
    uf: &UnionFind,
    map: &Vec<Option<usize>>,
    classes: &Vec<usize>,
    used: &mut Vec<[bool; 6]>,
    num_used: &mut usize,
    conns: &mut Vec<Connection>,
    ci: usize,
    d: usize,
    n: usize,
) -> (r: Result<(), EngineError>)
    requires
        nodes_wf(nodes@, *uf),
        nodes@.len() <= 0x0400_0000,
        n == classes@.len(),
        n <= nodes@.len(),
        map@.len() == nodes@.len(),
        old(used)@.len() == nodes@.len(),
        ci < n,
        d < 6,
        frozen_inv(nodes@, *uf, map@, classes@, nodes@.len() as int),
        *old(num_used) as int == count_used(old(used)@),
        build_inv(
            map@,
            classes@,
            old(used)@,
            *old(num_used) as int,
            old(conns)@,
            nodes@.len() as int,
            n as int,
        ),
        conns_unique(old(conns)@),
        used_covered(map@, old(used)@, old(conns)@, nodes@.len() as int),
        conns_tied(old(conns)@, nodes@, *uf, classes@),
        pairing_balanced(nodes@, *uf, map@, old(used)@),
        forall|j: int|
            0 <= j < classes@.len() ==> reachable(nodes@, *uf, #[trigger] classes@[j] as int),
        forall|cj: int, d2: int|
            0 <= cj < ci && 0 <= d2 < 6 ==> #[trigger] old(used)@[classes@[cj] as int][d2],
        forall|d2: int| 0 <= d2 < d ==> #[trigger] old(used)@[classes@[ci as int] as int][d2],
        forall|k: int|
            0 <= k < old(conns)@.len() ==> ((#[trigger] old(conns)@[k]).from.room < ci || (old(
                conns,
            )@[k].from.room == ci && old(conns)@[k].from.door < d)),
    ensures
        final(used)@.len() == nodes@.len(),
        r matches Err(e) ==> e == EngineError::MissingReverseDoor,
        degree_symmetric(nodes@, *uf) ==> r is Ok,
        r is Ok ==> {
            &&& *final(num_used) as int == count_used(final(used)@)
            &&& conns_unique(final(conns)@)
            &&& used_covered(map@, final(used)@, final(conns)@, nodes@.len() as int)
            &&& conns_tied(final(conns)@, nodes@, *uf, classes@)
            &&& pairing_balanced(nodes@, *uf, map@, final(used)@)
            &&& build_inv(
                map@,
                classes@,
                final(used)@,
                *final(num_used) as int,
                final(conns)@,
                nodes@.len() as int,
                n as int,
            )
            &&& forall|c2: int, d2: int|
                0 <= c2 < nodes@.len() && 0 <= d2 < 6 && old(used)@[c2][d2] ==> (#[trigger] final(used)@[c2][d2])
            &&& final(used)@[classes@[ci as int] as int][d as int]
            &&& forall|k: int|
                0 <= k < final(conns)@.len() ==> ((#[trigger] final(conns)@[k]).from.room < ci || (
                final(conns)@[k].from.room == ci && final(conns)@[k].from.door <= d))
        },
{
    let len = nodes.len();
    let c = classes[ci];
    proof {
        assert(map@[c as int] == Some(ci as usize));
        assert(uf.root_of(c as int) == c as int);
    }
    if used[c][d] {
        return Ok(());
    }
    let next = match nodes[c].neighbors[d] {
        Some(next) => next,
        None => {
            proof {
                assert(false);
            }
            vstd::pervasive::unreached()
        },
    };
    let nc = uf.root(next);
    proof {
        uf.lemma_root_idempotent(next as int);
    }
    let rj = match map[nc] {
        Some(rj) => rj,
        None => {
            proof {
                assert(false);
            }
            vstd::pervasive::unreached()
        },
    };
    let mut rd_opt: Option<usize> = None;
    let mut d2: usize = 0;
    while d2 < 6
        invariant_except_break
            rd_opt is None,
            forall|dd: int|
                0 <= dd < d2 && (#[trigger] nodes@[nc as int].neighbors[dd]) is Some
                    && uf.root_of(nodes@[nc as int].neighbors[dd]->0 as int) == c as int && !(nc
                    == c && dd == d as int) ==> used@[nc as int][dd],
        invariant
            nodes_wf(nodes@, *uf),
            len == nodes@.len(),
            used@.len() == len,
            used@ == old(used)@,
            nc < len,
            c < len,
            d < 6,
            d2 <= 6,
        ensures
            used@ == old(used)@,
            rd_opt matches Some(rd) ==> (rd < 6 && !used@[nc as int][rd as int]
                && nodes@[nc as int].neighbors[rd as int] is Some && uf.root_of(
                nodes@[nc as int].neighbors[rd as int]->0 as int,
            ) == c as int && !(nc == c && rd == d)),
            rd_opt is None ==> forall|dd: int|
                0 <= dd < 6 && (#[trigger] nodes@[nc as int].neighbors[dd]) is Some && uf.root_of(
                    nodes@[nc as int].neighbors[dd]->0 as int,
                ) == c as int && !(nc == c && dd == d as int) ==> used@[nc as int][dd],
        decreases 6 - d2,
    {
        if !used[nc][d2] {
            match nodes[nc].neighbors[d2] {
                Some(rn) => {
                    let rr = uf.root(rn);
                    if rr == c && !(nc == c && d2 == d) {
                        rd_opt = Some(d2);
                        break ;
                    }
                },
                None => {},
            }
        }
        d2 = d2 + 1;
    }
    let rd = match rd_opt {
        Some(rd) => rd,
        None => {
            proof {
                if degree_symmetric(nodes@, *uf) {
                    lemma_reverse_exists(nodes@, *uf, map@, used@, c as int, nc as int, d as int);
                    assert(false);
                }
            }
            return Err(EngineError::MissingReverseDoor);
        },
    };
    proof {
        assert(!used@[nc as int][rd as int]);
        assert(!(nc == c && rd == d));
        assert(map@[nc as int] == Some(rj));
        assert(classes@[rj as int] == nc);
    }
    match record_pair(nodes, uf, map, classes, used, num_used, conns, ci, d, c, nc, rj, rd, n) {
        Ok(()) => {},
        Err(e) => {
            return Err(e);
        },
    }
    Ok(())
}

/// The used-door count never exceeds six per row.
pub proof fn lemma_count_used_bound(s: Seq<[bool; 6]>)
    ensures
        0 <= count_used(s) <= 6 * s.len(),
    decreases s.len(),
{
    if s.len() > 0 {
        lemma_count_used_bound(s.drop_last());
    }
}

/// Build the guess map from a merged conjecture with no closed doors:
/// enumerate the reachable classes in search order, give each a dense
/// room index, and pair every directed door with the first unused door
/// of its target class that points back.
#[verifier::rlimit(100)]
pub fn construct_guess(nodes: &[Node], uf: &mut UnionFind, n: usize) -> (r: Result<
    GuessRequestMap,
    EngineError,
>)
    requires
        nodes_wf(nodes@, *old(uf)),
        nodes@.len() > 0,
        nodes@.len() <= 0x0400_0000,
    ensures
        *final(uf) == *old(uf),
        r matches Ok(m) ==> guess_wf(m, nodes@, *old(uf), n as int),
        (r == Err::<GuessRequestMap, EngineError>(EngineError::ClosedDoor)) <==> !no_closed_reachable(
            nodes@,
            *old(uf),
        ),
        (r == Err::<GuessRequestMap, EngineError>(EngineError::WrongRoomCount)) <==> (
        no_closed_reachable(nodes@, *old(uf)) && reachable_classes(nodes@, *old(uf)).len()
            != n),
        (no_closed_reachable(nodes@, *old(uf)) && reachable_classes(nodes@, *old(uf)).len() == n
            && degree_symmetric(nodes@, *old(uf))) ==> r is Ok,
        r matches Err(e) ==> (e == EngineError::ClosedDoor || e == EngineError::WrongRoomCount
            || e == EngineError::MissingReverseDoor),
{
    let len = nodes.len();
    let r0 = uf.root(0);
    proof {
        uf.lemma_root_idempotent(0);
    }
    let mut map: Vec<Option<usize>> = Vec::new();
    let mut i: usize = 0;
    while i < len
        invariant
            i <= len,
            map@.len() == i,
            forall|j: int| 0 <= j < i ==> (#[trigger] map@[j]) is None,
        decreases len - i,
    {
        map.push(None);
        i = i + 1;
    }
    proof {
        lemma_count_some_all_none(map@);
    }
    let mut classes: Vec<usize> = Vec::new();
    let ghost map0 = map@;
    map[r0] = Some(0);
    classes.push(r0);
    proof {
        lemma_count_some_update(map0, r0 as int, 0);
        assert(traverse(nodes@, *uf, uf.root_of(0), Seq::<ExploreQuery>::empty()) == Some(
            r0 as int,
        ));
        assert(reachable(nodes@, *uf, r0 as int));
    }
    let mut queue: std::collections::VecDeque<usize> = std::collections::VecDeque::new();
    queue.push_back(r0);
    proof {
        assert(queue@[0] == r0);
        assert(queue@.contains(r0));
    }
    while queue.len() > 0
        invariant
            nodes_wf(nodes@, *uf),
            *uf == *old(uf),
            len == nodes@.len(),
            len > 0,
            r0 < len,
            r0 as int == uf.root_of(0),
            map@.len() == len,
            classes@.len() == count_some(map@),
            classes@.len() <= len,
            map@[r0 as int] == Some(0usize),
            classes@[0] == r0,
            forall|k: int|
                0 <= k < classes@.len() ==> (#[trigger] classes@[k]) < len && uf.root_of(
                    classes@[k] as int,
                ) == classes@[k] as int && reachable(nodes@, *uf, classes@[k] as int)
                    && map@[classes@[k] as int] == Some(k as usize),
            forall|c: int|
                0 <= c < len && (#[trigger] map@[c]) is Some ==> (map@[c]->0 as int)
                    < classes@.len() && classes@[map@[c]->0 as int] == c,
            forall|k: int| 0 <= k < queue@.len() ==> (#[trigger] queue@[k]) < len,
            forall|k: int| 0 <= k < queue@.len() ==> map@[#[trigger] queue@[k] as int] is Some,
            forall|k1: int, k2: int|
                0 <= k1 < k2 < queue@.len() ==> queue@[k1] != queue@[k2],
            forall|c: int, d: int|
                0 <= c < len && 0 <= d < 6 && (#[trigger] map@[c]) is Some && !queue@.contains(
                    c as usize,
                ) ==> ((#[trigger] nodes@[c].neighbors[d]) is Some && map@[uf.root_of(
                    nodes@[c].neighbors[d]->0 as int,
                )] is Some),
        decreases 7 * (len - count_some(map@)) + queue@.len(),
    {
        let ghost pre_q = queue@;
        let v = match queue.pop_front() {
            Some(v) => v,
            None => {
                proof {
                    assert(false);
                }
                vstd::pervasive::unreached()
            },
        };
        let ghost q_after_pop = queue@;
        let ghost map_at_pop = map@;
        proof {
            assert forall|c: usize| pre_q.contains(c) && c != v implies queue@.contains(c) by {
                let k = choose|k: int| 0 <= k < pre_q.len() && pre_q[k] == c;
                assert(k != 0);
                assert(queue@[k - 1] == c);
            }
            assert forall|k1: int, k2: int|
                0 <= k1 < k2 < queue@.len() implies queue@[k1] != queue@[k2] by {
                assert(queue@[k1] == pre_q[k1 + 1]);
                assert(queue@[k2] == pre_q[k2 + 1]);
            }
            assert(!queue@.contains(v)) by {
                if queue@.contains(v) {
                    let k = choose|k: int| 0 <= k < queue@.len() && queue@[k] == v;
                    assert(pre_q[k + 1] == v);
                    assert(pre_q[0] == v);
                }
            }
        }
        let mut door: usize = 0;
        while door < 6
            invariant
                nodes_wf(nodes@, *uf),
                *uf == *old(uf),
                len == nodes@.len(),
                len > 0,
                r0 < len,
                r0 as int == uf.root_of(0),
                map@.len() == len,
                classes@.len() == count_some(map@),
                classes@.len() <= len,
                map@[r0 as int] == Some(0usize),
                classes@[0] == r0,
                door <= 6,
                v < len,
                map@[v as int] is Some,
                uf.root_of(v as int) == v as int,
                forall|k: int|
                    0 <= k < classes@.len() ==> (#[trigger] classes@[k]) < len && uf.root_of(
                        classes@[k] as int,
                    ) == classes@[k] as int && reachable(nodes@, *uf, classes@[k] as int)
                        && map@[classes@[k] as int] == Some(k as usize),
                forall|c: int|
                    0 <= c < len && (#[trigger] map@[c]) is Some ==> (map@[c]->0 as int)
                        < classes@.len() && classes@[map@[c]->0 as int] == c,
                forall|k: int| 0 <= k < queue@.len() ==> (#[trigger] queue@[k]) < len,
                forall|k: int| 0 <= k < queue@.len() ==> map@[#[trigger] queue@[k] as int] is Some,
                forall|k1: int, k2: int|
                    0 <= k1 < k2 < queue@.len() ==> queue@[k1] != queue@[k2],
                !queue@.contains(v),
                7 * (len - count_some(map@)) + queue@.len() <= 7 * (len - count_some(map_at_pop))
                    + q_after_pop.len(),
                count_some(map_at_pop) <= count_some(map@),
                forall|c: int|
                    0 <= c < len && (#[trigger] map_at_pop[c]) is Some ==> map@[c] is Some,
                forall|c: int, d: int|
                    0 <= c < len && 0 <= d < 6 && (#[trigger] map@[c]) is Some && !queue@.contains(
                        c as usize,
                    ) && c != v as int ==> ((#[trigger] nodes@[c].neighbors[d]) is Some
                        && map@[uf.root_of(nodes@[c].neighbors[d]->0 as int)] is Some),
                forall|d: int|
                    0 <= d < door ==> ((#[trigger] nodes@[v as int].neighbors[d]) is Some
                        && map@[uf.root_of(nodes@[v as int].neighbors[d]->0 as int)] is Some),
            decreases 6 - door,
        {
            match nodes[v].neighbors[door] {
                Some(next) => {
                    let nx = uf.root(next);
                    proof {
                        uf.lemma_root_idempotent(next as int);
                    }
                    if map[nx].is_none() {
                        let ghost pre_map = map@;
                        let idx = classes.len();
                        map[nx] = Some(idx);
                        classes.push(nx);
                        let ghost pre_push_q = queue@;
                        queue.push_back(nx);
                        proof {
                            lemma_count_some_update(pre_map, nx as int, idx);
                            lemma_count_some_bound(map@);
                            assert(reachable(nodes@, *uf, nx as int)) by {
                                let pl = choose|pl: Seq<ExploreQuery>|
                                    traverse(nodes@, *uf, uf.root_of(0), pl) == Some(v as int);
                                lemma_traverse_push(nodes@, *uf, uf.root_of(0), pl, door, v as int);
                            }
                            assert forall|c: usize| pre_push_q.contains(c) implies queue@.contains(
                                c,
                            ) by {
                                let k = choose|k: int|
                                    0 <= k < pre_push_q.len() && pre_push_q[k] == c;
                                assert(queue@[k] == c);
                            }
                            assert forall|c: usize|
                                queue@.contains(c) && c != nx implies pre_push_q.contains(c) by {
                                let k = choose|k: int| 0 <= k < queue@.len() && queue@[k] == c;
                                assert(k < pre_push_q.len());
                                assert(pre_push_q[k] == c);
                            }
                            assert(queue@[queue@.len() - 1] == nx);
                            assert(queue@.contains(nx));
                            assert(!queue@.contains(v)) by {
                                assert(nx != v);
                            }
                        }
                    }
                },
                None => {
                    proof {
                        let k = map@[v as int]->0 as int;
                        assert(classes@[k] == v);
                        assert(reachable(nodes@, *uf, v as int));
                        assert(!no_closed_reachable(nodes@, *old(uf)));
                    }
                    return Err(EngineError::ClosedDoor);
                },
            }
            door = door + 1;
        }
        proof {
            assert forall|c: int, d: int|
                0 <= c < len && 0 <= d < 6 && (#[trigger] map@[c]) is Some && !queue@.contains(
                    c as usize,
                ) implies ((#[trigger] nodes@[c].neighbors[d]) is Some && map@[uf.root_of(
                nodes@[c].neighbors[d]->0 as int,
            )] is Some) by {
                if c != v as int {
                }
            }
        }
    }
    proof {
        let vis = Seq::new(len as nat, |c: int| map@[c] is Some);
        assert(visited_closed(nodes@, *uf, vis)) by {
            assert forall|c: int, d: int|
                0 <= c < nodes@.len() && 0 <= d < 6 && vis[c] && (
                #[trigger] nodes@[c].neighbors[d]) is Some implies vis[uf.root_of(
                nodes@[c].neighbors[d]->0 as int,
            )] by {
                assert(!queue@.contains(c as usize));
            }
        }
        assert(vis[r0 as int]);
        assert forall|c: int, d: int|
            0 <= c < nodes@.len() && 0 <= d < 6 && reachable(nodes@, *uf, c) implies (
        #[trigger] nodes@[c].neighbors[d]) is Some by {
            let pl = choose|pl: Seq<ExploreQuery>|
                traverse(nodes@, *uf, uf.root_of(0), pl) == Some(c);
            lemma_reachable_visited(nodes@, *uf, vis, r0 as int, pl);
            assert(vis[c]);
            assert(!queue@.contains(c as usize));
        }
        assert(no_closed_reachable(nodes@, *uf));
        assert forall|c: usize|
            #[trigger] reachable_classes(nodes@, *uf).contains(c) implies classes@.contains(
            c,
        ) by {
            let pl = choose|pl: Seq<ExploreQuery>|
                traverse(nodes@, *uf, uf.root_of(0), pl) == Some(c as int);
            lemma_reachable_visited(nodes@, *uf, vis, r0 as int, pl);
            assert(vis[c as int]);
            let k = map@[c as int]->0 as int;
            assert(classes@[k] == c);
        }
        assert(classes@.to_set() =~= reachable_classes(nodes@, *uf)) by {
            assert forall|c: usize| classes@.to_set().contains(c) implies reachable_classes(
                nodes@,
                *uf,
            ).contains(c) by {
                let k = choose|k: int| 0 <= k < classes@.len() && classes@[k] == c;
            }
        }
        assert(classes@.no_duplicates()) by {
            assert forall|k1: int, k2: int|
                0 <= k1 < classes@.len() && 0 <= k2 < classes@.len() && k1 != k2 implies classes@[k1]
                != classes@[k2] by {
                assert(map@[classes@[k1] as int] == Some(k1 as usize));
                assert(map@[classes@[k2] as int] == Some(k2 as usize));
            }
        }
        classes@.unique_seq_to_set();
        assert(reachable_classes(nodes@, *uf).len() == classes@.len());
    }
    if classes.len() != n {
        return Err(EngineError::WrongRoomCount);
    }
    let mut rooms: Vec<u8> = Vec::new();
    let mut k: usize = 0;
    while k < n
        invariant
            len == nodes@.len(),
            n == classes@.len(),
            k <= n,
            rooms@.len() == k,
            forall|j: int| 0 <= j < classes@.len() ==> (#[trigger] classes@[j]) < len,
            forall|j: int| 0 <= j < k ==> (#[trigger] rooms@[j]) == nodes@[classes@[j] as int].label,
        decreases n - k,
    {
        rooms.push(nodes[classes[k]].label);
        k = k + 1;
    }
    let mut used: Vec<[bool; 6]> = Vec::new();
    let mut i: usize = 0;
    while i < len
        invariant
            i <= len,
            used@.len() == i,
            forall|c: int, d: int| 0 <= c < i && 0 <= d < 6 ==> !(#[trigger] used@[c][d]),
        decreases len - i,
    {
        used.push([false, false, false, false, false, false]);
        i = i + 1;
    }
    proof {
        lemma_count_used_none(used@);
    }
    let mut num_used: usize = 0;
    let mut conns: Vec<Connection> = Vec::new();
    proof {
        assert(build_inv(map@, classes@, used@, num_used as int, conns@, len as int, n as int));
        reveal(conns_tied);
        assert(conns_tied(conns@, nodes@, *uf, classes@));
        reveal(pairing_balanced);
        assert forall|a: int, b: int|
            #![trigger used_to(nodes@, *uf, used@, a, b)]
            0 <= a < nodes@.len() && 0 <= b < nodes@.len() && map@[a] is Some && map@[b] is Some
            implies ((a != b ==> used_to(nodes@, *uf, used@, a, b) == used_to(
            nodes@,
            *uf,
            used@,
            b,
            a,
        )) && (a == b ==> used_to(nodes@, *uf, used@, a, a) % 2 == 0)) by {
            assert(used_to(nodes@, *uf, used@, a, b) == 0);
            assert(used_to(nodes@, *uf, used@, b, a) == 0);
        }
        assert(pairing_balanced(nodes@, *uf, map@, used@));
    }
    let mut ci: usize = 0;
    while ci < n
        invariant
            nodes_wf(nodes@, *uf),
            *uf == *old(uf),
            len == nodes@.len(),
            len <= 0x0400_0000,
            n == classes@.len(),
            n <= len,
            map@.len() == len,
            used@.len() == len,
            ci <= n,
            frozen_inv(nodes@, *uf, map@, classes@, len as int),
            no_closed_reachable(nodes@, *uf),
            reachable_classes(nodes@, *uf).len() == n,
            classes@[0] == r0,
            r0 as int == uf.root_of(0),
            forall|j: int| 0 <= j < classes@.len() ==> reachable(nodes@, *uf, classes@[j] as int),
            forall|c2: usize|
                #[trigger] reachable_classes(nodes@, *uf).contains(c2) ==> classes@.contains(c2),
            num_used as int == count_used(used@),
            build_inv(map@, classes@, used@, num_used as int, conns@, len as int, n as int),
            conns_unique(conns@),
            used_covered(map@, used@, conns@, len as int),
            conns_tied(conns@, nodes@, *uf, classes@),
            pairing_balanced(nodes@, *uf, map@, used@),
            forall|cj: int, d: int|
                0 <= cj < ci && 0 <= d < 6 ==> #[trigger] used@[classes@[cj] as int][d],
            forall|k: int| 0 <= k < conns@.len() ==> (#[trigger] conns@[k]).from.room < ci,
        decreases n - ci,
    {
        let c = classes[ci];
        let mut d: usize = 0;
        while d < 6
            invariant
                nodes_wf(nodes@, *uf),
                *uf == *old(uf),
                len == nodes@.len(),
                len <= 0x0400_0000,
                n == classes@.len(),
                n <= len,
                map@.len() == len,
                used@.len() == len,
                ci < n,
                d <= 6,
                c == classes@[ci as int],
                c < len,
                frozen_inv(nodes@, *uf, map@, classes@, len as int),
                no_closed_reachable(nodes@, *uf),
                reachable_classes(nodes@, *uf).len() == n,
                classes@[0] == r0,
                r0 as int == uf.root_of(0),
                forall|j: int|
                    0 <= j < classes@.len() ==> reachable(nodes@, *uf, classes@[j] as int),
                forall|c2: usize|
                    #[trigger] reachable_classes(nodes@, *uf).contains(c2) ==> classes@.contains(
                        c2,
                    ),
                num_used as int == count_used(used@),
                build_inv(map@, classes@, used@, num_used as int, conns@, len as int, n as int),
                conns_unique(conns@),
                used_covered(map@, used@, conns@, len as int),
                conns_tied(conns@, nodes@, *uf, classes@),
                pairing_balanced(nodes@, *uf, map@, used@),
                forall|cj: int, d2: int|
                    0 <= cj < ci && 0 <= d2 < 6 ==> #[trigger] used@[classes@[cj] as int][d2],
                forall|d2: int| 0 <= d2 < d ==> #[trigger] used@[c as int][d2],
                forall|k: int|
                    0 <= k < conns@.len() ==> ((#[trigger] conns@[k]).from.room < ci || (
                    conns@[k].from.room == ci && conns@[k].from.door < d)),
            decreases 6 - d,
        {
            match pair_door(nodes, uf, &map, &classes, &mut used, &mut num_used, &mut conns, ci, d, n) {
                Ok(()) => {},
                Err(e) => {
                    return Err(e);
                },
            }
            d = d + 1;
        }
        ci = ci + 1;
    }
    proof {
        assert forall|c2: int, dd: int|
            0 <= c2 < len && 0 <= dd < 6 && map@[c2] is Some implies #[trigger] used@[c2][dd] by {
            let k = map@[c2]->0 as int;
            assert(classes@[k] == c2);
            assert(used@[classes@[k] as int][dd]);
        }
        lemma_count_used_full(used@, map@);
        assert(num_used == 6 * n);
        assert(conns@.len() == 3 * n);
        assert forall|r: int, dd: int|
            0 <= r < n && 0 <= dd < 6 implies #[trigger] covered(conns@, r, dd) by {
            let c2 = classes@[r] as int;
            assert(used@[c2][dd]);
            assert(map@[c2]->0 as int == r);
        }
        let m = (GuessRequestMap { rooms, starting_room: 0, connections: conns });
        assert(guess_tied(m, nodes@, *uf, n as int, classes@));
        assert(exists|cls: Seq<usize>| #[trigger] guess_tied(m, nodes@, *uf, n as int, cls));
    }
    Ok(GuessRequestMap { rooms, starting_room: 0, connections: conns })
}

} // verus!

verus! {

/// Indicator: door `d` of `node` holds a settled non-canonical id.
pub open spec fn slot_nc(node: Node, uf: UnionFind, d: int) -> int {
    match node.neighbors[d] {
        Some(v) => if uf.root_of(v as int) != v as int {
            1int
        } else {
            0int
        },
        None => 0int,
    }
}

/// Settled non-canonical slots of one node.
pub open spec fn nc_node(node: Node, uf: UnionFind) -> int {
    slot_nc(node, uf, 0) + slot_nc(node, uf, 1) + slot_nc(node, uf, 2) + slot_nc(node, uf, 3)
        + slot_nc(node, uf, 4) + slot_nc(node, uf, 5)
}

/// Settled non-canonical slots of the whole store: the measure a
/// closure sweep's canonicalizing rewrites strictly reduce when no
/// classes merge.
pub open spec fn nc_count(nodes: Seq<Node>, uf: UnionFind) -> int
    decreases nodes.len(),
{
    if nodes.len() == 0 {
        0
    } else {
        nc_count(nodes.drop_last(), uf) + nc_node(nodes.last(), uf)
    }
}

/// The non-canonical count is non-negative.
pub proof fn lemma_nc_nonneg(nodes: Seq<Node>, uf: UnionFind)
    ensures
        0 <= nc_count(nodes, uf),
    decreases nodes.len(),
{
    if nodes.len() > 0 {
        lemma_nc_nonneg(nodes.drop_last(), uf);
    }
}

/// Replacing one node changes the count by the node counts' difference.
pub proof fn lemma_nc_update(nodes: Seq<Node>, i: int, nd: Node, uf: UnionFind)
    requires
        0 <= i < nodes.len(),
    ensures
        nc_count(nodes.update(i, nd), uf) == nc_count(nodes, uf) - nc_node(nodes[i], uf) + nc_node(
            nd,
            uf,
        ),
    decreases nodes.len(),
{
    let t = nodes.update(i, nd);
    if i == nodes.len() - 1 {
        assert(t.drop_last() =~= nodes.drop_last());
    } else {
        assert(t.drop_last() =~= nodes.drop_last().update(i, nd));
        lemma_nc_update(nodes.drop_last(), i, nd, uf);
    }
}

/// Two structures with the same representative function count the same
/// non-canonical slots.
pub proof fn lemma_nc_congruent(nodes: Seq<Node>, uf1: UnionFind, uf2: UnionFind)
    requires
        uf1.capacity() == uf2.capacity(),
        forall|x: int| 0 <= x < uf1.capacity() ==> uf1.root_of(x) == uf2.root_of(x),
        forall|i: int, d: int|
            0 <= i < nodes.len() && 0 <= d < 6 && (#[trigger] nodes[i].neighbors[d]) is Some
                ==> nodes[i].neighbors[d]->0 < uf1.capacity(),
    ensures
        nc_count(nodes, uf1) == nc_count(nodes, uf2),
    decreases nodes.len(),
{
    if nodes.len() > 0 {
        assert forall|i: int, d: int|
            0 <= i < nodes.drop_last().len() && 0 <= d < 6 && (
            #[trigger] nodes.drop_last()[i].neighbors[d]) is Some implies nodes.drop_last()[i].neighbors[d]->0
            < uf1.capacity() by {
            assert(nodes.drop_last()[i] == nodes[i]);
        }
        lemma_nc_congruent(nodes.drop_last(), uf1, uf2);
        let m = nodes.len() - 1;
        assert forall|d: int| 0 <= d < 6 implies slot_nc(nodes.last(), uf1, d) == slot_nc(
            nodes.last(),
            uf2,
            d,
        ) by {
            if nodes[m].neighbors[d] is Some {
                assert(nodes[m].neighbors[d]->0 < uf1.capacity());
            }
        }
        assert(slot_nc(nodes.last(), uf1, 0) == slot_nc(nodes.last(), uf2, 0));
        assert(slot_nc(nodes.last(), uf1, 1) == slot_nc(nodes.last(), uf2, 1));
        assert(slot_nc(nodes.last(), uf1, 2) == slot_nc(nodes.last(), uf2, 2));
        assert(slot_nc(nodes.last(), uf1, 3) == slot_nc(nodes.last(), uf2, 3));
        assert(slot_nc(nodes.last(), uf1, 4) == slot_nc(nodes.last(), uf2, 4));
        assert(slot_nc(nodes.last(), uf1, 5) == slot_nc(nodes.last(), uf2, 5));
    }
}

} // verus!
