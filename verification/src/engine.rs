//! The exploration engine: plan generation, the wire form of plans,
//! event-stream expansion and replay, conjecture growth from walks, and
//! the marking-probe closure sweep.

use vstd::prelude::*;
use crate::graph::{nc_count, nodes_wf, traverse, Node};
use crate::union_find::UnionFind;
use crate::{EngineError, Event, ExploreQuery};

verus! {

/// The smallest label different from `label`.
pub open spec fn spec_different_label(label: u8) -> u8 {
    if label == 0 {
        1
    } else {
        0
    }
}

/// The smallest label not equal to the conjectured one; used to pick a
/// charcoal mark that is guaranteed to disagree.
pub fn find_different_label(label: u8) -> (r: u8)
    ensures
        r == spec_different_label(label),
        r != label,
        r < 4,
{
    if label == 0 {
        1
    } else {
        0
    }
}

/// Every door of the plan in range, every mark label in range.
pub open spec fn plan_wf(plan: Seq<ExploreQuery>) -> bool {
    forall|i: int|
        0 <= i < plan.len() ==> match #[trigger] plan[i] {
            ExploreQuery::Open { door } => door < 6,
            ExploreQuery::Charcoal { label } => label < 4,
        }
}

/// The plan contains only door openings.
pub open spec fn all_open(plan: Seq<ExploreQuery>) -> bool {
    forall|i: int| 0 <= i < plan.len() ==> (#[trigger] plan[i]) is Open
}

/// The oracle's wire form of a plan: one digit per opened door, a
/// bracketed digit per charcoal mark.
pub open spec fn wire_of(plan: Seq<ExploreQuery>) -> Seq<u8>
    decreases plan.len(),
{
    if plan.len() == 0 {
        Seq::empty()
    } else {
        wire_of(plan.drop_last()) + (match plan.last() {
            ExploreQuery::Open { door } => seq![(48 + door as int) as u8],
            ExploreQuery::Charcoal { label } => seq![91u8, (48 + label as int) as u8, 93u8],
        })
    }
}

/// Serialize a plan to the wire bytes the oracle accepts.
pub fn plan_to_wire(plan: &Vec<ExploreQuery>) -> (r: Vec<u8>)
    requires
        plan_wf(plan@),
    ensures
        r@ == wire_of(plan@),
{
    let mut out: Vec<u8> = Vec::new();
    let mut i: usize = 0;
    while i < plan.len()
        invariant
            plan_wf(plan@),
            i <= plan.len(),
            out@ == wire_of(plan@.take(i as int)),
        decreases plan.len() - i,
    {
        proof {
            assert(plan@.take(i + 1).drop_last() =~= plan@.take(i as int));
            assert(plan@.take(i + 1).last() == plan@[i as int]);
        }
        match plan[i] {
            ExploreQuery::Open { door } => {
                out.push(48 + (door as u8));
            },
            ExploreQuery::Charcoal { label } => {
                out.push(91);
                out.push(48 + label);
                out.push(93);
            },
        }
        i = i + 1;
        proof {
            assert(out@ =~= wire_of(plan@.take(i as int)));
        }
    }
    proof {
        assert(plan@.take(plan@.len() as int) =~= plan@);
    }
    out
}

/// The event stream for the first `k` actions of a plan whose label
/// list is `labels`: a visit for the start room, then one door opening
/// plus visit per `Open`, one overwrite per `Charcoal`.
pub open spec fn expand_upto(plan: Seq<ExploreQuery>, labels: Seq<u8>, k: int) -> Seq<Event>
    decreases k,
{
    if k <= 0 {
        seq![Event::VisitRoom { label: labels[0] }]
    } else {
        expand_upto(plan, labels, k - 1) + (match plan[k - 1] {
            ExploreQuery::Open { door } => seq![
                Event::OpenDoor { door },
                Event::VisitRoom { label: labels[k] },
            ],
            ExploreQuery::Charcoal { label } => seq![Event::Overwrite { label }],
        })
    }
}

/// The full event stream of a plan.
pub open spec fn expanded(plan: Seq<ExploreQuery>, labels: Seq<u8>) -> Seq<Event> {
    expand_upto(plan, labels, plan.len() as int)
}

/// Recover the three-variant event stream from a sent plan and the
/// label list the oracle returned.  The list must hold one label per
/// action plus one for the start room, each in range; anything else is
/// a malformed response.
pub fn expand_events(plan: &Vec<ExploreQuery>, labels: &Vec<u8>) -> (r: Result<
    Vec<Event>,
    EngineError,
>)
    ensures
        r is Ok <==> (labels@.len() == plan@.len() + 1 && forall|i: int|
            0 <= i < labels@.len() ==> (#[trigger] labels@[i]) < 4),
        r matches Ok(evs) ==> evs@ == expanded(plan@, labels@),
        r matches Err(e) ==> e == EngineError::MalformedEvents,
{
    if labels.len() == 0 || labels.len() - 1 != plan.len() {
        return Err(EngineError::MalformedEvents);
    }
    let mut i: usize = 0;
    while i < labels.len()
        invariant
            i <= labels.len(),
            forall|j: int| 0 <= j < i ==> (#[trigger] labels@[j]) < 4,
        decreases labels.len() - i,
    {
        if labels[i] >= 4 {
            return Err(EngineError::MalformedEvents);
        }
        i = i + 1;
    }
    let mut out: Vec<Event> = Vec::new();
    out.push(Event::VisitRoom { label: labels[0] });
    let mut k: usize = 0;
    while k < plan.len()
        invariant
            labels@.len() == plan@.len() + 1,
            k <= plan.len(),
            out@ == expand_upto(plan@, labels@, k as int),
        decreases plan.len() - k,
    {
        match plan[k] {
            ExploreQuery::Open { door } => {
                out.push(Event::OpenDoor { door });
                out.push(Event::VisitRoom { label: labels[k + 1] });
            },
            ExploreQuery::Charcoal { label } => {
                out.push(Event::Overwrite { label });
            },
        }
        k = k + 1;
        proof {
            assert(out@ =~= expand_upto(plan@, labels@, k as int));
        }
    }
    Ok(out)
}

/// Relies on rand::random_range over `0..bound`: the result lies in
/// the given (non-empty) range.
#[verifier::external_body]
pub(crate) fn random_below(bound: usize) -> (r: usize)
    requires
        bound > 0,
    ensures
        r < bound,
{
    rand::random_range(0..bound)
}

/// Pad a plan with uniformly random door openings up to `target_len`.
pub fn random_extend(plan: &mut Vec<ExploreQuery>, target_len: usize)
    ensures
        final(plan)@.len() == if old(plan)@.len() >= target_len {
            old(plan)@.len() as int
        } else {
            target_len as int
        },
        forall|i: int| 0 <= i < old(plan)@.len() ==> final(plan)@[i] == old(plan)@[i],
        forall|i: int|
            old(plan)@.len() <= i < final(plan)@.len() ==> (match #[trigger] final(plan)@[i] {
                ExploreQuery::Open { door } => door < 6,
                ExploreQuery::Charcoal { .. } => false,
            }),
{
    while plan.len() < target_len
        invariant
            forall|i: int| 0 <= i < old(plan)@.len() ==> plan@[i] == old(plan)@[i],
            plan@.len() >= old(plan)@.len(),
            plan@.len() <= if old(plan)@.len() >= target_len {
                old(plan)@.len() as int
            } else {
                target_len as int
            },
            forall|i: int|
                old(plan)@.len() <= i < plan@.len() ==> (match #[trigger] plan@[i] {
                    ExploreQuery::Open { door } => door < 6,
                    ExploreQuery::Charcoal { .. } => false,
                }),
        decreases target_len - plan.len(),
    {
        let door = random_below(6);
        plan.push(ExploreQuery::open(door));
    }
}

/// Walk a plan prefix under the canonical view without mutating
/// anything; `None` when a door is closed or an action is not `Open`.
fn try_reach(nodes: &[Node], plan: &[ExploreQuery], upto: usize, uf: &UnionFind) -> (r: Option<
    usize,
>)
    requires
        nodes_wf(nodes@, *uf),
        nodes@.len() > 0,
        upto <= plan@.len(),
    ensures
        match r {
            Some(c) => traverse(nodes@, *uf, uf.root_of(0), plan@.take(upto as int)) == Some(
                c as int,
            ) && c < nodes@.len(),
            None => traverse(nodes@, *uf, uf.root_of(0), plan@.take(upto as int)) is None,
        },
{
    proof {
        uf.lemma_root_idempotent(0);
    }
    let mut cur = uf.root(0);
    let mut i: usize = 0;
    while i < upto
        invariant
            nodes_wf(nodes@, *uf),
            nodes@.len() > 0,
            upto <= plan@.len(),
            i <= upto,
            cur < nodes@.len(),
            uf.root_of(cur as int) == cur as int,
            traverse(nodes@, *uf, uf.root_of(0), plan@.take(upto as int)) == traverse(
                nodes@,
                *uf,
                cur as int,
                plan@.subrange(i as int, upto as int),
            ),
        decreases upto - i,
    {
        proof {
            assert(plan@.subrange(i as int, upto as int).drop_first() =~= plan@.subrange(
                i + 1,
                upto as int,
            ));
            assert(plan@.subrange(i as int, upto as int)[0] == plan@[i as int]);
        }
        match plan[i] {
            ExploreQuery::Open { door } => {
                if door >= 6 {
                    return None;
                }
                match nodes[cur].neighbors[door] {
                    Some(next) => {
                        proof {
                            uf.lemma_root_idempotent(next as int);
                        }
                        cur = uf.root(next);
                    },
                    None => {
                        return None;
                    },
                }
            },
            ExploreQuery::Charcoal { .. } => {
                return None;
            },
        }
        i = i + 1;
    }
    proof {
        assert(plan@.subrange(upto as int, upto as int) =~= Seq::<ExploreQuery>::empty());
    }
    Some(cur)
}

/// The conjecture node the explorer stands in after walking `plan`
/// from the start class; the plan's doors must all be settled.
pub fn reach(nodes: &[Node], plan: &[ExploreQuery], uf: &mut UnionFind) -> (r: usize)
    requires
        nodes_wf(nodes@, *old(uf)),
        nodes@.len() > 0,
        traverse(nodes@, *old(uf), old(uf).root_of(0), plan@) is Some,
    ensures
        *final(uf) == *old(uf),
        traverse(nodes@, *old(uf), old(uf).root_of(0), plan@) == Some(r as int),
        r < nodes@.len(),
{
    proof {
        assert(plan@.take(plan@.len() as int) =~= plan@);
    }
    match try_reach(nodes, plan, plan.len(), uf) {
        Some(c) => c,
        None => {
            proof {
                assert(false);
            }
            vstd::pervasive::unreached()
        },
    }
}

} // verus!

verus! {

/// Ghost snapshot of the conjecture store and current class during an
/// event replay.
pub struct WalkState {
    pub labels: Seq<u8>,
    pub nbrs: Seq<Seq<Option<usize>>>,
    pub cur: int,
}

/// The label of every node, in id order.
pub open spec fn labels_of(nodes: Seq<Node>) -> Seq<u8> {
    nodes.map_values(|n: Node| n.label)
}

/// The six neighbor slots of every node, in id order.
pub open spec fn nbrs_of(nodes: Seq<Node>) -> Seq<Seq<Option<usize>>> {
    nodes.map_values(|n: Node| n.neighbors@)
}

/// One step of conjecture growth: a visit relabels the current class, a
/// door opening follows a settled slot (canonicalizing it) or appends a
/// fresh sentinel-labeled node into a closed slot; an overwrite cannot
/// occur during a plain walk.
pub open spec fn walk_step_state(s: WalkState, uf: UnionFind, ev: Event) -> Option<WalkState> {
    match ev {
        Event::VisitRoom { label } => if 0 <= s.cur < s.labels.len() {
            Some(WalkState { labels: s.labels.update(s.cur, label), ..s })
        } else {
            None
        },
        Event::Overwrite { label } => None,
        Event::OpenDoor { door } => if 0 <= s.cur < s.nbrs.len() && door < 6 {
            match s.nbrs[s.cur][door as int] {
                Some(next) => if next < s.nbrs.len() {
                    Some(
                        WalkState {
                            labels: s.labels,
                            nbrs: s.nbrs.update(
                                s.cur,
                                s.nbrs[s.cur].update(
                                    door as int,
                                    Some(uf.root_of(next as int) as usize),
                                ),
                            ),
                            cur: uf.root_of(next as int),
                        },
                    )
                } else {
                    None
                },
                None => Some(
                    WalkState {
                        labels: s.labels.push(10),
                        nbrs: s.nbrs.update(
                            s.cur,
                            s.nbrs[s.cur].update(door as int, Some(s.nbrs.len() as usize)),
                        ).push(Seq::new(6, |d: int| None)),
                        cur: s.nbrs.len() as int,
                    },
                ),
            }
        } else {
            None
        },
    }
}

/// The conjecture state after the first `k` events of a walk, starting
/// from the state right after the initial room was appended.
pub open spec fn walk_upto(init: WalkState, uf: UnionFind, events: Seq<Event>, k: int) -> Option<
    WalkState,
>
    decreases k,
{
    if k <= 1 {
        Some(init)
    } else {
        match walk_upto(init, uf, events, k - 1) {
            None => None,
            Some(s) => walk_step_state(s, uf, events[k - 1]),
        }
    }
}

/// The state right after the start room's node was appended for the
/// walk's leading visit event.
pub open spec fn walk_init(nodes: Seq<Node>, uf: UnionFind, label0: u8) -> WalkState {
    WalkState {
        labels: labels_of(nodes).push(label0),
        nbrs: nbrs_of(nodes).push(Seq::new(6, |d: int| None)),
        cur: uf.root_of(0),
    }
}

/// Once the replay fails it stays failed.
proof fn lemma_walk_none_mono(init: WalkState, uf: UnionFind, events: Seq<Event>, j: int, k: int)
    requires
        j <= k,
        walk_upto(init, uf, events, j) is None,
    ensures
        walk_upto(init, uf, events, k) is None,
    decreases k,
{
    if k > j {
        lemma_walk_none_mono(init, uf, events, j, k - 1);
    }
}

/// Grow the conjecture from a plain walk's event stream: append a node
/// for the start room, then follow or open one door per event.  The
/// union-find is only read; the new store is pinned by the replay fold.
pub fn apply_walk(nodes: &mut Vec<Node>, uf: &mut UnionFind, events: &Vec<Event>) -> (r: Result<
    (),
    EngineError,
>)
    requires
        nodes_wf(old(nodes)@, *old(uf)),
        old(nodes)@.len() + events@.len() + 1 <= old(uf).capacity(),
    ensures
        *final(uf) == *old(uf),
        nodes_wf(final(nodes)@, *old(uf)),
        r is Ok <==> (events@.len() >= 1 && events@[0] is VisitRoom && walk_upto(
            walk_init(old(nodes)@, *old(uf), events@[0]->VisitRoom_label),
            *old(uf),
            events@,
            events@.len() as int,
        ) is Some),
        r is Ok ==> {
            let s = walk_upto(
                walk_init(old(nodes)@, *old(uf), events@[0]->VisitRoom_label),
                *old(uf),
                events@,
                events@.len() as int,
            )->0;
            labels_of(final(nodes)@) == s.labels && nbrs_of(final(nodes)@) == s.nbrs
        },
        r matches Err(e) ==> e == EngineError::MalformedEvents,
{
    if events.len() == 0 {
        return Err(EngineError::MalformedEvents);
    }
    let l0 = match events[0] {
        Event::VisitRoom { label } => label,
        _ => {
            return Err(EngineError::MalformedEvents);
        },
    };
    nodes.push(Node::new(l0));
    proof {
        assert(labels_of(nodes@) =~= walk_init(old(nodes)@, *old(uf), l0).labels);
        assert(nbrs_of(nodes@) =~~= walk_init(old(nodes)@, *old(uf), l0).nbrs);
    }
    let mut cur = uf.root(0);
    let ghost init = walk_init(old(nodes)@, *old(uf), l0);
    proof {
        uf.lemma_root_idempotent(0);
    }
    let mut k: usize = 1;
    while k < events.len()
        invariant
            *uf == *old(uf),
            nodes_wf(nodes@, *uf),
            events@.len() >= 1,
            events@[0] is VisitRoom,
            init == walk_init(old(nodes)@, *old(uf), events@[0]->VisitRoom_label),
            1 <= k <= events@.len(),
            old(nodes)@.len() + events@.len() + 1 <= uf.capacity(),
            nodes@.len() <= old(nodes)@.len() + k,
            cur < nodes@.len(),
            uf.root_of(cur as int) == cur as int,
            walk_upto(init, *uf, events@, k as int) == Some(
                (WalkState {
                    labels: labels_of(nodes@),
                    nbrs: nbrs_of(nodes@),
                    cur: cur as int,
                }),
            ),
        decreases events@.len() - k,
    {
        let ghost pre = WalkState { labels: labels_of(nodes@), nbrs: nbrs_of(nodes@), cur: cur as int };
        match events[k] {
            Event::VisitRoom { label } => {
                let mut node = nodes[cur];
                node.label = label;
                nodes[cur] = node;
                proof {
                    assert(labels_of(nodes@) =~= pre.labels.update(cur as int, label));
                    assert(nbrs_of(nodes@) =~~= pre.nbrs);
                }
            },
            Event::OpenDoor { door } => {
                if door >= 6 {
                    proof {
                        assert(walk_upto(init, *uf, events@, k as int + 1) is None);
                        lemma_walk_none_mono(init, *uf, events@, k as int + 1, events@.len() as int);
                    }
                    return Err(EngineError::MalformedEvents);
                }
                match nodes[cur].neighbors[door] {
                    Some(next) => {
                        let nx = uf.root(next);
                        proof {
                            uf.lemma_root_idempotent(next as int);
                        }
                        let mut node = nodes[cur];
                        node.neighbors[door] = Some(nx);
                        nodes[cur] = node;
                        proof {
                            assert(labels_of(nodes@) =~= pre.labels);
                            assert(nbrs_of(nodes@) =~~= pre.nbrs.update(
                                cur as int,
                                pre.nbrs[cur as int].update(door as int, Some(nx)),
                            ));
                        }
                        cur = nx;
                    },
                    None => {
                        let next = nodes.len();
                        nodes.push(Node::new(10));
                        let mut node = nodes[cur];
                        node.neighbors[door] = Some(next);
                        nodes[cur] = node;
                        proof {
                            assert(labels_of(nodes@) =~= pre.labels.push(10));
                            assert(nbrs_of(nodes@) =~~= pre.nbrs.update(
                                cur as int,
                                pre.nbrs[cur as int].update(door as int, Some(next)),
                            ).push(Seq::new(6, |d: int| None)));
                        }
                        cur = next;
                    },
                }
            },
            Event::Overwrite { label } => {
                proof {
                    assert(walk_upto(init, *uf, events@, k as int + 1) is None);
                    lemma_walk_none_mono(init, *uf, events@, k as int + 1, events@.len() as int);
                }
                return Err(EngineError::MalformedEvents);
            },
        }
        k = k + 1;
    }
    Ok(())
}

} // verus!

verus! {

/// Ids marked so far and the current class during a probe replay.
pub open spec fn probe_step(
    nodes: Seq<Node>,
    uf: UnionFind,
    m: Set<int>,
    cur: int,
    ev: Event,
) -> Option<(Set<int>, int)> {
    if !(0 <= cur < nodes.len()) {
        None
    } else {
        match ev {
            Event::VisitRoom { label } => Some(
                (
                    if label != nodes[cur].label {
                        m.insert(cur)
                    } else {
                        m
                    },
                    cur,
                ),
            ),
            Event::Overwrite { label } => Some(
                (
                    if label != nodes[cur].label {
                        m.insert(cur)
                    } else {
                        m
                    },
                    cur,
                ),
            ),
            Event::OpenDoor { door } => if door < 6 {
                match nodes[cur].neighbors[door as int] {
                    Some(next) => Some((m, uf.root_of(next as int))),
                    None => None,
                }
            } else {
                None
            },
        }
    }
}

/// Replay a probe's first `k` events under the canonical view,
/// recording every class whose observed label disagrees with its
/// conjectured one.
pub open spec fn probe_replay(nodes: Seq<Node>, uf: UnionFind, events: Seq<Event>, k: int) -> Option<
    (Set<int>, int),
>
    decreases k,
{
    if k <= 0 {
        Some((Set::empty(), uf.root_of(0)))
    } else {
        match probe_replay(nodes, uf, events, k - 1) {
            None => None,
            Some((m, cur)) => probe_step(nodes, uf, m, cur, events[k - 1]),
        }
    }
}

/// Once a probe replay fails it stays failed.
proof fn lemma_probe_none_mono(nodes: Seq<Node>, uf: UnionFind, events: Seq<Event>, j: int, k: int)
    requires
        j <= k,
        probe_replay(nodes, uf, events, j) is None,
    ensures
        probe_replay(nodes, uf, events, k) is None,
    decreases k,
{
    if k > j {
        lemma_probe_none_mono(nodes, uf, events, j, k - 1);
    }
}

/// The set of ids flagged in a boolean table.
pub open spec fn flagged(s: Seq<bool>) -> Set<int> {
    Set::new(|i: int| 0 <= i < s.len() && s[i])
}

/// Replay a probe's event stream and return, in ascending order, the
/// canonical ids observed with a label that disagrees with their
/// conjectured one: the probe's mark set.
pub fn collect_marks(nodes: &Vec<Node>, uf: &UnionFind, events: &Vec<Event>) -> (r: Result<
    Vec<usize>,
    EngineError,
>)
    requires
        nodes_wf(nodes@, *uf),
        nodes@.len() > 0,
    ensures
        r is Ok <==> probe_replay(nodes@, *uf, events@, events@.len() as int) is Some,
        r matches Ok(marks) ==> {
            let m = (probe_replay(nodes@, *uf, events@, events@.len() as int)->0).0;
            &&& forall|j: int|
                0 <= j < marks@.len() ==> m.contains(#[trigger] marks@[j] as int) && marks@[j]
                    < nodes@.len()
            &&& forall|c: int| #[trigger] m.contains(c) ==> 0 <= c < nodes@.len() && marks@.contains(c as usize)
            &&& forall|j1: int, j2: int|
                0 <= j1 < j2 < marks@.len() ==> #[trigger] marks@[j1] < #[trigger] marks@[j2]
        },
        r matches Err(e) ==> e == EngineError::ClosedDoor,
{
    let n = nodes.len();
    let mut marked: Vec<bool> = Vec::new();
    let mut i: usize = 0;
    while i < n
        invariant
            marked@.len() == i,
            i <= n,
            forall|j: int| 0 <= j < i ==> !(#[trigger] marked@[j]),
        decreases n - i,
    {
        marked.push(false);
        i = i + 1;
    }
    proof {
        assert(flagged(marked@) =~= Set::empty());
        uf.lemma_root_idempotent(0);
    }
    let mut cur = uf.root(0);
    let mut k: usize = 0;
    while k < events.len()
        invariant
            nodes_wf(nodes@, *uf),
            nodes@.len() == n > 0,
            k <= events@.len(),
            marked@.len() == n,
            cur < n,
            uf.root_of(cur as int) == cur as int,
            probe_replay(nodes@, *uf, events@, k as int) == Some((flagged(marked@), cur as int)),
        decreases events@.len() - k,
    {
        let ghost pre = marked@;
        match events[k] {
            Event::VisitRoom { label } => {
                if label != nodes[cur].label {
                    marked[cur] = true;
                    proof {
                        assert(flagged(marked@) =~= flagged(pre).insert(cur as int));
                    }
                }
            },
            Event::Overwrite { label } => {
                if label != nodes[cur].label {
                    marked[cur] = true;
                    proof {
                        assert(flagged(marked@) =~= flagged(pre).insert(cur as int));
                    }
                }
            },
            Event::OpenDoor { door } => {
                if door >= 6 {
                    proof {
                        assert(probe_replay(nodes@, *uf, events@, k as int + 1) is None);
                        lemma_probe_none_mono(
                            nodes@,
                            *uf,
                            events@,
                            k as int + 1,
                            events@.len() as int,
                        );
                    }
                    return Err(EngineError::ClosedDoor);
                }
                match nodes[cur].neighbors[door] {
                    Some(next) => {
                        proof {
                            uf.lemma_root_idempotent(next as int);
                        }
                        cur = uf.root(next);
                    },
                    None => {
                        proof {
                            assert(probe_replay(nodes@, *uf, events@, k as int + 1) is None);
                            lemma_probe_none_mono(
                                nodes@,
                                *uf,
                                events@,
                                k as int + 1,
                                events@.len() as int,
                            );
                        }
                        return Err(EngineError::ClosedDoor);
                    },
                }
            },
        }
        k = k + 1;
    }
    let mut marks: Vec<usize> = Vec::new();
    let mut i: usize = 0;
    while i < n
        invariant
            marked@.len() == n,
            i <= n,
            forall|j: int|
                0 <= j < marks@.len() ==> flagged(marked@).contains(
                    #[trigger] marks@[j] as int,
                ) && marks@[j] < i,
            forall|c: int| 0 <= c < i && marked@[c] ==> marks@.contains(c as usize),
            forall|j1: int, j2: int|
                0 <= j1 < j2 < marks@.len() ==> #[trigger] marks@[j1] < #[trigger] marks@[j2],
        decreases n - i,
    {
        if marked[i] {
            let ghost premarks = marks@;
            marks.push(i);
            proof {
                assert forall|c: int| 0 <= c < i && marked@[c] implies marks@.contains(
                    c as usize,
                ) by {
                    assert(premarks.contains(c as usize));
                    let j = choose|j: int| 0 <= j < premarks.len() && premarks[j] == c as usize;
                    assert(marks@[j] == c as usize);
                }
                assert(marks@[marks@.len() - 1] == i as usize);
                assert(marks@.contains(i as usize));
            }
        }
        i = i + 1;
    }
    Ok(marks)
}

} // verus!

verus! {

/// Neighbor slots are group-consistent and canonical: the steady state
/// a closure sweep leaves behind and then preserves.
pub open spec fn sweep_steady(nodes: Seq<Node>, uf: UnionFind) -> bool {
    crate::graph::groups_consistent(nodes, uf) && crate::graph::slots_canonical(nodes, uf)
}

/// All listed ids lie in one canonical class.
pub open spec fn single_class(ids: Seq<usize>, uf: UnionFind) -> bool {
    forall|i: int, j: int|
        0 <= i < ids.len() && 0 <= j < ids.len() ==> uf.same_class(
            #[trigger] ids[i] as int,
            #[trigger] ids[j] as int,
        )
}

/// Linear membership scan.
fn vec_contains(v: &Vec<usize>, x: usize) -> (r: bool)
    ensures
        r == v@.contains(x),
{
    let mut i: usize = 0;
    while i < v.len()
        invariant
            i <= v@.len(),
            forall|j: int| 0 <= j < i ==> v@[j] != x,
        decreases v@.len() - i,
    {
        if v[i] == x {
            proof {
                assert(v@[i as int] == x);
            }
            return true;
        }
        i = i + 1;
    }
    false
}

} // verus!

verus! {

/// Process one group's door during a closure sweep: unite every settled
/// target of the group's members, rewrite every member's slot to the
/// merged representative, and enqueue the target set when it held more
/// than one id.  The contract carries the sweep's termination measures:
/// classes merge only when a set is enqueued, and an enqueue without a
/// merge strictly reduces the count of non-canonical slots.
#[verifier::rlimit(100)]
fn propagate_door(
    nodes: &mut Vec<Node>,
    uf: &mut UnionFind,
    members: &Vec<usize>,
    door: usize,
    queue: &mut std::collections::VecDeque<Vec<usize>>,
)
    requires
        nodes_wf(old(nodes)@, *old(uf)),
        door < 6,
        forall|j: int| 0 <= j < members@.len() ==> (#[trigger] members@[j]) < old(nodes)@.len(),
        forall|j1: int, j2: int| 0 <= j1 < j2 < members@.len() ==> members@[j1] != members@[j2],
        forall|k: int, j: int|
            0 <= k < old(queue)@.len() && 0 <= j < old(queue)@[k]@.len() ==> (
            #[trigger] old(queue)@[k]@[j]) < old(nodes)@.len(),
        forall|k: int| 0 <= k < old(queue)@.len() ==> (#[trigger] old(queue)@[k]@).len() >= 1,
    ensures
        nodes_wf(final(nodes)@, *final(uf)),
        final(nodes)@.len() == old(nodes)@.len(),
        labels_of(final(nodes)@) == labels_of(old(nodes)@),
        final(uf).capacity() == old(uf).capacity(),
        final(uf).num_classes() <= old(uf).num_classes(),
        forall|x: int, y: int|
            0 <= x < old(uf).capacity() && 0 <= y < old(uf).capacity() && old(uf).same_class(x, y)
                ==> final(uf).same_class(x, y),
        forall|i: int, d: int|
            0 <= i < old(nodes)@.len() && 0 <= d < 6 && (#[trigger] old(nodes)@[i].neighbors[d]) is Some
                ==> (final(nodes)@[i].neighbors[d] is Some && final(uf).same_class(
                old(nodes)@[i].neighbors[d]->0 as int,
                final(nodes)@[i].neighbors[d]->0 as int,
            )),
        forall|i: int, d: int|
            0 <= i < old(nodes)@.len() && 0 <= d < 6 && (d != door as int || !members@.contains(
                i as usize,
            )) ==> (#[trigger] final(nodes)@[i].neighbors[d]) == old(nodes)@[i].neighbors[d],
        forall|j1: int, j2: int|
            0 <= j1 < members@.len() && 0 <= j2 < members@.len()
                ==> final(nodes)@[members@[j1] as int].neighbors[door as int] == final(nodes)@[members@[j2] as int].neighbors[door as int],
        final(queue)@.len() == old(queue)@.len() || final(queue)@.len() == old(queue)@.len() + 1,
        forall|k: int| 0 <= k < old(queue)@.len() ==> final(queue)@[k] == old(queue)@[k],
        forall|k: int, j: int|
            0 <= k < final(queue)@.len() && 0 <= j < final(queue)@[k]@.len() ==> (
            #[trigger] final(queue)@[k]@[j]) < old(nodes)@.len(),
        forall|k: int| 0 <= k < final(queue)@.len() ==> (#[trigger] final(queue)@[k]@).len() >= 1,
        final(uf).num_classes() < old(uf).num_classes() ==> final(queue)@.len() > old(queue)@.len(),
        final(uf).num_classes() == old(uf).num_classes() ==> ((forall|x: int|
            0 <= x < old(uf).capacity() ==> #[trigger] final(uf).root_of(x) == old(uf).root_of(x))
            && nc_count(final(nodes)@, *final(uf)) <= nc_count(old(nodes)@, *old(uf)) && (final(queue)@.len() > old(queue)@.len() ==> nc_count(final(nodes)@, *final(uf)) < nc_count(
            old(nodes)@,
            *old(uf),
        ))),
        (single_class(members@, *old(uf)) && (forall|j1: int, j2: int|
            0 <= j1 < members@.len() && 0 <= j2 < members@.len() ==> old(nodes)@[members@[j1] as int].neighbors[door as int] == old(nodes)@[members@[j2] as int].neighbors[door as int]) && (forall|j: int|
            0 <= j < members@.len() && (#[trigger] old(nodes)@[members@[j] as int].neighbors[door as int]) is Some ==> old(uf).root_of(
                old(nodes)@[members@[j] as int].neighbors[door as int]->0 as int,
            ) == old(nodes)@[members@[j] as int].neighbors[door as int]->0 as int)) ==> (final(nodes)@ == old(nodes)@ && (forall|x: int|
            0 <= x < old(uf).capacity() ==> #[trigger] final(uf).root_of(x) == old(uf).root_of(x))
            && final(queue)@ == old(queue)@),
{
    let n = nodes.len();
    let glen = members.len();
    let ghost nodes0 = nodes@;
    let ghost uf0 = *uf;
    let ghost q0 = queue@;
    let ghost calm = single_class(members@, uf0) && (forall|j1: int, j2: int|
        0 <= j1 < members@.len() && 0 <= j2 < members@.len()
            ==> nodes0[members@[j1] as int].neighbors[door as int]
            == nodes0[members@[j2] as int].neighbors[door as int]) && (forall|j: int|
        0 <= j < members@.len() && (#[trigger] nodes0[members@[j] as int].neighbors[door as int]) is Some
            ==> uf0.root_of(nodes0[members@[j] as int].neighbors[door as int]->0 as int)
            == nodes0[members@[j] as int].neighbors[door as int]->0 as int);
    let mut next_vec: Vec<usize> = Vec::new();
    let mut m: usize = 0;
    while m < glen
        invariant
            nodes@ == nodes0,
            *uf == uf0,
            nodes_wf(nodes0, uf0),
            n == nodes0.len(),
            glen == members@.len(),
            door < 6,
            m <= glen,
            forall|j: int| 0 <= j < members@.len() ==> (#[trigger] members@[j]) < n,
            forall|j: int| 0 <= j < next_vec@.len() ==> (#[trigger] next_vec@[j]) < n,
            forall|j1: int, j2: int|
                0 <= j1 < j2 < next_vec@.len() ==> next_vec@[j1] != next_vec@[j2],
            forall|j: int|
                0 <= j < next_vec@.len() ==> exists|m2: int|
                    0 <= m2 < glen && nodes0[members@[m2] as int].neighbors[door as int] == Some(
                        #[trigger] next_vec@[j],
                    ),
            forall|m2: int|
                0 <= m2 < m && (#[trigger] nodes0[members@[m2] as int].neighbors[door as int]) is Some
                    ==> next_vec@.contains(nodes0[members@[m2] as int].neighbors[door as int]->0),
            calm == (single_class(members@, uf0) && (forall|j1: int, j2: int|
                0 <= j1 < members@.len() && 0 <= j2 < members@.len()
                    ==> nodes0[members@[j1] as int].neighbors[door as int]
                    == nodes0[members@[j2] as int].neighbors[door as int]) && (forall|j2: int|
                0 <= j2 < members@.len() && (#[trigger] nodes0[members@[j2] as int].neighbors[door as int]) is Some
                    ==> uf0.root_of(nodes0[members@[j2] as int].neighbors[door as int]->0 as int)
                    == nodes0[members@[j2] as int].neighbors[door as int]->0 as int)),
            calm ==> next_vec@.len() <= 1,
        decreases glen - m,
    {
        let id = members[m];
        match nodes[id].neighbors[door] {
            Some(v) => {
                if !vec_contains(&next_vec, v) {
                    let ghost pre = next_vec@;
                    next_vec.push(v);
                    proof {
                        assert(next_vec@[next_vec@.len() - 1] == v);
                        assert(next_vec@.contains(v));
                        if calm && pre.len() == 1 {
                            let w = choose|m3: int|
                                0 <= m3 < glen
                                    && nodes0[members@[m3] as int].neighbors[door as int] == Some(
                                    pre[0],
                                );
                            assert(nodes0[members@[w] as int].neighbors[door as int]
                                == nodes0[members@[m as int] as int].neighbors[door as int]);
                            assert(pre.contains(v));
                            assert(false);
                        }
                        assert forall|m3: int|
                            0 <= m3 < m && (#[trigger] nodes0[members@[m3] as int].neighbors[door as int]) is Some implies next_vec@.contains(
                            nodes0[members@[m3] as int].neighbors[door as int]->0,
                        ) by {
                            let w = nodes0[members@[m3] as int].neighbors[door as int]->0;
                            assert(pre.contains(w));
                            let k = choose|k: int| 0 <= k < pre.len() && pre[k] == w;
                            assert(next_vec@[k] == w);
                        }
                    }
                }
            },
            None => {},
        }
        m = m + 1;
    }
    if next_vec.len() == 0 {
        proof {
            assert forall|j1: int, j2: int|
                0 <= j1 < members@.len() && 0 <= j2 < members@.len() implies nodes@[members@[j1] as int].neighbors[door as int]
                == nodes@[members@[j2] as int].neighbors[door as int] by {
                if nodes0[members@[j1] as int].neighbors[door as int] is Some {
                    assert(next_vec@.contains(
                        nodes0[members@[j1] as int].neighbors[door as int]->0,
                    ));
                }
                if nodes0[members@[j2] as int].neighbors[door as int] is Some {
                    assert(next_vec@.contains(
                        nodes0[members@[j2] as int].neighbors[door as int]->0,
                    ));
                }
            }
        }
        return ;
    }
    let next_root = uf.root(next_vec[0]);
    proof {
        uf.lemma_root_idempotent(next_vec@[0] as int);
        if calm {
            let w0 = choose|m3: int|
                0 <= m3 < glen && nodes0[members@[m3] as int].neighbors[door as int] == Some(
                    next_vec@[0],
                );
            assert(uf0.root_of(next_vec@[0] as int) == next_vec@[0] as int);
            assert(next_root == next_vec@[0]);
        }
    }
    let ghost mut merged = false;
    let mut j: usize = 0;
    while j < next_vec.len()
        invariant
            nodes@ == nodes0,
            nodes_wf(nodes@, *uf),
            n == nodes0.len(),
            glen == members@.len(),
            door < 6,
            j <= next_vec@.len(),
            next_vec@.len() >= 1,
            next_root < n,
            uf.capacity() == uf0.capacity(),
            uf.num_classes() <= uf0.num_classes(),
            uf.same_class(next_root as int, next_vec@[0] as int),
            forall|j2: int| 0 <= j2 < next_vec@.len() ==> (#[trigger] next_vec@[j2]) < n,
            forall|j1: int, j2: int|
                0 <= j1 < j2 < next_vec@.len() ==> next_vec@[j1] != next_vec@[j2],
            forall|j2: int|
                0 <= j2 < j ==> uf.same_class(#[trigger] next_vec@[j2] as int, next_root as int),
            forall|x: int, y: int|
                0 <= x < uf0.capacity() && 0 <= y < uf0.capacity() && uf0.same_class(x, y)
                    ==> uf.same_class(x, y),
            merged ==> uf.num_classes() < uf0.num_classes(),
            merged ==> next_vec@.len() > 1,
            forall|j2: int|
                0 <= j2 < next_vec@.len() ==> exists|m3: int|
                    0 <= m3 < glen && nodes0[members@[m3] as int].neighbors[door as int] == Some(
                        #[trigger] next_vec@[j2],
                    ),
            calm ==> next_vec@.len() == 1,
            !merged ==> forall|x: int|
                0 <= x < uf0.capacity() ==> #[trigger] uf.root_of(x) == uf0.root_of(x),
            calm == (single_class(members@, uf0) && (forall|j1: int, j2: int|
                0 <= j1 < members@.len() && 0 <= j2 < members@.len()
                    ==> nodes0[members@[j1] as int].neighbors[door as int]
                    == nodes0[members@[j2] as int].neighbors[door as int]) && (forall|j2: int|
                0 <= j2 < members@.len() && (#[trigger] nodes0[members@[j2] as int].neighbors[door as int]) is Some
                    ==> uf0.root_of(nodes0[members@[j2] as int].neighbors[door as int]->0 as int)
                    == nodes0[members@[j2] as int].neighbors[door as int]->0 as int)),
            calm ==> next_root == next_vec@[0],
        decreases next_vec@.len() - j,
    {
        let b = next_vec[j];
        let ghost pre = *uf;
        uf.unite(b, next_root);
        proof {
            crate::graph::lemma_wf_after_unite(nodes@, pre, *uf, b as int, next_root as int);
            if !pre.same_class(b as int, next_root as int) {
                merged = true;
            } else {
                assert forall|x: int|
                    0 <= x < uf0.capacity() implies #[trigger] uf.root_of(x) == pre.root_of(x) by {}
            }
            if calm {
                assert(b == next_vec@[0]);
                assert(pre.same_class(b as int, next_root as int));
                assert forall|x: int|
                    0 <= x < uf0.capacity() implies #[trigger] uf.root_of(x) == uf0.root_of(x) by {
                    assert(uf.root_of(x) == pre.root_of(x));
                }
            }
        }
        j = j + 1;
    }
    let rr = uf.root(next_root);
    proof {
        uf.lemma_root_idempotent(next_root as int);
        if !merged {
            uf0.lemma_equal_roots_equal_classes(*uf);
            crate::graph::lemma_nc_congruent(nodes0, uf0, *uf);
        }
    }
    let ghost uf_w = *uf;
    let ghost mut flipped = false;
    let mut m2: usize = 0;
    while m2 < glen
        invariant
            *uf == uf_w,
            nodes_wf(nodes@, *uf),
            n == nodes@.len(),
            n == nodes0.len(),
            glen == members@.len(),
            door < 6,
            m2 <= glen,
            rr < n,
            uf.root_of(rr as int) == rr as int,
            uf.same_class(rr as int, next_root as int),
            next_vec@.len() >= 1,
            forall|j2: int| 0 <= j2 < next_vec@.len() ==> (#[trigger] next_vec@[j2]) < n,
            forall|j2: int|
                0 <= j2 < next_vec@.len() ==> uf.same_class(
                    #[trigger] next_vec@[j2] as int,
                    next_root as int,
                ),
            forall|j: int| 0 <= j < members@.len() ==> (#[trigger] members@[j]) < n,
            forall|j1: int, j2: int| 0 <= j1 < j2 < members@.len() ==> members@[j1] != members@[j2],
            forall|m3: int|
                m2 <= m3 < glen ==> nodes@[#[trigger] members@[m3] as int] == nodes0[members@[m3] as int],
            forall|m3: int|
                0 <= m3 < m2 ==> nodes@[#[trigger] members@[m3] as int].neighbors[door as int]
                    == Some(rr),
            forall|m3: int, d: int|
                0 <= m3 < m2 && 0 <= d < 6 && d != door as int
                    ==> #[trigger] nodes@[members@[m3] as int].neighbors[d] == nodes0[members@[m3] as int].neighbors[d],
            forall|m3: int|
                0 <= m3 < m2 ==> nodes@[#[trigger] members@[m3] as int].label == nodes0[members@[m3] as int].label,
            forall|i: int|
                0 <= i < n && !members@.contains(i as usize) ==> nodes@[i] == nodes0[i],
            labels_of(nodes@) == labels_of(nodes0),
            forall|m3: int|
                0 <= m3 < m2 && (#[trigger] nodes0[members@[m3] as int].neighbors[door as int]) is Some
                    ==> next_vec@.contains(nodes0[members@[m3] as int].neighbors[door as int]->0),
            forall|m3: int|
                m2 <= m3 < glen && (#[trigger] nodes0[members@[m3] as int].neighbors[door as int]) is Some
                    ==> next_vec@.contains(nodes0[members@[m3] as int].neighbors[door as int]->0),
            forall|j2: int|
                0 <= j2 < next_vec@.len() ==> exists|m3: int|
                    0 <= m3 < glen && nodes0[members@[m3] as int].neighbors[door as int] == Some(
                        #[trigger] next_vec@[j2],
                    ),
            merged ==> next_vec@.len() > 1,
            !merged ==> nc_count(nodes@, *uf) <= nc_count(nodes0, *uf),
            !merged && flipped ==> nc_count(nodes@, *uf) < nc_count(nodes0, *uf),
            !merged && !flipped ==> forall|m3: int|
                0 <= m3 < m2 ==> crate::graph::slot_nc(
                    nodes0[#[trigger] members@[m3] as int],
                    *uf,
                    door as int,
                ) == 0,
            calm == (single_class(members@, uf0) && (forall|j1: int, j2: int|
                0 <= j1 < members@.len() && 0 <= j2 < members@.len()
                    ==> nodes0[members@[j1] as int].neighbors[door as int]
                    == nodes0[members@[j2] as int].neighbors[door as int]) && (forall|j2: int|
                0 <= j2 < members@.len() && (#[trigger] nodes0[members@[j2] as int].neighbors[door as int]) is Some
                    ==> uf0.root_of(nodes0[members@[j2] as int].neighbors[door as int]->0 as int)
                    == nodes0[members@[j2] as int].neighbors[door as int]->0 as int)),
            calm ==> nodes@ == nodes0,
            calm ==> (next_vec@.len() == 1 && rr == next_vec@[0]),
        decreases glen - m2,
    {
        let id = members[m2];
        let ghost pre_nodes = nodes@;
        let mut node = nodes[id];
        let ghost old_node = node;
        node.neighbors[door] = Some(rr);
        nodes[id] = node;
        proof {
            assert(labels_of(nodes@) =~= labels_of(pre_nodes));
            crate::graph::lemma_nc_update(pre_nodes, id as int, node, *uf);
            assert(crate::graph::slot_nc(node, *uf, door as int) == 0);
            assert forall|d: int| 0 <= d < 6 && d != door as int implies node.neighbors[d]
                == old_node.neighbors[d] by {}
            assert(crate::graph::nc_node(node, *uf) == crate::graph::nc_node(old_node, *uf)
                - crate::graph::slot_nc(old_node, *uf, door as int));
            if !merged && crate::graph::slot_nc(old_node, *uf, door as int) == 1 {
                flipped = true;
            }
            if calm {
                // the slot already held the canonical target: the write
                // changes nothing
                if nodes0[id as int].neighbors[door as int] is Some {
                    assert(next_vec@.contains(nodes0[id as int].neighbors[door as int]->0));
                    let k = choose|k: int|
                        0 <= k < next_vec@.len() && next_vec@[k] == nodes0[id as int].neighbors[door as int]->0;
                    assert(next_vec@[k] == next_vec@[0]);
                    assert(node.neighbors =~= old_node.neighbors);
                    assert(node == old_node);
                    assert(nodes@ =~= pre_nodes);
                } else {
                    // some member is settled (the target list is nonempty),
                    // so by slot equality this member is settled too
                    assert(exists|m3: int|
                        0 <= m3 < glen && nodes0[members@[m3] as int].neighbors[door as int]
                            == Some(next_vec@[0]));
                    let w = choose|m3: int|
                        0 <= m3 < glen && nodes0[members@[m3] as int].neighbors[door as int]
                            == Some(next_vec@[0]);
                    assert(nodes0[members@[w] as int].neighbors[door as int] is Some);
                    assert(nodes0[members@[m2 as int] as int].neighbors[door as int]
                        == nodes0[members@[w] as int].neighbors[door as int]);
                    assert(false);
                }
            }
        }
        m2 = m2 + 1;
    }
    proof {
        if !merged && next_vec@.len() > 1 && !flipped {
            // every collected target would be canonical and in one class,
            // forcing two distinct ids to coincide
            let a = next_vec@[0] as int;
            let b = next_vec@[1] as int;
            let wa = choose|m3: int|
                0 <= m3 < glen && nodes0[members@[m3] as int].neighbors[door as int] == Some(
                    next_vec@[0],
                );
            let wb = choose|m3: int|
                0 <= m3 < glen && nodes0[members@[m3] as int].neighbors[door as int] == Some(
                    next_vec@[1],
                );
            assert(crate::graph::slot_nc(nodes0[members@[wa] as int], *uf, door as int) == 0);
            assert(crate::graph::slot_nc(nodes0[members@[wb] as int], *uf, door as int) == 0);
            assert(uf.root_of(a) == a);
            assert(uf.root_of(b) == b);
            assert(uf.same_class(a, next_root as int));
            assert(uf.same_class(b, next_root as int));
            assert(false);
        }
    }
    let enqueue = next_vec.len() > 1;
    if enqueue {
        queue.push_back(next_vec);
    }
    proof {
        // settled slots stay settled inside their (possibly merged) class
        assert forall|i: int, d: int|
            0 <= i < n && 0 <= d < 6 && (#[trigger] nodes0[i].neighbors[d]) is Some implies (
        nodes@[i].neighbors[d] is Some && uf.same_class(
            nodes0[i].neighbors[d]->0 as int,
            nodes@[i].neighbors[d]->0 as int,
        )) by {
            if members@.contains(i as usize) && d == door as int {
                let k = choose|k: int| 0 <= k < members@.len() && members@[k] == i as usize;
                assert(nodes@[i].neighbors[d] == Some(rr));
                let v = nodes0[i].neighbors[d]->0;
                assert(uf.same_class(v as int, next_root as int));
                assert(uf.same_class(rr as int, next_root as int));
            } else {
                assert(nodes@[i].neighbors[d] == nodes0[i].neighbors[d]);
            }
        }
        // frame for untouched slots
        assert forall|i: int, d: int|
            0 <= i < n && 0 <= d < 6 && (d != door as int || !members@.contains(i as usize))
            implies (#[trigger] nodes@[i].neighbors[d]) == nodes0[i].neighbors[d] by {
            if members@.contains(i as usize) {
                let k = choose|k: int| 0 <= k < members@.len() && members@[k] == i as usize;
                assert(nodes@[i].neighbors[d] == nodes0[i].neighbors[d]);
            }
        }
        // group uniformity at this door
        assert forall|j1: int, j2: int|
            0 <= j1 < members@.len() && 0 <= j2 < members@.len() implies nodes@[members@[j1] as int].neighbors[door as int]
            == nodes@[members@[j2] as int].neighbors[door as int] by {
            assert(nodes@[members@[j1] as int].neighbors[door as int] == Some(rr));
        }
        // the measure disjunction
        if uf.num_classes() == uf0.num_classes() {
            assert(!merged);
        }
        if calm {
            assert(!enqueue);
            assert(queue@ == q0);
            assert(nodes@ == nodes0);
        }
    }
}

} // verus!

verus! {

/// The closure sweep: unite a probe's mark set, then propagate
/// equivalence forward through every group's door slots until the FIFO
/// of discovered mark sets drains.  The sweep always terminates and
/// leaves every class agreeing on every door; classes only ever merge,
/// settled slots only follow their class, and labels are untouched.
pub fn closure_sweep(nodes: &mut Vec<Node>, uf: &mut UnionFind, mark: Vec<usize>)
    requires
        nodes_wf(old(nodes)@, *old(uf)),
        mark@.len() >= 1,
        forall|j: int| 0 <= j < mark@.len() ==> (#[trigger] mark@[j]) < old(nodes)@.len(),
    ensures
        nodes_wf(final(nodes)@, *final(uf)),
        final(nodes)@.len() == old(nodes)@.len(),
        labels_of(final(nodes)@) == labels_of(old(nodes)@),
        final(uf).capacity() == old(uf).capacity(),
        final(uf).num_classes() <= old(uf).num_classes(),
        forall|i: int, j: int|
            0 <= i < mark@.len() && 0 <= j < mark@.len() ==> final(uf).same_class(
                #[trigger] mark@[i] as int,
                #[trigger] mark@[j] as int,
            ),
        forall|x: int, y: int|
            0 <= x < old(uf).capacity() && 0 <= y < old(uf).capacity() && old(uf).same_class(x, y)
                ==> final(uf).same_class(x, y),
        (mark@.len() >= 2 && !old(uf).same_class(mark@[0] as int, mark@[1] as int)) ==> final(uf).num_classes() < old(uf).num_classes(),
        forall|i: int, d: int|
            0 <= i < old(nodes)@.len() && 0 <= d < 6 && (#[trigger] old(nodes)@[i].neighbors[d]) is Some
                ==> (final(nodes)@[i].neighbors[d] is Some && final(uf).same_class(
                old(nodes)@[i].neighbors[d]->0 as int,
                final(nodes)@[i].neighbors[d]->0 as int,
            )),
        crate::graph::groups_consistent(final(nodes)@, *final(uf)),
        (sweep_steady(old(nodes)@, *old(uf)) && single_class(mark@, *old(uf))) ==> (final(nodes)@
            == old(nodes)@ && (forall|x: int|
            0 <= x < old(uf).capacity() ==> #[trigger] final(uf).root_of(x) == old(uf).root_of(x))),
{
    let n = nodes.len();
    let ghost mark0 = mark@;
    let ghost p6 = sweep_steady(old(nodes)@, *old(uf)) && single_class(mark0, *old(uf));
    let ghost strictpre = mark0.len() >= 2 && !old(uf).same_class(mark0[0] as int, mark0[1] as int);
    let mut queue: std::collections::VecDeque<Vec<usize>> = std::collections::VecDeque::new();
    queue.push_back(mark);
    let ghost mut marks_united = false;
    proof {
        crate::graph::lemma_nc_nonneg(nodes@, *uf);
    }
    while queue.len() > 0
        invariant
            n == old(nodes)@.len(),
            nodes@.len() == n,
            nodes_wf(nodes@, *uf),
            nodes_wf(old(nodes)@, *old(uf)),
            labels_of(nodes@) == labels_of(old(nodes)@),
            uf.capacity() == old(uf).capacity(),
            uf.num_classes() <= old(uf).num_classes(),
            0 <= nc_count(nodes@, *uf),
            mark0.len() >= 1,
            mark0 == mark@,
            forall|j: int| 0 <= j < mark0.len() ==> (#[trigger] mark0[j]) < n,
            forall|k: int, j: int|
                0 <= k < queue@.len() && 0 <= j < queue@[k]@.len() ==> (#[trigger] queue@[k]@[j])
                    < n,
            forall|k: int| 0 <= k < queue@.len() ==> (#[trigger] queue@[k]@).len() >= 1,
            !marks_united ==> queue@.len() == 1 && queue@[0]@ == mark0 && nodes@ == old(nodes)@
                && *uf == *old(uf),
            marks_united ==> forall|i: int, j: int|
                0 <= i < mark0.len() && 0 <= j < mark0.len() ==> uf.same_class(
                    #[trigger] mark0[i] as int,
                    #[trigger] mark0[j] as int,
                ),
            strictpre == (mark0.len() >= 2 && !old(uf).same_class(
                mark0[0] as int,
                mark0[1] as int,
            )),
            (strictpre && marks_united) ==> uf.num_classes() < old(uf).num_classes(),
            forall|x: int, y: int|
                0 <= x < old(uf).capacity() && 0 <= y < old(uf).capacity() && old(uf).same_class(
                    x,
                    y,
                ) ==> uf.same_class(x, y),
            forall|i: int, d: int|
                0 <= i < n && 0 <= d < 6 && (#[trigger] old(nodes)@[i].neighbors[d]) is Some ==> (
                nodes@[i].neighbors[d] is Some && uf.same_class(
                    old(nodes)@[i].neighbors[d]->0 as int,
                    nodes@[i].neighbors[d]->0 as int,
                )),
            queue@.len() == 0 ==> crate::graph::groups_consistent(nodes@, *uf),
            p6 == (sweep_steady(old(nodes)@, *old(uf)) && single_class(mark0, *old(uf))),
            p6 ==> nodes@ == old(nodes)@,
            p6 ==> forall|x: int|
                0 <= x < uf.capacity() ==> #[trigger] uf.root_of(x) == old(uf).root_of(x),
            p6 ==> forall|k: int|
                0 <= k < queue@.len() ==> single_class(#[trigger] queue@[k]@, *uf),
        decreases uf.num_classes(), nc_count(nodes@, *uf), queue@.len(),
    {
        let ghost pop_uf = *uf;
        let ghost pop_nodes = nodes@;
        let ghost pop_qlen = queue@.len();
        let ghost pop_nc = nc_count(pop_nodes, pop_uf);
        let ghost pre_q = queue@;
        let s = match queue.pop_front() {
            Some(s) => s,
            None => {
                proof {
                    assert(false);
                }
                vstd::pervasive::unreached()
            },
        };
        let ghost q_base = queue@;
        let ghost popped_mark0 = !marks_united;
        let rep = s[0];
        let ghost mut merged_mark = false;
        let mut idx: usize = 0;
        while idx < s.len()
            invariant
                n == old(nodes)@.len(),
                nodes@.len() == n,
                nodes@ == pop_nodes,
                nodes_wf(nodes@, *uf),
                nodes_wf(old(nodes)@, *old(uf)),
                labels_of(nodes@) == labels_of(old(nodes)@),
                uf.capacity() == old(uf).capacity(),
                uf.num_classes() <= pop_uf.num_classes(),
                pop_uf.num_classes() <= old(uf).num_classes(),
                idx <= s@.len(),
                s@.len() >= 1,
                rep == s@[0],
                forall|j: int| 0 <= j < s@.len() ==> (#[trigger] s@[j]) < n,
                forall|j: int|
                    0 <= j < idx ==> uf.same_class(#[trigger] s@[j] as int, rep as int),
                merged_mark ==> uf.num_classes() < pop_uf.num_classes(),
                idx <= 1 ==> !merged_mark,
                !merged_mark ==> forall|x: int|
                    0 <= x < uf.capacity() ==> #[trigger] uf.root_of(x) == pop_uf.root_of(x),
                mark0.len() >= 1,
                mark0 == mark@,
                forall|j: int| 0 <= j < mark0.len() ==> (#[trigger] mark0[j]) < n,
                forall|k: int, j: int|
                    0 <= k < queue@.len() && 0 <= j < queue@[k]@.len() ==> (
                    #[trigger] queue@[k]@[j]) < n,
                forall|k: int| 0 <= k < queue@.len() ==> (#[trigger] queue@[k]@).len() >= 1,
                queue@ == q_base,
                popped_mark0 == !marks_united,
                !marks_united ==> s@ == mark0 && queue@.len() == 0 && pop_nodes == old(nodes)@
                    && pop_uf == *old(uf),
                marks_united ==> forall|i: int, j: int|
                    0 <= i < mark0.len() && 0 <= j < mark0.len() ==> uf.same_class(
                        #[trigger] mark0[i] as int,
                        #[trigger] mark0[j] as int,
                    ),
                strictpre == (mark0.len() >= 2 && !old(uf).same_class(
                    mark0[0] as int,
                    mark0[1] as int,
                )),
                (strictpre && marks_united) ==> uf.num_classes() < old(uf).num_classes(),
                (strictpre && popped_mark0 && idx >= 2) ==> uf.num_classes() < old(uf).num_classes(),
                forall|x: int, y: int|
                    0 <= x < old(uf).capacity() && 0 <= y < old(uf).capacity() && old(uf).same_class(x, y) ==> uf.same_class(x, y),
                forall|i: int, d: int|
                    0 <= i < n && 0 <= d < 6 && (#[trigger] old(nodes)@[i].neighbors[d]) is Some
                        ==> (nodes@[i].neighbors[d] is Some && uf.same_class(
                        old(nodes)@[i].neighbors[d]->0 as int,
                        nodes@[i].neighbors[d]->0 as int,
                    )),
                p6 == (sweep_steady(old(nodes)@, *old(uf)) && single_class(mark0, *old(uf))),
                p6 ==> nodes@ == old(nodes)@,
                p6 ==> forall|x: int|
                    0 <= x < uf.capacity() ==> #[trigger] uf.root_of(x) == old(uf).root_of(x),
                p6 ==> forall|k: int|
                    0 <= k < queue@.len() ==> single_class(#[trigger] queue@[k]@, *uf),
                p6 ==> single_class(s@, *uf),
            decreases s@.len() - idx,
        {
            let a = s[idx];
            let ghost pre_uf = *uf;
            uf.unite(a, rep);
            proof {
                crate::graph::lemma_wf_after_unite(nodes@, pre_uf, *uf, a as int, rep as int);
                if !pre_uf.same_class(a as int, rep as int) {
                    merged_mark = true;
                } else {
                    assert forall|x: int|
                        0 <= x < uf.capacity() implies #[trigger] uf.root_of(x) == pre_uf.root_of(
                        x,
                    ) by {}
                }
                if strictpre && popped_mark0 && idx == 1 {
                    assert(s@ == mark0);
                    assert(a == mark0[1] && rep == mark0[0]);
                    assert(pre_uf.root_of(mark0[0] as int) == pop_uf.root_of(mark0[0] as int));
                    assert(pre_uf.root_of(mark0[1] as int) == pop_uf.root_of(mark0[1] as int));
                    assert(pop_uf == *old(uf));
                    assert(!pre_uf.same_class(a as int, rep as int));
                    assert(merged_mark);
                    pop_uf.lemma_equal_roots_equal_classes(pre_uf);
                    assert(uf.num_classes() < old(uf).num_classes());
                }
                if p6 {
                    assert(pre_uf.same_class(a as int, rep as int));
                    assert forall|x: int|
                        0 <= x < uf.capacity() implies #[trigger] uf.root_of(x) == old(uf).root_of(x) by {
                        assert(uf.root_of(x) == pre_uf.root_of(x));
                    }
                }
            }
            idx = idx + 1;
        }
        proof {
            if !marks_united {
                marks_united = true;
                assert forall|i: int, j: int|
                    0 <= i < mark0.len() && 0 <= j < mark0.len() implies uf.same_class(
                    #[trigger] mark0[i] as int,
                    #[trigger] mark0[j] as int,
                ) by {
                    assert(uf.same_class(mark0[i] as int, rep as int));
                    assert(uf.same_class(mark0[j] as int, rep as int));
                }
            }
            if !merged_mark {
                pop_uf.lemma_equal_roots_equal_classes(*uf);
                crate::graph::lemma_nc_congruent(pop_nodes, pop_uf, *uf);
            }
        }
        // rebuild the groups: ids keyed by their current representative
        let mut groups: Vec<Vec<usize>> = Vec::new();
        let mut gi: usize = 0;
        while gi < n
            invariant
                groups@.len() == gi,
                gi <= n,
                forall|g: int| 0 <= g < gi ==> (#[trigger] groups@[g]@).len() == 0,
            decreases n - gi,
        {
            groups.push(Vec::new());
            gi = gi + 1;
        }
        let mut i: usize = 0;
        while i < n
            invariant
                n == nodes@.len(),
                nodes_wf(nodes@, *uf),
                groups@.len() == n,
                i <= n,
                forall|g: int, j: int|
                    0 <= g < n && 0 <= j < groups@[g]@.len() ==> (#[trigger] groups@[g]@[j]) < i
                        && uf.root_of(groups@[g]@[j] as int) == g,
                forall|g: int, j1: int, j2: int|
                    0 <= g < n && 0 <= j1 < j2 < groups@[g]@.len() ==> groups@[g]@[j1]
                        != groups@[g]@[j2],
                forall|i2: int|
                    0 <= i2 < i ==> groups@[uf.root_of(i2)]@.contains(#[trigger] (i2 as usize)),
            decreases n - i,
        {
            let ghost pre_groups = groups@;
            let r0 = uf.root(i);
            let mut gslot: Vec<usize> = Vec::new();
            groups.set_and_swap(r0, &mut gslot);
            let ghost pre_slot = gslot@;
            gslot.push(i);
            groups.set_and_swap(r0, &mut gslot);
            proof {
                assert(pre_slot == pre_groups[r0 as int]@);
                assert(groups@[r0 as int]@ == pre_slot.push(i as usize));
                assert(groups@[r0 as int]@[groups@[r0 as int]@.len() - 1] == i as usize);
                assert(groups@[r0 as int]@.contains(i as usize));
                assert forall|i2: int|
                    0 <= i2 < i + 1 implies groups@[uf.root_of(i2)]@.contains(
                    #[trigger] (i2 as usize),
                ) by {
                    if i2 < i {
                        let g2 = uf.root_of(i2);
                        assert(pre_groups[g2]@.contains(i2 as usize));
                        if g2 == r0 as int {
                            let k = choose|k: int|
                                0 <= k < pre_slot.len() && pre_slot[k] == i2 as usize;
                            assert(groups@[g2]@[k] == i2 as usize);
                        } else {
                            assert(groups@[g2] == pre_groups[g2]);
                        }
                    }
                }
            }
            i = i + 1;
        }
        let ghost uf_rebuild = *uf;
        let ghost nc_rebuild = nc_count(nodes@, *uf);
        let ghost classes_rebuild = uf.num_classes();
        // propagate group by group, door by door
        let mut gi: usize = 0;
        while gi < n
            invariant
                n == old(nodes)@.len(),
                nodes@.len() == n,
                nodes_wf(nodes@, *uf),
                nodes_wf(old(nodes)@, *old(uf)),
                labels_of(nodes@) == labels_of(old(nodes)@),
                uf.capacity() == old(uf).capacity(),
                gi <= n,
                groups@.len() == n,
                forall|g: int, j: int|
                    0 <= g < n && 0 <= j < groups@[g]@.len() ==> (#[trigger] groups@[g]@[j]) < n
                        && uf_rebuild.root_of(groups@[g]@[j] as int) == g,
                forall|g: int, j1: int, j2: int|
                    0 <= g < n && 0 <= j1 < j2 < groups@[g]@.len() ==> groups@[g]@[j1]
                        != groups@[g]@[j2],
                forall|i2: int|
                    0 <= i2 < n ==> groups@[uf_rebuild.root_of(i2)]@.contains(
                        #[trigger] (i2 as usize),
                    ),
                forall|k: int, j: int|
                    0 <= k < queue@.len() && 0 <= j < queue@[k]@.len() ==> (
                    #[trigger] queue@[k]@[j]) < n,
                forall|k: int| 0 <= k < queue@.len() ==> (#[trigger] queue@[k]@).len() >= 1,
                queue@.len() >= q_base.len(),
                mark0.len() >= 1,
                mark0 == mark@,
                forall|j: int| 0 <= j < mark0.len() ==> (#[trigger] mark0[j]) < n,
                marks_united,
                forall|i2: int, j: int|
                    0 <= i2 < mark0.len() && 0 <= j < mark0.len() ==> uf.same_class(
                        #[trigger] mark0[i2] as int,
                        #[trigger] mark0[j] as int,
                    ),
                strictpre == (mark0.len() >= 2 && !old(uf).same_class(
                    mark0[0] as int,
                    mark0[1] as int,
                )),
                (strictpre && marks_united) ==> uf.num_classes() < old(uf).num_classes(),
                forall|x: int, y: int|
                    0 <= x < old(uf).capacity() && 0 <= y < old(uf).capacity() && old(uf).same_class(x, y) ==> uf.same_class(x, y),
                forall|i2: int, d: int|
                    0 <= i2 < n && 0 <= d < 6 && (#[trigger] old(nodes)@[i2].neighbors[d]) is Some
                        ==> (nodes@[i2].neighbors[d] is Some && uf.same_class(
                        old(nodes)@[i2].neighbors[d]->0 as int,
                        nodes@[i2].neighbors[d]->0 as int,
                    )),
                // measures
                uf.num_classes() <= classes_rebuild,
                classes_rebuild <= pop_uf.num_classes(),
                pop_uf.num_classes() <= old(uf).num_classes(),
                merged_mark ==> classes_rebuild < pop_uf.num_classes(),
                !merged_mark ==> classes_rebuild == pop_uf.num_classes(),
                nc_rebuild == nc_count(pop_nodes, uf_rebuild),
                !merged_mark ==> nc_rebuild == nc_count(pop_nodes, pop_uf),
                uf.num_classes() < classes_rebuild ==> queue@.len() > q_base.len(),
                uf.num_classes() == classes_rebuild ==> ((forall|x: int|
                    0 <= x < uf.capacity() ==> #[trigger] uf.root_of(x) == uf_rebuild.root_of(x))
                    && nc_count(nodes@, *uf) <= nc_rebuild && (queue@.len() > q_base.len()
                    ==> nc_count(nodes@, *uf) < nc_rebuild)),
                // uniformity of processed groups and doors
                forall|g: int, j1: int, j2: int, d: int|
                    #![trigger groups@[g]@[j1], groups@[g]@[j2], nodes@[groups@[g]@[j1] as int].neighbors[d]]
                    0 <= g < gi && 0 <= j1 < groups@[g]@.len() && 0 <= j2 < groups@[g]@.len() && 0
                        <= d < 6 ==> nodes@[groups@[g]@[j1] as int].neighbors[d]
                        == nodes@[groups@[g]@[j2] as int].neighbors[d],
                p6 == (sweep_steady(old(nodes)@, *old(uf)) && single_class(mark0, *old(uf))),
                p6 ==> nodes@ == old(nodes)@,
                p6 ==> forall|x: int|
                    0 <= x < uf.capacity() ==> #[trigger] uf.root_of(x) == old(uf).root_of(x),
                p6 ==> forall|k: int|
                    0 <= k < queue@.len() ==> single_class(#[trigger] queue@[k]@, *uf),
                p6 ==> queue@ == q_base,
            decreases n - gi,
        {
            let mut door: usize = 0;
            while door < 6
                invariant
                    n == old(nodes)@.len(),
                    nodes@.len() == n,
                    nodes_wf(nodes@, *uf),
                    nodes_wf(old(nodes)@, *old(uf)),
                    labels_of(nodes@) == labels_of(old(nodes)@),
                    uf.capacity() == old(uf).capacity(),
                    gi < n,
                    door <= 6,
                    groups@.len() == n,
                    forall|g: int, j: int|
                        0 <= g < n && 0 <= j < groups@[g]@.len() ==> (#[trigger] groups@[g]@[j])
                            < n && uf_rebuild.root_of(groups@[g]@[j] as int) == g,
                    forall|g: int, j1: int, j2: int|
                        0 <= g < n && 0 <= j1 < j2 < groups@[g]@.len() ==> groups@[g]@[j1]
                            != groups@[g]@[j2],
                    forall|i2: int|
                        0 <= i2 < n ==> groups@[uf_rebuild.root_of(i2)]@.contains(
                            #[trigger] (i2 as usize),
                        ),
                    forall|k: int, j: int|
                        0 <= k < queue@.len() && 0 <= j < queue@[k]@.len() ==> (
                        #[trigger] queue@[k]@[j]) < n,
                    forall|k: int| 0 <= k < queue@.len() ==> (#[trigger] queue@[k]@).len() >= 1,
                    queue@.len() >= q_base.len(),
                    mark0.len() >= 1,
                    mark0 == mark@,
                    forall|j: int| 0 <= j < mark0.len() ==> (#[trigger] mark0[j]) < n,
                    marks_united,
                    forall|i2: int, j: int|
                        0 <= i2 < mark0.len() && 0 <= j < mark0.len() ==> uf.same_class(
                            #[trigger] mark0[i2] as int,
                            #[trigger] mark0[j] as int,
                        ),
                    strictpre == (mark0.len() >= 2 && !old(uf).same_class(
                        mark0[0] as int,
                        mark0[1] as int,
                    )),
                    (strictpre && marks_united) ==> uf.num_classes() < old(uf).num_classes(),
                    forall|x: int, y: int|
                        0 <= x < old(uf).capacity() && 0 <= y < old(uf).capacity() && old(uf).same_class(x, y) ==> uf.same_class(x, y),
                    forall|i2: int, d: int|
                        0 <= i2 < n && 0 <= d < 6 && (#[trigger] old(nodes)@[i2].neighbors[d]) is Some
                            ==> (nodes@[i2].neighbors[d] is Some && uf.same_class(
                            old(nodes)@[i2].neighbors[d]->0 as int,
                            nodes@[i2].neighbors[d]->0 as int,
                        )),
                    uf.num_classes() <= classes_rebuild,
                    classes_rebuild <= pop_uf.num_classes(),
                    pop_uf.num_classes() <= old(uf).num_classes(),
                    merged_mark ==> classes_rebuild < pop_uf.num_classes(),
                    !merged_mark ==> classes_rebuild == pop_uf.num_classes(),
                    nc_rebuild == nc_count(pop_nodes, uf_rebuild),
                    !merged_mark ==> nc_rebuild == nc_count(pop_nodes, pop_uf),
                    uf.num_classes() < classes_rebuild ==> queue@.len() > q_base.len(),
                    uf.num_classes() == classes_rebuild ==> ((forall|x: int|
                        0 <= x < uf.capacity() ==> #[trigger] uf.root_of(x) == uf_rebuild.root_of(
                            x,
                        )) && nc_count(nodes@, *uf) <= nc_rebuild && (queue@.len() > q_base.len()
                        ==> nc_count(nodes@, *uf) < nc_rebuild)),
                    forall|g: int, j1: int, j2: int, d: int|
                        #![trigger groups@[g]@[j1], groups@[g]@[j2], nodes@[groups@[g]@[j1] as int].neighbors[d]]
                        0 <= g < n && 0 <= j1 < groups@[g]@.len() && 0 <= j2 < groups@[g]@.len()
                            && 0 <= d < 6 && (g < gi || (g == gi && d < door))
                            ==> nodes@[groups@[g]@[j1] as int].neighbors[d]
                            == nodes@[groups@[g]@[j2] as int].neighbors[d],
                    p6 == (sweep_steady(old(nodes)@, *old(uf)) && single_class(mark0, *old(uf))),
                    p6 ==> nodes@ == old(nodes)@,
                    p6 ==> forall|x: int|
                        0 <= x < uf.capacity() ==> #[trigger] uf.root_of(x) == old(uf).root_of(x),
                    p6 ==> forall|k: int|
                        0 <= k < queue@.len() ==> single_class(#[trigger] queue@[k]@, *uf),
                    p6 ==> queue@ == q_base,
                decreases 6 - door,
            {
                let ghost call_uf = *uf;
                let ghost call_nodes = nodes@;
                let ghost call_q = queue@;
                let members = &groups[gi];
                proof {
                    if p6 {
                        assert(single_class(members@, *uf));
                        assert forall|j1: int, j2: int|
                            0 <= j1 < members@.len() && 0 <= j2 < members@.len() implies nodes@[members@[j1] as int].neighbors[door as int]
                            == nodes@[members@[j2] as int].neighbors[door as int] by {
                            assert(old(uf).same_class(
                                members@[j1] as int,
                                members@[j2] as int,
                            ));
                        }
                        assert forall|j: int|
                            0 <= j < members@.len() && (#[trigger] nodes@[members@[j] as int].neighbors[door as int]) is Some implies uf.root_of(
                            nodes@[members@[j] as int].neighbors[door as int]->0 as int,
                        ) == nodes@[members@[j] as int].neighbors[door as int]->0 as int by {}
                    }
                }
                propagate_door(nodes, uf, members, door, &mut queue);
                proof {
                    // fold this call into the pop-level measures
                    if uf.num_classes() < classes_rebuild {
                        if call_uf.num_classes() == classes_rebuild {
                            assert(uf.num_classes() < call_uf.num_classes());
                            assert(queue@.len() > call_q.len());
                        }
                        assert(queue@.len() > q_base.len());
                    }
                    if uf.num_classes() == classes_rebuild {
                        assert(call_uf.num_classes() == classes_rebuild);
                        assert(uf.num_classes() == call_uf.num_classes());
                        assert forall|x: int|
                            0 <= x < uf.capacity() implies #[trigger] uf.root_of(x)
                            == uf_rebuild.root_of(x) by {
                            assert(uf.root_of(x) == call_uf.root_of(x));
                        }
                        assert(nc_count(nodes@, *uf) <= nc_count(call_nodes, call_uf));
                        if queue@.len() > q_base.len() {
                            if call_q.len() > q_base.len() {
                                assert(nc_count(call_nodes, call_uf) < nc_rebuild);
                            } else {
                                assert(queue@.len() > call_q.len());
                                assert(nc_count(nodes@, *uf) < nc_count(call_nodes, call_uf));
                            }
                        }
                    }
                    // uniformity of everything processed so far survives the
                    // frame of this call
                    assert forall|g: int, j1: int, j2: int, d: int|
                        #![trigger groups@[g]@[j1], groups@[g]@[j2], nodes@[groups@[g]@[j1] as int].neighbors[d]]
                        0 <= g < n && 0 <= j1 < groups@[g]@.len() && 0 <= j2 < groups@[g]@.len()
                            && 0 <= d < 6 && (g < gi || (g == gi && d < door + 1)) implies nodes@[groups@[g]@[j1] as int].neighbors[d]
                        == nodes@[groups@[g]@[j2] as int].neighbors[d] by {
                        if g == gi as int && d == door as int {
                        } else {
                            let a = groups@[g]@[j1] as int;
                            let b = groups@[g]@[j2] as int;
                            assert(call_nodes[a].neighbors[d] == call_nodes[b].neighbors[d]);
                            if d != door as int {
                                assert(nodes@[a].neighbors[d] == call_nodes[a].neighbors[d]);
                                assert(nodes@[b].neighbors[d] == call_nodes[b].neighbors[d]);
                            } else {
                                // different group: members are disjoint by
                                // their representative
                                assert(!members@.contains(a as usize)) by {
                                    if members@.contains(a as usize) {
                                        let k = choose|k: int|
                                            0 <= k < members@.len() && members@[k] == a as usize;
                                        assert(uf_rebuild.root_of(a) == gi as int);
                                        assert(uf_rebuild.root_of(a) == g);
                                    }
                                }
                                assert(!members@.contains(b as usize)) by {
                                    if members@.contains(b as usize) {
                                        let k = choose|k: int|
                                            0 <= k < members@.len() && members@[k] == b as usize;
                                        assert(uf_rebuild.root_of(b) == gi as int);
                                        assert(uf_rebuild.root_of(b) == g);
                                    }
                                }
                                assert(nodes@[a].neighbors[d] == call_nodes[a].neighbors[d]);
                                assert(nodes@[b].neighbors[d] == call_nodes[b].neighbors[d]);
                            }
                        }
                    }
                    // coarsening and slot clauses chain through the call
                    assert forall|i2: int, d: int|
                        0 <= i2 < n && 0 <= d < 6 && (#[trigger] old(nodes)@[i2].neighbors[d]) is Some implies (
                    nodes@[i2].neighbors[d] is Some && uf.same_class(
                        old(nodes)@[i2].neighbors[d]->0 as int,
                        nodes@[i2].neighbors[d]->0 as int,
                    )) by {
                        assert(call_nodes[i2].neighbors[d] is Some);
                        assert(call_uf.same_class(
                            old(nodes)@[i2].neighbors[d]->0 as int,
                            call_nodes[i2].neighbors[d]->0 as int,
                        ));
                        assert(uf.same_class(
                            old(nodes)@[i2].neighbors[d]->0 as int,
                            call_nodes[i2].neighbors[d]->0 as int,
                        ));
                        assert(uf.same_class(
                            call_nodes[i2].neighbors[d]->0 as int,
                            nodes@[i2].neighbors[d]->0 as int,
                        ));
                    }
                }
                door = door + 1;
            }
            gi = gi + 1;
        }
        proof {
            crate::graph::lemma_nc_nonneg(nodes@, *uf);
            // a drained queue means no set was enqueued, hence no class
            // merged after the rebuild, hence every class was rewritten
            // uniformly on every door
            if queue@.len() == 0 {
                assert(q_base.len() == 0);
                assert(uf.num_classes() == classes_rebuild) by {
                    if uf.num_classes() < classes_rebuild {
                        assert(queue@.len() > q_base.len());
                    }
                }
                assert forall|x: int, y: int, d: int|
                    #![trigger uf.same_class(x, y), nodes@[x].neighbors[d], nodes@[y].neighbors[d]]
                    0 <= x < nodes@.len() && 0 <= y < nodes@.len() && 0 <= d < 6 && uf.same_class(
                        x,
                        y,
                    ) implies nodes@[x].neighbors[d] == nodes@[y].neighbors[d] by {
                    let g = uf_rebuild.root_of(x);
                    assert(uf.root_of(x) == uf_rebuild.root_of(x));
                    assert(uf.root_of(y) == uf_rebuild.root_of(y));
                    assert(0 <= g < n);
                    assert(groups@[g]@.contains(x as usize));
                    assert(groups@[g]@.contains(y as usize));
                    let j1 = choose|j: int| 0 <= j < groups@[g]@.len() && groups@[g]@[j] == x as usize;
                    let j2 = choose|j: int| 0 <= j < groups@[g]@.len() && groups@[g]@[j] == y as usize;
                    assert(nodes@[groups@[g]@[j1] as int].neighbors[d]
                        == nodes@[groups@[g]@[j2] as int].neighbors[d]);
                }
            }
            // the decreasing measure: a merge, else a strictly smaller
            // non-canonical count, else a shorter queue
            if uf.num_classes() == pop_uf.num_classes() {
                assert(!merged_mark);
                assert(classes_rebuild == pop_uf.num_classes());
                assert(uf.num_classes() == classes_rebuild);
                assert(nc_count(nodes@, *uf) <= pop_nc);
                if queue@.len() >= pop_qlen {
                    assert(queue@.len() > q_base.len());
                    assert(nc_count(nodes@, *uf) < pop_nc);
                }
            }
        }
    }
    proof {
        if !marks_united {
            assert(queue@.len() == 1);
            assert(false);
        }
    }
}

} // verus!

verus! {

/// Value equality of two optional ids.
fn opt_eq(a: Option<usize>, b: Option<usize>) -> (r: bool)
    ensures
        r <==> a == b,
{
    match (a, b) {
        (None, None) => true,
        (Some(x), Some(y)) => x == y,
        _ => false,
    }
}

/// Check the post-sweep invariant exhaustively: every id agrees with
/// its representative on every door slot.
pub fn validate_groups(nodes: &Vec<Node>, uf: &UnionFind) -> (r: bool)
    requires
        nodes_wf(nodes@, *uf),
    ensures
        r <==> crate::graph::groups_consistent(nodes@, *uf),
{
    let n = nodes.len();
    let mut i: usize = 0;
    while i < n
        invariant
            nodes_wf(nodes@, *uf),
            n == nodes@.len(),
            i <= n,
            forall|x: int, d: int|
                0 <= x < i && 0 <= d < 6 ==> #[trigger] nodes@[x].neighbors[d]
                    == nodes@[uf.root_of(x)].neighbors[d],
        decreases n - i,
    {
        let rt = uf.root(i);
        let mut d: usize = 0;
        while d < 6
            invariant
                nodes_wf(nodes@, *uf),
                n == nodes@.len(),
                i < n,
                rt < n,
                rt as int == uf.root_of(i as int),
                d <= 6,
                forall|x: int, d2: int|
                    0 <= x < i && 0 <= d2 < 6 ==> #[trigger] nodes@[x].neighbors[d2]
                        == nodes@[uf.root_of(x)].neighbors[d2],
                forall|d2: int|
                    0 <= d2 < d ==> #[trigger] nodes@[i as int].neighbors[d2]
                        == nodes@[uf.root_of(i as int)].neighbors[d2],
            decreases 6 - d,
        {
            if !opt_eq(nodes[i].neighbors[d], nodes[rt].neighbors[d]) {
                proof {
                    uf.lemma_root_idempotent(i as int);
                    assert(uf.same_class(i as int, rt as int));
                    assert(!crate::graph::groups_consistent(nodes@, *uf));
                }
                return false;
            }
            d = d + 1;
        }
        i = i + 1;
    }
    proof {
        assert forall|x: int, y: int, d: int|
            0 <= x < nodes@.len() && 0 <= y < nodes@.len() && 0 <= d < 6 && uf.same_class(
                x,
                y,
            ) implies nodes@[x].neighbors[d] == nodes@[y].neighbors[d] by {
            assert(nodes@[x].neighbors[d] == nodes@[uf.root_of(x)].neighbors[d]);
            assert(nodes@[y].neighbors[d] == nodes@[uf.root_of(y)].neighbors[d]);
        }
    }
    true
}

/// Read one marking probe's response and fold it into the conjecture:
/// collect the mark set and run the closure sweep.  Success comes
/// exactly when the replay walks through settled doors and marks at
/// least one node; each error names its own condition, and an error
/// leaves the conjecture untouched.
pub fn apply_probe_events(nodes: &mut Vec<Node>, uf: &mut UnionFind, events: &Vec<Event>) -> (r:
    Result<(), EngineError>)
    requires
        nodes_wf(old(nodes)@, *old(uf)),
        old(nodes)@.len() > 0,
    ensures
        nodes_wf(final(nodes)@, *final(uf)),
        final(nodes)@.len() == old(nodes)@.len(),
        labels_of(final(nodes)@) == labels_of(old(nodes)@),
        final(uf).capacity() == old(uf).capacity(),
        final(uf).num_classes() <= old(uf).num_classes(),
        forall|x: int, y: int|
            0 <= x < old(uf).capacity() && 0 <= y < old(uf).capacity() && old(uf).same_class(x, y)
                ==> final(uf).same_class(x, y),
        forall|i: int, d: int|
            0 <= i < old(nodes)@.len() && 0 <= d < 6 && (#[trigger] old(nodes)@[i].neighbors[d]) is Some
                ==> (final(nodes)@[i].neighbors[d] is Some && final(uf).same_class(
                old(nodes)@[i].neighbors[d]->0 as int,
                final(nodes)@[i].neighbors[d]->0 as int,
            )),
        (r == Err::<(), EngineError>(EngineError::ClosedDoor)) <==> probe_replay(
            old(nodes)@,
            *old(uf),
            events@,
            events@.len() as int,
        ) is None,
        (r == Err::<(), EngineError>(EngineError::EmptyMarkSet)) <==> (probe_replay(
            old(nodes)@,
            *old(uf),
            events@,
            events@.len() as int,
        ) is Some && forall|c: int|
            !(#[trigger] (probe_replay(old(nodes)@, *old(uf), events@, events@.len() as int)->0).0.contains(
                c,
            ))),
        r is Ok <==> (probe_replay(old(nodes)@, *old(uf), events@, events@.len() as int) is Some
            && exists|c: int|
            (#[trigger] (probe_replay(old(nodes)@, *old(uf), events@, events@.len() as int)->0).0.contains(
                c,
            ))),
        r is Ok ==> crate::graph::groups_consistent(final(nodes)@, *final(uf)),
        r is Ok ==> forall|c1: int, c2: int|
            (probe_replay(old(nodes)@, *old(uf), events@, events@.len() as int)->0).0.contains(c1)
                && (probe_replay(old(nodes)@, *old(uf), events@, events@.len() as int)->0).0.contains(
                c2,
            ) ==> final(uf).same_class(c1, c2),
        r is Err ==> (final(nodes)@ == old(nodes)@ && *final(uf) == *old(uf)),
{
    let marks = match collect_marks(nodes, uf, events) {
        Ok(m) => m,
        Err(e) => {
            return Err(e);
        },
    };
    if marks.len() == 0 {
        proof {
            let rep = probe_replay(old(nodes)@, *old(uf), events@, events@.len() as int)->0;
            assert forall|c: int| !rep.0.contains(c) by {
                if rep.0.contains(c) {
                    assert(marks@.contains(c as usize));
                }
            }
        }
        return Err(EngineError::EmptyMarkSet);
    }
    let ghost marks_view = marks@;
    let nn = nodes.len();
    proof {
        let rep = probe_replay(old(nodes)@, *old(uf), events@, events@.len() as int)->0;
        assert(rep.0.contains(marks_view[0] as int));
    }
    closure_sweep(nodes, uf, marks);
    proof {
        assert(old(nodes)@.len() == nn);
        let rep = probe_replay(old(nodes)@, *old(uf), events@, events@.len() as int)->0;
        assert forall|c1: int, c2: int|
            rep.0.contains(c1) && rep.0.contains(c2) implies uf.same_class(c1, c2) by {
            assert(0 <= c1 < nn);
            assert(0 <= c2 < nn);
            assert(marks_view.contains(c1 as usize));
            assert(marks_view.contains(c2 as usize));
            let j1 = choose|j: int| 0 <= j < marks_view.len() && marks_view[j] == c1 as usize;
            let j2 = choose|j: int| 0 <= j < marks_view.len() && marks_view[j] == c2 as usize;
            assert(uf.same_class(marks_view[j1] as int, marks_view[j2] as int));
            assert(marks_view[j1] as int == c1);
            assert(marks_view[j2] as int == c2);
        }
    }
    // the sweep provably restores the group invariant; check it anyway,
    // as the engine always has
    let consistent = validate_groups(nodes, uf);
    proof {
        assert(consistent);
    }
    Ok(())
}

/// The charcoal action a probe inserts at position `pos`: the smallest
/// label that disagrees with the anchor's conjectured label.
pub open spec fn probe_mark_at(
    nodes: Seq<Node>,
    uf: UnionFind,
    plan: Seq<ExploreQuery>,
    pos: int,
) -> ExploreQuery {
    ExploreQuery::Charcoal {
        label: spec_different_label(
            nodes[traverse(nodes, uf, uf.root_of(0), plan.take(pos))->0].label,
        ),
    }
}

/// Build one marking probe per insertion position in the first half of
/// the plan: walk the prefix to find the anchor, then insert a charcoal
/// action with a disagreeing label.
pub fn build_probe_plans(nodes: &Vec<Node>, uf: &mut UnionFind, plan: &Vec<ExploreQuery>) -> (r:
    Result<Vec<Vec<ExploreQuery>>, EngineError>)
    requires
        nodes_wf(nodes@, *old(uf)),
        nodes@.len() > 0,
    ensures
        *final(uf) == *old(uf),
        r is Ok <==> (forall|p: int|
            0 <= p < plan@.len() / 2 ==> traverse(
                nodes@,
                *old(uf),
                old(uf).root_of(0),
                plan@.take(p),
            ) is Some),
        r matches Ok(plans) ==> (plans@.len() == plan@.len() / 2 && forall|p: int|
            0 <= p < plans@.len() ==> (#[trigger] plans@[p])@ == plan@.insert(
                p,
                probe_mark_at(nodes@, *old(uf), plan@, p),
            )),
        r matches Err(e) ==> e == EngineError::ClosedDoor,
{
    let half = plan.len() / 2;
    let mut plans: Vec<Vec<ExploreQuery>> = Vec::new();
    let mut pos: usize = 0;
    while pos < half
        invariant
            nodes_wf(nodes@, *uf),
            nodes@.len() > 0,
            *uf == *old(uf),
            half == plan@.len() / 2,
            pos <= half,
            plans@.len() == pos,
            forall|p: int|
                0 <= p < pos ==> traverse(
                    nodes@,
                    *old(uf),
                    old(uf).root_of(0),
                    plan@.take(p),
                ) is Some,
            forall|p: int|
                0 <= p < pos ==> (#[trigger] plans@[p])@ == plan@.insert(
                    p,
                    probe_mark_at(nodes@, *old(uf), plan@, p),
                ),
        decreases half - pos,
    {
        let anchor = match try_reach(nodes.as_slice(), plan.as_slice(), pos, uf) {
            Some(c) => c,
            None => {
                return Err(EngineError::ClosedDoor);
            },
        };
        let mark = find_different_label(nodes[anchor].label);
        let mut new_plan: Vec<ExploreQuery> = Vec::new();
        let mut i: usize = 0;
        while i < plan.len()
            invariant
                i <= plan@.len(),
                new_plan@ == plan@.take(i as int),
            decreases plan@.len() - i,
        {
            new_plan.push(plan[i]);
            i = i + 1;
            proof {
                assert(new_plan@ =~= plan@.take(i as int));
            }
        }
        proof {
            assert(new_plan@ =~= plan@);
        }
        new_plan.insert(pos, ExploreQuery::charcoal(mark));
        proof {
            assert(new_plan@ =~= plan@.insert(pos as int, probe_mark_at(nodes@, *old(uf), plan@, pos as int)));
        }
        plans.push(new_plan);
        pos = pos + 1;
    }
    Ok(plans)
}

} // verus!


verus! {

/// Turn the oracle's verdict on a guess into the engine's result: a
/// rejected guess is surfaced as an error, never retried.
pub fn interpret_guess_response(correct: bool) -> (r: Result<(), EngineError>)
    ensures
        correct <==> r is Ok,
        !correct ==> r == Err::<(), EngineError>(EngineError::GuessRejected),
{
    if correct {
        Ok(())
    } else {
        Err(EngineError::GuessRejected)
    }
}

} // verus!
