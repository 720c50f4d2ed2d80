//! Layered assignment refinement: each conjecture node gets a group id
//! in `[0, G)`; the cost counts, per group, the nodes that break label
//! purity and the settled doors that break neighbor-label purity.  A
//! feasible layered solution has cost zero.

use vstd::prelude::*;
use crate::graph::Node;
use crate::union_find::UnionFind;
use crate::{EngineError, GuessRequestMap};

verus! {

/// Number of nodes assigned to group `g` among the first `upto`.
pub open spec fn g_size(assign: Seq<usize>, g: int, upto: int) -> int
    decreases upto,
{
    if upto <= 0 {
        0
    } else {
        g_size(assign, g, upto - 1) + if assign[upto - 1] == g {
            1int
        } else {
            0int
        }
    }
}

/// Nodes of group `g` with label `l` among the first `upto`.
pub open spec fn g_label(assign: Seq<usize>, labels: Seq<u8>, g: int, l: int, upto: int) -> int
    decreases upto,
{
    if upto <= 0 {
        0
    } else {
        g_label(assign, labels, g, l, upto - 1) + if assign[upto - 1] == g && labels[upto - 1]
            == l {
            1int
        } else {
            0int
        }
    }
}

/// Nodes of group `g` whose settled door `d` points at a node of label
/// `l`, among the first `upto`.
pub open spec fn g_next(
    assign: Seq<usize>,
    nlabels: Seq<Seq<Option<u8>>>,
    g: int,
    d: int,
    l: int,
    upto: int,
) -> int
    decreases upto,
{
    if upto <= 0 {
        0
    } else {
        g_next(assign, nlabels, g, d, l, upto - 1) + if assign[upto - 1] == g && nlabels[upto
            - 1][d] == Some(l as u8) {
            1int
        } else {
            0int
        }
    }
}

/// The largest of four counts.
pub open spec fn max4(a: int, b: int, c: int, d: int) -> int {
    let m1 = if a >= b {
        a
    } else {
        b
    };
    let m2 = if c >= d {
        c
    } else {
        d
    };
    if m1 >= m2 {
        m1
    } else {
        m2
    }
}

/// One group's cost: its size minus its largest label count, plus, for
/// each door, the number of settled targets minus the largest target
/// label count.
pub open spec fn group_cost(
    assign: Seq<usize>,
    labels: Seq<u8>,
    nlabels: Seq<Seq<Option<u8>>>,
    g: int,
) -> int {
    let n = assign.len() as int;
    g_size(assign, g, n) - max4(
        g_label(assign, labels, g, 0, n),
        g_label(assign, labels, g, 1, n),
        g_label(assign, labels, g, 2, n),
        g_label(assign, labels, g, 3, n),
    ) + door_cost(assign, nlabels, g, 0) + door_cost(assign, nlabels, g, 1) + door_cost(
        assign,
        nlabels,
        g,
        2,
    ) + door_cost(assign, nlabels, g, 3) + door_cost(assign, nlabels, g, 4) + door_cost(
        assign,
        nlabels,
        g,
        5,
    )
}

/// One door's share of a group's cost.
pub open spec fn door_cost(
    assign: Seq<usize>,
    nlabels: Seq<Seq<Option<u8>>>,
    g: int,
    d: int,
) -> int {
    let n = assign.len() as int;
    let c0 = g_next(assign, nlabels, g, d, 0, n);
    let c1 = g_next(assign, nlabels, g, d, 1, n);
    let c2 = g_next(assign, nlabels, g, d, 2, n);
    let c3 = g_next(assign, nlabels, g, d, 3, n);
    (c0 + c1 + c2 + c3) - max4(c0, c1, c2, c3)
}

/// Total cost: the sum of every group's contribution.
pub open spec fn total_cost(
    assign: Seq<usize>,
    labels: Seq<u8>,
    nlabels: Seq<Seq<Option<u8>>>,
    groups: int,
) -> int
    decreases groups,
{
    if groups <= 0 {
        0
    } else {
        total_cost(assign, labels, nlabels, groups - 1) + group_cost(
            assign,
            labels,
            nlabels,
            groups - 1,
        )
    }
}

/// The labels of every node's settled neighbors, read off the store.
pub open spec fn spec_nlabels(nodes: Seq<Node>) -> Seq<Seq<Option<u8>>> {
    Seq::new(
        nodes.len(),
        |i: int|
            Seq::new(
                6,
                |d: int|
                    match nodes[i].neighbors[d] {
                        Some(j) => if j < nodes.len() {
                            Some(nodes[j as int].label)
                        } else {
                            None
                        },
                        None => None,
                    },
            ),
    )
}

} // verus!

verus! {

/// Reassigning node `i` shifts the group-size count by one out of its
/// old group and one into its new group.
proof fn lemma_g_size_update(assign: Seq<usize>, i: int, v: usize, g: int, upto: int)
    requires
        0 <= i < assign.len(),
        upto <= assign.len(),
    ensures
        g_size(assign.update(i, v), g, upto) == g_size(assign, g, upto) + if i < upto {
            (if v == g {
                1int
            } else {
                0int
            }) - (if assign[i] == g {
                1int
            } else {
                0int
            })
        } else {
            0int
        },
    decreases upto,
{
    if upto > 0 {
        lemma_g_size_update(assign, i, v, g, upto - 1);
    }
}

/// As `lemma_g_size_update`, for the per-label counts.
proof fn lemma_g_label_update(
    assign: Seq<usize>,
    labels: Seq<u8>,
    i: int,
    v: usize,
    g: int,
    l: int,
    upto: int,
)
    requires
        0 <= i < assign.len(),
        upto <= assign.len(),
    ensures
        g_label(assign.update(i, v), labels, g, l, upto) == g_label(assign, labels, g, l, upto)
            + if i < upto && labels[i] == l {
            (if v == g {
                1int
            } else {
                0int
            }) - (if assign[i] == g {
                1int
            } else {
                0int
            })
        } else {
            0int
        },
    decreases upto,
{
    if upto > 0 {
        lemma_g_label_update(assign, labels, i, v, g, l, upto - 1);
    }
}

/// As `lemma_g_size_update`, for the per-door target-label counts.
proof fn lemma_g_next_update(
    assign: Seq<usize>,
    nlabels: Seq<Seq<Option<u8>>>,
    i: int,
    v: usize,
    g: int,
    d: int,
    l: int,
    upto: int,
)
    requires
        0 <= i < assign.len(),
        upto <= assign.len(),
    ensures
        g_next(assign.update(i, v), nlabels, g, d, l, upto) == g_next(assign, nlabels, g, d, l, upto)
            + if i < upto && nlabels[i][d] == Some(l as u8) {
            (if v == g {
                1int
            } else {
                0int
            }) - (if assign[i] == g {
                1int
            } else {
                0int
            })
        } else {
            0int
        },
    decreases upto,
{
    if upto > 0 {
        lemma_g_next_update(assign, nlabels, i, v, g, d, l, upto - 1);
    }
}

/// A group that the move touches neither way keeps its contribution.
proof fn lemma_cost_other(
    assign: Seq<usize>,
    labels: Seq<u8>,
    nlabels: Seq<Seq<Option<u8>>>,
    i: int,
    v: usize,
    g: int,
)
    requires
        0 <= i < assign.len(),
        assign[i] != g,
        v != g,
    ensures
        group_cost(assign.update(i, v), labels, nlabels, g) == group_cost(assign, labels, nlabels, g),
{
    let n = assign.len() as int;
    lemma_g_size_update(assign, i, v, g, n);
    lemma_g_label_update(assign, labels, i, v, g, 0, n);
    lemma_g_label_update(assign, labels, i, v, g, 1, n);
    lemma_g_label_update(assign, labels, i, v, g, 2, n);
    lemma_g_label_update(assign, labels, i, v, g, 3, n);
    assert forall|d: int, l: int|
        0 <= d < 6 && 0 <= l < 4 implies g_next(assign.update(i, v), nlabels, g, d, l, n)
        == #[trigger] g_next(assign, nlabels, g, d, l, n) by {
        lemma_g_next_update(assign, nlabels, i, v, g, d, l, n);
    }
}

/// Moving one node changes the total cost by exactly the change of the
/// two touched groups' contributions.
proof fn lemma_total_two_groups(
    assign: Seq<usize>,
    labels: Seq<u8>,
    nlabels: Seq<Seq<Option<u8>>>,
    i: int,
    v: usize,
    groups: int,
)
    requires
        0 <= i < assign.len(),
        assign[i] != v,
    ensures
        total_cost(assign.update(i, v), labels, nlabels, groups) - total_cost(
            assign,
            labels,
            nlabels,
            groups,
        ) == (if assign[i] < groups {
            group_cost(assign.update(i, v), labels, nlabels, assign[i] as int) - group_cost(
                assign,
                labels,
                nlabels,
                assign[i] as int,
            )
        } else {
            0int
        }) + (if (v as int) < groups {
            group_cost(assign.update(i, v), labels, nlabels, v as int) - group_cost(
                assign,
                labels,
                nlabels,
                v as int,
            )
        } else {
            0int
        }),
    decreases groups,
{
    if groups > 0 {
        lemma_total_two_groups(assign, labels, nlabels, i, v, groups - 1);
        let g = groups - 1;
        if assign[i] != g && v != g {
            lemma_cost_other(assign, labels, nlabels, i, v, g);
        }
    }
}

} // verus!

verus! {

/// All group counts are non-negative and bounded by the group size,
/// which is bounded by the prefix length.
proof fn lemma_counts_bound(
    assign: Seq<usize>,
    labels: Seq<u8>,
    nlabels: Seq<Seq<Option<u8>>>,
    g: int,
    l: int,
    d: int,
    upto: int,
)
    ensures
        0 <= g_size(assign, g, upto),
        g_size(assign, g, upto) <= (if upto >= 0 {
            upto
        } else {
            0int
        }),
        0 <= g_label(assign, labels, g, l, upto) <= g_size(assign, g, upto),
        0 <= g_next(assign, nlabels, g, d, l, upto) <= g_size(assign, g, upto),
    decreases upto,
{
    if upto > 0 {
        lemma_counts_bound(assign, labels, nlabels, g, l, d, upto - 1);
    }
}

/// One group's cost lies between zero and 25 times the node count.
proof fn lemma_group_cost_bound(
    assign: Seq<usize>,
    labels: Seq<u8>,
    nlabels: Seq<Seq<Option<u8>>>,
    g: int,
)
    requires
        assign.len() <= 0x0400_0000,
    ensures
        0 <= group_cost(assign, labels, nlabels, g) <= 0x64000000,
{
    let n = assign.len() as int;
    assert forall|l: int, d: int| 0 <= l < 4 && 0 <= d < 6 implies (0 <= #[trigger] g_next(
        assign,
        nlabels,
        g,
        d,
        l,
        n,
    ) <= g_size(assign, g, n) && 0 <= #[trigger] g_label(assign, labels, g, l, n) <= g_size(
        assign,
        g,
        n,
    )) by {
        lemma_counts_bound(assign, labels, nlabels, g, l, d, n);
    }
    lemma_counts_bound(assign, labels, nlabels, g, 0, 0, n);
    lemma_sum_door_parts(assign, nlabels, g, 6);
    assert(group_cost(assign, labels, nlabels, g) == g_size(assign, g, n) - max4(
        g_label(assign, labels, g, 0, n),
        g_label(assign, labels, g, 1, n),
        g_label(assign, labels, g, 2, n),
        g_label(assign, labels, g, 3, n),
    ) + sum_door_costs(assign, nlabels, g, 6)) by {
        assert(sum_door_costs(assign, nlabels, g, 6) == sum_door_costs(assign, nlabels, g, 5)
            + door_cost(assign, nlabels, g, 5));
        assert(sum_door_costs(assign, nlabels, g, 5) == sum_door_costs(assign, nlabels, g, 4)
            + door_cost(assign, nlabels, g, 4));
        assert(sum_door_costs(assign, nlabels, g, 4) == sum_door_costs(assign, nlabels, g, 3)
            + door_cost(assign, nlabels, g, 3));
        assert(sum_door_costs(assign, nlabels, g, 3) == sum_door_costs(assign, nlabels, g, 2)
            + door_cost(assign, nlabels, g, 2));
        assert(sum_door_costs(assign, nlabels, g, 2) == sum_door_costs(assign, nlabels, g, 1)
            + door_cost(assign, nlabels, g, 1));
        assert(sum_door_costs(assign, nlabels, g, 1) == sum_door_costs(assign, nlabels, g, 0)
            + door_cost(assign, nlabels, g, 0));
    }
}

/// One door's share is between zero and four times the node count.
proof fn lemma_door_cost_bound(
    assign: Seq<usize>,
    nlabels: Seq<Seq<Option<u8>>>,
    g: int,
    d: int,
)
    requires
        assign.len() <= 0x0400_0000,
    ensures
        0 <= door_cost(assign, nlabels, g, d) <= 0x10000000,
{
    let n = assign.len() as int;
    lemma_counts_bound(assign, Seq::empty(), nlabels, g, 0, d, n);
    lemma_counts_bound(assign, Seq::empty(), nlabels, g, 1, d, n);
    lemma_counts_bound(assign, Seq::empty(), nlabels, g, 2, d, n);
    lemma_counts_bound(assign, Seq::empty(), nlabels, g, 3, d, n);
}

/// Door-share prefix sums stay within a fixed bound.
proof fn lemma_sum_door_bound(
    assign: Seq<usize>,
    nlabels: Seq<Seq<Option<u8>>>,
    g: int,
    d: int,
)
    requires
        assign.len() <= 0x0400_0000,
        d <= 6,
    ensures
        0 <= sum_door_costs(assign, nlabels, g, d) <= 0x60000000,
    decreases d,
{
    if d > 0 {
        lemma_sum_door_bound(assign, nlabels, g, d - 1);
        lemma_door_cost_bound(assign, nlabels, g, d - 1);
        assert(sum_door_costs(assign, nlabels, g, d - 1) <= 0x10000000 * (d - 1)) by {
            lemma_sum_door_parts(assign, nlabels, g, d - 1);
        }
    }
}

/// Each prefix sum of door shares is at most the door count times the
/// per-door bound.
proof fn lemma_sum_door_parts(
    assign: Seq<usize>,
    nlabels: Seq<Seq<Option<u8>>>,
    g: int,
    d: int,
)
    requires
        assign.len() <= 0x0400_0000,
        0 <= d,
    ensures
        0 <= sum_door_costs(assign, nlabels, g, d) <= 0x10000000 * d,
    decreases d,
{
    if d > 0 {
        lemma_sum_door_parts(assign, nlabels, g, d - 1);
        lemma_door_cost_bound(assign, nlabels, g, d - 1);
    }
}

/// The total cost lies between zero and 25 times node count times
/// group count.
proof fn lemma_total_bound(
    assign: Seq<usize>,
    labels: Seq<u8>,
    nlabels: Seq<Seq<Option<u8>>>,
    groups: int,
)
    requires
        assign.len() <= 0x0400_0000,
    ensures
        0 <= total_cost(assign, labels, nlabels, groups),
        total_cost(assign, labels, nlabels, groups) <= 0x64000000 * (if groups >= 0 {
            groups
        } else {
            0int
        }),
    decreases groups,
{
    if groups > 0 {
        lemma_total_bound(assign, labels, nlabels, groups - 1);
        lemma_group_cost_bound(assign, labels, nlabels, groups - 1);
    }
}

/// Compute one group's cost directly from the assignment.
fn group_cost_exec(assign: &[usize], nodes: &[Node], gg: usize) -> (r: i64)
    requires
        assign@.len() == nodes@.len(),
        nodes@.len() <= 0x0400_0000,
        forall|i: int, d: int|
            0 <= i < nodes@.len() && 0 <= d < 6 && (#[trigger] nodes@[i].neighbors[d]) is Some
                ==> nodes@[i].neighbors[d]->0 < nodes@.len(),
    ensures
        r as int == group_cost(
            assign@,
            crate::engine::labels_of(nodes@),
            spec_nlabels(nodes@),
            gg as int,
        ),
{
    let ghost labels = crate::engine::labels_of(nodes@);
    let ghost nlabels = spec_nlabels(nodes@);
    let n = nodes.len();
    let mut size: i64 = 0;
    let mut labcnt: [i64; 4] = [0, 0, 0, 0];
    let mut nxtcnt: [[i64; 4]; 6] = [
        [0, 0, 0, 0],
        [0, 0, 0, 0],
        [0, 0, 0, 0],
        [0, 0, 0, 0],
        [0, 0, 0, 0],
        [0, 0, 0, 0],
    ];
    let mut i: usize = 0;
    while i < n
        invariant
            assign@.len() == nodes@.len(),
            n == nodes@.len(),
            n <= 0x0400_0000,
            i <= n,
            labels == crate::engine::labels_of(nodes@),
            nlabels == spec_nlabels(nodes@),
            forall|i2: int, d: int|
                0 <= i2 < nodes@.len() && 0 <= d < 6 && (#[trigger] nodes@[i2].neighbors[d]) is Some
                    ==> nodes@[i2].neighbors[d]->0 < nodes@.len(),
            size as int == g_size(assign@, gg as int, i as int),
            forall|l: int|
                0 <= l < 4 ==> (#[trigger] labcnt[l]) as int == g_label(
                    assign@,
                    labels,
                    gg as int,
                    l,
                    i as int,
                ),
            forall|d: int, l: int|
                0 <= d < 6 && 0 <= l < 4 ==> (#[trigger] nxtcnt[d][l]) as int == g_next(
                    assign@,
                    nlabels,
                    gg as int,
                    d,
                    l,
                    i as int,
                ),
        decreases n - i,
    {
        proof {
            lemma_counts_bound(assign@, labels, nlabels, gg as int, 0, 0, i as int);
        }
        if assign[i] == gg {
            size = size + 1;
            let lab = nodes[i].label;
            if lab < 4 {
                proof {
                    lemma_counts_bound(assign@, labels, nlabels, gg as int, lab as int, 0, i as int);
                }
                labcnt[lab as usize] = labcnt[lab as usize] + 1;
            }
            let mut d: usize = 0;
            while d < 6
                invariant
                    assign@.len() == nodes@.len(),
                    n == nodes@.len(),
                    n <= 0x0400_0000,
                    i < n,
                    d <= 6,
                    assign@[i as int] == gg,
                    labels == crate::engine::labels_of(nodes@),
                    nlabels == spec_nlabels(nodes@),
                    forall|i2: int, d2: int|
                        0 <= i2 < nodes@.len() && 0 <= d2 < 6 && (
                        #[trigger] nodes@[i2].neighbors[d2]) is Some ==> nodes@[i2].neighbors[d2]->0
                            < nodes@.len(),
                    forall|d2: int, l: int|
                        0 <= d2 < d && 0 <= l < 4 ==> (#[trigger] nxtcnt[d2][l]) as int == g_next(
                            assign@,
                            nlabels,
                            gg as int,
                            d2,
                            l,
                            i + 1,
                        ),
                    forall|d2: int, l: int|
                        d <= d2 < 6 && 0 <= l < 4 ==> (#[trigger] nxtcnt[d2][l]) as int == g_next(
                            assign@,
                            nlabels,
                            gg as int,
                            d2,
                            l,
                            i as int,
                        ),
                decreases 6 - d,
            {
                match nodes[i].neighbors[d] {
                    Some(j) => {
                        let nl = nodes[j].label;
                        proof {
                            assert(nlabels[i as int][d as int] == Some(nl));
                        }
                        if nl < 4 {
                            proof {
                                lemma_counts_bound(
                                    assign@,
                                    labels,
                                    nlabels,
                                    gg as int,
                                    nl as int,
                                    d as int,
                                    i as int,
                                );
                            }
                            let mut row = nxtcnt[d];
                            row[nl as usize] = row[nl as usize] + 1;
                            nxtcnt[d] = row;
                        }
                        proof {
                            assert forall|l: int|
                                0 <= l < 4 implies (#[trigger] nxtcnt[d as int][l]) as int
                                == g_next(assign@, nlabels, gg as int, d as int, l, i + 1) by {
                                if nl < 4 && l == nl as int {
                                } else {
                                    assert(nlabels[i as int][d as int] != Some(l as u8));
                                }
                            }
                        }
                    },
                    None => {
                        proof {
                            assert(nlabels[i as int][d as int] is None);
                            assert forall|l: int|
                                0 <= l < 4 implies (#[trigger] nxtcnt[d as int][l]) as int
                                == g_next(assign@, nlabels, gg as int, d as int, l, i + 1) by {
                                assert(nlabels[i as int][d as int] != Some(l as u8));
                            }
                        }
                    },
                }
                d = d + 1;
            }
        } else {
            proof {
                assert forall|d2: int, l: int|
                    0 <= d2 < 6 && 0 <= l < 4 implies (#[trigger] nxtcnt[d2][l]) as int == g_next(
                    assign@,
                    nlabels,
                    gg as int,
                    d2,
                    l,
                    i + 1,
                ) by {}
            }
        }
        i = i + 1;
    }
    proof {
        assert forall|l: int, d: int| 0 <= l < 4 && 0 <= d < 6 implies (0 <= #[trigger] g_next(
            assign@,
            nlabels,
            gg as int,
            d,
            l,
            n as int,
        ) <= g_size(assign@, gg as int, n as int) && 0 <= #[trigger] g_label(
            assign@,
            labels,
            gg as int,
            l,
            n as int,
        ) <= g_size(assign@, gg as int, n as int)) by {
            lemma_counts_bound(assign@, labels, nlabels, gg as int, l, d, n as int);
        }
        lemma_counts_bound(assign@, labels, nlabels, gg as int, 0, 0, n as int);
    }
    let mut maxlab: i64 = labcnt[0];
    if labcnt[1] > maxlab {
        maxlab = labcnt[1];
    }
    if labcnt[2] > maxlab {
        maxlab = labcnt[2];
    }
    if labcnt[3] > maxlab {
        maxlab = labcnt[3];
    }
    proof {
        assert(size as int == g_size(assign@, gg as int, n as int));
        assert(labcnt[0] as int == g_label(assign@, labels, gg as int, 0, n as int));
        assert(labcnt[1] as int == g_label(assign@, labels, gg as int, 1, n as int));
        assert(labcnt[2] as int == g_label(assign@, labels, gg as int, 2, n as int));
        assert(labcnt[3] as int == g_label(assign@, labels, gg as int, 3, n as int));
        assert(maxlab as int == max4(
            g_label(assign@, labels, gg as int, 0, n as int),
            g_label(assign@, labels, gg as int, 1, n as int),
            g_label(assign@, labels, gg as int, 2, n as int),
            g_label(assign@, labels, gg as int, 3, n as int),
        ));
        lemma_counts_bound(assign@, labels, nlabels, gg as int, 0, 0, n as int);
        lemma_counts_bound(assign@, labels, nlabels, gg as int, 1, 0, n as int);
        lemma_counts_bound(assign@, labels, nlabels, gg as int, 2, 0, n as int);
        lemma_counts_bound(assign@, labels, nlabels, gg as int, 3, 0, n as int);
        assert(maxlab <= size);
        assert(0 <= size - maxlab <= n);
        assert(sum_door_costs(assign@, nlabels, gg as int, 0) == 0);
    }
    let mut acc: i64 = size - maxlab;
    let mut d: usize = 0;
    while d < 6
        invariant
            n == nodes@.len(),
            assign@.len() == n,
            n <= 0x0400_0000,
            d <= 6,
            labels == crate::engine::labels_of(nodes@),
            nlabels == spec_nlabels(nodes@),
            forall|d2: int, l: int|
                0 <= d2 < 6 && 0 <= l < 4 ==> (#[trigger] nxtcnt[d2][l]) as int == g_next(
                    assign@,
                    nlabels,
                    gg as int,
                    d2,
                    l,
                    n as int,
                ) && 0 <= nxtcnt[d2][l] <= n,
            acc as int == g_size(assign@, gg as int, n as int) - max4(
                g_label(assign@, labels, gg as int, 0, n as int),
                g_label(assign@, labels, gg as int, 1, n as int),
                g_label(assign@, labels, gg as int, 2, n as int),
                g_label(assign@, labels, gg as int, 3, n as int),
            ) + sum_door_costs(assign@, nlabels, gg as int, d as int),
            0 <= acc as int <= 0x64000000,
        decreases 6 - d,
    {
        let c0 = nxtcnt[d][0];
        let c1 = nxtcnt[d][1];
        let c2 = nxtcnt[d][2];
        let c3 = nxtcnt[d][3];
        let mut mx = c0;
        if c1 > mx {
            mx = c1;
        }
        if c2 > mx {
            mx = c2;
        }
        if c3 > mx {
            mx = c3;
        }
        proof {
            assert(c0 + c1 + c2 + c3 - mx == door_cost(assign@, nlabels, gg as int, d as int));
            lemma_sum_door_bound(assign@, nlabels, gg as int, d as int + 1);
            lemma_counts_bound(assign@, labels, nlabels, gg as int, 0, 0, n as int);
        }
        acc = acc + (c0 + c1 + c2 + c3 - mx);
        d = d + 1;
    }
    proof {
        assert(acc as int == g_size(assign@, gg as int, n as int) - max4(
            g_label(assign@, labels, gg as int, 0, n as int),
            g_label(assign@, labels, gg as int, 1, n as int),
            g_label(assign@, labels, gg as int, 2, n as int),
            g_label(assign@, labels, gg as int, 3, n as int),
        ) + sum_door_costs(assign@, nlabels, gg as int, 6));
        assert(sum_door_costs(assign@, nlabels, gg as int, 6) == sum_door_costs(
            assign@,
            nlabels,
            gg as int,
            5,
        ) + door_cost(assign@, nlabels, gg as int, 5));
        assert(sum_door_costs(assign@, nlabels, gg as int, 5) == sum_door_costs(
            assign@,
            nlabels,
            gg as int,
            4,
        ) + door_cost(assign@, nlabels, gg as int, 4));
        assert(sum_door_costs(assign@, nlabels, gg as int, 4) == sum_door_costs(
            assign@,
            nlabels,
            gg as int,
            3,
        ) + door_cost(assign@, nlabels, gg as int, 3));
        assert(sum_door_costs(assign@, nlabels, gg as int, 3) == sum_door_costs(
            assign@,
            nlabels,
            gg as int,
            2,
        ) + door_cost(assign@, nlabels, gg as int, 2));
        assert(sum_door_costs(assign@, nlabels, gg as int, 2) == sum_door_costs(
            assign@,
            nlabels,
            gg as int,
            1,
        ) + door_cost(assign@, nlabels, gg as int, 1));
        assert(sum_door_costs(assign@, nlabels, gg as int, 1) == sum_door_costs(
            assign@,
            nlabels,
            gg as int,
            0,
        ) + door_cost(assign@, nlabels, gg as int, 0));
        assert(acc as int == group_cost(assign@, labels, nlabels, gg as int));
    }
    acc
}

/// Door costs of the first `d` doors of group `g`.
pub open spec fn sum_door_costs(
    assign: Seq<usize>,
    nlabels: Seq<Seq<Option<u8>>>,
    g: int,
    d: int,
) -> int
    decreases d,
{
    if d <= 0 {
        0
    } else {
        sum_door_costs(assign, nlabels, g, d - 1) + door_cost(assign, nlabels, g, d - 1)
    }
}

/// Recompute the total cost of an assignment from scratch.
pub fn cost(assign: &[usize], nodes: &[Node], g: usize) -> (r: i64)
    requires
        assign@.len() == nodes@.len(),
        nodes@.len() <= 0x0400_0000,
        g <= 0x0400_0000,
        forall|i: int, d: int|
            0 <= i < nodes@.len() && 0 <= d < 6 && (#[trigger] nodes@[i].neighbors[d]) is Some
                ==> nodes@[i].neighbors[d]->0 < nodes@.len(),
    ensures
        r as int == total_cost(
            assign@,
            crate::engine::labels_of(nodes@),
            spec_nlabels(nodes@),
            g as int,
        ),
{
    let ghost labels = crate::engine::labels_of(nodes@);
    let ghost nlabels = spec_nlabels(nodes@);
    let mut acc: i64 = 0;
    let mut gg: usize = 0;
    while gg < g
        invariant
            assign@.len() == nodes@.len(),
            nodes@.len() <= 0x0400_0000,
            g <= 0x0400_0000,
            gg <= g,
            labels == crate::engine::labels_of(nodes@),
            nlabels == spec_nlabels(nodes@),
            forall|i: int, d: int|
                0 <= i < nodes@.len() && 0 <= d < 6 && (#[trigger] nodes@[i].neighbors[d]) is Some
                    ==> nodes@[i].neighbors[d]->0 < nodes@.len(),
            acc as int == total_cost(assign@, labels, nlabels, gg as int),
            0 <= acc as int <= 0x64000000 * (gg as int),
        decreases g - gg,
    {
        let gc = group_cost_exec(assign, nodes, gg);
        proof {
            lemma_group_cost_bound(assign@, labels, nlabels, gg as int);
            lemma_total_bound(assign@, labels, nlabels, gg as int);
            lemma_total_bound(assign@, labels, nlabels, gg as int + 1);
        }
        acc = acc + gc;
        gg = gg + 1;
    }
    acc
}

} // verus!

verus! {

/// The cost change of moving node `i` to group `to`, computed from the
/// two touched groups alone; it equals the difference of the total cost
/// recomputed from scratch (moving within the same group changes
/// nothing).
pub fn delta_move(assign: &Vec<usize>, nodes: &[Node], i: usize, to: usize, g: usize) -> (r: i64)
    requires
        assign@.len() == nodes@.len(),
        nodes@.len() <= 0x0400_0000,
        g <= 0x0400_0000,
        i < assign@.len(),
        (assign@[i as int] as int) < g,
        (to as int) < g,
        forall|i2: int, d: int|
            0 <= i2 < nodes@.len() && 0 <= d < 6 && (#[trigger] nodes@[i2].neighbors[d]) is Some
                ==> nodes@[i2].neighbors[d]->0 < nodes@.len(),
    ensures
        r as int == total_cost(
            assign@.update(i as int, to),
            crate::engine::labels_of(nodes@),
            spec_nlabels(nodes@),
            g as int,
        ) - total_cost(
            assign@,
            crate::engine::labels_of(nodes@),
            spec_nlabels(nodes@),
            g as int,
        ),
{
    let ghost labels = crate::engine::labels_of(nodes@);
    let ghost nlabels = spec_nlabels(nodes@);
    let from = assign[i];
    if from == to {
        proof {
            assert(assign@.update(i as int, to) =~= assign@);
        }
        return 0;
    }
    let before_from = group_cost_exec(assign.as_slice(), nodes, from);
    let before_to = group_cost_exec(assign.as_slice(), nodes, to);
    let mut upd: Vec<usize> = Vec::new();
    let mut k: usize = 0;
    while k < assign.len()
        invariant
            k <= assign@.len(),
            upd@.len() == k,
            forall|j: int| 0 <= j < k ==> upd@[j] == assign@[j],
        decreases assign@.len() - k,
    {
        upd.push(assign[k]);
        k = k + 1;
    }
    upd[i] = to;
    proof {
        assert(upd@ =~= assign@.update(i as int, to));
    }
    let after_from = group_cost_exec(upd.as_slice(), nodes, from);
    let after_to = group_cost_exec(upd.as_slice(), nodes, to);
    proof {
        lemma_total_two_groups(assign@, labels, nlabels, i as int, to, g as int);
        lemma_group_cost_bound(assign@, labels, nlabels, from as int);
        lemma_group_cost_bound(assign@, labels, nlabels, to as int);
        lemma_group_cost_bound(upd@, labels, nlabels, from as int);
        lemma_group_cost_bound(upd@, labels, nlabels, to as int);
    }
    after_from + after_to - before_from - before_to
}

/// Apply a single-node move.
pub fn apply_move(assign: &mut Vec<usize>, i: usize, to: usize)
    requires
        i < old(assign)@.len(),
    ensures
        final(assign)@ == old(assign)@.update(i as int, to),
{
    assign[i] = to;
}

/// The best target group for node `i`: the move with the smallest cost
/// change among all other groups, if any other group exists.
pub fn best_move(assign: &Vec<usize>, nodes: &[Node], i: usize, g: usize) -> (r: (i64, usize))
    requires
        assign@.len() == nodes@.len(),
        nodes@.len() <= 0x0400_0000,
        1 <= g <= 0x0400_0000,
        i < assign@.len(),
        (assign@[i as int] as int) < g,
        forall|i2: int, d: int|
            0 <= i2 < nodes@.len() && 0 <= d < 6 && (#[trigger] nodes@[i2].neighbors[d]) is Some
                ==> nodes@[i2].neighbors[d]->0 < nodes@.len(),
        forall|j: int| 0 <= j < assign@.len() ==> (#[trigger] assign@[j] as int) < g,
    ensures
        g == 1 ==> r.1 == assign@[i as int],
        g > 1 ==> ((r.1 as int) < g && r.1 != assign@[i as int] && r.0 as int == total_cost(
            assign@.update(i as int, r.1),
            crate::engine::labels_of(nodes@),
            spec_nlabels(nodes@),
            g as int,
        ) - total_cost(assign@, crate::engine::labels_of(nodes@), spec_nlabels(nodes@), g as int)
            && forall|t: int|
            0 <= t < g && t != assign@[i as int] ==> r.0 as int <= #[trigger] total_cost(
                assign@.update(i as int, (t as usize)),
                crate::engine::labels_of(nodes@),
                spec_nlabels(nodes@),
                g as int,
            ) - total_cost(
                assign@,
                crate::engine::labels_of(nodes@),
                spec_nlabels(nodes@),
                g as int,
            )),
{
    let from = assign[i];
    let mut best_delta: i64 = 0;
    let mut best_to: usize = from;
    let mut have: bool = false;
    let mut t: usize = 0;
    while t < g
        invariant
            assign@.len() == nodes@.len(),
            nodes@.len() <= 0x0400_0000,
            1 <= g <= 0x0400_0000,
            i < assign@.len(),
            from == assign@[i as int],
            (from as int) < g,
            t <= g,
            forall|i2: int, d: int|
                0 <= i2 < nodes@.len() && 0 <= d < 6 && (#[trigger] nodes@[i2].neighbors[d]) is Some
                    ==> nodes@[i2].neighbors[d]->0 < nodes@.len(),
            have == ((t as int) - (if (from as int) < (t as int) {
                1int
            } else {
                0int
            }) > 0),
            !have ==> best_to == from,
            have ==> ((best_to as int) < g && best_to != from && best_delta as int == total_cost(
                assign@.update(i as int, best_to),
                crate::engine::labels_of(nodes@),
                spec_nlabels(nodes@),
                g as int,
            ) - total_cost(
                assign@,
                crate::engine::labels_of(nodes@),
                spec_nlabels(nodes@),
                g as int,
            )),
            forall|t2: int|
                0 <= t2 < t && t2 != from as int ==> (have && best_delta as int <= #[trigger] total_cost(
                    assign@.update(i as int, (t2 as usize)),
                    crate::engine::labels_of(nodes@),
                    spec_nlabels(nodes@),
                    g as int,
                ) - total_cost(
                    assign@,
                    crate::engine::labels_of(nodes@),
                    spec_nlabels(nodes@),
                    g as int,
                )),
        decreases g - t,
    {
        if t != from {
            let d = delta_move(assign, nodes, i, t, g);
            if !have || d < best_delta {
                best_delta = d;
                best_to = t;
                have = true;
            } else {
                have = true;
            }
        }
        t = t + 1;
    }
    (best_delta, best_to)
}

} // verus!

verus! {

/// Linear membership scan.
fn contains_id(v: &Vec<usize>, x: usize) -> (r: bool)
    ensures
        r == v@.contains(x),
{
    let mut i: usize = 0;
    while i < v.len()
        invariant
            i <= v@.len(),
            forall|j: int| 0 <= j < i ==> v@[j] != x,
        decreases v@.len() - i,
    {
        if v[i] == x {
            proof {
                assert(v@[i as int] == x);
            }
            return true;
        }
        i = i + 1;
    }
    false
}

/// Collapse a group assignment into a guess map: while some group holds
/// more than `l` distinct classes, unite two random members and close
/// the consequences with the probe sweep's propagation discipline, then
/// emit the merged conjecture as a map.  Every collapse round merges two
/// classes, so the loop terminates; when no group is over-sized to begin
/// with, the conjecture is left untouched.
pub fn assign_to_map(assign: &[usize], nodes: &mut Vec<Node>, g: usize, l: usize, n: usize) -> (r:
    Result<GuessRequestMap, EngineError>)
    requires
        assign@.len() == old(nodes)@.len(),
        1 <= old(nodes)@.len() <= 0x0400_0000,
        g >= 1,
        l >= 1,
        forall|j: int| 0 <= j < assign@.len() ==> (#[trigger] assign@[j] as int) < g,
        forall|i: int, d: int|
            0 <= i < old(nodes)@.len() && 0 <= d < 6 && (#[trigger] old(nodes)@[i].neighbors[d]) is Some
                ==> old(nodes)@[i].neighbors[d]->0 < old(nodes)@.len(),
    ensures
        final(nodes)@.len() == old(nodes)@.len(),
        (forall|gg: int|
            0 <= gg < g ==> g_size(assign@, gg, assign@.len() as int) <= l) ==> final(nodes)@
            == old(nodes)@,
        r matches Ok(m) ==> exists|uf2: UnionFind|
            (#[trigger] uf2.wf()) && crate::graph::guess_wf(m, final(nodes)@, uf2, n as int),
        r matches Err(e) ==> (e == EngineError::ClosedDoor || e == EngineError::WrongRoomCount
            || e == EngineError::MissingReverseDoor),
{
    let len = nodes.len();
    let ghost balanced = forall|gg: int|
        0 <= gg < g ==> g_size(assign@, gg, assign@.len() as int) <= l;
    let mut uf = crate::union_find::UnionFind::new(len);
    let mut groups: Vec<Vec<usize>> = Vec::new();
    let mut gi: usize = 0;
    while gi < g
        invariant
            groups@.len() == gi,
            gi <= g,
            forall|g2: int| 0 <= g2 < gi ==> (#[trigger] groups@[g2]@).len() == 0,
        decreases g - gi,
    {
        groups.push(Vec::new());
        gi = gi + 1;
    }
    proof {
        assert forall|g2: int| 0 <= g2 < g implies (#[trigger] groups@[g2]@).len() == g_size(
            assign@,
            g2,
            0,
        ) by {}
    }
    let mut i: usize = 0;
    while i < len
        invariant
            assign@.len() == len,
            i <= len,
            groups@.len() == g,
            forall|j: int| 0 <= j < assign@.len() ==> (#[trigger] assign@[j] as int) < g,
            forall|g2: int, j: int|
                0 <= g2 < g && 0 <= j < groups@[g2]@.len() ==> (#[trigger] groups@[g2]@[j]) < i,
            forall|g2: int, j1: int, j2: int|
                0 <= g2 < g && 0 <= j1 < j2 < groups@[g2]@.len() ==> groups@[g2]@[j1]
                    != groups@[g2]@[j2],
            forall|g2: int|
                0 <= g2 < g ==> (#[trigger] groups@[g2]@).len() == g_size(assign@, g2, i as int),
        decreases len - i,
    {
        let grp = assign[i];
        let mut slot: Vec<usize> = Vec::new();
        groups.set_and_swap(grp, &mut slot);
        slot.push(i);
        groups.set_and_swap(grp, &mut slot);
        proof {
            assert forall|g2: int| 0 <= g2 < g implies (#[trigger] groups@[g2]@).len() == g_size(
                assign@,
                g2,
                i + 1,
            ) by {}
        }
        i = i + 1;
    }
    while 0 < 1
        invariant
            nodes@.len() == len,
            len == old(nodes)@.len(),
            1 <= len <= 0x0400_0000,
            l >= 1,
            crate::graph::nodes_wf(nodes@, uf),
            uf.capacity() == len,
            groups@.len() == g,
            forall|g2: int, j: int|
                0 <= g2 < g && 0 <= j < groups@[g2]@.len() ==> (#[trigger] groups@[g2]@[j]) < len
                    && uf.root_of(groups@[g2]@[j] as int) == groups@[g2]@[j] as int,
            forall|g2: int, j1: int, j2: int|
                0 <= g2 < g && 0 <= j1 < j2 < groups@[g2]@.len() ==> groups@[g2]@[j1]
                    != groups@[g2]@[j2],
            balanced == (forall|gg: int|
                0 <= gg < g ==> g_size(assign@, gg, assign@.len() as int) <= l),
            balanced ==> (nodes@ == old(nodes)@ && (forall|g2: int|
                0 <= g2 < g ==> (#[trigger] groups@[g2]@).len() <= l)),
        decreases uf.num_classes(),
    {
        // find an over-sized group
        let mut oversized: Option<usize> = None;
        let mut g2: usize = 0;
        while g2 < g
            invariant_except_break
                oversized is None,
            invariant
                groups@.len() == g,
                g2 <= g,
            ensures
                oversized matches Some(og) ==> (og < g && groups@[og as int]@.len() > l),
            decreases g - g2,
        {
            if groups[g2].len() > l {
                oversized = Some(g2);
                break ;
            }
            g2 = g2 + 1;
        }
        let og = match oversized {
            Some(og) => og,
            None => {
                break ;
            },
        };
        proof {
            assert(!balanced);
        }
        // pick two distinct members at random and unite them, closing
        // the consequences with the closure sweep
        let glen = groups[og].len();
        let i1 = crate::engine::random_below(glen);
        let j0 = crate::engine::random_below(glen - 1);
        let j1 = if j0 >= i1 {
            j0 + 1
        } else {
            j0
        };
        let a = groups[og][i1];
        let b = groups[og][j1];
        let mut mark: Vec<usize> = Vec::new();
        mark.push(a);
        mark.push(b);
        proof {
            assert(a != b);
            assert(!uf.same_class(mark@[0] as int, mark@[1] as int));
        }
        let ghost pre_classes = uf.num_classes();
        crate::engine::closure_sweep(nodes, &mut uf, mark);
        proof {
            assert(uf.num_classes() < pre_classes);
        }
        // re-partition every group by representative
        let mut g3: usize = 0;
        while g3 < g
            invariant
                nodes@.len() == len,
                crate::graph::nodes_wf(nodes@, uf),
                uf.capacity() == len,
                groups@.len() == g,
                g3 <= g,
                uf.num_classes() < pre_classes,
                forall|g4: int, j: int|
                    0 <= g4 < g3 && 0 <= j < groups@[g4]@.len() ==> (#[trigger] groups@[g4]@[j])
                        < len && uf.root_of(groups@[g4]@[j] as int) == groups@[g4]@[j] as int,
                forall|g4: int, j1: int, j2: int|
                    0 <= g4 < g3 && 0 <= j1 < j2 < groups@[g4]@.len() ==> groups@[g4]@[j1]
                        != groups@[g4]@[j2],
                forall|g4: int, j: int|
                    g3 <= g4 < g && 0 <= j < groups@[g4]@.len() ==> (#[trigger] groups@[g4]@[j])
                        < len,
            decreases g - g3,
        {
            let mut old_members: Vec<usize> = Vec::new();
            groups.set_and_swap(g3, &mut old_members);
            let mut newg: Vec<usize> = Vec::new();
            let mut m: usize = 0;
            while m < old_members.len()
                invariant
                    nodes@.len() == len,
                    crate::graph::nodes_wf(nodes@, uf),
                    uf.capacity() == len,
                    m <= old_members@.len(),
                    forall|j: int|
                        0 <= j < old_members@.len() ==> (#[trigger] old_members@[j]) < len,
                    forall|j: int|
                        0 <= j < newg@.len() ==> (#[trigger] newg@[j]) < len && uf.root_of(
                            newg@[j] as int,
                        ) == newg@[j] as int,
                    forall|j1: int, j2: int|
                        0 <= j1 < j2 < newg@.len() ==> newg@[j1] != newg@[j2],
                decreases old_members@.len() - m,
            {
                let root = uf.root(old_members[m]);
                proof {
                    uf.lemma_root_idempotent(old_members@[m as int] as int);
                }
                if !contains_id(&newg, root) {
                    newg.push(root);
                }
                m = m + 1;
            }
            groups.set_and_swap(g3, &mut newg);
            g3 = g3 + 1;
        }
    }
    match crate::graph::construct_guess(nodes.as_slice(), &mut uf, n) {
        Ok(m) => {
            proof {
                assert(uf.wf() && crate::graph::guess_wf(m, nodes@, uf, n as int));
            }
            Ok(m)
        },
        Err(e) => Err(e),
    }
}

} // verus!
