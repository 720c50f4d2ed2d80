//! Tests of the layered assignment refinement.

use higashi_matsudo::graph::Node;
use higashi_matsudo::layered::{apply_move, assign_to_map, best_move, cost, delta_move};

/// Six nodes in a cycle, two layers over three label classes; doors 0
/// and 1 settled forward and backward, the rest closed.
fn six_cycle() -> Vec<Node> {
    let mut nodes: Vec<Node> = (0..6).map(|i| Node::new((i % 3) as u8)).collect();
    for i in 0..6 {
        nodes[i].neighbors[0] = Some((i + 1) % 6);
        nodes[i].neighbors[1] = Some((i + 5) % 6);
    }
    nodes
}

#[test]
fn cost_counts_impurity() {
    let nodes = six_cycle();
    // everything in one group: 4 off-label nodes plus 4 per settled door
    let assign = vec![0usize; 6];
    assert_eq!(cost(&assign, &nodes, 3), 12);
    // the layered assignment: every group label-pure and door-pure
    let good = vec![0usize, 1, 2, 0, 1, 2];
    assert_eq!(cost(&good, &nodes, 3), 0);
}

#[test]
fn delta_equals_recompute() {
    let nodes = six_cycle();
    let mut assign = vec![0usize, 1, 2, 0, 1, 2];
    assign[0] = 1;
    let g = 3;
    for i in 0..6usize {
        for t in 0..g as usize {
            let before = cost(&assign, &nodes, g);
            let d = delta_move(&assign, &nodes, i, t, g);
            let mut moved = assign.clone();
            moved[i] = t;
            let after = cost(&moved, &nodes, g);
            assert_eq!(d, after - before, "move {} -> {}", i, t);
        }
    }
}

#[test]
fn greedy_repairs_one_bad_assignment() {
    let nodes = six_cycle();
    let mut assign = vec![1usize, 1, 2, 0, 1, 2];
    let g = 3;
    // best-improvement sweeps until no move helps
    loop {
        let mut improved = false;
        for i in 0..assign.len() {
            let (d, to) = best_move(&assign, &nodes, i, g);
            if d < 0 {
                apply_move(&mut assign, i, to);
                improved = true;
            }
        }
        if !improved {
            break;
        }
    }
    assert_eq!(cost(&assign, &nodes, g), 0);
    assert_eq!(assign[0], assign[3]);
    assert_eq!(assign[1], assign[4]);
    assert_eq!(assign[2], assign[5]);
}

#[test]
fn collapse_produces_three_room_map() {
    // two layers over a three-room cycle: collapse the six-node cycle
    // down to its three canonical rooms, fully settled
    let mut nodes: Vec<Node> = (0..6).map(|i| Node::new((i % 3) as u8)).collect();
    for i in 0..6 {
        for d in 0..3 {
            nodes[i].neighbors[d] = Some((i + 1) % 6);
        }
        for d in 3..6 {
            nodes[i].neighbors[d] = Some((i + 5) % 6);
        }
    }
    let assign = vec![0usize, 1, 2, 0, 1, 2];
    let guess = assign_to_map(&assign, &mut nodes, 3, 1, 3).unwrap();
    assert_eq!(guess.rooms.len(), 3);
    assert_eq!(guess.connections.len(), 9);
    assert_eq!(guess.starting_room, 0);
}

#[test]
fn converged_groups_emit_full_map() {
    // group sizes already equal the layer count: nothing collapses and
    // all six classes stay distinct rooms
    let mut nodes: Vec<Node> = (0..6).map(|i| Node::new((i % 3) as u8)).collect();
    for i in 0..6 {
        for d in 0..3 {
            nodes[i].neighbors[d] = Some((i + 1) % 6);
        }
        for d in 3..6 {
            nodes[i].neighbors[d] = Some((i + 5) % 6);
        }
    }
    let assign = vec![0usize, 1, 2, 0, 1, 2];
    let guess = assign_to_map(&assign, &mut nodes, 3, 2, 6).unwrap();
    assert_eq!(guess.rooms.len(), 6);
    assert_eq!(guess.connections.len(), 18);
}
