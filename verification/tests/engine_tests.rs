//! Tests of the exploration engine against a local mock oracle.

use higashi_matsudo::engine::{
    apply_probe_events, apply_walk, build_probe_plans, closure_sweep, collect_marks,
    expand_events, find_different_label, interpret_guess_response, plan_to_wire, random_extend,
    reach, validate_groups,
};
use higashi_matsudo::graph::{construct_door_open_plan, construct_guess, Node};
use higashi_matsudo::union_find::UnionFind;
use higashi_matsudo::{EngineError, Event, ExploreQuery, GuessRequestMap, Problem};

/// A local oracle over a fixed hidden library: per-room labels and an
/// involutive door pairing.
struct Mock {
    labels: Vec<u8>,
    pairs: Vec<[(usize, usize); 6]>,
    start: usize,
}

impl Mock {
    fn explore(&self, plan: &[ExploreQuery]) -> Vec<u8> {
        let mut labs = self.labels.clone();
        let mut cur = self.start;
        let mut out = vec![labs[cur]];
        for q in plan {
            match q {
                ExploreQuery::Open { door } => {
                    let (r2, _) = self.pairs[cur][*door];
                    cur = r2;
                    out.push(labs[cur]);
                }
                ExploreQuery::Charcoal { label } => {
                    labs[cur] = *label;
                    out.push(labs[cur]);
                }
            }
        }
        out
    }

    /// Check a guess map by bisimulation from the start room.
    fn check_guess(&self, m: &GuessRequestMap) -> bool {
        let n = self.labels.len();
        if m.rooms.len() != n || m.connections.len() != 3 * n {
            return false;
        }
        // adjacency of the guessed map
        let mut adj = vec![[usize::MAX; 6]; n];
        for c in &m.connections {
            if c.from.room >= n || c.to.room >= n || c.from.door >= 6 || c.to.door >= 6 {
                return false;
            }
            if adj[c.from.room][c.from.door] != usize::MAX
                || adj[c.to.room][c.to.door] != usize::MAX
            {
                return false;
            }
            adj[c.from.room][c.from.door] = c.to.room;
            adj[c.to.room][c.to.door] = c.from.room;
        }
        // product BFS: every reachable pair must agree on labels and
        // every door must lead to a matching pair
        let mut matched = vec![usize::MAX; n];
        let mut queue = std::collections::VecDeque::new();
        matched[self.start] = m.starting_room;
        queue.push_back(self.start);
        while let Some(r) = queue.pop_front() {
            let gr = matched[r];
            if m.rooms[gr] != self.labels[r] {
                return false;
            }
            for d in 0..6 {
                let (r2, _) = self.pairs[r][d];
                let g2 = adj[gr][d];
                if g2 == usize::MAX {
                    return false;
                }
                if matched[r2] == usize::MAX {
                    matched[r2] = g2;
                    queue.push_back(r2);
                } else if matched[r2] != g2 {
                    return false;
                }
            }
        }
        true
    }
}

/// Three rooms, labels 0, 1, 2; doors 0/1 run a cycle forward and
/// backward, doors 2/3 likewise, doors 4/5 pair up within each room.
fn probatio_mock() -> Mock {
    let n = 3;
    let mut pairs = vec![[(0usize, 0usize); 6]; n];
    for i in 0..n {
        let j = (i + 1) % n;
        pairs[i][0] = (j, 1);
        pairs[j][1] = (i, 0);
        pairs[i][2] = (j, 3);
        pairs[j][3] = (i, 2);
        pairs[i][4] = (i, 5);
        pairs[i][5] = (i, 4);
    }
    Mock { labels: vec![0, 1, 2], pairs, start: 0 }
}

struct Lcg(u64);

impl Lcg {
    fn next_door(&mut self) -> usize {
        self.0 = self.0.wrapping_mul(6364136223846793005).wrapping_add(1442695040888963407);
        ((self.0 >> 33) % 6) as usize
    }
}

/// Run the full exploration engine against a mock and return the guess.
fn run_engine(mock: &Mock, n: usize) -> GuessRequestMap {
    let mut lcg = Lcg(7);
    let mut uf = UnionFind::new(n * 1000);
    let mut nodes: Vec<Node> = Vec::new();
    let mut plan: Vec<ExploreQuery> = Vec::new();
    let mut iterations = 0;
    loop {
        iterations += 1;
        assert!(iterations <= 6 * n, "engine did not converge in 6N iterations");
        while plan.len() < 6 * n {
            plan.push(ExploreQuery::open(lcg.next_door()));
        }
        let labels = mock.explore(&plan);
        let events = expand_events(&plan, &labels).unwrap();
        apply_walk(&mut nodes, &mut uf, &events).unwrap();
        let probes = build_probe_plans(&nodes, &mut uf, &plan).unwrap();
        for p in &probes {
            let labs = mock.explore(p);
            let evs = expand_events(p, &labs).unwrap();
            apply_probe_events(&mut nodes, &mut uf, &evs).unwrap();
        }
        match construct_door_open_plan(&nodes, &mut uf) {
            Some(np) => plan = np,
            None => break,
        }
    }
    construct_guess(&nodes, &mut uf, n).unwrap()
}

#[test]
fn engine_solves_probatio_mock() {
    let mock = probatio_mock();
    let guess = run_engine(&mock, 3);
    assert_eq!(guess.rooms.len(), 3);
    assert_eq!(guess.connections.len(), 9);
    assert_eq!(guess.starting_room, 0);
    assert!(mock.check_guess(&guess));
}

#[test]
fn guess_builder_is_deterministic() {
    let mock = probatio_mock();
    let a = run_engine(&mock, 3);
    let b = run_engine(&mock, 3);
    assert_eq!(a.rooms, b.rooms);
    assert_eq!(a.starting_room, b.starting_room);
    assert_eq!(a.connections, b.connections);
}

#[test]
fn find_different_label_picks_smallest() {
    assert_eq!(find_different_label(0), 1);
    assert_eq!(find_different_label(1), 0);
    assert_eq!(find_different_label(2), 0);
    assert_eq!(find_different_label(3), 0);
}

#[test]
fn plan_wire_form() {
    let plan = vec![
        ExploreQuery::open(0),
        ExploreQuery::charcoal(2),
        ExploreQuery::open(5),
    ];
    assert_eq!(plan_to_wire(&plan), b"0[2]5".to_vec());
}

#[test]
fn expand_events_interleaves() {
    let plan = vec![ExploreQuery::open(3), ExploreQuery::charcoal(1), ExploreQuery::open(0)];
    let labels = vec![0u8, 2, 1, 2];
    let evs = expand_events(&plan, &labels).unwrap();
    assert_eq!(
        evs,
        vec![
            Event::VisitRoom { label: 0 },
            Event::OpenDoor { door: 3 },
            Event::VisitRoom { label: 2 },
            Event::Overwrite { label: 1 },
            Event::OpenDoor { door: 0 },
            Event::VisitRoom { label: 2 },
        ]
    );
}

#[test]
fn expand_events_rejects_bad_streams() {
    let plan = vec![ExploreQuery::open(3)];
    assert_eq!(expand_events(&plan, &vec![0u8]), Err(EngineError::MalformedEvents));
    assert_eq!(expand_events(&plan, &vec![0u8, 9]), Err(EngineError::MalformedEvents));
}

#[test]
fn random_extend_pads_with_doors() {
    let mut plan = vec![ExploreQuery::charcoal(1)];
    random_extend(&mut plan, 12);
    assert_eq!(plan.len(), 12);
    assert!(matches!(plan[0], ExploreQuery::Charcoal { label: 1 }));
    for q in &plan[1..] {
        match q {
            ExploreQuery::Open { door } => assert!(*door < 6),
            _ => panic!("padding must open doors"),
        }
    }
}

#[test]
fn probe_collapse_unites_marked_nodes() {
    // two nodes both conjectured label 2, linked through door 0; the
    // probe marks node 0 and then observes the mark at node 1
    let mut nodes = vec![Node::new(2), Node::new(2)];
    nodes[0].neighbors[0] = Some(1);
    let mut uf = UnionFind::new(10);
    let events = vec![
        Event::VisitRoom { label: 2 },
        Event::Overwrite { label: 3 },
        Event::OpenDoor { door: 0 },
        Event::VisitRoom { label: 3 },
    ];
    let marks = collect_marks(&nodes, &uf, &events).unwrap();
    assert_eq!(marks, vec![0, 1]);
    apply_probe_events(&mut nodes, &mut uf, &events).unwrap();
    assert_eq!(uf.find(0), uf.find(1));
}

#[test]
fn idle_probe_changes_nothing() {
    // a probe whose mark set lies inside one canonical class of a
    // consistent, canonical conjecture performs no union and no rewrite
    let mut nodes = vec![Node::new(1), Node::new(1)];
    for d in 0..6 {
        nodes[0].neighbors[d] = Some(0);
        nodes[1].neighbors[d] = Some(0);
    }
    let mut uf = UnionFind::new(10);
    uf.unite(0, 1);
    let root = uf.find(0);
    // canonicalize the slots first, as a sweep would leave them
    for i in 0..2 {
        for d in 0..6 {
            nodes[i].neighbors[d] = Some(root);
        }
    }
    let before = nodes.clone();
    let roots_before: Vec<usize> = (0..10).map(|i| uf.find(i)).collect();
    let marks = vec![0usize, 1];
    closure_sweep(&mut nodes, &mut uf, marks);
    let roots_after: Vec<usize> = (0..10).map(|i| uf.find(i)).collect();
    for i in 0..2 {
        assert_eq!(nodes[i].label, before[i].label);
        assert_eq!(nodes[i].neighbors, before[i].neighbors);
    }
    assert_eq!(roots_before, roots_after);
}

#[test]
fn class_count_never_grows() {
    let mut nodes = vec![Node::new(0), Node::new(0), Node::new(0)];
    for i in 0..3 {
        for d in 0..6 {
            nodes[i].neighbors[d] = Some((i + 1) % 3);
        }
    }
    let mut uf = UnionFind::new(6);
    let count = |uf: &mut UnionFind| {
        let mut roots: Vec<usize> = (0..6).map(|i| uf.find(i)).collect();
        roots.sort();
        roots.dedup();
        roots.len()
    };
    let before = count(&mut uf);
    closure_sweep(&mut nodes, &mut uf, vec![0, 1]);
    let after = count(&mut uf);
    assert!(after <= before);
    assert!(validate_groups(&nodes, &uf));
}

#[test]
fn bfs_plan_finds_first_closed_door() {
    // node 0 fully settled to node 1, node 1 has a closed door
    let mut nodes = vec![Node::new(0), Node::new(1)];
    for d in 0..6 {
        nodes[0].neighbors[d] = Some(1);
    }
    for d in 0..5 {
        nodes[1].neighbors[d] = Some(0);
    }
    let mut uf = UnionFind::new(4);
    let plan = construct_door_open_plan(&nodes, &mut uf).unwrap();
    // walk to node 1 through any door, then open its closed door 5
    assert_eq!(plan.len(), 2);
    assert!(matches!(plan[1], ExploreQuery::Open { door: 5 }));
    // a fully settled conjecture yields no plan
    nodes[1].neighbors[5] = Some(0);
    assert!(construct_door_open_plan(&nodes, &mut uf).is_none());
}

#[test]
fn reach_walks_the_canonical_view() {
    let mut nodes = vec![Node::new(0), Node::new(1)];
    nodes[0].neighbors[2] = Some(1);
    nodes[1].neighbors[3] = Some(0);
    let mut uf = UnionFind::new(4);
    let plan = vec![ExploreQuery::open(2), ExploreQuery::open(3), ExploreQuery::open(2)];
    assert_eq!(reach(&nodes, &plan, &mut uf), 1);
}

#[test]
fn self_loop_library_pairs_doors_ascending() {
    // one room, every door leading back to it: three connections, each
    // pairing a door with the next one
    let mut nodes = vec![Node::new(0)];
    for d in 0..6 {
        nodes[0].neighbors[d] = Some(0);
    }
    let mut uf = UnionFind::new(1);
    let guess = construct_guess(&nodes, &mut uf, 1).unwrap();
    assert_eq!(guess.rooms, vec![0]);
    assert_eq!(guess.starting_room, 0);
    assert_eq!(guess.connections.len(), 3);
    let expected: Vec<(usize, usize, usize, usize)> =
        vec![(0, 0, 0, 1), (0, 2, 0, 3), (0, 4, 0, 5)];
    let got: Vec<(usize, usize, usize, usize)> = guess
        .connections
        .iter()
        .map(|c| (c.from.room, c.from.door, c.to.room, c.to.door))
        .collect();
    assert_eq!(got, expected);
}

#[test]
fn rejected_guess_is_surfaced() {
    assert_eq!(interpret_guess_response(true), Ok(()));
    assert_eq!(
        interpret_guess_response(false),
        Err(EngineError::GuessRejected)
    );
}

#[test]
fn union_find_is_idempotent() {
    let mut uf = UnionFind::new(100);
    uf.unite(3, 7);
    uf.unite(7, 12);
    uf.unite(40, 41);
    for x in 0..100 {
        let r = uf.find(x);
        assert_eq!(uf.find(r), r);
    }
    assert_eq!(uf.find(3), uf.find(12));
    assert_ne!(uf.find(3), uf.find(40));
}

#[test]
fn problem_catalogue() {
    assert_eq!(Problem::Probatio.to_str(), "probatio");
    assert_eq!(Problem::Probatio.problem_size(), 3);
    assert_eq!(Problem::Iod.problem_size(), 90);
    assert_eq!(Problem::Aleph.layer_count(), 2);
    assert_eq!(Problem::Vau.layer_count(), 3);
    assert_eq!(Problem::Primus.layer_count(), 1);
}
