use ext::nassau::depgraph::{Graph, Node, Phase, StemAction, StemScheduler};

fn position(order: &[Node], phase: Phase, s: i32, t: i32) -> Option<usize> {
    order.iter().position(|n| n.phase == phase && n.s == s && n.t == t)
}

fn run(min_degree: i32, max_s: i32, max_n: i32, gap: i32) -> (Vec<Node>, Graph) {
    let mut g = Graph::new(min_degree, max_s, max_n, move |_s, t| t - gap);
    let mut order = Vec::new();
    while let Some(n) = g.pop_ready() {
        order.push(n);
        g.complete(n);
    }
    (order, g)
}

#[test]
fn schedule_visits_every_node_once() {
    let (order, g) = run(0, 2, 3, 1);
    // Rows 0, 1, 2 hold degrees 0..=3, 0..=4, 0..=5: fifteen bidegrees, two nodes each.
    assert_eq!(order.len(), 30);
    assert!(g.undispatched().is_empty());
    for s in 0..=2 {
        for t in 0..=(3 + s) {
            assert!(position(&order, Phase::Compute, s, t).is_some());
            assert!(position(&order, Phase::Register, s, t).is_some());
        }
    }
}

#[test]
fn schedule_respects_dependencies() {
    let (order, _) = run(0, 2, 3, 1);
    for s in 0..=2 {
        for t in 0..=(3 + s) {
            let compute = position(&order, Phase::Compute, s, t).unwrap();
            let register = position(&order, Phase::Register, s, t).unwrap();
            assert!(compute < register);
            if t > 0 {
                let prev = position(&order, Phase::Register, s, t - 1).unwrap();
                assert!(prev < register);
                // The same-row read of this graph is the previous degree.
                assert!(prev < compute);
            }
            if s == 1 && t <= 3 {
                assert!(position(&order, Phase::Register, 0, t).unwrap() < compute);
            }
            if s >= 2 && t >= 1 {
                assert!(position(&order, Phase::Register, s - 1, t - 1).unwrap() < compute);
            }
        }
    }
}

#[test]
fn relaxed_same_row_reads_start_rows_earlier() {
    // Reading two degrees back leaves Compute(s, 1) free of its own row.
    let (order, g) = run(0, 1, 2, 2);
    assert_eq!(order.len(), 2 * (3 + 4));
    assert!(g.undispatched().is_empty());
    for s in 0..=1 {
        for t in 0..=(2 + s) {
            let compute = position(&order, Phase::Compute, s, t).unwrap();
            let register = position(&order, Phase::Register, s, t).unwrap();
            assert!(compute < register);
            if t >= 2 {
                assert!(position(&order, Phase::Register, s, t - 2).unwrap() < compute);
            }
        }
    }
}

#[test]
fn fresh_graph_has_everything_undispatched() {
    let g = Graph::new(0, 1, 1, |_s, t| t - 1);
    assert_eq!(g.undispatched().len(), 2 * (2 + 3));
}

#[test]
fn node_bidegree() {
    let n = Node::compute(3, 7);
    assert_eq!(n.phase, Phase::Compute);
    assert_eq!(n.bidegree(), (3, 7));
}

fn drive(sched: &mut StemScheduler, lifo: bool) -> (Vec<(i32, i32)>, Vec<(i32, i32)>) {
    let mut computing: Vec<(i32, i32)> = Vec::new();
    let mut computed = Vec::new();
    let mut registered = Vec::new();
    loop {
        match sched.next_action() {
            StemAction::Compute(s, t) => computing.push((s, t)),
            StemAction::Register(s, t) => {
                // A bidegree is registered only after it was computed.
                assert!(computed.contains(&(s, t)));
                registered.push((s, t));
            }
            StemAction::Wait => {
                let (s, t) = if lifo { computing.pop().unwrap() } else { computing.remove(0) };
                assert!(sched.computed(s, t));
                computed.push((s, t));
            }
            StemAction::Finished => break,
        }
    }
    assert!(computing.is_empty());
    (computed, registered)
}

#[test]
fn stem_scheduler_runs_to_completion() {
    for lifo in [false, true] {
        let mut sched = StemScheduler::new(0, 3, 4, |s, t| if s <= 1 { t - 1 } else { t - 2 });
        let (computed, registered) = drive(&mut sched, lifo);
        // Rows 0..=3 hold degrees 0..=4, 0..=5, 0..=6, 0..=7: 26 bidegrees.
        assert_eq!(computed.len(), 26);
        assert_eq!(registered.len(), 26);
        assert!(sched.stuck().is_empty());
        // Within a row, registration is in increasing degree.
        for s in 0..=3 {
            let row: Vec<i32> = registered.iter().filter(|b| b.0 == s).map(|b| b.1).collect();
            let mut sorted = row.clone();
            sorted.sort();
            assert_eq!(row, sorted);
        }
    }
}

#[test]
fn stem_scheduler_ignores_unknown_reports() {
    let mut sched = StemScheduler::new(0, 1, 1, |_s, t| t - 1);
    assert!(!sched.computed(0, 0));
    assert!(!sched.computed(5, 5));
    assert_eq!(sched.next_action(), StemAction::Compute(0, 0));
    assert!(!sched.computed(0, 1));
    assert_eq!(sched.next_action(), StemAction::Wait);
    assert!(sched.computed(0, 0));
    assert!(!sched.computed(0, 0));
    assert_eq!(sched.next_action(), StemAction::Register(0, 0));
}
