use modex::change_queue::QueuedSet;
use modex::graph::{NodeRef, TranslationEnds, TranslationGraph, ValidationError};
use modex::model::{Block, Model};
use modex::round::Round;
use modex::translations::TranslationResult;
use modex::value::Value;

fn node(instance: usize, identifier: &str, filename: &str) -> NodeRef {
    NodeRef { instance, identifier: identifier.to_string(), sedaroml_filename: filename.to_string() }
}

fn ends(from: &NodeRef, to: &NodeRef) -> TranslationEnds {
    TranslationEnds { from: copy(from), to: copy(to) }
}

fn copy(n: &NodeRef) -> NodeRef {
    node(n.instance, &n.identifier, &n.sedaroml_filename)
}

fn check(ts: Vec<TranslationEnds>) -> TranslationGraph {
    match TranslationGraph::validate(&ts) {
        Ok(g) => g,
        Err(e) => panic!("{}", e.message()),
    }
}

#[test]
#[should_panic(expected = "`a` == `a`")]
fn test_exchange_validation_iden_uniqueness() {
    let a = node(0, "a", "a.txt");
    let b = node(1, "a", "b.txt");
    check(vec![ends(&a, &b)]);
}

#[test]
#[should_panic(expected = "`a` & `a`")]
fn test_exchange_validation_recursive_nodes() {
    let a = node(0, "a", "a.txt");
    check(vec![ends(&a, &a)]);
}

#[test]
#[should_panic(expected = "Duplicate model identifier detected: `b`")]
fn test_exchange_validation_same_iden_multiple_nodes() {
    let a = node(0, "a", "a.txt");
    let b = node(1, "b", "b.txt");
    let c = node(2, "b", "c.txt");
    check(vec![ends(&a, &b), ends(&a, &c)]);
}

#[test]
#[should_panic(expected = "Duplicate filename detected: `a.txt`")]
fn test_exchange_validation_duplicate_filenames() {
    let a = node(0, "a", "a.txt");
    let b = node(1, "b", "a.txt");
    check(vec![ends(&a, &b)]);
}

#[test]
fn duplicate_pair_is_rejected_in_either_direction() {
    let a = node(0, "a", "a.txt");
    let b = node(1, "b", "b.txt");
    match TranslationGraph::validate(&vec![ends(&a, &b), ends(&b, &a)]) {
        Err(ValidationError::DuplicatePair(f, t)) => {
            assert_eq!(f, "b");
            assert_eq!(t, "a");
        },
        _ => panic!("expected a duplicate pair"),
    }
    let e = TranslationGraph::validate(&vec![ends(&a, &b), ends(&a, &b)]).err().unwrap();
    assert_eq!(e.message(), "Duplicate translation pair detected: From: `a`, To: `b`");
}

#[test]
fn each_rule_gives_its_own_error() {
    let a = node(0, "a", "a.txt");
    let a2 = node(5, "a", "z.txt");
    let b = node(1, "b", "b.txt");
    assert!(matches!(TranslationGraph::validate(&vec![ends(&a, &a)]), Err(ValidationError::SameInstance(_, _))));
    assert!(matches!(TranslationGraph::validate(&vec![ends(&a, &a2)]), Err(ValidationError::SameIdentifier(_, _))));
    assert!(matches!(
        TranslationGraph::validate(&vec![ends(&a, &b), ends(&a2, &b)]),
        Err(ValidationError::DuplicateIdentifier(_))
    ));
    let e = TranslationGraph::validate(&vec![ends(&a, &a)]).err().unwrap();
    assert_eq!(e.message(), "Translation `from` and `to` models must be different: Offending model identifiers: `a` & `a`");
    let e = TranslationGraph::validate(&vec![ends(&a, &a2)]).err().unwrap();
    assert_eq!(e.message(), "Translation `from` and `to` models must have different identifiers: `a` == `a`");
}

#[test]
fn graph_lists_edges_in_registration_order() {
    let a = node(0, "a", "a.txt");
    let b = node(1, "b", "b.txt");
    let c = node(2, "c", "c.txt");
    let g = check(vec![ends(&a, &b), ends(&b, &c)]);
    assert_eq!(g.nodes.len(), 3);
    let hb = g.hops.get("b").unwrap();
    assert_eq!(hb.list.len(), 2);
    assert_eq!(hb.list[0].to, "a");
    assert!(!hb.list[0].forward);
    assert_eq!(hb.list[1].to, "c");
    assert!(hb.list[1].forward);
    assert_eq!(hb.list[1].translation, 1);
}

fn num(v: i64) -> Value {
    Value::from_json_text(v.to_string())
}

fn model_with(v: i64) -> Model {
    let mut m = Model::new();
    let mut b = Block::new();
    b.insert("v".to_string(), num(v));
    m.blocks.insert("i".to_string(), b);
    m
}

fn value_of(m: &Model) -> i64 {
    m.blocks.get("i").unwrap().get("v").unwrap().as_json_text().parse::<i64>().unwrap()
}

type Op = fn(&Model, &mut Model) -> TranslationResult;

fn set_v(to: &mut Model, v: i64) -> TranslationResult {
    if value_of(to) == v {
        return TranslationResult::Unchanged;
    }
    *to = model_with(v);
    TranslationResult::Changed
}

fn add_one(f: &Model, t: &mut Model) -> TranslationResult { set_v(t, value_of(f) + 1) }
fn sub_one(f: &Model, t: &mut Model) -> TranslationResult { set_v(t, value_of(f) - 1) }
fn times_two(f: &Model, t: &mut Model) -> TranslationResult { set_v(t, value_of(f) * 2) }
fn half(f: &Model, t: &mut Model) -> TranslationResult { set_v(t, value_of(f) / 2) }
fn times_ten(f: &Model, t: &mut Model) -> TranslationResult { set_v(t, value_of(f) * 10) }
fn tenth(f: &Model, t: &mut Model) -> TranslationResult { set_v(t, value_of(f) / 10) }
fn noop(_: &Model, _: &mut Model) -> TranslationResult { TranslationResult::Unchanged }

/// Runs rounds over in-memory models until the queue is empty; a node that
/// a translation changed is queued again, as its watcher would do after the
/// write. Returns the number of rounds completed and the changed nodes of
/// the last one.
fn run(
    g: &TranslationGraph,
    models: &mut Vec<Model>,
    ops: &Vec<Vec<(Op, Op)>>,
    queue: &mut QueuedSet<String>,
) -> (usize, Vec<String>, Vec<i64>) {
    let pos = |id: &str| g.nodes.iter().position(|n| n.identifier == id).unwrap();
    let mut round = Round::new();
    let mut rounds = 0;
    let mut last_changed = vec![];
    let mut first_round: Vec<i64> = vec![];
    while let Some(src) = queue.dequeue() {
        round.visit_source(&src);
        let hops = g.hops.get(&src).unwrap();
        for hop in &hops.list {
            if !round.should_translate(&hop.to) {
                continue;
            }
            let from = models[pos(&src)].clone();
            let to = &mut models[pos(&hop.to)];
            let mut changed = false;
            for (fwd, rev) in &ops[hop.translation] {
                let op = if hop.forward { fwd } else { rev };
                if op(&from, to) == TranslationResult::Changed {
                    changed = true;
                }
            }
            if changed {
                queue.enqueue(hop.to.clone());
            }
            let result = if changed { TranslationResult::Changed } else { TranslationResult::Unchanged };
            round.after_translation(g, &hop.to, result);
        }
        if round.is_complete(g) {
            let changed_now = round.changed.clone();
            if !changed_now.is_empty() {
                assert!(!round.close_out(&vec![]));
            }
            assert!(round.close_out(&changed_now));
            rounds += 1;
            if rounds == 1 {
                first_round = models.iter().map(value_of).collect();
            }
            last_changed = changed_now;
        }
    }
    (rounds, last_changed, first_round)
}

#[test]
fn test_round_scenario() {
    let names = ["a", "b", "c", "d", "e"];
    let nodes: Vec<NodeRef> = names.iter().enumerate().map(|(i, n)| node(i, n, &format!("{}.txt", n))).collect();
    let g = check(vec![
        ends(&nodes[0], &nodes[1]),
        ends(&nodes[1], &nodes[2]),
        ends(&nodes[1], &nodes[4]),
        ends(&nodes[2], &nodes[3]),
    ]);
    let ops: Vec<Vec<(Op, Op)>> = vec![
        vec![(add_one, sub_one)],
        vec![(times_two, half)],
        vec![(times_ten, tenth)],
        vec![(noop, noop), (times_two, half)],
    ];
    let mut models: Vec<Model> = g.nodes.iter().map(|n| model_with(if n.identifier == "e" { 10 } else { 0 })).collect();
    let mut queue = QueuedSet::new();
    queue.enqueue("e".to_string());
    let (rounds, _, first) = run(&g, &mut models, &ops, &mut queue);
    assert!(rounds >= 1);
    let at = |id: &str| g.nodes.iter().position(|n| n.identifier == id).unwrap();
    // after the first round, and unchanged by any later one
    for id in ["e", "b", "a", "c", "d"] {
        assert_eq!(first[at(id)], value_of(&models[at(id)]));
    }
    let v = |id: &str| first[at(id)];
    assert_eq!(v("e"), 10);
    assert_eq!(v("b"), 1);
    assert_eq!(v("a"), 0);
    assert_eq!(v("c"), 2);
    assert_eq!(v("d"), 4);
}

#[test]
fn unchanged_everywhere_saturates_in_one_round() {
    let names = ["a", "b", "c", "d"];
    let nodes: Vec<NodeRef> = names.iter().enumerate().map(|(i, n)| node(i, n, &format!("{}.txt", n))).collect();
    let g = check(vec![ends(&nodes[0], &nodes[1]), ends(&nodes[1], &nodes[2]), ends(&nodes[2], &nodes[3])]);
    let ops: Vec<Vec<(Op, Op)>> = vec![vec![(noop, noop)], vec![(noop, noop)], vec![(noop, noop)]];
    let mut models: Vec<Model> = g.nodes.iter().map(|_| model_with(0)).collect();
    let mut queue = QueuedSet::new();
    queue.enqueue("a".to_string());
    let (rounds, changed, _) = run(&g, &mut models, &ops, &mut queue);
    assert_eq!(rounds, 1);
    assert!(changed.is_empty());
}

#[test]
fn unchanged_closure_stops_at_visited_nodes() {
    let names = ["s", "n", "m", "x"];
    let nodes: Vec<NodeRef> = names.iter().enumerate().map(|(i, n)| node(i, n, &format!("{}.txt", n))).collect();
    let g = check(vec![ends(&nodes[0], &nodes[1]), ends(&nodes[1], &nodes[2]), ends(&nodes[0], &nodes[3])]);
    let mut round = Round::new();
    round.visit_source(&"s".to_string());
    round.mark_unchanged(&g, &"n".to_string());
    assert!(!round.should_translate(&"n".to_string()));
    assert!(!round.should_translate(&"m".to_string()));
    assert!(round.should_translate(&"x".to_string()));
    assert!(!round.is_complete(&g));
    round.visit_source(&"x".to_string());
    assert!(round.is_complete(&g));
}

#[test]
fn barrier_waits_for_every_changed_node() {
    let mut round = Round::new();
    round.record_changed(&"b".to_string());
    round.record_changed(&"c".to_string());
    assert!(!round.should_translate(&"b".to_string()));
    assert!(!round.all_changed_reported(&vec!["b".to_string()]));
    assert!(!round.close_out(&vec!["b".to_string()]));
    assert_eq!(round.changed.len(), 2);
    assert!(round.all_changed_reported(&vec!["c".to_string(), "b".to_string()]));
    assert!(round.close_out(&vec!["c".to_string(), "b".to_string()]));
    assert!(round.changed.is_empty() && round.visited.is_empty());
    assert!(Round::new().close_out(&vec![]));
}

#[test]
fn a_changed_destination_is_not_translated_into_again() {
    // s changes x and y; x, taken from the queue next, must not translate into y
    let names = ["s", "x", "y"];
    let nodes: Vec<NodeRef> = names.iter().enumerate().map(|(i, n)| node(i, n, &format!("{}.txt", n))).collect();
    let g = check(vec![ends(&nodes[0], &nodes[1]), ends(&nodes[0], &nodes[2]), ends(&nodes[1], &nodes[2])]);
    let mut round = Round::new();
    round.visit_source(&"s".to_string());
    round.after_translation(&g, &"x".to_string(), TranslationResult::Changed);
    round.after_translation(&g, &"y".to_string(), TranslationResult::Changed);
    round.visit_source(&"x".to_string());
    assert!(!round.should_translate(&"y".to_string()));
    assert!(round.is_complete(&g));
}
