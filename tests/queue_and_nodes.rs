use modex::change_queue::QueuedSet;
use modex::commands::{local_file_reply, start_reply, startup_step, ConflictResolutions, NodeCommands, NodeResponses, StartupStep};
use modex::model::{Block, Model};
use modex::nodes::{
    cosim_model, cosim_model_filename, job_is_running, cosim_url, excel_model_filename, metadata_filename, needs_refetch,
    produced_value, sedaro_model_filename, strip_reserved, RemoteMetadata, SedaroCredentials, SimulationJobId,
    TemplatePatch,
};
use modex::value::Value;
use modex::watchers::{ExcelWatcher, FileWatcher, Watcher};
use std::sync::{Arc, Mutex};
use std::time::Duration;

fn num(v: i64) -> Value {
    Value::from_json_text(v.to_string())
}

#[test]
fn queue_keeps_each_identifier_once_in_order() {
    let mut q: QueuedSet<String> = QueuedSet::new();
    assert!(q.peek().is_none());
    q.enqueue("a".to_string());
    q.enqueue("b".to_string());
    q.enqueue("a".to_string());
    assert_eq!(q.peek(), Some(&"a".to_string()));
    assert_eq!(q.dequeue(), Some("a".to_string()));
    q.enqueue("a".to_string());
    assert_eq!(q.dequeue(), Some("b".to_string()));
    assert_eq!(q.dequeue(), Some("a".to_string()));
    assert_eq!(q.dequeue(), None);
}

#[test]
fn watchers_start_unbound_and_bind() {
    let mut w = FileWatcher::new("a".to_string(), "a.json".to_string());
    assert_eq!(w.identifier(), "a");
    assert!(w.change_queue().is_none());
    let q = Arc::new(Mutex::new(QueuedSet::new()));
    w.bind(q.clone());
    assert!(w.change_queue().is_some());
    let e = ExcelWatcher::new("x".to_string(), "x.xlsx".to_string(), "x.xlsx.json".to_string());
    assert_eq!(e.identifier(), "x");
    assert_eq!(e.sedaroml_filename, "x.xlsx.json");
    assert!(e.change_queue().is_none());
}

#[test]
fn node_names_and_endpoints() {
    assert_eq!(sedaro_model_filename(&"br".to_string()), "br.json");
    assert_eq!(metadata_filename(&"br".to_string()), "br.metadata.json");
    assert_eq!(excel_model_filename(&"t.xlsx".to_string()), "t.xlsx.json");
    assert_eq!(cosim_model_filename(&"j".to_string(), &"ag".to_string(), &"st".to_string()), "j_ag_st.json");
    assert_eq!(
        cosim_url(&"h".to_string(), &"j".to_string(), &"ag".to_string(), &"st".to_string()),
        "h/simulations/jobs/j/externals/ag/st"
    );
    assert_eq!(SimulationJobId::Id("7".to_string()).status_url(&"h".to_string()), "h/simulations/jobs/7");
    assert_eq!(
        SimulationJobId::LatestForScenario("s".to_string()).status_url(&"h".to_string()),
        "h/simulations/branches/s/control?latest"
    );
    assert_eq!(SimulationJobId::LatestForScenario("s".to_string()).job_iden(), "s");
    assert!(job_is_running("RUNNING"));
    assert!(!job_is_running("PENDING"));
    let (k, v) = SedaroCredentials::ApiKey("SECRET-REDACTED".to_string()).auth_header();
    assert_eq!((k.as_str(), v.as_str()), ("X_API_KEY", "SECRET-REDACTED"));
    let (k, _) = SedaroCredentials::AuthHandle("h".to_string()).auth_header();
    assert_eq!(k, "X_AUTH_HANDLE");
}

#[test]
fn metadata_drops_quotes() {
    let m = RemoteMetadata::from_stored("\"2024-05-01\"");
    assert_eq!(m.date_modified, "2024-05-01");
    assert!(m.is_stale(&"2024-05-02".to_string()));
    assert!(!m.is_stale(&"2024-05-01".to_string()));
}

#[test]
fn reserved_root_keys_are_dropped_in_order() {
    let mut root = Block::new();
    root.insert("name".to_string(), num(1));
    root.insert("_supers".to_string(), num(2));
    root.insert("migrated".to_string(), num(3));
    root.insert("zeta".to_string(), num(4));
    root.insert("issues".to_string(), num(5));
    let r = strip_reserved(&root);
    assert_eq!(r.len(), 2);
    assert_eq!(r.get_index(0).0, "name");
    assert_eq!(r.get_index(1).0, "zeta");
}

#[test]
fn patch_for_a_difference() {
    let mut old = Model::new();
    let mut b1 = Block::new();
    b1.insert("v".to_string(), num(1));
    old.blocks.insert("1".to_string(), b1);
    let mut gone = Block::new();
    gone.insert("v".to_string(), num(9));
    old.blocks.insert("2".to_string(), gone);
    old.root.insert("r".to_string(), num(0));
    let mut new = Model::new();
    let mut b1n = Block::new();
    b1n.insert("v".to_string(), num(2));
    new.blocks.insert("1".to_string(), b1n);
    let mut b3 = Block::new();
    b3.insert("v".to_string(), num(3));
    new.blocks.insert("3".to_string(), b3);
    new.root.insert("r".to_string(), num(5));
    let d = old.diff(&new);
    assert!(needs_refetch(&d));
    let p = TemplatePatch::for_diff(&new, &d);
    assert_eq!(p.blocks.len(), 2);
    assert!(p.blocks[0].get("v").unwrap() == &num(2));
    assert!(p.blocks[1].get("v").unwrap() == &num(3));
    assert_eq!(p.delete, vec!["2".to_string()]);
    assert!(p.root.get("r").unwrap() == &num(5));
}

#[test]
fn cosimulation_values() {
    let m = cosim_model(num(3), Value::from_json_text("null".to_string()));
    assert_eq!(m.root.get_index(0).0, "consumed_value");
    assert_eq!(m.root.get_index(1).0, "produced_value");
    let mut n = m.clone();
    n.root.insert("produced_value".to_string(), num(8));
    let d = m.diff(&n);
    assert!(produced_value(&d).unwrap() == num(8));
    assert!(produced_value(&m.diff(&m)).is_none());
}

#[test]
fn replies_of_a_local_file_node() {
    assert!(matches!(local_file_reply(&NodeCommands::Start, Duration::ZERO), Some(NodeResponses::Started)));
    assert!(matches!(local_file_reply(&NodeCommands::Stop, Duration::ZERO), Some(NodeResponses::Stopped)));
    assert!(matches!(
        local_file_reply(&NodeCommands::Changed(Model::new().diff(&Model::new())), Duration::ZERO),
        Some(NodeResponses::Done(_))
    ));
    assert!(local_file_reply(&NodeCommands::Done, Duration::ZERO).is_none());
    assert!(local_file_reply(&NodeCommands::ResolveConflict(ConflictResolutions::KeepRep), Duration::ZERO).is_none());
    assert!(matches!(startup_step(NodeResponses::Started), StartupStep::Proceed));
    assert!(matches!(startup_step(NodeResponses::Stopped), StartupStep::Fatal));
    assert!(matches!(startup_step(NodeResponses::Conflict(Model::new().diff(&Model::new()))), StartupStep::Resolve(_)));
}

#[test]
fn start_reply_reports_a_conflict_only_on_a_difference() {
    let mut stored = Model::new();
    stored.root.insert("a".to_string(), num(1));
    let same = stored.clone();
    assert!(matches!(start_reply(&stored, &same), NodeResponses::Started));
    let mut other = stored.clone();
    other.root.insert("a".to_string(), num(2));
    match start_reply(&stored, &other) {
        NodeResponses::Conflict(d) => assert_eq!(d.root.updated_fields.len(), 1),
        _ => panic!("expected a conflict"),
    }
}

#[test]
fn block_queries() {
    let mut m = Model::new();
    for (id, kind, v) in [("1", "A", 1), ("2", "B", 2), ("3", "A", 3)] {
        let mut b = Block::new();
        b.insert("type".to_string(), Value::from_json_text(format!("\"{}\"", kind)));
        b.insert("v".to_string(), num(v));
        m.blocks.insert(id.to_string(), b);
    }
    m.index.insert("A".to_string(), vec!["1".to_string(), "3".to_string()]);
    m.index.insert("B".to_string(), vec!["2".to_string()]);
    m.index.insert("All".to_string(), vec!["A".to_string(), "B".to_string()]);
    m.index.insert("Loop".to_string(), vec!["Loop".to_string()]);
    assert_eq!(m.block_ids_of_type("All").unwrap(), vec!["1", "3", "2"]);
    assert!(m.block_ids_of_type("Missing").is_err());
    assert!(m.block_ids_of_type("Loop").is_err());
    assert!(m.block_by_id("2").unwrap().get("v").unwrap() == &num(2));
    assert!(m.block_by_id("9").is_err());
    let a = Value::from_json_text("\"A\"".to_string());
    assert_eq!(m.filter_blocks("type", &a).unwrap().len(), 2);
    let mut crit = Block::new();
    crit.insert("type".to_string(), a.clone());
    crit.insert("v".to_string(), num(3));
    assert!(m.get_first_block_where(&crit).unwrap().get("v").unwrap() == &num(3));
    crit.insert("v".to_string(), num(2));
    assert!(m.get_first_block_where(&crit).is_err());
    assert!(m.get_first_block_where_mut(&crit).is_err());

    m.block_by_id_mut("2").unwrap().insert("v".to_string(), num(20));
    assert!(m.block_by_id("2").unwrap().get("v").unwrap() == &num(20));
    assert!(m.block_by_id_mut("9").is_err());
    let mut only_a = Block::new();
    only_a.insert("type".to_string(), a.clone());
    m.get_first_block_where_mut(&only_a).unwrap().insert("w".to_string(), num(1));
    assert!(m.block_by_id("1").unwrap().get("w").unwrap() == &num(1));
    assert!(m.block_by_id("3").unwrap().get("w").is_none());
    assert_eq!(m.blocks.get_index(0).0, "1");
    assert!(m.root.get_mut("missing").is_none());
    m.root.insert("k".to_string(), num(1));
    *m.root.get_mut("k").unwrap() = num(2);
    assert!(m.root.get("k").unwrap() == &num(2));
}
