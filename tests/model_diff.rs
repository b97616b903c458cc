use modex::model::{Block, BlockDiff, Model, ModelDiff, ValueDiff};
use modex::ordered_map::OrderedMap;
use modex::value::Value;

fn text(s: &str) -> Value {
    Value::from_json_text(format!("\"{}\"", s))
}

fn num(v: i64) -> Value {
    Value::from_json_text(v.to_string())
}

fn block_of(pairs: &[(&str, Value)]) -> Block {
    let mut b = Block::new();
    for (k, v) in pairs {
        b.insert(k.to_string(), v.clone());
    }
    b
}

fn empty_block_diff() -> BlockDiff {
    BlockDiff { added_fields: OrderedMap::new(), removed_fields: OrderedMap::new(), updated_fields: OrderedMap::new() }
}

#[test]
fn test_model_diff() {
    assert!(
        ValueDiff { old_value: text("old"), new_value: text("new") }
            == ValueDiff { old_value: text("old"), new_value: text("new") }
    );

    assert!(block_of(&[("key", text("value"))]) == block_of(&[("key", text("value"))]));

    let mut old = Model::new();
    let new = Model::new();

    let empty_diff = ModelDiff {
        added_blocks: OrderedMap::new(),
        removed_blocks: OrderedMap::new(),
        updated_blocks: OrderedMap::new(),
        root: empty_block_diff(),
    };
    assert!(old.diff(&new) == empty_diff);
    assert!(new.diff(&old) == empty_diff);
    assert!(empty_diff.is_empty());

    old.root.insert("name".to_string(), text("root"));
    old.blocks.insert("1".to_string(), block_of(&[("name", text("block1"))]));

    let diff = ModelDiff {
        added_blocks: OrderedMap::new(),
        removed_blocks: {
            let mut removed_blocks = OrderedMap::new();
            removed_blocks.insert("1".to_string(), block_of(&[("name", text("block1"))]));
            removed_blocks
        },
        updated_blocks: OrderedMap::new(),
        root: BlockDiff {
            added_fields: OrderedMap::new(),
            removed_fields: block_of(&[("name", text("root"))]),
            updated_fields: OrderedMap::new(),
        },
    };
    assert!(!diff.is_empty());
    assert!(old.diff(&new) == diff);

    let diff = ModelDiff {
        added_blocks: {
            let mut added_blocks = OrderedMap::new();
            added_blocks.insert("1".to_string(), block_of(&[("name", text("block1"))]));
            added_blocks
        },
        removed_blocks: OrderedMap::new(),
        updated_blocks: OrderedMap::new(),
        root: BlockDiff {
            added_fields: block_of(&[("name", text("root"))]),
            removed_fields: OrderedMap::new(),
            updated_fields: OrderedMap::new(),
        },
    };
    assert!(!diff.is_empty());
    assert!(new.diff(&old) == diff);

    let mut new = old.clone();
    new.root.insert("name".to_string(), text("root2"));
    new.blocks.insert("1".to_string(), block_of(&[("name", text("block2"))]));

    let changed = |from: &str, to: &str| {
        let mut updated_fields = OrderedMap::new();
        updated_fields.insert("name".to_string(), ValueDiff { old_value: text(from), new_value: text(to) });
        updated_fields
    };
    assert!(
        old.diff(&new)
            == ModelDiff {
                added_blocks: OrderedMap::new(),
                removed_blocks: OrderedMap::new(),
                updated_blocks: {
                    let mut updated_blocks = OrderedMap::new();
                    updated_blocks.insert(
                        "1".to_string(),
                        BlockDiff {
                            added_fields: OrderedMap::new(),
                            removed_fields: OrderedMap::new(),
                            updated_fields: changed("block1", "block2"),
                        },
                    );
                    updated_blocks
                },
                root: BlockDiff {
                    added_fields: OrderedMap::new(),
                    removed_fields: OrderedMap::new(),
                    updated_fields: changed("root", "root2"),
                },
            }
    );
    assert!(
        new.diff(&old)
            == ModelDiff {
                added_blocks: OrderedMap::new(),
                removed_blocks: OrderedMap::new(),
                updated_blocks: {
                    let mut updated_blocks = OrderedMap::new();
                    updated_blocks.insert(
                        "1".to_string(),
                        BlockDiff {
                            added_fields: OrderedMap::new(),
                            removed_fields: OrderedMap::new(),
                            updated_fields: changed("block2", "block1"),
                        },
                    );
                    updated_blocks
                },
                root: BlockDiff {
                    added_fields: OrderedMap::new(),
                    removed_fields: OrderedMap::new(),
                    updated_fields: changed("root2", "root"),
                },
            }
    );
}

fn sample(v: i64, name: &str) -> Model {
    let mut m = Model::new();
    m.root.insert("title".to_string(), text(name));
    m.blocks.insert("i".to_string(), block_of(&[("v", num(v)), ("type", text("Counter"))]));
    m.blocks.insert("j".to_string(), block_of(&[("v", num(1))]));
    m
}

/// Applies a difference to a model the way a remote service is patched:
/// added and updated entries are upserted, removed ones dropped.
fn apply(a: &Model, d: &ModelDiff) -> Model {
    let mut out = Model::new();
    let apply_fields = |fields: &Block, bd: &BlockDiff| {
        let mut r = Block::new();
        for i in 0..fields.len() {
            let (k, v) = fields.get_index(i);
            if !bd.removed_fields.contains_key(k) {
                r.insert(k.clone(), v.clone());
            }
        }
        for i in 0..bd.added_fields.len() {
            let (k, v) = bd.added_fields.get_index(i);
            r.insert(k.clone(), v.clone());
        }
        for i in 0..bd.updated_fields.len() {
            let (k, v) = bd.updated_fields.get_index(i);
            r.insert(k.clone(), v.new_value.clone());
        }
        r
    };
    out.root = apply_fields(&a.root, &d.root);
    for i in 0..a.blocks.len() {
        let (k, b) = a.blocks.get_index(i);
        if d.removed_blocks.contains_key(k) {
            continue;
        }
        match d.updated_blocks.get(k) {
            Some(bd) => out.blocks.insert(k.clone(), apply_fields(b, bd)),
            None => out.blocks.insert(k.clone(), b.clone()),
        }
    }
    for i in 0..d.added_blocks.len() {
        let (k, b) = d.added_blocks.get_index(i);
        out.blocks.insert(k.clone(), b.clone());
    }
    out
}

#[test]
fn diff_of_a_model_with_itself_is_empty() {
    let a = sample(3, "x");
    assert!(a.diff(&a).is_empty());
    assert!(Model::new().diff(&Model::new()).is_empty());
}

#[test]
fn applying_a_diff_gives_the_new_model() {
    let a = sample(3, "x");
    let mut b = sample(4, "y");
    b.blocks.insert("k".to_string(), block_of(&[("v", num(7))]));
    b.root.insert("extra".to_string(), num(2));
    let d = a.diff(&b);
    assert!(!d.is_empty());
    let applied = apply(&a, &d);
    assert!(applied.diff(&b).is_empty());
    assert!(b.diff(&applied).is_empty());

    let mut c = sample(3, "x");
    c.blocks = OrderedMap::new();
    c.blocks.insert("i".to_string(), block_of(&[("v", num(3)), ("type", text("Counter"))]));
    let d = a.diff(&c);
    assert_eq!(d.removed_blocks.len(), 1);
    assert!(apply(&a, &d).diff(&c).is_empty());
}

#[test]
fn diff_reports_each_kind_of_change() {
    let a = sample(3, "x");
    let mut b = sample(3, "x");
    let mut blk = block_of(&[("v", num(5)), ("type", text("Counter")), ("extra", text("e"))]);
    b.blocks.insert("i".to_string(), blk.clone());
    let d = a.diff(&b);
    assert_eq!(d.updated_blocks.len(), 1);
    let bd = d.updated_blocks.get("i").unwrap();
    assert_eq!(bd.added_fields.len(), 1);
    assert!(bd.added_fields.get("extra").unwrap() == &text("e"));
    let vd = bd.updated_fields.get("v").unwrap();
    assert!(vd.old_value == num(3) && vd.new_value == num(5));
    blk = block_of(&[("v", num(3))]);
    b.blocks.insert("i".to_string(), blk);
    let d = a.diff(&b);
    let bd = d.updated_blocks.get("i").unwrap();
    assert_eq!(bd.removed_fields.len(), 1);
    assert!(bd.removed_fields.get("type").unwrap() == &text("Counter"));
}

#[test]
fn index_is_not_compared() {
    let a = sample(3, "x");
    let mut b = a.clone();
    b.index.insert("Counter".to_string(), vec!["i".to_string()]);
    assert!(a.diff(&b).is_empty());
}
