use arthas::encoder::decode;
use arthas::encoder::encode;
use arthas::loader::fix_value;
use arthas::schema::FieldDecl;
use arthas::schema::FieldType;
use arthas::schema::Rename;
use arthas::schema::Schema;
use arthas::persistence::Action;
use arthas::persistence::Line;
use arthas::persistence::Operation;
use arthas::persistence::Persistence;
use arthas::value::Value;

fn cs(s: &str) -> Vec<char> {
    s.chars().collect()
}

#[test]
fn test_slot_reuse() {
    let mut p = Persistence::new(cs("Article"), Vec::new());

    let (append_a, meta_a, _) = p.insert(
        Operation::new().id(cs("a")).insert(),
        vec![1u8, 2, 3, 4, 5],
    );
    assert!(append_a);
    assert_eq!(meta_a.offset(), 0);
    assert_eq!(meta_a.real_len(), 5);
    assert_eq!(meta_a.size(), 5);

    p.delete(Operation::new().id(cs("a")).delete());

    // the freed 5-byte slot takes the next, smaller payload in place
    let (append_b, meta_b, _) = p.insert(Operation::new().id(cs("b")).insert(), vec![9u8, 9, 9]);
    assert!(!append_b);
    assert_eq!(meta_b.offset(), 0);
    assert_eq!(meta_b.real_len(), 3);
    assert_eq!(meta_b.size(), 5);
}

#[test]
fn test_append_grows_file() {
    let mut p = Persistence::new(cs("Article"), Vec::new());

    let (_, m1, _) = p.insert(Operation::new().id(cs("a")).insert(), vec![0u8; 4]);
    let (_, m2, _) = p.insert(Operation::new().id(cs("b")).insert(), vec![0u8; 6]);
    assert_eq!(m1.offset(), 0);
    assert_eq!(m2.offset(), 4);
    assert_eq!(p.size, 10);
}

#[test]
fn test_clear_drains_to_deleted() {
    let mut p = Persistence::new(cs("Article"), Vec::new());
    p.insert(Operation::new().id(cs("a")).insert(), vec![0u8; 4]);
    p.insert(Operation::new().id(cs("b")).insert(), vec![0u8; 6]);
    p.delete(Operation::new().id(cs("a")).delete());
    assert_eq!(p.deleted.len(), 1);
    p.clear();
    assert_eq!(p.size, 0);
    assert_eq!(p.metas.len(), 0);
    // the live line joined the freed list; nothing was forgotten
    assert_eq!(p.deleted.len(), 2);
}

fn replay(p: &mut Persistence, lines: &[(Action, &str, usize)]) {
    for (a, id, len) in lines {
        let line = match a {
            Action::Insert => Line::new(Action::Insert).id(cs(id)).value(Value::Null),
            Action::Delete => Line::new(Action::Delete).id(cs(id)),
            Action::Clear => Line::new(Action::Clear),
        };
        let bytes = vec![0u8; *len];
        p.write_log(line, bytes);
    }
}

fn table(p: &Persistence) -> Vec<(String, usize, usize, usize)> {
    let mut out = Vec::new();
    for e in &p.metas {
        out.push((
            e.id.iter().collect::<String>(),
            e.meta.offset(),
            e.meta.real_len(),
            e.meta.size(),
        ));
    }
    out
}

#[test]
fn test_replay_twice() {
    // a crash after replay but before the log file is deleted: replaying
    // an insert-only log again leaves the offset table as it was
    let lines: Vec<(Action, &str, usize)> = vec![
        (Action::Insert, "a", 5),
        (Action::Insert, "b", 3),
        (Action::Insert, "c", 4),
        (Action::Insert, "d", 2),
    ];

    let mut once = Persistence::new(cs("Article"), Vec::new());
    replay(&mut once, &lines);
    let after_once = table(&once);
    let size_once = once.size;
    let deleted_once = once.deleted.len();

    replay(&mut once, &lines);
    assert_eq!(table(&once), after_once);
    assert_eq!(once.size, size_once);
    assert_eq!(once.deleted.len(), deleted_once);
}

#[test]
fn test_replay_line_twice() {
    // each single line is idempotent on its own, whatever the action
    let mut p = Persistence::new(cs("Article"), Vec::new());
    replay(&mut p, &[(Action::Insert, "a", 5), (Action::Insert, "b", 3)]);

    let mut q = Persistence::new(cs("Article"), Vec::new());
    replay(
        &mut q,
        &[
            (Action::Insert, "a", 5),
            (Action::Insert, "a", 5),
            (Action::Insert, "b", 3),
            (Action::Insert, "b", 3),
        ],
    );
    assert_eq!(table(&p), table(&q));

    replay(&mut p, &[(Action::Delete, "a", 0)]);
    replay(&mut q, &[(Action::Delete, "a", 0), (Action::Delete, "a", 0)]);
    assert_eq!(table(&p), table(&q));
    assert_eq!(p.deleted.len(), q.deleted.len());

    replay(&mut p, &[(Action::Clear, "", 0)]);
    replay(&mut q, &[(Action::Clear, "", 0), (Action::Clear, "", 0)]);
    assert_eq!(table(&p), table(&q));
    assert_eq!(p.deleted.len(), q.deleted.len());
    assert_eq!(p.size, q.size);
}

fn ent2(k: &str, v: Value) -> arthas::value::Entry {
    arthas::value::Entry { key: cs(k), value: v }
}

fn obj2(mut entries: Vec<arthas::value::Entry>) -> Value {
    entries.sort_by(|a, b| a.key.cmp(&b.key));
    Value::Obj(entries)
}

#[test]
fn test_schema_evolution() {
    // schema A: { _id, content, views } — schema B renames content to
    // body, drops views, and adds visits
    let shape_a = FieldType::Struct(vec![
        FieldDecl { name: cs("_id"), shape: FieldType::Atomic },
        FieldDecl { name: cs("content"), shape: FieldType::Atomic },
        FieldDecl { name: cs("views"), shape: FieldType::Atomic },
    ]);
    let empty_a = obj2(vec![
        ent2("_id", Value::Str(cs(""))),
        ent2("content", Value::Str(cs(""))),
        ent2("views", Value::Int(0)),
    ]);
    let schema_a = Schema::new(cs("Post"), shape_a, false, vec![], empty_a);

    let shape_b = FieldType::Struct(vec![
        FieldDecl { name: cs("_id"), shape: FieldType::Atomic },
        FieldDecl { name: cs("body"), shape: FieldType::Atomic },
        FieldDecl { name: cs("visits"), shape: FieldType::Atomic },
    ]);
    let empty_b = obj2(vec![
        ent2("_id", Value::Str(cs(""))),
        ent2("body", Value::Str(cs(""))),
        ent2("visits", Value::Int(0)),
    ]);
    let renames = vec![Rename { from: cs("content"), to: cs("body") }];
    let schema_b = Schema::new(cs("Post"), shape_b, false, renames, empty_b);

    let record_a = obj2(vec![
        ent2("_id", Value::Str(cs("x1"))),
        ent2("content", Value::Str(cs("kept text"))),
        ent2("views", Value::Int(7)),
    ]);
    let stored = encode(&record_a, &schema_a);

    let rn = vec![Rename { from: cs("content"), to: cs("body") }];
    let empty_b_flat = encode(
        &obj2(vec![
            ent2("_id", Value::Str(cs(""))),
            ent2("body", Value::Str(cs(""))),
            ent2("visits", Value::Int(0)),
        ]),
        &schema_b,
    );
    let migrated = fix_value(&stored, &empty_b_flat, &rn, &schema_b).unwrap();
    let record_b = decode(&migrated, &schema_b).unwrap();

    let expected = obj2(vec![
        ent2("_id", Value::Str(cs("x1"))),
        ent2("body", Value::Str(cs("kept text"))),
        ent2("visits", Value::Int(0)),
    ]);
    assert_eq!(record_b, expected);
}
