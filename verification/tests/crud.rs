use arthas::query::Query;
use arthas::schema::FieldDecl;
use arthas::schema::FieldType;
use arthas::schema::Schema;
use arthas::store::Store;
use arthas::value::Entry;
use arthas::value::Value;
use arthas::error::Error;

fn cs(s: &str) -> Vec<char> {
    s.chars().collect()
}

fn sv(s: &str) -> Value {
    Value::Str(cs(s))
}

fn iv(n: i64) -> Value {
    Value::Int(n)
}

fn ent(k: &str, v: Value) -> Entry {
    Entry { key: cs(k), value: v }
}

fn obj(mut entries: Vec<Entry>) -> Value {
    entries.sort_by(|a, b| a.key.cmp(&b.key));
    Value::Obj(entries)
}

fn comment_shape() -> FieldType {
    FieldType::Struct(vec![
        FieldDecl { name: cs("content"), shape: FieldType::Atomic },
        FieldDecl { name: cs("title"), shape: FieldType::Atomic },
    ])
}

fn article_schema() -> Schema {
    let shape = FieldType::Struct(vec![
        FieldDecl { name: cs("_id"), shape: FieldType::Atomic },
        FieldDecl {
            name: cs("comments"),
            shape: FieldType::Array(Box::new(comment_shape())),
        },
        FieldDecl { name: cs("content"), shape: FieldType::Atomic },
        FieldDecl { name: cs("day_to_views"), shape: FieldType::Atomic },
        FieldDecl { name: cs("title"), shape: FieldType::Atomic },
        FieldDecl { name: cs("views"), shape: FieldType::Atomic },
    ]);
    let empty = article("");
    Schema::new(cs("Article"), shape, false, vec![], empty)
}

fn comment_schema() -> Schema {
    let empty = obj(vec![ent("content", sv("")), ent("title", sv(""))]);
    Schema::new(cs("Comment"), comment_shape(), false, vec![], empty)
}

fn article(title: &str) -> Value {
    obj(vec![
        ent("_id", sv("")),
        ent("comments", Value::Arr(vec![])),
        ent("content", sv("")),
        ent("day_to_views", Value::Obj(vec![])),
        ent("title", sv(title)),
        ent("views", iv(0)),
    ])
}

fn article_views(title: &str, views: i64) -> Value {
    obj(vec![
        ent("_id", sv("")),
        ent("comments", Value::Arr(vec![])),
        ent("content", sv("")),
        ent("day_to_views", Value::Obj(vec![])),
        ent("title", sv(title)),
        ent("views", iv(views)),
    ])
}

fn article_full(title: &str, content: &str, views: i64) -> Value {
    obj(vec![
        ent("_id", sv("")),
        ent("comments", Value::Arr(vec![])),
        ent("content", sv(content)),
        ent("day_to_views", Value::Obj(vec![])),
        ent("title", sv(title)),
        ent("views", iv(views)),
    ])
}

fn setup() -> Store {
    let mut store = Store::new();
    store.persistence(false);
    store.register(article_schema());
    store.register(comment_schema());
    store
}

fn get_field<'a>(v: &'a Value, name: &str) -> &'a Value {
    match v {
        Value::Obj(es) => {
            let key = cs(name);
            for e in es {
                if e.key == key {
                    return &e.value;
                }
            }
            panic!("missing field");
        },
        _ => panic!("not a record"),
    }
}

fn title_of(v: &Value) -> String {
    match get_field(v, "title") {
        Value::Str(s) => s.iter().collect(),
        _ => panic!("title is not a string"),
    }
}

fn content_of(v: &Value) -> String {
    match get_field(v, "content") {
        Value::Str(s) => s.iter().collect(),
        _ => panic!("content is not a string"),
    }
}

fn views_of(v: &Value) -> i64 {
    match get_field(v, "views") {
        Value::Int(n) => *n,
        _ => panic!("views is not a number"),
    }
}

const ARTICLE: &str = "Article";
const COMMENT: &str = "Comment";

#[test]
fn test_a_insert() {
    let mut store = setup();

    let id = Query::new()
        .insert(&mut store, &cs(ARTICLE), article("Hello world!"))
        .unwrap();
    let item = Query::new().id(id).find_one(&store, &cs(ARTICLE)).unwrap();
    assert!(item.is_some());
    assert_eq!(title_of(&item.unwrap()), "Hello world!");
}

#[test]
fn test_a_insert_random() {
    let mut store = setup();

    let views = rand::random::<u32>() as i64;
    Query::new()
        .insert(&mut store, &cs(ARTICLE), article_views("Hello world!", views))
        .unwrap();
}

#[test]
fn test_remove() {
    let mut store = setup();

    let id = Query::new()
        .insert(&mut store, &cs(ARTICLE), article("Hello world!"))
        .unwrap();
    let items = Query::new().id(id).remove(&mut store, &cs(ARTICLE)).unwrap();
    assert_eq!(items.len(), 1);
    assert_eq!(title_of(items.first().unwrap()), "Hello world!");
}

#[test]
fn test_update() {
    let mut store = setup();

    let id = Query::new()
        .insert(&mut store, &cs(ARTICLE), article("Hello world!"))
        .unwrap();
    Query::new()
        .id(id.clone())
        .update(&mut store, &cs(ARTICLE), |item| {
            match item {
                Value::Obj(mut es) => {
                    for e in &mut es {
                        if e.key == cs("title") {
                            e.value = sv("Hello");
                        }
                    }
                    Value::Obj(es)
                },
                other => other,
            }
        })
        .unwrap();
    let item = Query::new().id(id).find_one(&store, &cs(ARTICLE)).unwrap();
    assert!(item.is_some());
    assert_eq!(title_of(&item.unwrap()), "Hello");
}

#[test]
fn test_replace() {
    let mut store = setup();

    let id = Query::new()
        .insert(&mut store, &cs(ARTICLE), article("Hello world!"))
        .unwrap();
    Query::new()
        .id(id.clone())
        .replace(&mut store, &cs(ARTICLE), article("Foobar Replace!"))
        .unwrap();
    let item = Query::new().id(id).find_one(&store, &cs(ARTICLE)).unwrap();
    assert_eq!(title_of(&item.unwrap()), "Foobar Replace!");
}

#[test]
fn test_find() {
    let mut store = setup();

    for i in 0..10 {
        Query::new()
            .insert(&mut store, &cs(ARTICLE), article_views("Foobar!", i))
            .unwrap();
    }

    let all_items = Query::new()
        .field(cs("title"))
        .eq(sv("Foobar!"))
        .find(&store, &cs(ARTICLE))
        .unwrap();
    assert_eq!(all_items.len(), 10);

    let less_five_items = Query::new()
        .field(cs("title"))
        .eq(sv("Foobar!"))
        .field(cs("views"))
        .lt(iv(5))
        .find(&store, &cs(ARTICLE))
        .unwrap();
    assert_eq!(less_five_items.len(), 5);
}

#[test]
fn test_count() {
    let mut store = setup();

    for i in 0..10 {
        Query::new()
            .insert(&mut store, &cs(ARTICLE), article_views("Count!", i))
            .unwrap();
    }

    let count = Query::new()
        .field(cs("title"))
        .eq(sv("Count!"))
        .count(&store, &cs(ARTICLE))
        .unwrap();
    assert_eq!(count, 10);
}

#[test]
fn test_offset() {
    let mut store = setup();

    for i in 0..10 {
        Query::new()
            .insert(&mut store, &cs(ARTICLE), article_views("Offset!", i))
            .unwrap();
    }

    let count = Query::new()
        .field(cs("title"))
        .eq(sv("Offset!"))
        .offset(5)
        .count(&store, &cs(ARTICLE))
        .unwrap();
    assert_eq!(count, 5);
}

#[test]
fn test_lt_100() {
    let store = setup();

    Query::new()
        .field(cs("views"))
        .lt(iv(100))
        .find(&store, &cs(ARTICLE))
        .unwrap();
}

#[test]
fn test_gt_100() {
    let store = setup();

    Query::new()
        .field(cs("views"))
        .gt(iv(100))
        .find(&store, &cs(ARTICLE))
        .unwrap();
}

#[test]
fn test_desc() {
    let mut store = setup();

    for i in 0..5 {
        Query::new()
            .insert(&mut store, &cs(ARTICLE), article_views("Desc!", i))
            .unwrap();
    }

    let items = Query::new()
        .field(cs("title"))
        .eq(sv("Desc!"))
        .field(cs("views"))
        .lt(iv(3))
        .desc(cs("views"))
        .find(&store, &cs(ARTICLE))
        .unwrap();
    assert_eq!(items.len(), 3);
    assert_eq!(views_of(&items[0]), 2);
    assert_eq!(views_of(&items[1]), 1);
    assert_eq!(views_of(&items[2]), 0);
}

#[test]
fn test_asc() {
    let mut store = setup();

    for i in 0..5 {
        Query::new()
            .insert(&mut store, &cs(ARTICLE), article_views("Asc!", i))
            .unwrap();
    }

    let items = Query::new()
        .field(cs("title"))
        .eq(sv("Asc!"))
        .field(cs("views"))
        .lt(iv(3))
        .asc(cs("views"))
        .find(&store, &cs(ARTICLE))
        .unwrap();
    assert_eq!(items.len(), 3);
    assert_eq!(views_of(&items[0]), 0);
    assert_eq!(views_of(&items[1]), 1);
    assert_eq!(views_of(&items[2]), 2);
}

#[test]
fn test_multiple_order() {
    let mut store = setup();

    for i in 0..5 {
        let content = if i < 3 { "a" } else { "b" };
        Query::new()
            .insert(
                &mut store,
                &cs(ARTICLE),
                article_full("Multiple Order!", content, i),
            )
            .unwrap();
    }

    let items = Query::new()
        .field(cs("title"))
        .eq(sv("Multiple Order!"))
        .desc(cs("content"))
        .asc(cs("views"))
        .find(&store, &cs(ARTICLE))
        .unwrap();

    assert_eq!(items.len(), 5);
    assert_eq!(content_of(&items[0]), "b");
    assert_eq!(content_of(&items[1]), "b");
    assert_eq!(content_of(&items[2]), "a");
    assert_eq!(content_of(&items[3]), "a");
    assert_eq!(content_of(&items[4]), "a");

    assert_eq!(views_of(&items[0]), 3);
    assert_eq!(views_of(&items[1]), 4);
    assert_eq!(views_of(&items[2]), 0);
    assert_eq!(views_of(&items[3]), 1);
    assert_eq!(views_of(&items[4]), 2);

    let items = Query::new()
        .field(cs("title"))
        .eq(sv("Multiple Order!"))
        .desc(cs("content"))
        .desc(cs("views"))
        .find(&store, &cs(ARTICLE))
        .unwrap();

    assert_eq!(views_of(&items[0]), 4);
    assert_eq!(views_of(&items[1]), 3);
    assert_eq!(views_of(&items[2]), 2);
    assert_eq!(views_of(&items[3]), 1);
    assert_eq!(views_of(&items[4]), 0);
}

#[test]
fn test_len() {
    let mut store = setup();

    for i in 0..5 {
        Query::new()
            .insert(
                &mut store,
                &cs(ARTICLE),
                article_views("qwertyuiopasdfghjklzxcvbnm", i),
            )
            .unwrap();
    }

    let items = Query::new()
        .len(cs("title"))
        .eq(iv(26))
        .find(&store, &cs(ARTICLE))
        .unwrap();
    assert_eq!(items.len(), 5);
}

#[test]
fn test_empty_query_all() {
    let mut store = setup();

    Query::new()
        .insert(&mut store, &cs(ARTICLE), article("Empty Query All!"))
        .unwrap();

    let items = Query::new()
        .limit(100)
        .find(&store, &cs(ARTICLE))
        .unwrap();
    assert!(items.len() > 0);
}

#[test]
fn test_can_not_replace() {
    let mut store = setup();

    let c = obj(vec![ent("content", sv("")), ent("title", sv(""))]);
    assert_eq!(
        Query::new().replace(&mut store, &cs(COMMENT), c),
        Err(Error::CanNotReplace)
    );
}

#[test]
fn test_field_not_found() {
    let mut store = setup();
    store.register(article_schema());

    assert_eq!(
        Query::new()
            .field(cs("bad field"))
            .eq(sv("bad value"))
            .find(&store, &cs(ARTICLE)),
        Err(Error::FieldNotFound)
    );
}

#[test]
fn test_persistence_insert() {
    let mut store = Store::new();
    store.register(article_schema());

    for i in 0..10 {
        Query::new()
            .insert(&mut store, &cs(ARTICLE), article_views("Foobar!", i))
            .unwrap();
    }
}

#[test]
fn test_range_subset() {
    let mut store = setup();

    let order = [7i64, 2, 9, 4, 1, 8, 3, 6, 0, 5];
    for v in order {
        Query::new()
            .insert(&mut store, &cs(ARTICLE), article_views("Range!", v))
            .unwrap();
    }

    let gt4 = Query::new()
        .field(cs("views"))
        .gt(iv(4))
        .find(&store, &cs(ARTICLE))
        .unwrap();
    assert_eq!(gt4.len(), 5);
    for it in &gt4 {
        assert!(views_of(it) > 4);
    }

    let lt4 = Query::new()
        .field(cs("views"))
        .lt(iv(4))
        .find(&store, &cs(ARTICLE))
        .unwrap();
    assert_eq!(lt4.len(), 4);
    for it in &lt4 {
        assert!(views_of(it) < 4);
    }
}

#[test]
fn test_find_by_id_after_remove() {
    let mut store = setup();

    let id = Query::new()
        .insert(&mut store, &cs(ARTICLE), article("Gone"))
        .unwrap();
    Query::new()
        .id(id.clone())
        .remove(&mut store, &cs(ARTICLE))
        .unwrap();
    let item = Query::new().id(id).find_one(&store, &cs(ARTICLE)).unwrap();
    assert!(item.is_none());
}

#[test]
fn test_limit_one() {
    let mut store = setup();

    for i in 0..10 {
        Query::new()
            .insert(&mut store, &cs(ARTICLE), article_views("Limit!", i))
            .unwrap();
    }
    let items = Query::new()
        .field(cs("title"))
        .eq(sv("Limit!"))
        .limit(1)
        .find(&store, &cs(ARTICLE))
        .unwrap();
    assert_eq!(items.len(), 1);
}

#[test]
fn test_requires_id() {
    let mut store = setup();

    assert_eq!(
        Query::new().replace(&mut store, &cs(ARTICLE), article("NoId")),
        Err(Error::RequiresId)
    );
}

#[test]
fn test_serialize_error() {
    let mut store = setup();

    // not a record of the declared shape at all
    assert_eq!(
        Query::new().insert(&mut store, &cs(ARTICLE), Value::Int(3)),
        Err(Error::Serialize)
    );
}
