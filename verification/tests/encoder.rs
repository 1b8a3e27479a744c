use arthas::schema::get_unique_int_str;
use arthas::schema::FieldDecl;
use arthas::schema::FieldType;
use arthas::schema::Schema;
use arthas::encoder::decode;
use arthas::encoder::encode;
use arthas::value::Entry;
use arthas::value::Value;

fn cs(s: &str) -> Vec<char> {
    s.chars().collect()
}

fn sv(s: &str) -> Value {
    Value::Str(cs(s))
}

fn iv(n: i64) -> Value {
    Value::Int(n)
}

fn ent(k: &str, v: Value) -> Entry {
    Entry { key: cs(k), value: v }
}

fn obj(mut entries: Vec<Entry>) -> Value {
    entries.sort_by(|a, b| a.key.cmp(&b.key));
    Value::Obj(entries)
}

fn obj_by_id(entries: Vec<(Vec<char>, Value)>) -> Value {
    let mut es: Vec<Entry> = entries
        .into_iter()
        .map(|(k, v)| Entry { key: k, value: v })
        .collect();
    es.sort_by(|a, b| a.key.cmp(&b.key));
    Value::Obj(es)
}

fn atomic_schema() -> Schema {
    let shape = FieldType::Struct(vec![
        FieldDecl { name: cs("hash_map"), shape: FieldType::Atomic },
        FieldDecl { name: cs("string_one"), shape: FieldType::Atomic },
        FieldDecl { name: cs("string_two"), shape: FieldType::Atomic },
    ]);
    let empty = obj(vec![
        ent("hash_map", Value::Obj(vec![])),
        ent("string_one", sv("")),
        ent("string_two", sv("")),
    ]);
    Schema::new(cs("Atomic"), shape, true, vec![], empty)
}

fn comment_shape() -> FieldType {
    FieldType::Struct(vec![
        FieldDecl { name: cs("content"), shape: FieldType::Atomic },
        FieldDecl { name: cs("title"), shape: FieldType::Atomic },
    ])
}

fn comment(title: &str, content: &str) -> Value {
    obj(vec![ent("content", sv(content)), ent("title", sv(title))])
}

fn article_shape() -> FieldType {
    FieldType::Struct(vec![
        FieldDecl { name: cs("_id"), shape: FieldType::Atomic },
        FieldDecl {
            name: cs("comments"),
            shape: FieldType::Array(Box::new(comment_shape())),
        },
        FieldDecl { name: cs("content"), shape: FieldType::Atomic },
        FieldDecl { name: cs("day_to_views"), shape: FieldType::Atomic },
        FieldDecl { name: cs("title"), shape: FieldType::Atomic },
        FieldDecl { name: cs("views"), shape: FieldType::Atomic },
    ])
}

fn article_schema() -> Schema {
    let empty = obj(vec![
        ent("_id", sv("")),
        ent("comments", Value::Arr(vec![])),
        ent("content", sv("")),
        ent("day_to_views", Value::Obj(vec![])),
        ent("title", sv("")),
        ent("views", iv(0)),
    ]);
    Schema::new(cs("Article"), article_shape(), false, vec![], empty)
}

fn comments_schema() -> Schema {
    let shape = FieldType::Struct(vec![FieldDecl {
        name: cs("day_to_comments"),
        shape: FieldType::Object(Box::new(comment_shape())),
    }]);
    let empty = obj(vec![ent("day_to_comments", Value::Obj(vec![]))]);
    Schema::new(cs("Comments"), shape, false, vec![], empty)
}

fn blog_schema() -> Schema {
    let articles_shape = FieldType::Struct(vec![FieldDecl {
        name: cs("day_to_articles"),
        shape: FieldType::Object(Box::new(article_shape())),
    }]);
    let shape = FieldType::Struct(vec![
        FieldDecl { name: cs("articles"), shape: articles_shape },
        FieldDecl {
            name: cs("comments"),
            shape: FieldType::Struct(vec![FieldDecl {
                name: cs("day_to_comments"),
                shape: FieldType::Object(Box::new(comment_shape())),
            }]),
        },
    ]);
    let empty = obj(vec![
        ent("articles", obj(vec![ent("day_to_articles", Value::Obj(vec![]))])),
        ent("comments", obj(vec![ent("day_to_comments", Value::Obj(vec![]))])),
    ]);
    Schema::new(cs("Blog"), shape, false, vec![], empty)
}

fn article(title: &str, content: &str, views: i64, comments: Vec<Value>) -> Value {
    obj(vec![
        ent("_id", sv("")),
        ent("comments", Value::Arr(comments)),
        ent("content", sv(content)),
        ent("day_to_views", Value::Obj(vec![])),
        ent("title", sv(title)),
        ent("views", iv(views)),
    ])
}

#[test]
fn test_atomic() {
    let string_one = "This is string one";
    let string_two = "This is string two";
    let schema = atomic_schema();

    let decoded = obj(vec![
        ent("hash_map", Value::Obj(vec![])),
        ent("string_one", sv(string_one)),
        ent("string_two", sv(string_two)),
    ]);

    let encoded = obj_by_id(vec![
        (get_unique_int_str(&cs("string_one")), sv(string_one)),
        (get_unique_int_str(&cs("string_two")), sv(string_two)),
        (get_unique_int_str(&cs("hash_map")), Value::Obj(vec![])),
    ]);

    assert_eq!(encode(&decoded, &schema), encoded);
    assert_eq!(decode(&encoded, &schema).unwrap(), decoded);
}

#[test]
fn test_vec() {
    let title = "This is title";
    let content = "This is content";
    let comment_title = "This is comment title";
    let comment_content = "This is comment content";
    let schema = article_schema();

    let decoded = article(
        title,
        content,
        0,
        vec![comment(comment_title, comment_content)],
    );

    let encoded = obj_by_id(vec![
        (get_unique_int_str(&cs("_id")), sv("")),
        (get_unique_int_str(&cs("title")), sv(title)),
        (get_unique_int_str(&cs("content")), sv(content)),
        (get_unique_int_str(&cs("day_to_views")), Value::Obj(vec![])),
        (get_unique_int_str(&cs("views")), iv(0)),
        (
            get_unique_int_str(&cs("comments.[].title")),
            Value::Arr(vec![sv(comment_title)]),
        ),
        (
            get_unique_int_str(&cs("comments.[].content")),
            Value::Arr(vec![sv(comment_content)]),
        ),
    ]);

    assert_eq!(encode(&decoded, &schema), encoded);
    assert_eq!(decode(&encoded, &schema).unwrap(), decoded);
}

#[test]
fn test_hashmap() {
    let day_26 = "2016-10-26";
    let day_27 = "2016-10-27";
    let title_26 = "This is day 26 title";
    let title_27 = "This is day 27 title";
    let content_26 = "This is day 26 content";
    let content_27 = "This is day 27 content";
    let schema = comments_schema();

    let decoded = obj(vec![ent(
        "day_to_comments",
        Value::Obj(vec![
            ent(day_26, comment(title_26, content_26)),
            ent(day_27, comment(title_27, content_27)),
        ]),
    )]);

    let encoded = obj_by_id(vec![
        (
            get_unique_int_str(&cs("day_to_comments.{}.title")),
            Value::Obj(vec![ent(day_26, sv(title_26)), ent(day_27, sv(title_27))]),
        ),
        (
            get_unique_int_str(&cs("day_to_comments.{}.content")),
            Value::Obj(vec![
                ent(day_26, sv(content_26)),
                ent(day_27, sv(content_27)),
            ]),
        ),
    ]);

    assert_eq!(encode(&decoded, &schema), encoded);
    assert_eq!(decode(&encoded, &schema).unwrap(), decoded);
}

#[test]
fn test_blog() {
    let comment_title = "This is comment title";
    let comment_content = "This is comment content";
    let day_26 = "2016-10-26";
    let day_27 = "2016-10-27";
    let title_26 = "This is day 26 title";
    let title_27 = "This is day 27 title";
    let content_26 = "This is day 26 content";
    let content_27 = "This is day 27 content";
    let comment_title_26 = "This is day 26 comment title";
    let comment_title_27 = "This is day 27 comment title";
    let comment_content_26 = "This is day 26 comment content";
    let comment_content_27 = "This is day 27 comment content";
    let schema = blog_schema();

    let decoded = obj(vec![
        ent(
            "articles",
            obj(vec![ent(
                "day_to_articles",
                Value::Obj(vec![
                    ent(
                        day_26,
                        article(
                            title_26,
                            content_26,
                            0,
                            vec![comment(comment_title, comment_content)],
                        ),
                    ),
                    ent(
                        day_27,
                        article(
                            title_27,
                            content_27,
                            0,
                            vec![comment(comment_title, comment_content)],
                        ),
                    ),
                ]),
            )]),
        ),
        ent(
            "comments",
            obj(vec![ent(
                "day_to_comments",
                Value::Obj(vec![
                    ent(day_26, comment(comment_title_26, comment_content_26)),
                    ent(day_27, comment(comment_title_27, comment_content_27)),
                ]),
            )]),
        ),
    ]);

    let encoded = obj_by_id(vec![
        (
            get_unique_int_str(&cs("articles.day_to_articles.{}._id")),
            Value::Obj(vec![ent(day_26, sv("")), ent(day_27, sv(""))]),
        ),
        (
            get_unique_int_str(&cs("articles.day_to_articles.{}.title")),
            Value::Obj(vec![ent(day_26, sv(title_26)), ent(day_27, sv(title_27))]),
        ),
        (
            get_unique_int_str(&cs("articles.day_to_articles.{}.content")),
            Value::Obj(vec![
                ent(day_26, sv(content_26)),
                ent(day_27, sv(content_27)),
            ]),
        ),
        (
            get_unique_int_str(&cs("articles.day_to_articles.{}.day_to_views")),
            Value::Obj(vec![
                ent(day_26, Value::Obj(vec![])),
                ent(day_27, Value::Obj(vec![])),
            ]),
        ),
        (
            get_unique_int_str(&cs("articles.day_to_articles.{}.views")),
            Value::Obj(vec![ent(day_26, iv(0)), ent(day_27, iv(0))]),
        ),
        (
            get_unique_int_str(&cs("articles.day_to_articles.{}.comments.[].title")),
            Value::Obj(vec![
                ent(day_26, Value::Arr(vec![sv(comment_title)])),
                ent(day_27, Value::Arr(vec![sv(comment_title)])),
            ]),
        ),
        (
            get_unique_int_str(&cs("articles.day_to_articles.{}.comments.[].content")),
            Value::Obj(vec![
                ent(day_26, Value::Arr(vec![sv(comment_content)])),
                ent(day_27, Value::Arr(vec![sv(comment_content)])),
            ]),
        ),
        (
            get_unique_int_str(&cs("comments.day_to_comments.{}.title")),
            Value::Obj(vec![
                ent(day_26, sv(comment_title_26)),
                ent(day_27, sv(comment_title_27)),
            ]),
        ),
        (
            get_unique_int_str(&cs("comments.day_to_comments.{}.content")),
            Value::Obj(vec![
                ent(day_26, sv(comment_content_26)),
                ent(day_27, sv(comment_content_27)),
            ]),
        ),
    ]);

    assert_eq!(encode(&decoded, &schema), encoded);
    assert_eq!(decode(&encoded, &schema).unwrap(), decoded);
}

#[test]
fn test_round_trip_empty_collections() {
    let schema = article_schema();
    let decoded = article("", "", 0, vec![]);
    let encoded = encode(&decoded, &schema);
    assert_eq!(decode(&encoded, &schema).unwrap(), decoded);
}
