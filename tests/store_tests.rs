use datastore::query::{matches_where_clause, Query};
use datastore::store::{DataStore, FindResults, StoreError};
use datastore::value::Value;

fn s(t: &str) -> Value {
    Value::Str(t.to_string())
}

fn num(t: &str) -> Value {
    Value::Number(t.to_string())
}

fn obj(fields: Vec<(&str, Value)>) -> Value {
    Value::Object(fields.into_iter().map(|(k, v)| (k.to_string(), v)).collect())
}

fn query(where_clause: Option<Value>, sort: Option<&str>, page: Option<u32>, size: Option<u32>) -> Query {
    Query { where_clause, sort: sort.map(|f| f.to_string()), page, size }
}

fn all() -> Query {
    query(None, None, None, None)
}

fn same(a: &Value, b: &Value) -> bool {
    a.equals(b)
}

fn text_of(v: &Value) -> String {
    let mut out: Vec<char> = Vec::new();
    v.write_text(&mut out);
    out.into_iter().collect()
}

fn field_of(doc: &Value, k: &str) -> Value {
    doc.get(&k.to_string()).map(|v| v.deep_copy()).unwrap_or(Value::Null)
}

fn store_with(docs: Vec<Value>) -> DataStore {
    let mut st = DataStore::new();
    assert!(st.insert(docs).is_ok());
    st
}

#[test]
fn new_store_is_empty() {
    let st = DataStore::new();
    assert_eq!(st.size(), 0);
    let r: FindResults = st.find_documents(&all());
    assert_eq!(r.documents.len(), 0);
    assert_eq!(r.total_count, 0);
}

#[test]
fn duplicate_id_fails_and_keeps_earlier_documents() {
    let mut st = store_with(vec![obj(vec![("id", s("a"))]), obj(vec![("id", s("b"))])]);
    let r = st.insert(vec![
        obj(vec![("id", s("c"))]),
        obj(vec![("id", s("a")), ("v", num("2"))]),
        obj(vec![("id", s("d"))]),
    ]);
    match r {
        Err(StoreError::DuplicateKey(k)) => assert_eq!(k, "a"),
        Ok(()) => panic!("a repeated id must be refused"),
    }
    assert_eq!(st.size(), 3);
    let found = st.find_documents(&query(Some(obj(vec![("id", s("c"))])), None, None, None));
    assert_eq!(found.total_count, 1);
    let old_a = st.find_documents(&query(Some(obj(vec![("id", s("a"))])), None, None, None));
    assert_eq!(old_a.total_count, 1);
    assert!(same(&old_a.documents[0], &obj(vec![("id", s("a"))])));
    let d = st.find_documents(&query(Some(obj(vec![("id", s("d"))])), None, None, None));
    assert_eq!(d.total_count, 0);
}

#[test]
fn duplicate_id_within_one_batch_fails() {
    let mut st = DataStore::new();
    let r = st.insert(vec![obj(vec![("id", s("x"))]), obj(vec![("id", s("x"))])]);
    assert!(matches!(r, Err(StoreError::DuplicateKey(ref k)) if k == "x"));
    assert_eq!(st.size(), 1);
}

#[test]
fn documents_without_id_get_distinct_keys() {
    let mut st = DataStore::new();
    assert!(st.insert(vec![obj(vec![("v", num("1"))]), obj(vec![("v", num("1"))]), s("plain")]).is_ok());
    assert!(st.insert(vec![obj(vec![("v", num("2"))])]).is_ok());
    assert_eq!(st.size(), 4);
    let r = st.find_documents(&query(Some(obj(vec![("v", num("1"))])), None, None, None));
    assert_eq!(r.total_count, 2);
    assert!(same(&r.documents[0], &obj(vec![("v", num("1"))])));
}

#[test]
fn non_string_id_is_not_a_key() {
    let mut st = DataStore::new();
    assert!(st.insert(vec![obj(vec![("id", num("1"))]), obj(vec![("id", num("1"))])]).is_ok());
    assert_eq!(st.size(), 2);
}

#[test]
fn keyed_insert_uses_fresh_keys_in_order() {
    let mut st = DataStore::new();
    let r = st.insert_keyed(vec![obj(vec![("v", num("1"))]), obj(vec![("id", s("k"))])], vec!["k".to_string(), "z".to_string()]);
    assert!(matches!(r, Err(StoreError::DuplicateKey(ref k)) if k == "k"));
    assert_eq!(st.size(), 1);
}

#[test]
fn filter_is_a_conjunction_of_equalities() {
    let doc = obj(vec![("a", num("1")), ("b", obj(vec![("c", Value::Bool(true))]))]);
    assert!(matches_where_clause(&doc, &obj(vec![("a", num("1"))])));
    assert!(matches_where_clause(&doc, &obj(vec![("a", num("1")), ("b", obj(vec![("c", Value::Bool(true))]))])));
    assert!(!matches_where_clause(&doc, &obj(vec![("a", num("1")), ("z", num("1"))])));
    assert!(!matches_where_clause(&doc, &obj(vec![("a", num("2"))])));
    assert!(!matches_where_clause(&doc, &obj(vec![("b", obj(vec![]))])));
    assert!(!matches_where_clause(&doc, &obj(vec![("a", s("1"))])));
}

#[test]
fn empty_filter_matches_everything() {
    assert!(matches_where_clause(&obj(vec![("a", num("1"))]), &obj(vec![])));
    assert!(matches_where_clause(&Value::Null, &obj(vec![])));
    assert!(matches_where_clause(&s("x"), &obj(vec![])));
}

#[test]
fn non_object_filter_matches_nothing() {
    let doc = obj(vec![("a", num("1"))]);
    assert!(!matches_where_clause(&doc, &s("x")));
    assert!(!matches_where_clause(&doc, &Value::Null));
    assert!(!matches_where_clause(&doc, &Value::Array(vec![num("1")])));
}

#[test]
fn filter_on_a_non_object_document_fails() {
    assert!(!matches_where_clause(&Value::Array(vec![num("1")]), &obj(vec![("a", num("1"))])));
}

#[test]
fn delete_without_filter_removes_nothing() {
    let mut st = store_with(vec![obj(vec![("id", s("a"))]), obj(vec![("id", s("b"))])]);
    st.delete(&None);
    assert_eq!(st.size(), 2);
}

#[test]
fn delete_with_empty_filter_removes_everything() {
    let mut st = store_with(vec![obj(vec![("id", s("a"))]), obj(vec![("id", s("b"))]), num("3")]);
    st.delete(&Some(obj(vec![])));
    assert_eq!(st.size(), 0);
}

#[test]
fn delete_removes_only_matching_documents() {
    let mut st = store_with(vec![
        obj(vec![("id", s("a")), ("t", s("x"))]),
        obj(vec![("id", s("b")), ("t", s("y"))]),
        obj(vec![("id", s("c")), ("t", s("x"))]),
    ]);
    st.delete(&Some(obj(vec![("t", s("x"))])));
    assert_eq!(st.size(), 1);
    let r = st.find_documents(&all());
    assert!(same(&r.documents[0], &obj(vec![("id", s("b")), ("t", s("y"))])));
}

#[test]
fn delete_with_non_object_filter_removes_nothing() {
    let mut st = store_with(vec![obj(vec![("id", s("a"))])]);
    st.delete(&Some(s("a")));
    assert_eq!(st.size(), 1);
}

#[test]
fn count_ignores_pagination() {
    let st = store_with(vec![
        obj(vec![("k", num("1"))]),
        obj(vec![("k", num("1"))]),
        obj(vec![("k", num("2"))]),
        obj(vec![("k", num("1"))]),
    ]);
    let w = || Some(obj(vec![("k", num("1"))]));
    for (page, size) in [(None, None), (Some(0), Some(1)), (Some(1), Some(2)), (Some(7), Some(3)), (Some(0), Some(0))] {
        let r = st.find_documents(&query(w(), None, page, size));
        assert_eq!(r.total_count, 3);
    }
    assert_eq!(st.find_documents(&query(w(), None, Some(1), Some(2))).documents.len(), 1);
}

#[test]
fn page_past_the_end_is_empty() {
    let st = store_with((0..5).map(|i| obj(vec![("i", num(&i.to_string()))])).collect());
    let r = st.find_documents(&query(None, None, Some(2), Some(3)));
    assert_eq!(r.documents.len(), 0);
    assert_eq!(r.total_count, 5);
    let r = st.find_documents(&query(None, None, Some(1), Some(3)));
    assert_eq!(r.documents.len(), 2);
    assert_eq!(r.total_count, 5);
}

#[test]
fn pagination_needs_page_and_positive_size() {
    let st = store_with((0..5).map(|i| obj(vec![("i", num(&i.to_string()))])).collect());
    assert_eq!(st.find_documents(&query(None, None, Some(1), None)).documents.len(), 5);
    assert_eq!(st.find_documents(&query(None, None, None, Some(2))).documents.len(), 5);
    assert_eq!(st.find_documents(&query(None, None, Some(1), Some(0))).documents.len(), 5);
    assert_eq!(st.find_documents(&query(None, None, Some(u32::MAX), Some(u32::MAX))).documents.len(), 0);
}

#[test]
fn sort_compares_text_not_numbers() {
    let st = store_with(vec![obj(vec![("n", num("9"))]), obj(vec![("n", num("10"))])]);
    let r = st.find_documents(&query(None, Some("n"), None, None));
    assert_eq!(r.documents.len(), 2);
    assert!(same(&r.documents[0], &obj(vec![("n", num("10"))])));
    assert!(same(&r.documents[1], &obj(vec![("n", num("9"))])));
}

#[test]
fn sort_treats_a_missing_field_as_null() {
    let st = store_with(vec![obj(vec![("m", num("0"))]), obj(vec![("n", s("b"))]), obj(vec![("n", num("1"))])]);
    let r = st.find_documents(&query(None, Some("n"), None, None));
    assert!(same(&field_of(&r.documents[0], "n"), &s("b")));
    assert!(same(&field_of(&r.documents[1], "n"), &num("1")));
    assert!(same(&r.documents[2], &obj(vec![("m", num("0"))])));
}

#[test]
fn sort_keeps_the_order_of_equal_keys() {
    let st = store_with(vec![
        obj(vec![("g", num("2")), ("id", s("p"))]),
        obj(vec![("g", num("1")), ("id", s("q"))]),
        obj(vec![("g", num("2")), ("id", s("r"))]),
        obj(vec![("g", num("1")), ("id", s("t"))]),
    ]);
    let r = st.find_documents(&query(None, Some("g"), None, None));
    let ids: Vec<String> = r.documents.iter().map(|d| text_of(&field_of(d, "id"))).collect();
    assert_eq!(ids, vec!["\"q\"", "\"t\"", "\"p\"", "\"r\""]);
}

#[test]
fn sort_then_page() {
    let st = store_with(vec![s("c"), s("a"), s("e"), s("b"), s("d")]);
    let r = st.find_documents(&query(Some(obj(vec![])), Some("x"), Some(1), Some(2)));
    assert_eq!(r.total_count, 5);
    assert!(same(&r.documents[0], &s("e")));
    assert!(same(&r.documents[1], &s("b")));
    let st = store_with(["c", "a", "e", "b", "d"].iter().map(|t| obj(vec![("x", s(t))])).collect());
    let r = st.find_documents(&query(None, Some("x"), Some(1), Some(2)));
    assert_eq!(r.total_count, 5);
    assert_eq!(r.documents.len(), 2);
    assert!(same(&field_of(&r.documents[0], "x"), &s("c")));
    assert!(same(&field_of(&r.documents[1], "x"), &s("d")));
}

#[test]
fn insert_then_find_by_id() {
    let mut st = DataStore::new();
    assert!(st.insert(vec![obj(vec![("id", s("a")), ("v", num("1"))])]).is_ok());
    let r = st.find_documents(&query(Some(obj(vec![("id", s("a"))])), None, None, None));
    assert_eq!(r.total_count, 1);
    assert_eq!(r.documents.len(), 1);
    assert!(same(&r.documents[0], &obj(vec![("id", s("a")), ("v", num("1"))])));
}

#[test]
fn clear_empties_the_store() {
    let mut st = DataStore::new();
    st.clear();
    assert_eq!(st.size(), 0);
    assert!(st.insert(vec![obj(vec![("id", s("a"))]), num("2")]).is_ok());
    assert_eq!(st.size(), 2);
    st.clear();
    assert_eq!(st.size(), 0);
    st.clear();
    assert_eq!(st.size(), 0);
}

#[test]
fn text_form_is_compact_json() {
    assert_eq!(text_of(&Value::Null), "null");
    assert_eq!(text_of(&Value::Bool(false)), "false");
    assert_eq!(text_of(&num("-1.5")), "-1.5");
    assert_eq!(text_of(&s("a\"b")), "\"a\\\"b\"");
    assert_eq!(
        text_of(&obj(vec![("a", Value::Array(vec![num("1"), Value::Null])), ("b", s("x"))])),
        "{\"a\":[1,null],\"b\":\"x\"}"
    );
}

#[test]
fn deep_equality_and_copy() {
    let v = obj(vec![("a", Value::Array(vec![num("1"), obj(vec![("b", s("c"))])]))]);
    assert!(v.equals(&v.deep_copy()));
    assert!(!v.equals(&obj(vec![("a", Value::Array(vec![num("1")]))])));
    assert!(!num("1").equals(&s("1")));
    assert!(!num("1").equals(&num("1.0")));
}

#[test]
fn well_formed_objects_have_ascending_keys() {
    assert!(obj(vec![("a", num("1")), ("b", obj(vec![("c", num("2")), ("d", num("3"))]))]).is_well_formed());
    assert!(!obj(vec![("b", num("1")), ("a", num("2"))]).is_well_formed());
    assert!(!obj(vec![("a", num("1")), ("a", num("2"))]).is_well_formed());
    assert!(!Value::Array(vec![obj(vec![("z", Value::Null), ("y", Value::Null)])]).is_well_formed());
    assert!(s("x").is_well_formed());
}

#[test]
fn nested_objects_match_as_whole_values() {
    let doc = obj(vec![("a", obj(vec![("b", num("1")), ("c", num("2"))]))]);
    assert!(matches_where_clause(&doc, &obj(vec![("a", obj(vec![("b", num("1")), ("c", num("2"))]))])));
    assert!(!matches_where_clause(&doc, &obj(vec![("a", obj(vec![("b", num("1"))]))])));
    assert!(!matches_where_clause(&obj(vec![("a", obj(vec![("b", num("1"))]))]), &obj(vec![("a.b", num("1"))])));
}

#[test]
fn string_text_escapes_control_characters() {
    assert_eq!(text_of(&s("a\n\u{1}\\\u{1f}é")), "\"a\\n\\u0001\\\\\\u001fé\"");
    assert_eq!(text_of(&s("\u{8}\t\u{c}\r")), "\"\\b\\t\\f\\r\"");
}
