use rredis::list::{List, ListError};

fn strings(items: &[&str]) -> Vec<String> {
    items.iter().map(|s| s.to_string()).collect()
}

fn contents(store: &List, key: &str) -> Vec<String> {
    let n = store.llen(key.to_string());
    let mut out = Vec::new();
    for i in 0..n {
        out.push(store.lindex(key.to_string(), i as isize).unwrap().clone());
    }
    out
}

fn store_with(key: &str, items: &[&str]) -> List {
    let mut store = List::new();
    store.rpush(key.to_string(), strings(items));
    store
}

#[test]
fn lpush_puts_last_value_first() {
    let mut store = store_with("k", &["a", "b", "c"]);
    assert_eq!(store.lpush("k".to_string(), strings(&["x", "y"])), 5);
    assert_eq!(contents(&store, "k"), strings(&["y", "x", "a", "b", "c"]));
}

#[test]
fn lpush_creates_missing_key() {
    let mut store = List::new();
    assert_eq!(store.lpush("k".to_string(), strings(&["a"])), 1);
    assert_eq!(store.llen("k".to_string()), 1);
}

#[test]
fn rpush_appends_in_order() {
    let mut store = store_with("k", &["a", "b", "c"]);
    assert_eq!(store.rpush("k".to_string(), strings(&["x", "y"])), Some(5));
    assert_eq!(contents(&store, "k"), strings(&["a", "b", "c", "x", "y"]));
}

#[test]
fn rpushx_needs_existing_key() {
    let mut store = List::new();
    assert_eq!(store.rpushx("k".to_string(), strings(&["a"])), None);
    assert_eq!(store.llen("k".to_string()), 0);
    store.rpush("k".to_string(), strings(&["a"]));
    assert_eq!(store.rpushx("k".to_string(), strings(&["b"])), Some(2));
    assert_eq!(contents(&store, "k"), strings(&["a", "b"]));
}

#[test]
fn lindex_negative_reads_tail() {
    let store = store_with("k", &["a", "b", "c"]);
    assert_eq!(store.lindex("k".to_string(), -1), Some(&"c".to_string()));
    assert_eq!(store.lindex("k".to_string(), -3), Some(&"a".to_string()));
    assert_eq!(store.lindex("k".to_string(), -4), None);
    assert_eq!(store.lindex("k".to_string(), 3), None);
    assert_eq!(store.lindex("missing".to_string(), -1), None);
}

#[test]
fn lindex_on_emptied_list_is_absent() {
    let mut store = store_with("k", &["a"]);
    assert_eq!(store.lpop("k".to_string()), Some("a".to_string()));
    assert_eq!(store.lindex("k".to_string(), -1), None);
    assert_eq!(store.lpop("k".to_string()), None);
}

#[test]
fn pops_take_head_and_tail() {
    let mut store = store_with("k", &["a", "b", "c"]);
    assert_eq!(store.lpop("k".to_string()), Some("a".to_string()));
    assert_eq!(store.rpop("k".to_string()), Some("c".to_string()));
    assert_eq!(contents(&store, "k"), strings(&["b"]));
    assert_eq!(store.rpop("missing".to_string()), None);
    assert_eq!(store.llen("missing".to_string()), 0);
}

#[test]
fn lrem_zero_removes_every_match() {
    let mut store = store_with("k", &["v", "a", "v", "b", "v"]);
    assert_eq!(store.lrem("k".to_string(), 0, "v"), 3);
    assert_eq!(contents(&store, "k"), strings(&["a", "b"]));
}

#[test]
fn lrem_counts_from_head_for_either_sign() {
    let mut store = store_with("k", &["v", "a", "v", "b", "v"]);
    assert_eq!(store.lrem("k".to_string(), -2, "v"), 2);
    assert_eq!(contents(&store, "k"), strings(&["a", "b", "v"]));
    assert_eq!(store.lrem("k".to_string(), 5, "v"), 1);
    assert_eq!(contents(&store, "k"), strings(&["a", "b"]));
    assert_eq!(store.lrem("missing".to_string(), 0, "v"), 0);
}

#[test]
fn fix_range_cross_assigns_bounds() {
    assert_eq!(List::fix_range(0, 2, 3), Some((0, 2)));
    assert_eq!(List::fix_range(-1, 5, 3), None);
    assert_eq!(List::fix_range(-1, -1, 3), Some((2, 3)));
    assert_eq!(List::fix_range(-2, -1, 3), Some((2, 2)));
    assert_eq!(List::fix_range(0, -1, 2), None);
    assert_eq!(List::fix_range(1, 4, 3), None);
    assert_eq!(List::fix_range(-1, -5, 3), None);
}

#[test]
fn rpush_then_lrange_by_the_range_rule() {
    let mut store = List::new();
    store.rpush("mylist".to_string(), strings(&["A", "B"]));
    // A negative end moves the lower bound to len - 1 and leaves the upper
    // bound at -1, so this window is invalid.
    assert_eq!(store.lrange("mylist".to_string(), 0, -1), None);
    assert_eq!(
        store.lrange("mylist".to_string(), 0, 2).map(|w| w.to_vec()),
        Some(strings(&["A", "B"]))
    );
    assert_eq!(
        store.lrange("mylist".to_string(), -1, -1).map(|w| w.to_vec()),
        Some(strings(&["B"]))
    );
}

#[test]
fn lrange_empty_or_missing_is_absent() {
    let mut store = store_with("k", &["a"]);
    store.lpop("k".to_string());
    assert_eq!(store.lrange("k".to_string(), 0, 0), None);
    assert_eq!(store.lrange("missing".to_string(), 0, 1), None);
}

#[test]
fn ltrim_deletes_inside_window() {
    let mut store = store_with("k", &["a", "b", "c", "d", "e"]);
    assert_eq!(store.ltrim("k".to_string(), 1, 3), Some(()));
    assert_eq!(contents(&store, "k"), strings(&["a", "d", "e"]));
    assert_eq!(store.llen("k".to_string()), 3);
}

#[test]
fn ltrim_invalid_window_changes_nothing() {
    let mut store = store_with("k", &["a", "b", "c"]);
    assert_eq!(store.ltrim("k".to_string(), 0, -1), None);
    assert_eq!(store.llen("k".to_string()), 3);
    assert_eq!(store.ltrim("k".to_string(), -2, -1), Some(()));
    assert_eq!(store.llen("k".to_string()), 3);
    assert_eq!(store.ltrim("k".to_string(), -1, -2), Some(()));
    assert_eq!(contents(&store, "k"), strings(&["a"]));
    assert_eq!(store.ltrim("missing".to_string(), 0, 1), None);
}

#[test]
fn lset_positive_and_negative_offsets() {
    let mut store = store_with("k", &["a", "b", "c"]);
    assert_eq!(store.lset("k".to_string(), 0, "x".to_string()), Ok(()));
    assert_eq!(store.lset("k".to_string(), -2, "z".to_string()), Ok(()));
    assert_eq!(contents(&store, "k"), strings(&["x", "b", "z"]));
}

#[test]
fn lset_errors() {
    let mut store = store_with("k", &["a", "b", "c"]);
    assert_eq!(store.lset("k".to_string(), 3, "x".to_string()), Err(ListError::IndexOutOfRange));
    assert_eq!(store.lset("k".to_string(), -1, "x".to_string()), Err(ListError::IndexOutOfRange));
    assert_eq!(store.lset("k".to_string(), -5, "x".to_string()), Err(ListError::IndexOutOfRange));
    assert_eq!(store.lset("missing".to_string(), 0, "x".to_string()), Err(ListError::KeyNotFound));
    assert_eq!(contents(&store, "k"), strings(&["a", "b", "c"]));
}

#[test]
fn linsert_after_pivot() {
    let mut store = store_with("mylist", &["A", "B", "C"]);
    assert_eq!(store.linsert("mylist".to_string(), "AFTER", "B", "X"), Some(4));
    assert_eq!(contents(&store, "mylist"), strings(&["A", "B", "X", "C"]));
}

#[test]
fn linsert_before_uses_offset_rule() {
    let mut store = store_with("k", &["A", "B", "C"]);
    assert_eq!(store.linsert("k".to_string(), "BEFORE", "C", "X"), Some(4));
    assert_eq!(contents(&store, "k"), strings(&["A", "X", "B", "C"]));
    assert_eq!(store.linsert("k".to_string(), "BEFORE", "A", "Y"), Some(5));
    assert_eq!(contents(&store, "k"), strings(&["Y", "A", "X", "B", "C"]));
}

#[test]
fn linsert_missing_pivot_or_key() {
    let mut store = store_with("k", &["A"]);
    assert_eq!(store.linsert("k".to_string(), "AFTER", "Z", "X"), Some(-1));
    assert_eq!(store.linsert("missing".to_string(), "AFTER", "A", "X"), None);
    assert_eq!(contents(&store, "k"), strings(&["A"]));
}

#[test]
fn rpoplpush_missing_dest_is_invalid() {
    let mut store = store_with("src", &["a", "b"]);
    assert_eq!(store.rpoplpush("src".to_string(), "dst".to_string()), Err(ListError::InvalidList));
    assert_eq!(contents(&store, "src"), strings(&["a", "b"]));
    assert_eq!(store.llen("dst".to_string()), 0);
}

#[test]
fn rpoplpush_moves_head_to_head() {
    let mut store = store_with("src", &["a", "b"]);
    store.rpush("dst".to_string(), strings(&["c"]));
    assert_eq!(store.rpoplpush("src".to_string(), "dst".to_string()), Ok(()));
    assert_eq!(contents(&store, "src"), strings(&["b"]));
    assert_eq!(contents(&store, "dst"), strings(&["a", "c"]));
}

#[test]
fn rpoplpush_empty_source() {
    let mut store = store_with("src", &["a"]);
    store.rpush("dst".to_string(), strings(&["c"]));
    store.lpop("src".to_string());
    assert_eq!(store.rpoplpush("src".to_string(), "dst".to_string()), Err(ListError::InvalidSourceList));
    assert_eq!(contents(&store, "dst"), strings(&["c"]));
}
