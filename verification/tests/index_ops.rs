use witchdb::error::Error;
use witchdb::index::{Index, IndexList, NumberEntry, TextEntry, TextGroup};

fn text(s: &str) -> String {
    s.to_string()
}

#[test]
fn unique_string_index_rejects_a_second_entry_for_a_value() {
    let mut index = Index::new_unique_hashmap();
    assert!(index.add_string_unique(text("k1"), text("a@b")).is_ok());
    assert!(index.add_string_unique(text("k2"), text("c@d")).is_ok());
    let before = index.clone();
    let again = index.add_string_unique(text("k3"), text("a@b"));
    assert!(matches!(again, Err(Error::IndexError(_))));
    assert_eq!(index, before);
    assert_eq!(
        index,
        Index::HashUnique(vec![
            TextEntry { value: text("a@b"), key: text("k1") },
            TextEntry { value: text("c@d"), key: text("k2") },
        ])
    );
}

#[test]
fn same_key_may_file_two_values_in_a_unique_string_index() {
    let mut index = Index::new_unique_hashmap();
    assert!(index.add_string_unique(text("k1"), text("x")).is_ok());
    assert!(index.add_string_unique(text("k1"), text("y")).is_ok());
    assert_eq!(index.get_unique_hash_key(text("y")), Some(&text("k1")));
}

#[test]
fn ordered_index_keeps_ascending_order_and_rejects_duplicates() {
    let mut index = Index::new_unique_btreemap();
    assert!(index.add_number_unique(text("k30"), 30).is_ok());
    assert!(index.add_number_unique(text("k10"), 10).is_ok());
    assert!(index.add_number_unique(text("kneg"), -5).is_ok());
    assert!(index.add_number_unique(text("k20"), 20).is_ok());
    assert!(matches!(index.add_number_unique(text("other"), 10), Err(Error::IndexError(_))));
    assert_eq!(
        index,
        Index::BTreeUnique(vec![
            NumberEntry { number: -5, key: text("kneg") },
            NumberEntry { number: 10, key: text("k10") },
            NumberEntry { number: 20, key: text("k20") },
            NumberEntry { number: 30, key: text("k30") },
        ])
    );
}

#[test]
fn range_honours_each_bound_flag() {
    let mut index = Index::new_unique_btreemap();
    for n in [40i64, 10, 30, 20] {
        index.add_number_unique(format!("k{}", n), n).unwrap();
    }
    assert_eq!(index.range(10, 30, true, true), vec![text("k10"), text("k20"), text("k30")]);
    assert_eq!(index.range(10, 30, false, true), vec![text("k20"), text("k30")]);
    assert_eq!(index.range(10, 30, true, false), vec![text("k10"), text("k20")]);
    assert_eq!(index.range(10, 30, false, false), vec![text("k20")]);
    assert_eq!(index.range(41, 100, true, true), Vec::<String>::new());
    assert_eq!(index.range(30, 10, true, true), Vec::<String>::new());
    assert_eq!(Index::new_unique_hashmap().range(0, 100, true, true), Vec::<String>::new());
}

#[test]
fn type_mismatched_calls_do_nothing() {
    let mut hash = Index::new_unique_hashmap();
    assert!(hash.add_number_unique(text("k"), 1).is_ok());
    assert!(hash.add_string(text("k"), text("v")).is_ok());
    hash.remove_number(1);
    assert_eq!(hash, Index::new_unique_hashmap());

    let mut ordered = Index::new_unique_btreemap();
    assert!(ordered.add_string_unique(text("k"), text("v")).is_ok());
    assert!(ordered.add_string(text("k"), text("v")).is_ok());
    ordered.remove_string(&text("v"), &text("k"));
    assert_eq!(ordered, Index::new_unique_btreemap());
    assert_eq!(ordered.get_unique_hash_key(text("v")), None);
    assert_eq!(ordered.get_hash_keys(text("v")), None);

    let mut many = Index::new_hashmap();
    assert!(many.add_string_unique(text("k"), text("v")).is_ok());
    assert!(many.add_number_unique(text("k"), 3).is_ok());
    assert_eq!(many, Index::new_hashmap());
}

#[test]
fn non_unique_index_appends_keys_and_drops_empty_groups() {
    let mut index = Index::new_hashmap();
    index.add_string(text("k1"), text("red")).unwrap();
    index.add_string(text("k2"), text("blue")).unwrap();
    index.add_string(text("k3"), text("red")).unwrap();
    assert_eq!(index.get_hash_keys(text("red")), Some(&vec![text("k1"), text("k3")]));
    assert_eq!(index.get_hash_keys(text("blue")), Some(&vec![text("k2")]));
    assert_eq!(index.get_hash_keys(text("green")), None);
    assert_eq!(index.get_unique_hash_key(text("red")), None);

    index.remove_string(&text("red"), &text("k1"));
    assert_eq!(index.get_hash_keys(text("red")), Some(&vec![text("k3")]));
    index.remove_string(&text("red"), &text("missing"));
    assert_eq!(index.get_hash_keys(text("red")), Some(&vec![text("k3")]));
    index.remove_string(&text("red"), &text("k3"));
    assert_eq!(index.get_hash_keys(text("red")), None);
    assert_eq!(
        index,
        Index::Hash(vec![TextGroup { value: text("blue"), keys: vec![text("k2")] }])
    );
}

#[test]
fn removing_an_absent_entry_is_silent() {
    let mut index = Index::new_unique_hashmap();
    index.add_string_unique(text("k1"), text("a")).unwrap();
    let before = index.clone();
    index.remove_string(&text("zzz"), &text("k1"));
    assert_eq!(index, before);
    index.remove_string(&text("a"), &text("k1"));
    assert_eq!(index, Index::new_unique_hashmap());
    index.remove_string(&text("a"), &text("k1"));
    assert_eq!(index, Index::new_unique_hashmap());

    let mut ordered = Index::new_unique_btreemap();
    ordered.add_number_unique(text("k"), 7).unwrap();
    ordered.remove_number(8);
    assert_eq!(ordered.range(7, 7, true, true), vec![text("k")]);
    ordered.remove_number(7);
    ordered.remove_number(7);
    assert_eq!(ordered, Index::new_unique_btreemap());
}

#[test]
fn lookup_in_unique_string_index() {
    let mut index = Index::new_unique_hashmap();
    index.add_string_unique(text("k1"), text("a")).unwrap();
    assert_eq!(index.get_unique_hash_key(text("a")), Some(&text("k1")));
    assert_eq!(index.get_unique_hash_key(text("b")), None);
    assert_eq!(index.get_hash_keys(text("a")), None);
}

#[test]
fn index_list_replaces_a_prior_index_under_the_same_name() {
    let mut list = IndexList::new();
    assert!(!list.index_exists(&text("email")));
    assert!(list.get_index(&text("email")).is_none());
    list.create_index(text("email"), Index::new_unique_hashmap());
    list.create_index(text("age"), Index::new_unique_btreemap());
    assert!(list.index_exists(&text("email")));
    assert!(matches!(list.get_index(&text("email")), Some(Index::HashUnique(_))));
    assert!(matches!(list.get_index(&text("age")), Some(Index::BTreeUnique(_))));

    list.create_index(text("email"), Index::new_hashmap());
    assert!(matches!(list.get_index(&text("email")), Some(Index::Hash(_))));
    assert_eq!(list.list.len(), 2);
    assert_eq!(list.list[0].name, "email");
    assert_eq!(list.list[1].name, "age");
}

#[test]
fn index_list_hands_out_an_index_to_change() {
    let mut list = IndexList::new();
    list.create_index(text("email"), Index::new_unique_hashmap());
    assert!(list.get_index_mut(&text("nope")).is_none());
    match list.get_index_mut(&text("email")) {
        Some(index) => index.add_string_unique(text("k1"), text("a@b")).unwrap(),
        None => panic!("the index is there"),
    }
    assert_eq!(
        list.get_index(&text("email")).unwrap().get_unique_hash_key(text("a@b")),
        Some(&text("k1"))
    );
}
