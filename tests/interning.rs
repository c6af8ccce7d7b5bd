use chc_rust::error::ChcError;
use chc_rust::indexed_table::{IndexedTable, IndexedTableValue};
use chc_rust::text::{decimal_string, join_integers, join_strings};

fn strs(items: &[&str]) -> Vec<String> {
    items.iter().map(|s| s.to_string()).collect()
}

#[test]
fn intern_same_type_twice_gives_index_one() {
    let mut t = IndexedTable::new("typ-table".to_string());
    let a = t.intern(strs(&["tint"]), vec![]);
    let b = t.intern(strs(&["tint"]), vec![]);
    assert_eq!(a, 1);
    assert_eq!(b, 1);
    assert_eq!(t.size(), 1);
}

#[test]
fn reserve_then_commit_makes_record_retrievable() {
    let mut t = IndexedTable::new("compinfo-table".to_string());
    t.intern(strs(&["x"]), vec![1]);
    let k = t.reserve();
    assert_eq!(k, 2);
    match t.retrieve(k) {
        Err(ChcError::NotFound { index, table, size }) => {
            assert_eq!(index, 2);
            assert_eq!(table, "compinfo-table");
            assert_eq!(size, 2);
        }
        other => panic!("expected NotFound, got {:?}", other),
    }
    let value = IndexedTableValue::new(k, strs(&["S", "next"]), vec![1, 7]);
    let key = value.key();
    assert!(t.commit_reserved(k, key, value).is_ok());
    let got = t.retrieve(k).unwrap();
    assert_eq!(got.index(), 2);
    assert_eq!(got.tags(), &strs(&["S", "next"]));
    assert_eq!(got.args(), &vec![1, 7]);
}

#[test]
fn reset_to_checkpoint_drops_entries_after_it() {
    let mut t = IndexedTable::new("exp-table".to_string());
    for i in 0..5 {
        assert_eq!(t.intern(strs(&["const"]), vec![i]), i + 1);
    }
    assert_eq!(t.set_checkpoint().unwrap(), 6);
    assert_eq!(t.intern(strs(&["a"]), vec![]), 6);
    assert_eq!(t.intern(strs(&["b"]), vec![]), 7);
    assert_eq!(t.intern(strs(&["c"]), vec![]), 8);
    assert_eq!(t.reset_to_checkpoint().unwrap(), 6);
    assert_eq!(t.next_index(), 6);
    for i in 6..9 {
        assert!(matches!(t.retrieve(i), Err(ChcError::NotFound { .. })));
    }
    for i in 1..6 {
        let v = t.retrieve(i).unwrap();
        assert_eq!(v.args(), &vec![i - 1]);
    }
    assert_eq!(t.checkpoint(), None);
    // the keys interned after the checkpoint are gone as well
    assert_eq!(t.intern(strs(&["b"]), vec![]), 6);
}

#[test]
fn interning_twice_leaves_next_unchanged() {
    let mut t = IndexedTable::new("t".to_string());
    t.intern(strs(&["tptr"]), vec![3]);
    let next = t.next_index();
    let i1 = t.intern(strs(&["tarray"]), vec![1, -1]);
    let after_first = t.next_index();
    let i2 = t.intern(strs(&["tarray"]), vec![1, -1]);
    assert_eq!(i1, i2);
    assert_eq!(after_first, next + 1);
    assert_eq!(t.next_index(), after_first);
}

#[test]
fn next_grows_by_one_per_allocation() {
    let mut t = IndexedTable::new("t".to_string());
    assert_eq!(t.next_index(), 1);
    assert_eq!(t.intern(strs(&["a"]), vec![]), 1);
    assert_eq!(t.next_index(), 2);
    assert_eq!(t.reserve(), 2);
    assert_eq!(t.next_index(), 3);
    assert_eq!(t.intern(strs(&["a"]), vec![]), 1);
    assert_eq!(t.next_index(), 3);
    assert_eq!(t.intern(strs(&["b"]), vec![]), 3);
    assert_eq!(t.next_index(), 4);
}

#[test]
fn checkpoint_round_trip_restores_keys_and_records() {
    let mut t = IndexedTable::new("t".to_string());
    t.intern(strs(&["a"]), vec![1]);
    t.intern(strs(&["b"]), vec![2]);
    t.set_checkpoint().unwrap();
    t.intern(strs(&["c"]), vec![]);
    t.intern(strs(&["a"]), vec![1]);
    t.intern(strs(&["d"]), vec![4, 5]);
    t.reset_to_checkpoint().unwrap();
    assert_eq!(t.next_index(), 3);
    assert_eq!(t.keys(), vec![1, 2]);
    assert_eq!(t.intern(strs(&["a"]), vec![1]), 1);
    assert_eq!(t.intern(strs(&["b"]), vec![2]), 2);
    assert_eq!(t.intern(strs(&["c"]), vec![]), 3);
}

#[test]
fn checkpoint_misuse_is_reported() {
    let mut t = IndexedTable::new("t".to_string());
    assert!(matches!(t.reset_to_checkpoint(), Err(ChcError::CheckpointMisuse { checkpoint: None })));
    assert_eq!(t.set_checkpoint().unwrap(), 1);
    assert!(matches!(t.set_checkpoint(), Err(ChcError::CheckpointMisuse { checkpoint: Some(1) })));
    t.remove_checkpoint();
    assert_eq!(t.checkpoint(), None);
}

#[test]
fn commit_of_unreserved_index_is_refused() {
    let mut t = IndexedTable::new("t".to_string());
    let i = t.intern(strs(&["a"]), vec![]);
    let v = IndexedTableValue::new(i, strs(&["z"]), vec![]);
    let key = v.key();
    assert!(matches!(t.commit_reserved(i, key, v), Err(ChcError::ReserveMisuse { index: 1 })));
    let v2 = IndexedTableValue::new(9, strs(&["z"]), vec![]);
    let key2 = v2.key();
    assert!(matches!(t.commit_reserved(9, key2, v2), Err(ChcError::ReserveMisuse { index: 9 })));
    assert_eq!(t.retrieve(1).unwrap().tags(), &strs(&["a"]));
}

#[test]
fn reset_to_checkpoint_clears_reservations() {
    let mut t = IndexedTable::new("t".to_string());
    t.set_checkpoint().unwrap();
    let k = t.reserve();
    t.reset_to_checkpoint().unwrap();
    let v = IndexedTableValue::new(k, strs(&["late"]), vec![]);
    let key = v.key();
    assert!(matches!(t.commit_reserved(k, key, v), Err(ChcError::ReserveMisuse { .. })));
    assert_eq!(t.reserve(), 1);
}

#[test]
fn reset_empties_the_table() {
    let mut t = IndexedTable::new("t".to_string());
    t.intern(strs(&["a"]), vec![]);
    t.reserve();
    t.set_checkpoint().unwrap();
    t.reset();
    assert_eq!(t.size(), 0);
    assert_eq!(t.next_index(), 1);
    assert_eq!(t.checkpoint(), None);
    assert!(t.keys().is_empty());
    assert_eq!(t.name(), "t");
}

#[test]
fn keys_and_items_list_committed_records_in_order() {
    let mut t = IndexedTable::new("t".to_string());
    t.intern(strs(&["a"]), vec![]);
    let r = t.reserve();
    t.intern(strs(&["b"]), vec![]);
    assert_eq!(t.keys(), vec![1, 3]);
    let items = t.items();
    assert_eq!(items.len(), 2);
    assert_eq!(items[0].0, 1);
    assert_eq!(items[1].1.tags(), &strs(&["b"]));
    let v = IndexedTableValue::new(r, strs(&["c"]), vec![]);
    let key = v.key();
    t.commit_reserved(r, key, v).unwrap();
    assert_eq!(t.keys(), vec![1, 2, 3]);
}

#[test]
fn record_key_joins_tags_and_arguments() {
    let v = IndexedTableValue::new(4, strs(&["tarray", "x"]), vec![12, -1, 0]);
    let (t, a) = v.key();
    assert_eq!(t, "tarray,x");
    assert_eq!(a, "12,-1,0");
    let empty = IndexedTableValue::new(1, vec![], vec![]);
    assert_eq!(empty.key(), (String::new(), String::new()));
}

#[test]
fn decimal_text_of_integers() {
    assert_eq!(decimal_string(0), "0");
    assert_eq!(decimal_string(7), "7");
    assert_eq!(decimal_string(-42), "-42");
    assert_eq!(decimal_string(1000), "1000");
    assert_eq!(decimal_string(i64::MAX), i64::MAX.to_string());
    assert_eq!(decimal_string(i64::MIN), i64::MIN.to_string());
}

#[test]
fn joined_text_of_lists() {
    assert_eq!(join_strings(&strs(&["a", "bc", ""])), "a,bc,");
    assert_eq!(join_strings(&vec![]), "");
    assert_eq!(join_integers(&vec![3, -4]), "3,-4");
    assert_eq!(join_integers(&vec![5]), "5");
}

#[test]
fn shape_check_counts_tags_and_arguments() {
    let v = IndexedTableValue::new(1, strs(&["tint", "iint"]), vec![3]);
    assert!(v.check_key(2, 1).is_ok());
    match v.check_key(2, 2) {
        Err(ChcError::ShapeMismatch { tag, expected_tags, expected_args, actual_tags, actual_args }) => {
            assert_eq!(tag, "tint");
            assert_eq!((expected_tags, expected_args, actual_tags, actual_args), (2, 2, 2, 1));
        }
        other => panic!("expected ShapeMismatch, got {:?}", other),
    }
    let d = v.duplicate();
    assert_eq!(d.index(), 1);
    assert_eq!(d.args(), &vec![3]);
}

#[test]
fn add_uses_the_given_key() {
    let mut t = IndexedTable::new("compinfo-table".to_string());
    let key = ("S,a".to_string(), "1,2".to_string());
    assert_eq!(t.add(key.clone(), strs(&["S", "a"]), vec![1, 2]), 1);
    assert_eq!(t.add(key, strs(&["other"]), vec![]), 1);
    assert_eq!(t.size(), 1);
    assert_eq!(t.retrieve(1).unwrap().tags(), &strs(&["S", "a"]));
    // interning the same record finds it under the same key
    assert_eq!(t.intern(strs(&["S", "a"]), vec![1, 2]), 1);
}

#[test]
fn read_record_installs_at_its_index() {
    let mut t = IndexedTable::new("typ-table".to_string());
    t.read_record(IndexedTableValue::new(4, strs(&["tint", "iint"]), vec![])).unwrap();
    assert_eq!(t.next_index(), 5);
    assert_eq!(t.keys(), vec![4]);
    assert_eq!(t.intern(strs(&["tint", "iint"]), vec![]), 4);
    assert_eq!(t.intern(strs(&["tvoid"]), vec![]), 5);
    t.read_record(IndexedTableValue::new(2, strs(&["tptr"]), vec![4])).unwrap();
    assert_eq!(t.next_index(), 6);
    assert_eq!(t.keys(), vec![2, 4, 5]);
    assert_eq!(t.intern(strs(&["tptr"]), vec![4]), 2);
    let r = t.reserve();
    assert!(matches!(
        t.read_record(IndexedTableValue::new(r, strs(&["x"]), vec![])),
        Err(ChcError::ReserveMisuse { index: 6 })
    ));
}
