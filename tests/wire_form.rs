use chc_rust::error::ChcError;
use chc_rust::indexed_table::IndexedTableValue;
use chc_rust::wire::{get_rep, parse_integer, write_rep};

fn some(s: &str) -> Option<String> {
    Some(s.to_string())
}

#[test]
fn write_rep_joins_tags_and_args() {
    let v = IndexedTableValue::new(12, vec!["tptr".to_string()], vec![3, -1]);
    let (t, a, ix) = write_rep(&v);
    assert_eq!(t, some("tptr"));
    assert_eq!(a, some("3,-1"));
    assert_eq!(ix, "12");
}

#[test]
fn write_rep_omits_empty_lists() {
    let v = IndexedTableValue::new(1, vec![], vec![]);
    let (t, a, ix) = write_rep(&v);
    assert_eq!(t, None);
    assert_eq!(a, None);
    assert_eq!(ix, "1");
}

#[test]
fn get_rep_reads_attributes() {
    let v = get_rep(&some("tint,iint"), &some("4,-7"), &some("9")).unwrap();
    assert_eq!(v.index(), 9);
    assert_eq!(v.tags(), &vec!["tint".to_string(), "iint".to_string()]);
    assert_eq!(v.args(), &vec![4, -7]);
    let bare = get_rep(&None, &some(""), &some("+3")).unwrap();
    assert_eq!(bare.index(), 3);
    assert!(bare.tags().is_empty());
    assert!(bare.args().is_empty());
    let empty_tag = get_rep(&some(""), &None, &some("2")).unwrap();
    assert_eq!(empty_tag.tags(), &vec![String::new()]);
}

#[test]
fn get_rep_errors() {
    assert!(matches!(get_rep(&some("a"), &None, &None), Err(ChcError::MissingIndex)));
    match get_rep(&some("a"), &some("1,x2"), &some("5")) {
        Err(ChcError::InvalidInteger { text }) => assert_eq!(text, "x2"),
        other => panic!("unexpected {:?}", other),
    }
    assert!(matches!(get_rep(&None, &None, &some("5a")), Err(ChcError::InvalidInteger { .. })));
    assert!(matches!(get_rep(&None, &some("1,,2"), &some("5")), Err(ChcError::InvalidInteger { .. })));
}

#[test]
fn attributes_round_trip() {
    let records = vec![
        IndexedTableValue::new(7, vec!["tarray".to_string()], vec![2, -1, 0]),
        IndexedTableValue::new(1, vec![], vec![5]),
        IndexedTableValue::new(-3, vec!["a".to_string(), "".to_string()], vec![]),
        IndexedTableValue::new(i64::MAX, vec!["x".to_string()], vec![i64::MIN]),
    ];
    for v in records {
        let (t, a, ix) = write_rep(&v);
        let back = get_rep(&t, &a, &Some(ix.clone())).unwrap();
        assert_eq!(back.index(), v.index());
        assert_eq!(back.tags(), v.tags());
        assert_eq!(back.args(), v.args());
        assert_eq!(write_rep(&back), (t, a, ix));
    }
}

#[test]
fn integers_in_and_out_of_range() {
    assert_eq!(parse_integer(&"9223372036854775807".to_string()), Some(i64::MAX));
    assert_eq!(parse_integer(&"-9223372036854775808".to_string()), Some(i64::MIN));
    assert_eq!(parse_integer(&"9223372036854775808".to_string()), None);
    assert_eq!(parse_integer(&"-9223372036854775809".to_string()), None);
    assert_eq!(parse_integer(&"99999999999999999999999".to_string()), None);
    assert_eq!(parse_integer(&"007".to_string()), Some(7));
    assert_eq!(parse_integer(&"-".to_string()), None);
    assert_eq!(parse_integer(&"".to_string()), None);
    assert_eq!(parse_integer(&"1 ".to_string()), None);
}
