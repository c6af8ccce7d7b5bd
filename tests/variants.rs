use chc_rust::error::{Category, ChcError};
use chc_rust::indexed_table::IndexedTableValue;
use chc_rust::registry::{cdregistry, CDictionaryRegistry};
use chc_rust::variants::{CAttr, CConst, CExp, COffset, CTyp, Variant, VariantKind};

fn rec(tags: &[&str], args: &[i64]) -> IndexedTableValue {
    IndexedTableValue::new(1, tags.iter().map(|s| s.to_string()).collect(), args.to_vec())
}

#[test]
fn standard_registry_builds_types() {
    let reg = cdregistry();
    match reg.mk_instance(Category::Typ, &rec(&["tint", "iint"], &[])) {
        Ok(Variant::Typ(CTyp::Int { ikind, attrs })) => {
            assert_eq!(ikind, "iint");
            assert_eq!(attrs, None);
        }
        other => panic!("unexpected {:?}", other),
    }
    match reg.mk_instance(Category::Typ, &rec(&["tptr"], &[5, 9])) {
        Ok(Variant::Typ(CTyp::Ptr { target, attrs })) => {
            assert_eq!(target, 5);
            assert_eq!(attrs, Some(9));
        }
        other => panic!("unexpected {:?}", other),
    }
    match reg.mk_instance(Category::Typ, &rec(&["tarray"], &[2, -1])) {
        Ok(Variant::Typ(CTyp::Array { base, size_exp, attrs })) => {
            assert_eq!((base, size_exp, attrs), (2, None, None));
        }
        other => panic!("unexpected {:?}", other),
    }
    assert!(matches!(
        reg.mk_instance(Category::Typ, &rec(&["tbuiltin-va-list"], &[])),
        Ok(Variant::Typ(CTyp::BuiltinVaargs { attrs: None }))
    ));
    assert!(matches!(
        reg.mk_instance(Category::Typ, &rec(&["tcomp"], &[12])),
        Ok(Variant::Typ(CTyp::Comp { ckey: 12, attrs: None }))
    ));
}

#[test]
fn standard_registry_builds_other_categories() {
    let reg = cdregistry();
    assert!(matches!(
        reg.mk_instance(Category::AttrParam, &rec(&["aint"], &[3])),
        Ok(Variant::AttrParam(CAttr::Int { value: 3 }))
    ));
    match reg.mk_instance(Category::AttrParam, &rec(&["acons", "aligned"], &[4, 5])) {
        Ok(Variant::AttrParam(CAttr::Cons { name, params })) => {
            assert_eq!(name, "aligned");
            assert_eq!(params, vec![4, 5]);
        }
        other => panic!("unexpected {:?}", other),
    }
    match reg.mk_instance(Category::Constant, &rec(&["wstr", "65", "66"], &[])) {
        Ok(Variant::Constant(CConst::WStr { values })) => assert_eq!(values, vec!["65", "66"]),
        other => panic!("unexpected {:?}", other),
    }
    match reg.mk_instance(Category::Constant, &rec(&["int", "42", "iint"], &[])) {
        Ok(Variant::Constant(CConst::Int { text, ikind })) => {
            assert_eq!(text, "42");
            assert_eq!(ikind, "iint");
        }
        other => panic!("unexpected {:?}", other),
    }
    match reg.mk_instance(Category::Offset, &rec(&["f", "next"], &[3, 1])) {
        Ok(Variant::Offset(COffset::Field { fieldname, ckey, sub })) => {
            assert_eq!(fieldname, "next");
            assert_eq!((ckey, sub), (3, 1));
        }
        other => panic!("unexpected {:?}", other),
    }
    assert!(matches!(
        reg.mk_instance(Category::Offset, &rec(&["n"], &[])),
        Ok(Variant::Offset(COffset::NoOffset))
    ));
    assert!(matches!(
        reg.mk_instance(Category::Exp, &rec(&["const"], &[8])),
        Ok(Variant::Exp(CExp::Const { constant: 8 }))
    ));
}

#[test]
fn unregistered_tag_is_unknown_variant() {
    let reg = cdregistry();
    match reg.mk_instance(Category::Typ, &rec(&["tfun"], &[1, 2, 3])) {
        Err(ChcError::UnknownVariant { category, tag }) => {
            assert_eq!(category, Category::Typ);
            assert_eq!(tag, "tfun");
        }
        other => panic!("unexpected {:?}", other),
    }
    // a tag of another category's space
    assert!(matches!(
        reg.mk_instance(Category::Constant, &rec(&["tint", "iint"], &[])),
        Err(ChcError::UnknownVariant { category: Category::Constant, .. })
    ));
    assert!(matches!(
        reg.mk_instance(Category::Typ, &rec(&[], &[])),
        Err(ChcError::UnknownVariant { .. })
    ));
}

#[test]
fn short_record_is_shape_mismatch() {
    let reg = cdregistry();
    match reg.mk_instance(Category::Typ, &rec(&["tint"], &[])) {
        Err(ChcError::ShapeMismatch { tag, expected_tags, expected_args, actual_tags, actual_args }) => {
            assert_eq!(tag, "tint");
            assert_eq!((expected_tags, expected_args, actual_tags, actual_args), (2, 0, 1, 0));
        }
        other => panic!("unexpected {:?}", other),
    }
    assert!(matches!(
        reg.mk_instance(Category::Offset, &rec(&["i"], &[4])),
        Err(ChcError::ShapeMismatch { expected_args: 2, actual_args: 1, .. })
    ));
}

#[test]
fn every_registered_pair_is_constructible() {
    let reg = cdregistry();
    let pairs: Vec<(Category, &str)> = vec![
        (Category::Typ, "tvoid"),
        (Category::Typ, "tint"),
        (Category::Typ, "tfloat"),
        (Category::Typ, "tnamed"),
        (Category::Typ, "tcomp"),
        (Category::Typ, "tenum"),
        (Category::Typ, "tbuiltin-va-list"),
        (Category::Typ, "tbuiltinvaargs"),
        (Category::Typ, "tptr"),
        (Category::Typ, "tarray"),
        (Category::AttrParam, "aint"),
        (Category::AttrParam, "astr"),
        (Category::AttrParam, "acons"),
        (Category::Constant, "int"),
        (Category::Constant, "str"),
        (Category::Constant, "wstr"),
        (Category::Constant, "chr"),
        (Category::Constant, "real"),
        (Category::Constant, "enum"),
        (Category::Offset, "n"),
        (Category::Offset, "f"),
        (Category::Offset, "i"),
        (Category::Exp, "const"),
    ];
    for (category, tag) in pairs {
        assert!(reg.lookup(category, &tag.to_string()).is_some(), "{tag}");
        let r = reg.mk_instance(category, &rec(&[tag, "x", "y"], &[1, 2, 3]));
        assert!(r.is_ok(), "{tag}: {:?}", r);
        // even a record that is too short is never an unknown variant
        let short = reg.mk_instance(category, &rec(&[tag], &[]));
        assert!(!matches!(short, Err(ChcError::UnknownVariant { .. })), "{tag}");
    }
}

#[test]
fn registration_refuses_duplicates_and_misplaced_kinds() {
    let mut reg = CDictionaryRegistry::new();
    assert!(reg.register(Category::Typ, "tvoid".to_string(), VariantKind::TypVoid).is_ok());
    assert!(matches!(
        reg.register(Category::Typ, "tvoid".to_string(), VariantKind::TypInt),
        Err(ChcError::DuplicateVariant { .. })
    ));
    assert!(matches!(
        reg.register(Category::Exp, "tint".to_string(), VariantKind::TypInt),
        Err(ChcError::MisplacedVariant { .. })
    ));
    assert_eq!(reg.lookup(Category::Typ, &"tvoid".to_string()), Some(VariantKind::TypVoid));
    assert_eq!(reg.lookup(Category::Typ, &"tint".to_string()), None);
    // a new kind of entity is added by registering it
    assert!(reg.register(Category::Typ, "tsigned".to_string(), VariantKind::TypInt).is_ok());
    assert!(matches!(
        reg.mk_instance(Category::Typ, &rec(&["tsigned", "ilong"], &[])),
        Ok(Variant::Typ(CTyp::Int { .. }))
    ));
}
