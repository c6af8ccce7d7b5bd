use chc_rust::dictionary::CDictionary;
use chc_rust::error::{Category, ChcError};
use chc_rust::registry::cdregistry;
use chc_rust::variants::{CAttr, CConst, CTyp};

fn texts(items: &[&str]) -> Vec<String> {
    items.iter().map(|s| s.to_string()).collect()
}

#[test]
fn typ_getter_routes_through_registry() {
    let reg = cdregistry();
    let mut cd = CDictionary::new();
    let ix = cd.mk_typ_index(texts(&["tnamed", "size_t"]), vec![]);
    match cd.get_typ(&reg, ix) {
        Ok(CTyp::Named { name, attrs }) => {
            assert_eq!(name, "size_t");
            assert_eq!(attrs, None);
        }
        other => panic!("unexpected {:?}", other),
    }
    match cd.get_typ(&reg, 5) {
        Err(ChcError::NotFound { index, table, size }) => {
            assert_eq!((index, size), (5, 1));
            assert_eq!(table, "typ-table");
        }
        other => panic!("unexpected {:?}", other),
    }
}

#[test]
fn unknown_type_tag_is_reported_by_getter() {
    let reg = cdregistry();
    let mut cd = CDictionary::new();
    let ix = cd.mk_typ_index(texts(&["tfun"]), vec![1, 2]);
    assert!(matches!(
        cd.get_typ(&reg, ix),
        Err(ChcError::UnknownVariant { category: Category::Typ, .. })
    ));
}

#[test]
fn other_getters_read_their_own_tables() {
    let reg = cdregistry();
    let mut cd = CDictionary::new();
    let c = cd.constant_table.intern(texts(&["chr"]), vec![65]);
    assert!(matches!(cd.get_constant(&reg, c), Ok(CConst::Chr { code: 65 })));
    let a = cd.attrparam_table.intern(texts(&["astr"]), vec![2]);
    assert!(matches!(cd.get_attrparam(&reg, a), Ok(CAttr::Str { string_index: 2 })));
    // the same index in another table is another record
    assert!(matches!(cd.get_exp(&reg, c), Err(ChcError::NotFound { .. })));
    assert!(matches!(cd.get_offset(&reg, 1), Err(ChcError::NotFound { .. })));
    let at = cd.attribute_table.intern(texts(&["packed"]), vec![a]);
    let attr = cd.get_attribute(at).unwrap();
    assert_eq!(attr.name, "packed");
    assert_eq!(attr.params, vec![a]);
    assert_eq!(attr.length(), 1);
    let ats = cd.attributes_table.intern(vec![], vec![at]);
    let list = cd.get_attributes(ats).unwrap();
    assert_eq!(list.attributes, vec![at]);
    assert_eq!(list.length(), 1);
}

#[test]
fn strip_attributes_drops_the_attribute_argument() {
    let mut cd = CDictionary::new();
    let plain = cd.mk_typ_index(texts(&["tint", "iint"]), vec![]);
    let with_attrs = cd.mk_typ_index(texts(&["tint", "iint"]), vec![4]);
    assert_ne!(plain, with_attrs);
    assert_eq!(cd.strip_attributes(with_attrs).unwrap(), plain);
    // no attribute argument: unchanged
    assert_eq!(cd.strip_attributes(plain).unwrap(), plain);
    // the empty attribute list (index 1): unchanged
    let empty_attrs = cd.mk_typ_index(texts(&["tptr"]), vec![plain, 1]);
    assert_eq!(cd.strip_attributes(empty_attrs).unwrap(), empty_attrs);
    // a pointer with attributes becomes the pointer without them, interned anew
    let size = cd.typ_table.size();
    let ptr_attrs = cd.mk_typ_index(texts(&["tptr"]), vec![plain, 3]);
    let stripped = cd.strip_attributes(ptr_attrs).unwrap();
    assert_eq!(stripped, size + 2);
    assert_eq!(cd.typ_table.retrieve(stripped).unwrap().args(), &vec![plain]);
}

#[test]
fn strip_attributes_errors() {
    let mut cd = CDictionary::new();
    assert!(matches!(cd.strip_attributes(1), Err(ChcError::NotFound { .. })));
    let odd = cd.mk_typ_index(texts(&["tmystery"]), vec![2]);
    assert!(matches!(
        cd.strip_attributes(odd),
        Err(ChcError::UnknownVariant { category: Category::Typ, .. })
    ));
}
