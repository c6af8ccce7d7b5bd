use chc_rust::error::ChcError;
use chc_rust::index_manager::{CKeyReference, FileKeyReference, FileVarReference, IndexManager, VarReference};

#[test]
fn resolve_vid_follows_the_definition() {
    let mut im = IndexManager::new(false);
    // global 10: declared in file 0 as vid 3, defined in file 1 as vid 7
    im.add_var_reference(0, 3, 10);
    im.add_var_reference(1, 7, 10);
    im.set_var_definition(10, 1).unwrap();
    assert_eq!(im.resolve_vid(FileVarReference::new(0, 3)), Some(FileVarReference::new(1, 7)));
    assert_eq!(im.resolve_vid(FileVarReference::new(1, 7)), Some(FileVarReference::new(1, 7)));
    assert_eq!(im.get_gvid(FileVarReference::new(0, 3)), Some(10));
}

#[test]
fn resolve_vid_missing_links_give_none() {
    let mut im = IndexManager::new(false);
    assert_eq!(im.resolve_vid(FileVarReference::new(0, 3)), None);
    im.add_var_reference(0, 3, 10);
    // no definition recorded yet
    assert_eq!(im.resolve_vid(FileVarReference::new(0, 3)), None);
    assert_eq!(im.get_gvid(FileVarReference::new(2, 3)), None);
}

#[test]
fn single_file_mode_is_identity() {
    let im = IndexManager::new(true);
    assert!(im.is_single_file());
    assert_eq!(im.resolve_vid(FileVarReference::new(4, 9)), Some(FileVarReference::new(4, 9)));
    assert_eq!(im.get_gvid(FileVarReference::new(4, 9)), Some(9));
    assert!(im.get_vid_references(FileVarReference::new(4, 9)).is_empty());
    assert_eq!(im.get_gckey(4, 2), Some(2));
}

#[test]
fn definition_needs_a_reference_from_its_file() {
    let mut im = IndexManager::new(false);
    im.add_var_reference(0, 3, 10);
    assert!(matches!(
        im.set_var_definition(10, 5),
        Err(ChcError::UnreferencedDefinition { gvid: 10, fid: 5 })
    ));
    assert!(im.set_var_definition(10, 0).is_ok());
}

#[test]
fn references_of_one_global() {
    let mut im = IndexManager::new(false);
    im.add_var_reference(0, 3, 10);
    im.add_var_reference(1, 7, 10);
    im.add_var_reference(2, 1, 10);
    im.add_var_reference(2, 2, 11);
    let mut refs: Vec<(i64, i64)> = im.get_gvid_references(10).iter().map(|r| r.tuple()).collect();
    refs.sort();
    assert_eq!(refs, vec![(0, 3), (1, 7), (2, 1)]);
    let mut others: Vec<(i64, i64)> =
        im.get_vid_references(FileVarReference::new(1, 7)).iter().map(|r| r.tuple()).collect();
    others.sort();
    assert_eq!(others, vec![(0, 3), (2, 1)]);
    assert!(im.has_gvid_reference(10, 2));
    assert!(!im.has_gvid_reference(11, 0));
    assert_eq!(im.get_gvid_reference(11, 2), Some(2));
    assert_eq!(im.get_gvid_reference(11, 1), None);
    let mut subst = im.get_vid_gvid_subst(2);
    subst.sort();
    assert_eq!(subst, vec![(1, 10), (2, 11)]);
    let mut subset = im.get_fid_gvid_subset(2);
    subset.sort();
    assert_eq!(subset, vec![(10, 1), (11, 2)]);
    assert_eq!(im.get_fid_vid_max(2), Some(2));
    assert_eq!(im.get_fid_vid_max(5), None);
}

#[test]
fn struct_references_map_both_ways() {
    let mut im = IndexManager::new(false);
    im.add_struct_reference(0, 4, 1);
    im.add_struct_reference(1, 9, 1);
    assert_eq!(im.get_gckey(0, 4), Some(1));
    assert_eq!(im.get_gckey(1, 9), Some(1));
    assert_eq!(im.get_gckey(1, 4), None);
}

#[test]
fn reference_values() {
    let v = VarReference::new(None, 3);
    assert!(v.is_global());
    assert!(!VarReference::new(Some(1), 3).is_global());
    let k = CKeyReference::new(Some(2), 5);
    assert!(!k.is_global());
    assert!(CKeyReference::new(None, 5).is_global());
    let f = FileKeyReference::new(2, 5);
    assert_eq!((f.fid, f.ckey), (2, 5));
}
