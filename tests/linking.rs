use chc_rust::error::ChcError;
use chc_rust::global_declarations::{CGlobalDeclarations, LinkError, LocalCompInfo, LocalField, LocalType};
use chc_rust::registry::cdregistry;
use chc_rust::variants::CTyp;

fn base(tag: &str, kind: &str) -> LocalType {
    LocalType::Base { tags: vec![tag.to_string(), kind.to_string()], args: vec![] }
}

fn ptr_to(ckey: i64) -> LocalType {
    LocalType::Ptr(Box::new(LocalType::Comp(ckey)))
}

fn field(name: &str, ftype: LocalType) -> LocalField {
    LocalField { fname: name.to_string(), ftype }
}

fn comp(ckey: i64, name: &str, fields: Vec<LocalField>) -> LocalCompInfo {
    LocalCompInfo { ckey, cname: name.to_string(), is_struct: true, fields }
}

fn self_referential(ckey: i64) -> Vec<LocalCompInfo> {
    vec![comp(ckey, "S", vec![field("x", base("tint", "iint")), field("next", ptr_to(ckey))])]
}

#[test]
fn identical_self_referential_structs_share_one_key() {
    let mut g = CGlobalDeclarations::new();
    let a = g.link_file(0, &self_referential(5)).unwrap();
    let b = g.link_file(1, &self_referential(8)).unwrap();
    assert_eq!(a, b);
    assert_eq!(g.compinfo_table().keys(), vec![a[0]]);
    assert_eq!(g.compinfo_table().size(), 1);
    let rec = g.compinfo_table().retrieve(a[0]).unwrap();
    assert_eq!(rec.tags(), &vec!["S".to_string(), "x".to_string(), "next".to_string()]);
    assert_eq!(g.index_manager().get_gckey(0, 5), Some(a[0]));
    assert_eq!(g.index_manager().get_gckey(1, 8), Some(a[0]));
}

#[test]
fn mutually_recursive_pair_in_either_order() {
    let mut g = CGlobalDeclarations::new();
    let file_a = vec![
        comp(1, "P", vec![field("q", ptr_to(2))]),
        comp(2, "Q", vec![field("p", ptr_to(1))]),
    ];
    let file_b = vec![
        comp(7, "Q", vec![field("p", ptr_to(6))]),
        comp(6, "P", vec![field("q", ptr_to(7))]),
    ];
    let a = g.link_file(0, &file_a).unwrap();
    let b = g.link_file(1, &file_b).unwrap();
    // file A: P then Q; file B: Q then P
    assert_eq!(a[0], b[1]);
    assert_eq!(a[1], b[0]);
    assert_ne!(a[0], a[1]);
    assert_eq!(g.compinfo_table().size(), 2);
    let im = g.index_manager();
    assert_eq!(im.get_gckey(0, 1), im.get_gckey(1, 6));
    assert_eq!(im.get_gckey(0, 2), im.get_gckey(1, 7));
}

#[test]
fn refuted_conjecture_restarts_the_file() {
    let mut g = CGlobalDeclarations::new();
    let a = g.link_file(0, &self_referential(1)).unwrap();
    // same names, but x is a float: the conjecture that it is A's S is refuted
    let other = vec![comp(1, "S", vec![field("x", base("tfloat", "fdouble")), field("next", ptr_to(1))])];
    let b = g.link_file(1, &other).unwrap();
    assert_ne!(a[0], b[0]);
    assert_eq!(g.compinfo_table().keys(), vec![a[0], b[0]]);
    let rec = g.compinfo_table().retrieve(b[0]).unwrap();
    // the next field of the new struct points to the new struct itself
    let next_ty = rec.args()[2];
    let ptr = g.dictionary().typ_table.retrieve(next_ty).unwrap();
    assert_eq!(ptr.tags(), &vec!["tptr".to_string()]);
    let target = g.dictionary().typ_table.retrieve(ptr.args()[0]).unwrap();
    assert_eq!(target.tags(), &vec!["tcomp".to_string()]);
    assert_eq!(target.args(), &vec![b[0]]);
}

#[test]
fn linking_is_deterministic() {
    let files = vec![
        self_referential(1),
        vec![
            comp(3, "P", vec![field("q", ptr_to(4)), field("n", base("tint", "iint"))]),
            comp(4, "Q", vec![field("p", ptr_to(3))]),
        ],
        vec![comp(1, "S", vec![field("x", base("tfloat", "float")), field("next", ptr_to(1))])],
        vec![
            comp(9, "Q", vec![field("p", ptr_to(8))]),
            comp(8, "P", vec![field("q", ptr_to(9)), field("n", base("tint", "iint"))]),
        ],
    ];
    let mut g1 = CGlobalDeclarations::new();
    let mut g2 = CGlobalDeclarations::new();
    let r1 = g1.link_files(&files);
    let r2 = g2.link_files(&files);
    assert_eq!(r1, r2);
    assert_eq!(g1.compinfo_table().keys(), g2.compinfo_table().keys());
    assert!(r1.iter().all(|r| r.is_ok()));
    // the fourth file is the second file's pair, swapped
    let second = r1[1].as_ref().unwrap();
    let fourth = r1[3].as_ref().unwrap();
    assert_eq!(second[0], fourth[1]);
    assert_eq!(second[1], fourth[0]);
}

#[test]
fn undefined_and_duplicate_structs_are_errors() {
    let mut g = CGlobalDeclarations::new();
    let dangling = vec![comp(1, "L", vec![field("next", ptr_to(2))])];
    assert_eq!(g.link_file(0, &dangling), Err(LinkError::UndefinedStruct { ckey: 2 }));
    // the failed file left nothing behind
    assert_eq!(g.compinfo_table().size(), 0);
    assert_eq!(g.dictionary().typ_table.size(), 0);
    let twice = vec![comp(1, "A", vec![]), comp(1, "B", vec![])];
    assert_eq!(g.link_file(1, &twice), Err(LinkError::DuplicateStruct { ckey: 1 }));
    // a later file still links
    let ok = g.link_file(2, &self_referential(3)).unwrap();
    assert_eq!(ok, vec![1]);
}

#[test]
fn unions_and_structs_differ() {
    let mut g = CGlobalDeclarations::new();
    let s = vec![comp(1, "U", vec![field("a", base("tint", "iint"))])];
    let mut u = vec![comp(1, "U", vec![field("a", base("tint", "iint"))])];
    u[0].is_struct = false;
    let a = g.link_file(0, &s).unwrap();
    let b = g.link_file(1, &u).unwrap();
    assert_ne!(a, b);
    let rec = g.compinfo_table().retrieve(b[0]).unwrap();
    assert_eq!(rec.args()[0], 0);
}

#[test]
fn variables_link_to_their_definition() {
    let mut g = CGlobalDeclarations::new();
    let g0 = g.link_var(0, 3, "counter".to_string(), false).unwrap();
    let g1 = g.link_var(1, 7, "counter".to_string(), true).unwrap();
    let other = g.link_var(1, 8, "total".to_string(), true).unwrap();
    assert_eq!(g0, g1);
    assert_ne!(g0, other);
    let im = g.index_manager();
    assert_eq!(
        im.resolve_vid(chc_rust::index_manager::FileVarReference::new(0, 3)),
        Some(chc_rust::index_manager::FileVarReference::new(1, 7))
    );
}

#[test]
fn global_struct_reads_back_its_fields() {
    let mut g = CGlobalDeclarations::new();
    let k = g.link_file(0, &self_referential(5)).unwrap();
    let ci = g.get_compinfo_by_ckey(k[0]).unwrap();
    assert_eq!(ci.ckey, k[0]);
    assert_eq!(ci.name, "S");
    assert!(ci.is_struct);
    assert_eq!(ci.fieldcount(), 2);
    assert_eq!(ci.fieldnames(), vec!["x".to_string(), "next".to_string()]);
    let reg = cdregistry();
    assert!(matches!(g.dictionary().get_typ(&reg, ci.fields[0].ftype), Ok(CTyp::Int { .. })));
    match g.dictionary().get_typ(&reg, ci.fields[1].ftype) {
        Ok(CTyp::Ptr { target, .. }) => match g.dictionary().get_typ(&reg, target) {
            Ok(CTyp::Comp { ckey, .. }) => assert_eq!(ckey, k[0]),
            other => panic!("unexpected {:?}", other),
        },
        other => panic!("unexpected {:?}", other),
    }
    assert!(matches!(g.get_compinfo_by_ckey(9), Err(ChcError::NotFound { index: 9, .. })));
}

#[test]
fn names_with_the_key_separator_are_refused() {
    let mut g = CGlobalDeclarations::new();
    let bad = vec![comp(4, "A", vec![field("x,y", base("tint", "iint"))])];
    assert_eq!(g.link_file(0, &bad), Err(LinkError::SeparatorInName { ckey: 4 }));
    let bad_name = vec![comp(2, "B,C", vec![])];
    assert_eq!(g.link_file(0, &bad_name), Err(LinkError::SeparatorInName { ckey: 2 }));
    assert_eq!(g.compinfo_table().size(), 0);
}

#[test]
fn type_tags_with_the_key_separator_are_refused() {
    let mut g = CGlobalDeclarations::new();
    let bad = vec![comp(3, "A", vec![field("x", base("tint", "i,int"))])];
    assert_eq!(g.link_file(0, &bad), Err(LinkError::SeparatorInName { ckey: 3 }));
    let untagged = vec![comp(5, "B", vec![field("y", LocalType::Base { tags: vec![], args: vec![] })])];
    assert_eq!(g.link_file(0, &untagged), Err(LinkError::SeparatorInName { ckey: 5 }));
    assert_eq!(g.dictionary().typ_table.size(), 0);
}
