use vstd::prelude::*;

use crate::dictionary::CDictionary;
use crate::error::{is_not_found, ChcError};
use crate::index_manager::{IndexManager, IndexManagerView};
use crate::indexed_table::{record_key, IndexedTable, IndexedTableValue, RecordView, TableView};
use crate::text::{decimal, decimals_of, join_commas, views_of};

verus! {

/// The type of a field, as one file declares it. Struct types refer to the
/// structs of the same file by their local key.
pub enum LocalType {
    /// A type with no struct in it, interned as it is.
    Base { tags: Vec<String>, args: Vec<i64> },
    Ptr(Box<LocalType>),
    /// The element type and the index of the size expression.
    Array(Box<LocalType>, i64),
    /// A struct of the same file, by its local key.
    Comp(i64),
}

/// A field of a struct definition.
pub struct LocalField {
    pub fname: String,
    pub ftype: LocalType,
}

/// A struct (or union) definition of one file.
pub struct LocalCompInfo {
    pub ckey: i64,
    pub cname: String,
    pub is_struct: bool,
    pub fields: Vec<LocalField>,
}

/// The unification state of one local struct during a pass over its file.
#[derive(Clone, Copy, Debug, PartialEq, Eq, Structural)]
pub enum KeyStatus {
    Unvisited,
    /// Its fields are being indexed.
    Pending,
    /// A fresh global key was reserved for it.
    Reserved(i64),
    /// An existing global struct with the same names is presumed to be it.
    Conjectured(i64),
    Committed(i64),
}

/// Why a file's structs could not be linked.
#[derive(Clone, Copy, Debug, PartialEq, Eq, Structural)]
pub enum LinkError {
    /// A field refers to a struct key that the file does not define.
    UndefinedStruct { ckey: i64 },
    /// Two definitions of the file share a key.
    DuplicateStruct { ckey: i64 },
    /// The struct's name, a field name or a type tag holds a comma (the key
    /// separator), or a plain field type has no tag.
    SeparatorInName { ckey: i64 },
    /// A global table ran out of indices.
    TableFull,
    /// A commit to an index that is not reserved.
    ReserveMisuse { index: i64 },
    /// A restart did not add a new incompatible pair, or the restarts ran out.
    NoProgress { ckey: i64, gckey: i64 },
    /// The global tables were not in the state a file pass starts from.
    CheckpointMisuse,
    /// A pass ended with a struct that has no committed global key.
    Unresolved { ckey: i64 },
}

/// How a pass over a file stops early.
#[derive(Clone, Copy, Debug, PartialEq, Eq, Structural)]
pub enum PassError {
    /// The struct `ckey` was conjectured to be `gckey`, and is not.
    Conflict { ckey: i64, gckey: i64 },
    Fail(LinkError),
}

/// The state a pass works on: the global struct table, the global type
/// table, and the status of each local struct of the file.
pub struct PassState {
    pub comps: TableView,
    pub typs: TableView,
    pub status: Seq<KeyStatus>,
}

pub open spec fn count_unvisited(s: Seq<KeyStatus>) -> nat
    decreases s.len(),
{
    if s.len() == 0 {
        0
    } else {
        count_unvisited(s.drop_last()) + if s.last() is Unvisited {
            1nat
        } else {
            0nat
        }
    }
}

pub open spec fn type_size(t: LocalType) -> nat
    decreases t,
{
    match t {
        LocalType::Ptr(b) => 1 + type_size(*b),
        LocalType::Array(b, _) => 1 + type_size(*b),
        _ => 1,
    }
}

pub open spec fn fields_size(fields: Seq<LocalField>, j: int) -> nat
    decreases fields.len() - j,
{
    if j < 0 || j >= fields.len() {
        0
    } else {
        type_size(fields[j].ftype) + 1 + fields_size(fields, j + 1)
    }
}

/// The position of the first definition with key `ckey`, searching from `i`.
pub open spec fn position_from(file: Seq<LocalCompInfo>, ckey: i64, i: int) -> Option<int>
    decreases file.len() - i,
{
    if i < 0 || i >= file.len() {
        None
    } else if file[i].ckey == ckey {
        Some(i)
    } else {
        position_from(file, ckey, i + 1)
    }
}

/// The tags of a struct's global record: its name, then its field names.
pub open spec fn comp_tags(comp: LocalCompInfo) -> Seq<Seq<char>> {
    seq![comp.cname@] + comp.fields@.map_values(|f: LocalField| f.fname@)
}

pub open spec fn struct_flag(comp: LocalCompInfo) -> i64 {
    if comp.is_struct {
        1
    } else {
        0
    }
}

/// Global struct `g` has the names of `comp`, and is not known to differ from it.
pub open spec fn is_candidate(
    ct: TableView,
    comp: LocalCompInfo,
    inc: Seq<(i64, i64)>,
    g: int,
) -> bool {
    &&& ct.entries.contains_key(g)
    &&& ct.entries[g].tags == comp_tags(comp)
    &&& ct.entries[g].args.len() >= 1
    &&& ct.entries[g].args[0] == struct_flag(comp)
    &&& !inc.contains((comp.ckey, g as i64))
}

/// The first candidate global struct for `comp`, searching upwards from `g`.
pub open spec fn candidate_from(ct: TableView, comp: LocalCompInfo, inc: Seq<(i64, i64)>, g: int) -> Option<
    int,
>
    decreases ct.next - g,
{
    if g < 1 || g >= ct.next {
        None
    } else if is_candidate(ct, comp, inc, g) {
        Some(g)
    } else {
        candidate_from(ct, comp, inc, g + 1)
    }
}

/// Interning into a table, failing when the table is out of indices.
pub open spec fn spec_intern(t: TableView, tags: Seq<Seq<char>>, args: Seq<i64>) -> (TableView, Result<
    i64,
    PassError,
>) {
    if t.next >= i64::MAX {
        (t, Err(PassError::Fail(LinkError::TableFull)))
    } else {
        let (t2, i) = t.interned(tags, args);
        (t2, Ok(i as i64))
    }
}

/// The global index of a field type: its struct references are resolved
/// first, then the type is interned in the global type table.
pub open spec fn spec_type_index(
    s: PassState,
    file: Seq<LocalCompInfo>,
    inc: Seq<(i64, i64)>,
    t: LocalType,
) -> (PassState, Result<i64, PassError>)
    decreases count_unvisited(s.status), type_size(t),
{
    match t {
        LocalType::Base { tags, args } => {
            let (ty, r) = spec_intern(s.typs, views_of(tags@), args@);
            (PassState { typs: ty, ..s }, r)
        },
        LocalType::Ptr(b) => {
            let (s1, r) = spec_type_index(s, file, inc, *b);
            match r {
                Err(e) => (s1, Err(e)),
                Ok(ti) => {
                    let (ty, r2) = spec_intern(s1.typs, seq!["tptr"@], seq![ti]);
                    (PassState { typs: ty, ..s1 }, r2)
                },
            }
        },
        LocalType::Array(b, size) => {
            let (s1, r) = spec_type_index(s, file, inc, *b);
            match r {
                Err(e) => (s1, Err(e)),
                Ok(ti) => {
                    let (ty, r2) = spec_intern(s1.typs, seq!["tarray"@], seq![ti, size]);
                    (PassState { typs: ty, ..s1 }, r2)
                },
            }
        },
        LocalType::Comp(ckey) => match position_from(file, ckey, 0) {
            None => (s, Err(PassError::Fail(LinkError::UndefinedStruct { ckey }))),
            Some(p) => {
                let (s1, r) = spec_comp_key(s, file, inc, p);
                match r {
                    Err(e) => (s1, Err(e)),
                    Ok(g) => {
                        let (ty, r2) = spec_intern(s1.typs, seq!["tcomp"@], seq![g]);
                        (PassState { typs: ty, ..s1 }, r2)
                    },
                }
            },
        },
    }
}

/// The global indices of the types of `fields[j..]`, in order.
pub open spec fn spec_fields(
    s: PassState,
    file: Seq<LocalCompInfo>,
    inc: Seq<(i64, i64)>,
    fields: Seq<LocalField>,
    j: int,
) -> (PassState, Result<Seq<i64>, PassError>)
    decreases count_unvisited(s.status), fields_size(fields, j),
{
    if j < 0 || j >= fields.len() {
        (s, Ok(Seq::empty()))
    } else {
        let (s1, r) = spec_type_index(s, file, inc, fields[j].ftype);
        match r {
            Err(e) => (s1, Err(e)),
            Ok(ti) => {
                if count_unvisited(s1.status) > count_unvisited(s.status) {
                    (s1, Err(PassError::Fail(LinkError::NoProgress { ckey: 0, gckey: 0 })))
                } else {
                    let (s2, rest) = spec_fields(s1, file, inc, fields, j + 1);
                    match rest {
                        Err(e) => (s2, Err(e)),
                        Ok(tis) => (s2, Ok(seq![ti] + tis)),
                    }
                }
            },
        }
    }
}

/// The global key of local struct `i`. A struct met again while its fields
/// are indexed (a cyclic reference) gets a placeholder: its reserved or
/// conjectured key, else the first existing global struct with its names
/// that is not known to differ, else a freshly reserved key.
pub open spec fn spec_comp_key(
    s: PassState,
    file: Seq<LocalCompInfo>,
    inc: Seq<(i64, i64)>,
    i: int,
) -> (PassState, Result<i64, PassError>)
    decreases count_unvisited(s.status), 0nat,
{
    if !(0 <= i < s.status.len()) || s.status.len() != file.len() {
        (s, Err(PassError::Fail(LinkError::Unresolved { ckey: 0 })))
    } else {
        match s.status[i] {
            KeyStatus::Committed(g) => (s, Ok(g)),
            KeyStatus::Reserved(g) => (s, Ok(g)),
            KeyStatus::Conjectured(g) => (s, Ok(g)),
            KeyStatus::Pending => match candidate_from(s.comps, file[i], inc, 1) {
                Some(g) => (
                    PassState { status: s.status.update(i, KeyStatus::Conjectured(g as i64)), ..s },
                    Ok(g as i64),
                ),
                None => {
                    if s.comps.next >= i64::MAX {
                        (s, Err(PassError::Fail(LinkError::TableFull)))
                    } else {
                        let g = s.comps.next as i64;
                        (
                            PassState {
                                comps: s.comps.with_reservation(),
                                status: s.status.update(i, KeyStatus::Reserved(g)),
                                ..s
                            },
                            Ok(g),
                        )
                    }
                },
            },
            KeyStatus::Unvisited => {
                let s1 = PassState { status: s.status.update(i, KeyStatus::Pending), ..s };
                if count_unvisited(s1.status) >= count_unvisited(s.status) {
                    (s1, Err(PassError::Fail(LinkError::NoProgress { ckey: 0, gckey: 0 })))
                } else {
                    let (s2, rf) = spec_fields(s1, file, inc, file[i].fields@, 0);
                    match rf {
                        Err(e) => (s2, Err(e)),
                        Ok(ftypes) => spec_finish(s2, file[i], i, ftypes),
                    }
                }
            },
        }
    }
}

/// Completes local struct `i` once the global indices of its field types are known.
pub open spec fn spec_finish(s: PassState, comp: LocalCompInfo, i: int, ftypes: Seq<i64>) -> (
    PassState,
    Result<i64, PassError>,
) {
    let tags = comp_tags(comp);
    let args = seq![struct_flag(comp)] + ftypes;
    if !(0 <= i < s.status.len()) {
        (s, Err(PassError::Fail(LinkError::Unresolved { ckey: comp.ckey })))
    } else {
        match s.status[i] {
            KeyStatus::Reserved(g) => {
                if s.comps.reserved.contains(g as int) {
                    (
                        PassState {
                            comps: s.comps.committed(
                                g as int,
                                record_key(tags, args),
                                RecordView { index: g as int, tags, args },
                            ),
                            status: s.status.update(i, KeyStatus::Committed(g)),
                            ..s
                        },
                        Ok(g),
                    )
                } else {
                    (s, Err(PassError::Fail(LinkError::ReserveMisuse { index: g })))
                }
            },
            KeyStatus::Conjectured(g) => {
                let (c2, r) = spec_intern(s.comps, tags, args);
                match r {
                    Err(e) => (PassState { comps: c2, ..s }, Err(e)),
                    Ok(k) => if k == g {
                        (
                            PassState {
                                comps: c2,
                                status: s.status.update(i, KeyStatus::Committed(g)),
                                ..s
                            },
                            Ok(g),
                        )
                    } else {
                        (
                            PassState { comps: c2, ..s },
                            Err(PassError::Conflict { ckey: comp.ckey, gckey: g }),
                        )
                    },
                }
            },
            _ => {
                let (c2, r) = spec_intern(s.comps, tags, args);
                match r {
                    Err(e) => (PassState { comps: c2, ..s }, Err(e)),
                    Ok(k) => (
                        PassState {
                            comps: c2,
                            status: s.status.update(i, KeyStatus::Committed(k)),
                            ..s
                        },
                        Ok(k),
                    ),
                }
            },
        }
    }
}

proof fn lemma_count_update(s: Seq<KeyStatus>, i: int, v: KeyStatus)
    requires
        0 <= i < s.len(),
    ensures
        count_unvisited(s.update(i, v)) + (if s[i] is Unvisited {
            1int
        } else {
            0int
        }) == count_unvisited(s) + (if v is Unvisited {
            1int
        } else {
            0int
        }),
    decreases s.len(),
{
    let t = s.update(i, v);
    if i == s.len() - 1 {
        assert(t.drop_last() =~= s.drop_last());
    } else {
        assert(t.drop_last() =~= s.drop_last().update(i, v));
        lemma_count_update(s.drop_last(), i, v);
    }
}


pub open spec fn pstate(comps: TableView, typs: TableView, status: Seq<KeyStatus>) -> PassState {
    PassState { comps, typs, status }
}

pub open spec fn seq_result(r: Result<Vec<i64>, PassError>) -> Result<Seq<i64>, PassError> {
    match r {
        Ok(v) => Ok(v@),
        Err(e) => Err(e),
    }
}

fn intern_checked(t: &mut IndexedTable, tags: Vec<String>, args: Vec<i64>) -> (r: Result<i64, PassError>)
    requires
        old(t).wf(),
    ensures
        final(t).wf(),
        (final(t)@, r) == spec_intern(old(t)@, views_of(tags@), args@),
{
    if t.next_index() == i64::MAX {
        return Err(PassError::Fail(LinkError::TableFull));
    }
    Ok(t.intern(tags, args))
}

fn position_of(file: &Vec<LocalCompInfo>, ckey: i64, from: usize) -> (r: Option<usize>)
    ensures
        r matches Some(p) ==> position_from(file@, ckey, from as int) == Some(p as int) && p < file.len(),
        r is None ==> position_from(file@, ckey, from as int) is None,
{
    let mut i: usize = from;
    while i < file.len()
        invariant
            from <= i,
            position_from(file@, ckey, from as int) == position_from(file@, ckey, i as int),
        decreases file.len() - i,
    {
        if file[i].ckey == ckey {
            return Some(i);
        }
        i += 1;
    }
    None
}

fn contains_pair(inc: &Vec<(i64, i64)>, a: i64, b: i64) -> (r: bool)
    ensures
        r == inc@.contains((a, b)),
{
    let mut j: usize = 0;
    while j < inc.len()
        invariant
            j <= inc.len(),
            forall|k: int| 0 <= k < j ==> inc@[k] != (a, b),
        decreases inc.len() - j,
    {
        if inc[j].0 == a && inc[j].1 == b {
            assert(inc@[j as int] == (a, b));
            return true;
        }
        j += 1;
    }
    false
}

fn candidate_at(comps: &IndexedTable, comp: &LocalCompInfo, inc: &Vec<(i64, i64)>, g: i64) -> (r: bool)
    requires
        comps.wf(),
    ensures
        r == is_candidate(comps@, *comp, inc@, g as int),
{
    let rec = match comps.get_record(g) {
        Some(rec) => rec,
        None => {
            return false;
        },
    };
    let tags = rec.tags();
    let args = rec.args();
    if tags.len() == 0 || tags.len() - 1 != comp.fields.len() || args.len() < 1 {
        proof {
            if views_of(tags@) == comp_tags(*comp) {
                assert(views_of(tags@).len() == comp_tags(*comp).len());
            }
        }
        return false;
    }
    if tags[0] != comp.cname {
        assert(views_of(tags@)[0] != comp_tags(*comp)[0]);
        return false;
    }
    let mut j: usize = 0;
    while j < comp.fields.len()
        invariant
            tags.len() == comp.fields.len() + 1,
            j <= comp.fields.len(),
            comps@.entries.contains_key(g as int),
            views_of(tags@) == comps@.entries[g as int].tags,
            forall|k: int| 0 <= k < j ==> (#[trigger] tags@[k + 1])@ == comp.fields@[k].fname@,
        decreases comp.fields.len() - j,
    {
        if tags[j + 1] != comp.fields[j].fname {
            assert(views_of(tags@)[j + 1] == tags@[j + 1]@);
            assert(comp_tags(*comp)[j + 1] == comp.fields@[j as int].fname@);
            assert(views_of(tags@)[j + 1] != comp_tags(*comp)[j + 1]);
            return false;
        }
        j += 1;
    }
    assert(views_of(tags@) =~= comp_tags(*comp)) by {
        assert forall|k: int| 0 <= k < tags.len() implies views_of(tags@)[k] == comp_tags(*comp)[k] by {
            if k > 0 {
                assert(tags@[(k - 1) + 1]@ == comp.fields@[k - 1].fname@);
            }
        }
    }
    let flag: i64 = if comp.is_struct {
        1
    } else {
        0
    };
    args[0] == flag && !contains_pair(inc, comp.ckey, g)
}

fn find_candidate(comps: &IndexedTable, comp: &LocalCompInfo, inc: &Vec<(i64, i64)>) -> (r: Option<i64>)
    requires
        comps.wf(),
    ensures
        r matches Some(g) ==> candidate_from(comps@, *comp, inc@, 1) == Some(g as int),
        r is None ==> candidate_from(comps@, *comp, inc@, 1) is None,
{
    let mut g: i64 = 1;
    while g < comps.next_index()
        invariant
            comps.wf(),
            1 <= g,
            candidate_from(comps@, *comp, inc@, 1) == candidate_from(comps@, *comp, inc@, g as int),
        decreases comps@.next - g,
    {
        if candidate_at(comps, comp, inc, g) {
            return Some(g);
        }
        g += 1;
    }
    None
}

fn type_index(
    comps: &mut IndexedTable,
    typs: &mut IndexedTable,
    status: &mut Vec<KeyStatus>,
    file: &Vec<LocalCompInfo>,
    inc: &Vec<(i64, i64)>,
    t: &LocalType,
) -> (r: Result<i64, PassError>)
    requires
        old(comps).wf(),
        old(typs).wf(),
        old(status).len() == file.len(),
    ensures
        final(comps).wf(),
        final(typs).wf(),
        final(status).len() == file.len(),
        forall|k: int|
            0 <= k < old(status).len() && !(old(status)@[k] is Unvisited) ==> !(
            #[trigger] final(status)@[k] is Unvisited),
        count_unvisited(final(status)@) <= count_unvisited(old(status)@),
        (pstate(final(comps)@, final(typs)@, final(status)@), r) == spec_type_index(
            pstate(old(comps)@, old(typs)@, old(status)@),
            file@,
            inc@,
            *t,
        ),
    decreases count_unvisited(old(status)@), type_size(*t),
{
    match t {
        LocalType::Base { tags, args } => {
            let tags2 = tags.clone();
            let args2 = args.clone();
            assert(tags2@ =~= tags@);
            assert(args2@ =~= args@);
            intern_checked(typs, tags2, args2)
        },
        LocalType::Ptr(b) => {
            let ti = match type_index(comps, typs, status, file, inc, b) {
                Ok(ti) => ti,
                Err(e) => {
                    return Err(e);
                },
            };
            let tags = vec![String::from_str("tptr")];
            assert(views_of(tags@) =~= seq!["tptr"@]);
            let args = vec![ti];
            assert(args@ =~= seq![ti]);
            intern_checked(typs, tags, args)
        },
        LocalType::Array(b, size) => {
            let ti = match type_index(comps, typs, status, file, inc, b) {
                Ok(ti) => ti,
                Err(e) => {
                    return Err(e);
                },
            };
            let tags = vec![String::from_str("tarray")];
            assert(views_of(tags@) =~= seq!["tarray"@]);
            let args = vec![ti, *size];
            assert(args@ =~= seq![ti, *size]);
            intern_checked(typs, tags, args)
        },
        LocalType::Comp(ckey) => {
            let p = match position_of(file, *ckey, 0) {
                Some(p) => p,
                None => {
                    return Err(PassError::Fail(LinkError::UndefinedStruct { ckey: *ckey }));
                },
            };
            let g = match comp_key(comps, typs, status, file, inc, p) {
                Ok(g) => g,
                Err(e) => {
                    return Err(e);
                },
            };
            let tags = vec![String::from_str("tcomp")];
            assert(views_of(tags@) =~= seq!["tcomp"@]);
            let args = vec![g];
            assert(args@ =~= seq![g]);
            intern_checked(typs, tags, args)
        },
    }
}

fn fields_index(
    comps: &mut IndexedTable,
    typs: &mut IndexedTable,
    status: &mut Vec<KeyStatus>,
    file: &Vec<LocalCompInfo>,
    inc: &Vec<(i64, i64)>,
    fields: &Vec<LocalField>,
    j: usize,
) -> (r: Result<Vec<i64>, PassError>)
    requires
        old(comps).wf(),
        old(typs).wf(),
        old(status).len() == file.len(),
    ensures
        final(comps).wf(),
        final(typs).wf(),
        final(status).len() == file.len(),
        forall|k: int|
            0 <= k < old(status).len() && !(old(status)@[k] is Unvisited) ==> !(
            #[trigger] final(status)@[k] is Unvisited),
        count_unvisited(final(status)@) <= count_unvisited(old(status)@),
        (pstate(final(comps)@, final(typs)@, final(status)@), seq_result(r)) == spec_fields(
            pstate(old(comps)@, old(typs)@, old(status)@),
            file@,
            inc@,
            fields@,
            j as int,
        ),
    decreases count_unvisited(old(status)@), fields_size(fields@, j as int),
{
    if j >= fields.len() {
        let r: Vec<i64> = Vec::new();
        assert(r@ =~= Seq::<i64>::empty());
        return Ok(r);
    }
    let ti = match type_index(comps, typs, status, file, inc, &fields[j].ftype) {
        Ok(ti) => ti,
        Err(e) => {
            return Err(e);
        },
    };
    let mut rest = match fields_index(comps, typs, status, file, inc, fields, j + 1) {
        Ok(v) => v,
        Err(e) => {
            return Err(e);
        },
    };
    let ghost tail = rest@;
    rest.insert(0, ti);
    assert(rest@ =~= seq![ti] + tail);
    Ok(rest)
}

fn comp_key(
    comps: &mut IndexedTable,
    typs: &mut IndexedTable,
    status: &mut Vec<KeyStatus>,
    file: &Vec<LocalCompInfo>,
    inc: &Vec<(i64, i64)>,
    i: usize,
) -> (r: Result<i64, PassError>)
    requires
        old(comps).wf(),
        old(typs).wf(),
        old(status).len() == file.len(),
        i < file.len(),
    ensures
        final(comps).wf(),
        final(typs).wf(),
        final(status).len() == file.len(),
        forall|k: int|
            0 <= k < old(status).len() && !(old(status)@[k] is Unvisited) ==> !(
            #[trigger] final(status)@[k] is Unvisited),
        count_unvisited(final(status)@) <= count_unvisited(old(status)@),
        (pstate(final(comps)@, final(typs)@, final(status)@), r) == spec_comp_key(
            pstate(old(comps)@, old(typs)@, old(status)@),
            file@,
            inc@,
            i as int,
        ),
    decreases count_unvisited(old(status)@), 0nat,
{
    match status[i] {
        KeyStatus::Committed(g) => Ok(g),
        KeyStatus::Reserved(g) => Ok(g),
        KeyStatus::Conjectured(g) => Ok(g),
        KeyStatus::Pending => {
            proof {
                lemma_count_update(status@, i as int, KeyStatus::Pending);
            }
            match find_candidate(comps, &file[i], inc) {
                Some(g) => {
                    proof {
                        lemma_count_update(status@, i as int, KeyStatus::Conjectured(g));
                    }
                    status.set(i, KeyStatus::Conjectured(g));
                    Ok(g)
                },
                None => {
                    if comps.next_index() == i64::MAX {
                        return Err(PassError::Fail(LinkError::TableFull));
                    }
                    let g = comps.reserve();
                    proof {
                        lemma_count_update(status@, i as int, KeyStatus::Reserved(g));
                    }
                    status.set(i, KeyStatus::Reserved(g));
                    Ok(g)
                },
            }
        },
        KeyStatus::Unvisited => {
            proof {
                lemma_count_update(status@, i as int, KeyStatus::Pending);
            }
            status.set(i, KeyStatus::Pending);
            let ftypes = match fields_index(comps, typs, status, file, inc, &file[i].fields, 0) {
                Ok(v) => v,
                Err(e) => {
                    return Err(e);
                },
            };
            finish(comps, typs, status, &file[i], i, ftypes)
        },
    }
}

fn finish(
    comps: &mut IndexedTable,
    typs: &IndexedTable,
    status: &mut Vec<KeyStatus>,
    comp: &LocalCompInfo,
    i: usize,
    ftypes: Vec<i64>,
) -> (r: Result<i64, PassError>)
    requires
        old(comps).wf(),
        i < old(status).len(),
        !(old(status)@[i as int] is Unvisited),
    ensures
        final(comps).wf(),
        final(status).len() == old(status).len(),
        forall|k: int|
            0 <= k < old(status).len() && !(old(status)@[k] is Unvisited) ==> !(
            #[trigger] final(status)@[k] is Unvisited),
        count_unvisited(final(status)@) <= count_unvisited(old(status)@),
        (pstate(final(comps)@, typs@, final(status)@), r) == spec_finish(
            pstate(old(comps)@, typs@, old(status)@),
            *comp,
            i as int,
            ftypes@,
        ),
{
    let mut tags: Vec<String> = Vec::new();
    tags.push(comp.cname.clone());
    let mut j: usize = 0;
    while j < comp.fields.len()
        invariant
            j <= comp.fields.len(),
            tags.len() == j + 1,
            tags@[0]@ == comp.cname@,
            forall|k: int| 0 <= k < j ==> (#[trigger] tags@[k + 1])@ == comp.fields@[k].fname@,
        decreases comp.fields.len() - j,
    {
        tags.push(comp.fields[j].fname.clone());
        j += 1;
    }
    assert(views_of(tags@) =~= comp_tags(*comp)) by {
        assert forall|k: int| 0 <= k < tags.len() implies views_of(tags@)[k] == comp_tags(*comp)[k] by {
            if k > 0 {
                assert(tags@[(k - 1) + 1]@ == comp.fields@[k - 1].fname@);
            }
        }
    }
    let flag: i64 = if comp.is_struct {
        1
    } else {
        0
    };
    let mut args: Vec<i64> = vec![flag];
    let mut k: usize = 0;
    while k < ftypes.len()
        invariant
            k <= ftypes.len(),
            args@ == seq![flag] + ftypes@.subrange(0, k as int),
        decreases ftypes.len() - k,
    {
        args.push(ftypes[k]);
        k += 1;
        assert(args@ =~= seq![flag] + ftypes@.subrange(0, k as int));
    }
    assert(args@ =~= seq![flag] + ftypes@);
    match status[i] {
        KeyStatus::Reserved(g) => {
            if !comps.is_reserved(g) {
                return Err(PassError::Fail(LinkError::ReserveMisuse { index: g }));
            }
            let value = IndexedTableValue::new(g, tags, args);
            let key = value.key();
            let _ = comps.commit_reserved(g, key, value);
            proof {
                lemma_count_update(status@, i as int, KeyStatus::Committed(g));
            }
            status.set(i, KeyStatus::Committed(g));
            Ok(g)
        },
        KeyStatus::Conjectured(g) => {
            let k = match intern_checked(comps, tags, args) {
                Ok(k) => k,
                Err(e) => {
                    return Err(e);
                },
            };
            if k == g {
                proof {
                    lemma_count_update(status@, i as int, KeyStatus::Committed(g));
                }
                status.set(i, KeyStatus::Committed(g));
                Ok(g)
            } else {
                Err(PassError::Conflict { ckey: comp.ckey, gckey: g })
            }
        },
        _ => {
            let k = match intern_checked(comps, tags, args) {
                Ok(k) => k,
                Err(e) => {
                    return Err(e);
                },
            };
            proof {
                lemma_count_update(status@, i as int, KeyStatus::Committed(k));
            }
            status.set(i, KeyStatus::Committed(k));
            Ok(k)
        },
    }
}


/// One pass over the file: every struct not yet reached is indexed, in order.
pub open spec fn spec_pass(s: PassState, file: Seq<LocalCompInfo>, inc: Seq<(i64, i64)>, i: int) -> (
    PassState,
    Result<(), PassError>,
)
    decreases file.len() - i,
{
    if i < 0 || i >= file.len() || i >= s.status.len() {
        (s, Ok(()))
    } else if s.status[i] is Unvisited {
        let (s1, r) = spec_comp_key(s, file, inc, i);
        match r {
            Err(e) => (s1, Err(e)),
            Ok(_) => spec_pass(s1, file, inc, i + 1),
        }
    } else {
        spec_pass(s, file, inc, i + 1)
    }
}

pub open spec fn unvisited_all(n: nat) -> Seq<KeyStatus> {
    Seq::new(n, |i: int| KeyStatus::Unvisited)
}

/// The position of the first struct, from `i` on, without a committed key.
pub open spec fn first_uncommitted(status: Seq<KeyStatus>, i: int) -> Option<int>
    decreases status.len() - i,
{
    if i < 0 || i >= status.len() {
        None
    } else if !(status[i] is Committed) {
        Some(i)
    } else {
        first_uncommitted(status, i + 1)
    }
}

/// The committed global key of each struct, in file order.
pub open spec fn spec_collect(status: Seq<KeyStatus>, file: Seq<LocalCompInfo>) -> Result<
    Seq<i64>,
    LinkError,
> {
    match first_uncommitted(status, 0) {
        Some(i) => Err(LinkError::Unresolved { ckey: if i < file.len() { file[i].ckey } else { 0 } }),
        None => Ok(status.map_values(|k: KeyStatus| k->Committed_0)),
    }
}

/// The table rolled back to its checkpoint, with a new checkpoint set there.
pub open spec fn spec_restart(t: TableView) -> Option<TableView> {
    match t.checkpoint {
        Some(c) => Some(t.rolled_back(c).checkpointed()),
        None => None,
    }
}

/// Passes over the file until one completes; after a refuted conjecture the
/// pair is recorded as incompatible, both tables are rolled back to the
/// file's checkpoint, and the file is indexed again from the start.
pub open spec fn spec_attempts(
    comps: TableView,
    typs: TableView,
    file: Seq<LocalCompInfo>,
    inc: Seq<(i64, i64)>,
    fuel: nat,
) -> (TableView, TableView, Result<Seq<i64>, LinkError>)
    decreases fuel,
{
    let (s1, r) = spec_pass(pstate(comps, typs, unvisited_all(file.len())), file, inc, 0);
    match r {
        Ok(_) => (s1.comps, s1.typs, spec_collect(s1.status, file)),
        Err(PassError::Fail(e)) => (s1.comps, s1.typs, Err(e)),
        Err(PassError::Conflict { ckey, gckey }) => {
            if fuel == 0 || inc.contains((ckey, gckey)) {
                (s1.comps, s1.typs, Err(LinkError::NoProgress { ckey, gckey }))
            } else {
                match (spec_restart(s1.comps), spec_restart(s1.typs)) {
                    (Some(c), Some(t)) => spec_attempts(c, t, file, inc.push((ckey, gckey)), (fuel - 1) as nat),
                    _ => (s1.comps, s1.typs, Err(LinkError::CheckpointMisuse)),
                }
            }
        },
    }
}

/// The number of restarts allowed for a file of `n` structs linked against
/// a struct table whose next index is `next`: one per pair of a local
/// struct and a global key that a pass can reach.
pub open spec fn restart_limit(n: nat, next: int) -> nat {
    if n <= 0x10_0000 && 0 <= next <= 0x100_0000_0000 {
        ((n + 1) * (next + 2 * n + 1)) as nat
    } else {
        0xffff_ffff_ffff_ffff
    }
}

/// The key of the first struct of `file[i..]` whose key occurs again later.
pub open spec fn duplicate_from(file: Seq<LocalCompInfo>, i: int) -> Option<i64>
    decreases file.len() - i,
{
    if i < 0 || i >= file.len() {
        None
    } else if position_from(file, file[i].ckey, i + 1) is Some {
        Some(file[i].ckey)
    } else {
        duplicate_from(file, i + 1)
    }
}

/// The table as it was at its checkpoint, with no checkpoint left.
pub open spec fn spec_abandon(t: TableView) -> TableView {
    match t.checkpoint {
        Some(c) => t.rolled_back(c),
        None => t,
    }
}

pub open spec fn link_result(r: Result<Vec<i64>, LinkError>) -> Result<Seq<i64>, LinkError> {
    match r {
        Ok(v) => Ok(v@),
        Err(e) => Err(e),
    }
}

fn run_pass(
    comps: &mut IndexedTable,
    typs: &mut IndexedTable,
    status: &mut Vec<KeyStatus>,
    file: &Vec<LocalCompInfo>,
    inc: &Vec<(i64, i64)>,
) -> (r: Result<(), PassError>)
    requires
        old(comps).wf(),
        old(typs).wf(),
        old(status).len() == file.len(),
    ensures
        final(comps).wf(),
        final(typs).wf(),
        final(status).len() == file.len(),
        (pstate(final(comps)@, final(typs)@, final(status)@), r) == spec_pass(
            pstate(old(comps)@, old(typs)@, old(status)@),
            file@,
            inc@,
            0,
        ),
{
    let mut i: usize = 0;
    while i < file.len()
        invariant
            comps.wf(),
            typs.wf(),
            status.len() == file.len(),
            i <= file.len(),
            spec_pass(pstate(old(comps)@, old(typs)@, old(status)@), file@, inc@, 0) == spec_pass(
                pstate(comps@, typs@, status@),
                file@,
                inc@,
                i as int,
            ),
        decreases file.len() - i,
    {
        if matches!(status[i], KeyStatus::Unvisited) {
            match comp_key(comps, typs, status, file, inc, i) {
                Ok(_) => {},
                Err(e) => {
                    return Err(e);
                },
            }
        }
        i += 1;
    }
    Ok(())
}

fn collect_keys(status: &Vec<KeyStatus>, file: &Vec<LocalCompInfo>) -> (r: Result<Vec<i64>, LinkError>)
    requires
        status.len() == file.len(),
    ensures
        r matches Ok(v) ==> v.len() == file.len(),
        match r {
            Ok(v) => spec_collect(status@, file@) == Ok::<Seq<i64>, LinkError>(v@),
            Err(e) => spec_collect(status@, file@) == Err::<Seq<i64>, LinkError>(e),
        },
{
    let mut out: Vec<i64> = Vec::new();
    let mut i: usize = 0;
    while i < status.len()
        invariant
            status.len() == file.len(),
            i <= status.len(),
            first_uncommitted(status@, 0) == first_uncommitted(status@, i as int),
            out@ == status@.subrange(0, i as int).map_values(|k: KeyStatus| k->Committed_0),
        decreases status.len() - i,
    {
        match status[i] {
            KeyStatus::Committed(g) => {
                out.push(g);
            },
            _ => {
                return Err(LinkError::Unresolved { ckey: file[i].ckey });
            },
        }
        i += 1;
        assert(out@ =~= status@.subrange(0, i as int).map_values(|k: KeyStatus| k->Committed_0));
    }
    assert(status@.subrange(0, status.len() as int) =~= status@);
    Ok(out)
}

fn fresh_status(n: usize) -> (r: Vec<KeyStatus>)
    ensures
        r@ == unvisited_all(n as nat),
{
    let mut r: Vec<KeyStatus> = Vec::new();
    let mut i: usize = 0;
    while i < n
        invariant
            i <= n,
            r@ =~= unvisited_all(i as nat),
        decreases n - i,
    {
        r.push(KeyStatus::Unvisited);
        i += 1;
        assert(r@ =~= unvisited_all(i as nat));
    }
    r
}

fn restart_limit_exec(n: usize, next: i64) -> (r: u64)
    ensures
        r as nat == restart_limit(n as nat, next as int),
{
    if n <= 0x10_0000 && 0 <= next && next <= 0x100_0000_0000 {
        let nn = n as u64;
        let m = next as u64;
        assert((nn + 1) * (m + 2 * nn + 1) <= 0x10_0001 * 0x100_0020_0001) by (nonlinear_arith)
            requires
                nn <= 0x10_0000,
                m <= 0x100_0000_0000,
        ;
        (nn + 1) * (m + 2 * nn + 1)
    } else {
        0xffff_ffff_ffff_ffff
    }
}

fn restart_table(t: &mut IndexedTable) -> (r: bool)
    requires
        old(t).wf(),
    ensures
        final(t).wf(),
        match spec_restart(old(t)@) {
            Some(v) => r && final(t)@ == v,
            None => !r && final(t)@ == old(t)@,
        },
{
    match t.reset_to_checkpoint() {
        Ok(_) => {
            let _ = t.set_checkpoint();
            true
        },
        Err(_) => false,
    }
}

fn attempts(
    comps: &mut IndexedTable,
    typs: &mut IndexedTable,
    file: &Vec<LocalCompInfo>,
    fuel: u64,
) -> (r: Result<Vec<i64>, LinkError>)
    requires
        old(comps).wf(),
        old(typs).wf(),
    ensures
        final(comps).wf(),
        final(typs).wf(),
        final(comps)@ == spec_attempts(old(comps)@, old(typs)@, file@, Seq::empty(), fuel as nat).0,
        final(typs)@ == spec_attempts(old(comps)@, old(typs)@, file@, Seq::empty(), fuel as nat).1,
        link_result(r) == spec_attempts(old(comps)@, old(typs)@, file@, Seq::empty(), fuel as nat).2,
        r matches Ok(v) ==> v.len() == file.len(),
{
    let mut inc: Vec<(i64, i64)> = Vec::new();
    let mut left: u64 = fuel;
    let ghost goal = spec_attempts(old(comps)@, old(typs)@, file@, Seq::empty(), fuel as nat);
    loop
        invariant
            comps.wf(),
            typs.wf(),
            goal == spec_attempts(comps@, typs@, file@, inc@, left as nat),
            goal == spec_attempts(old(comps)@, old(typs)@, file@, Seq::empty(), fuel as nat),
        decreases left,
    {
        let mut status = fresh_status(file.len());
        let r = run_pass(comps, typs, &mut status, file, &inc);
        match r {
            Ok(_) => {
                return collect_keys(&status, file);
            },
            Err(PassError::Fail(e)) => {
                return Err(e);
            },
            Err(PassError::Conflict { ckey, gckey }) => {
                if left == 0 || contains_pair(&inc, ckey, gckey) {
                    return Err(LinkError::NoProgress { ckey, gckey });
                }
                if comps.checkpoint().is_none() || typs.checkpoint().is_none() {
                    return Err(LinkError::CheckpointMisuse);
                }
                restart_table(comps);
                restart_table(typs);
                inc.push((ckey, gckey));
                left = left - 1;
            },
        }
    }
}


/// The content of the global declarations.
pub struct GlobalView {
    /// the global struct definitions
    pub comps: TableView,
    /// the global type table
    pub typs: TableView,
    /// the global variables, by name
    pub vars: TableView,
    pub index: IndexManagerView,
}

/// The index manager after recording the global keys of the first `n` structs of a file.
pub open spec fn record_structs(
    iv: IndexManagerView,
    fid: i64,
    file: Seq<LocalCompInfo>,
    keys: Seq<i64>,
    n: nat,
) -> IndexManagerView
    decreases n,
{
    if n == 0 || n > file.len() || n > keys.len() {
        iv
    } else {
        let prev = record_structs(iv, fid, file, keys, (n - 1) as nat);
        IndexManagerView {
            ckey2gckey: prev.ckey2gckey.insert((fid, file[n - 1].ckey), keys[n - 1]),
            gckey2ckey: prev.gckey2ckey.insert((keys[n - 1], fid), file[n - 1].ckey),
            ..prev
        }
    }
}

/// Linking the structs of file `fid`: the global content afterwards, and
/// the global key of each struct in file order. A file that cannot be
/// linked leaves the global tables as they were before it.
pub open spec fn spec_link_file(g: GlobalView, fid: i64, file: Seq<LocalCompInfo>) -> (
    GlobalView,
    Result<Seq<i64>, LinkError>,
) {
    match (duplicate_from(file, 0), bad_name_from(file, 0)) {
        (Some(ckey), _) => (g, Err(LinkError::DuplicateStruct { ckey })),
        (None, Some(ckey)) => (g, Err(LinkError::SeparatorInName { ckey })),
        (None, None) => {
            let (c1, t1, r) = spec_attempts(
                g.comps.checkpointed(),
                g.typs.checkpointed(),
                file,
                Seq::empty(),
                restart_limit(file.len(), g.comps.next),
            );
            match r {
                Ok(keys) => (
                    GlobalView {
                        comps: TableView { checkpoint: None, ..c1 },
                        typs: TableView { checkpoint: None, ..t1 },
                        index: record_structs(g.index, fid, file, keys, file.len()),
                        ..g
                    },
                    Ok(keys),
                ),
                Err(e) => (GlobalView { comps: spec_abandon(c1), typs: spec_abandon(t1), ..g }, Err(e)),
            }
        },
    }
}

/// Linking the first `n` files, file `i` under the file index `i`.
pub open spec fn spec_link_all(g: GlobalView, files: Seq<Seq<LocalCompInfo>>, n: nat) -> (
    GlobalView,
    Seq<Result<Seq<i64>, LinkError>>,
)
    decreases n,
{
    if n == 0 || n > files.len() {
        (g, Seq::empty())
    } else {
        let (g1, rs) = spec_link_all(g, files, (n - 1) as nat);
        let (g2, r) = spec_link_file(g1, (n - 1) as i64, files[n - 1]);
        (g2, rs.push(r))
    }
}

/// The files' struct definitions as sequences.
pub open spec fn files_view(files: Seq<Vec<LocalCompInfo>>) -> Seq<Seq<LocalCompInfo>> {
    files.map_values(|f: Vec<LocalCompInfo>| f@)
}

/// The results of linking each file, as sequences.
pub open spec fn link_results(rs: Seq<Result<Vec<i64>, LinkError>>) -> Seq<Result<Seq<i64>, LinkError>> {
    rs.map_values(|r: Result<Vec<i64>, LinkError>| link_result(r))
}

/// Linking is a function of the global content and of the files in their
/// order: linking the same files into equal global declarations ends with
/// equal content and assigns the same global keys.
pub proof fn lemma_link_deterministic(
    g1: GlobalView,
    g2: GlobalView,
    files: Seq<Seq<LocalCompInfo>>,
)
    requires
        g1 == g2,
    ensures
        spec_link_all(g1, files, files.len()) == spec_link_all(g2, files, files.len()),
{
}

fn duplicate_key(file: &Vec<LocalCompInfo>) -> (r: Option<i64>)
    ensures
        r == duplicate_from(file@, 0),
{
    let mut i: usize = 0;
    while i < file.len()
        invariant
            i <= file.len(),
            duplicate_from(file@, 0) == duplicate_from(file@, i as int),
        decreases file.len() - i,
    {
        if position_of(file, file[i].ckey, i + 1).is_some() {
            return Some(file[i].ckey);
        }
        i += 1;
    }
    None
}

/// The global declarations of a program: one global struct table, the
/// global dictionary, the global variables, and the index manager that
/// maps the local structs and variables of each file to global ones.
pub struct CGlobalDeclarations {
    compinfo_table: IndexedTable,
    varinfo_table: IndexedTable,
    dictionary: CDictionary,
    index_manager: IndexManager,
}

impl View for CGlobalDeclarations {
    type V = GlobalView;

    closed spec fn view(&self) -> GlobalView {
        GlobalView {
            comps: self.compinfo_table@,
            typs: self.dictionary.typ_table@,
            vars: self.varinfo_table@,
            index: self.index_manager@,
        }
    }
}

impl CGlobalDeclarations {
    pub closed spec fn wf(&self) -> bool {
        &&& self.compinfo_table.wf()
        &&& self.varinfo_table.wf()
        &&& self.dictionary.wf()
        &&& self.index_manager.wf()
        &&& globals_ok(self@)
    }

    pub fn new() -> (r: Self)
        ensures
            r.wf(),
            r@.comps == TableView::empty("compinfo-table"@),
            r@.typs == TableView::empty("typ-table"@),
            r@.vars == TableView::empty("varinfo-table"@),
            !r@.index.single_file,
            r@.index.vid2gvid.is_empty(),
            r@.index.gvid2vid.is_empty(),
            r@.index.gviddefs.is_empty(),
            r@.index.fidvidmax.is_empty(),
            r@.index.ckey2gckey.is_empty(),
            r@.index.gckey2ckey.is_empty(),
    {
        CGlobalDeclarations {
            compinfo_table: IndexedTable::new(String::from_str("compinfo-table")),
            varinfo_table: IndexedTable::new(String::from_str("varinfo-table")),
            dictionary: CDictionary::new(),
            index_manager: IndexManager::new(false),
        }
    }

    /// The global struct table: the record at a global key has the struct's
    /// name and field names as tags, and its kind (1 for a struct, 0 for a
    /// union) and the global type index of each field as arguments.
    pub fn compinfo_table(&self) -> (r: &IndexedTable)
        requires
            self.wf(),
        ensures
            r.wf(),
            r@ == self@.comps,
    {
        &self.compinfo_table
    }

    /// The global dictionary; its type table holds the field types.
    pub fn dictionary(&self) -> (r: &CDictionary)
        requires
            self.wf(),
        ensures
            r.wf(),
            r.typ_table@ == self@.typs,
    {
        &self.dictionary
    }

    pub fn index_manager(&self) -> (r: &IndexManager)
        requires
            self.wf(),
        ensures
            r.wf(),
            r@ == self@.index,
    {
        &self.index_manager
    }

    /// Links the structs of file `fid` into the global namespace and returns
    /// the global key of each, in file order. Two structs get the same
    /// global key when their records (names, kind and field types, with
    /// nested structs replaced by their global keys) coincide. A refuted
    /// conjecture about a cyclic reference restarts the file with the pair
    /// recorded as incompatible; a file that cannot be linked leaves the
    /// global tables as they were.
    pub fn link_file(&mut self, fid: i64, file: &Vec<LocalCompInfo>) -> (r: Result<Vec<i64>, LinkError>)
        requires
            old(self).wf(),
        ensures
            final(self).wf(),
            (final(self)@, link_result(r)) == spec_link_file(old(self)@, fid, file@),
            r matches Ok(v) ==> records_ok(final(self)@.comps, final(self)@.typs, file@, v@),
            final(self)@.comps.reserved.is_empty(),
    {
        match duplicate_key(file) {
            Some(ckey) => {
                return Err(LinkError::DuplicateStruct { ckey });
            },
            None => {},
        }
        match bad_name(file) {
            Some(ckey) => {
                return Err(LinkError::SeparatorInName { ckey });
            },
            None => {},
        }
        proof {
            lemma_link_goal(old(self)@, fid, file@);
        }
        let fuel = restart_limit_exec(file.len(), self.compinfo_table.next_index());
        let _ = self.compinfo_table.set_checkpoint();
        let _ = self.dictionary.typ_table.set_checkpoint();
        let r = attempts(&mut self.compinfo_table, &mut self.dictionary.typ_table, file, fuel);
        match r {
            Ok(keys) => {
                self.compinfo_table.remove_checkpoint();
                self.dictionary.typ_table.remove_checkpoint();
                let ghost iv0 = self.index_manager@;
                let ghost c_after = self.compinfo_table@;
                let ghost t_after = self.dictionary.typ_table@;
                let mut i: usize = 0;
                while i < file.len()
                    invariant
                        self.index_manager.wf(),
                        self.compinfo_table.wf(),
                        self.varinfo_table.wf(),
                        self.dictionary.wf(),
                        self.compinfo_table@ == c_after,
                        self.dictionary.typ_table@ == t_after,
                        c_after.checkpoint is None,
                        t_after.checkpoint is None,
                        self.varinfo_table@ == old(self).varinfo_table@,
                        keys.len() == file.len(),
                        i <= file.len(),
                        self.index_manager@ == record_structs(iv0, fid, file@, keys@, i as nat),
                    decreases file.len() - i,
                {
                    self.index_manager.add_struct_reference(fid, file[i].ckey, keys[i]);
                    i += 1;
                }
                Ok(keys)
            },
            Err(e) => {
                let _ = self.compinfo_table.reset_to_checkpoint();
                let _ = self.dictionary.typ_table.reset_to_checkpoint();
                Err(e)
            },
        }
    }

    /// Links the struct definitions of each file in order, file `i` under
    /// the file index `i`. A file that cannot be linked is skipped; what
    /// the files before it linked stays.
    pub fn link_files(&mut self, files: &Vec<Vec<LocalCompInfo>>) -> (r: Vec<Result<Vec<i64>, LinkError>>)
        requires
            old(self).wf(),
            files.len() < i64::MAX,
        ensures
            final(self).wf(),
            (final(self)@, link_results(r@)) == spec_link_all(old(self)@, files_view(files@), files.len() as nat),
    {
        let mut out: Vec<Result<Vec<i64>, LinkError>> = Vec::new();
        let mut i: usize = 0;
        while i < files.len()
            invariant
                self.wf(),
                files.len() < i64::MAX,
                i <= files.len(),
                (self@, link_results(out@)) == spec_link_all(old(self)@, files_view(files@), i as nat),
            decreases files.len() - i,
        {
            let r = self.link_file(i as i64, &files[i]);
            let ghost before = out@;
            out.push(r);
            assert(link_results(out@) =~= link_results(before).push(link_result(r)));
            i += 1;
        }
        out
    }

    /// Links variable `vid` of file `fid`, named `vname`, to the global
    /// variable of that name (created when new), and records the file as its
    /// definition when `is_definition`. Returns the global id.
    pub fn link_var(&mut self, fid: i64, vid: i64, vname: String, is_definition: bool) -> (r: Result<i64, LinkError>)
        requires
            old(self).wf(),
        ensures
            final(self).wf(),
            old(self)@.vars.next >= i64::MAX ==> (r == Err::<i64, LinkError>(LinkError::TableFull) && final(self)@ == old(self)@),
            old(self)@.vars.next < i64::MAX ==> ({
                let (v2, g) = old(self)@.vars.interned(seq![vname@], Seq::empty());
                let iv = old(self)@.index;
                let iv2 = IndexManagerView {
                    vid2gvid: iv.vid2gvid.insert((fid, vid), g as i64),
                    gvid2vid: iv.gvid2vid.insert((g as i64, fid), vid),
                    fidvidmax: iv.fidvidmax.insert(
                        fid,
                        if iv.fidvidmax.contains_key(fid) && iv.fidvidmax[fid] > vid {
                            iv.fidvidmax[fid]
                        } else {
                            vid
                        },
                    ),
                    ..iv
                };
                &&& r == Ok::<i64, LinkError>(g as i64)
                &&& final(self)@.vars == v2
                &&& final(self)@.comps == old(self)@.comps
                &&& final(self)@.typs == old(self)@.typs
                &&& final(self)@.index == if is_definition {
                    IndexManagerView { gviddefs: iv2.gviddefs.insert(g as i64, fid), ..iv2 }
                } else {
                    iv2
                }
            }),
    {
        if self.varinfo_table.next_index() == i64::MAX {
            return Err(LinkError::TableFull);
        }
        let tags = vec![vname];
        let ghost tv = views_of(tags@);
        assert(tv =~= seq![tags@[0]@]);
        let args: Vec<i64> = Vec::new();
        assert(args@ =~= Seq::<i64>::empty());
        let gvid = self.varinfo_table.intern(tags, args);
        self.index_manager.add_var_reference(fid, vid, gvid);
        if is_definition {
            let _ = self.index_manager.set_var_definition(gvid, fid);
        }
        Ok(gvid)
    }
}


/// A field of a global struct: its name and the global index of its type.
#[derive(Clone, Debug)]
pub struct CFieldInfo {
    pub fname: String,
    pub ftype: i64,
}

/// A global struct definition, read from its record in the struct table.
#[derive(Clone, Debug)]
pub struct CCompInfo {
    pub ckey: i64,
    pub name: String,
    pub is_struct: bool,
    pub fields: Vec<CFieldInfo>,
}

impl CCompInfo {
    pub fn fieldcount(&self) -> (r: usize)
        ensures
            r == self.fields.len(),
    {
        self.fields.len()
    }

    pub fn fieldnames(&self) -> (r: Vec<String>)
        ensures
            r.len() == self.fields.len(),
            forall|j: int| 0 <= j < r.len() ==> (#[trigger] r@[j])@ == self.fields@[j].fname@,
    {
        let mut r: Vec<String> = Vec::new();
        let mut j: usize = 0;
        while j < self.fields.len()
            invariant
                j <= self.fields.len(),
                r.len() == j,
                forall|k: int| 0 <= k < j ==> (#[trigger] r@[k])@ == self.fields@[k].fname@,
            decreases self.fields.len() - j,
        {
            r.push(self.fields[j].fname.clone());
            j += 1;
        }
        r
    }
}

/// `ci` is what the struct record `rec` at global key `g` says.
pub open spec fn compinfo_read(ci: CCompInfo, g: int, rec: RecordView) -> bool {
    &&& ci.ckey == g
    &&& ci.name@ == rec.tags[0]
    &&& ci.is_struct == (rec.args[0] != 0)
    &&& ci.fields.len() + 1 == rec.tags.len()
    &&& forall|j: int|
        0 <= j < ci.fields.len() ==> (#[trigger] ci.fields@[j]).fname@ == rec.tags[j + 1]
            && ci.fields@[j].ftype == rec.args[j + 1]
}

impl CGlobalDeclarations {
    /// The global struct with key `gckey`. A record that does not have one
    /// argument per tag (the kind, then a type per field) is a `ShapeMismatch`.
    pub fn get_compinfo_by_ckey(&self, gckey: i64) -> (r: Result<CCompInfo, ChcError>)
        requires
            self.wf(),
        ensures
            !self@.comps.entries.contains_key(gckey as int) ==> (r matches Err(e) && is_not_found(
                e,
                gckey as int,
                self@.comps.name,
                self@.comps.next - 1,
            )),
            self@.comps.entries.contains_key(gckey as int) ==> ({
                let rec = self@.comps.entries[gckey as int];
                if rec.tags.len() >= 1 && rec.args.len() == rec.tags.len() {
                    r matches Ok(ci) && compinfo_read(ci, gckey as int, rec)
                } else {
                    r matches Err(ChcError::ShapeMismatch { .. })
                }
            }),
    {
        let rec = match self.compinfo_table.get_record(gckey) {
            Some(rec) => rec,
            None => {
                return Err(
                    ChcError::NotFound {
                        index: gckey,
                        table: self.compinfo_table.name().clone(),
                        size: self.compinfo_table.size(),
                    },
                );
            },
        };
        let tags = rec.tags();
        let args = rec.args();
        if tags.len() < 1 || args.len() != tags.len() {
            let tag = if tags.len() > 0 {
                tags[0].clone()
            } else {
                String::new()
            };
            return Err(
                ChcError::ShapeMismatch {
                    tag,
                    expected_tags: tags.len(),
                    expected_args: tags.len(),
                    actual_tags: tags.len(),
                    actual_args: args.len(),
                },
            );
        }
        let mut fields: Vec<CFieldInfo> = Vec::new();
        let mut j: usize = 1;
        while j < tags.len()
            invariant
                1 <= j <= tags.len(),
                args.len() == tags.len(),
                fields.len() == j - 1,
                forall|k: int|
                    0 <= k < fields.len() ==> (#[trigger] fields@[k]).fname@ == tags@[k + 1]@
                        && fields@[k].ftype == args@[k + 1],
            decreases tags.len() - j,
        {
            fields.push(CFieldInfo { fname: tags[j].clone(), ftype: args[j] });
            j += 1;
        }
        Ok(CCompInfo { ckey: gckey, name: tags[0].clone(), is_struct: args[0] != 0, fields })
    }
}


pub open spec fn comma_free(parts: Seq<Seq<char>>) -> bool {
    forall|i: int| 0 <= i < parts.len() ==> !(#[trigger] parts[i]).contains(',')
}

/// Every key of the table leads to a record with that key, and every
/// record has comma-free tags and at least one tag and one argument.
pub open spec fn well_keyed(t: TableView) -> bool {
    &&& forall|k|
        #[trigger] t.keys.contains_key(k) ==> t.entries.contains_key(t.keys[k]) && record_key(
            t.entries[t.keys[k]].tags,
            t.entries[t.keys[k]].args,
        ) == k
    &&& forall|i: int|
        #[trigger] t.entries.contains_key(i) ==> t.entries[i].tags.len() >= 1 && comma_free(
            t.entries[i].tags,
        ) && t.entries[i].args.len() >= 1
}

/// Every record of `a` is in `b` unchanged.
pub open spec fn grows(a: TableView, b: TableView) -> bool {
    forall|i: int| #[trigger] a.entries.contains_key(i) ==> b.entries.contains_key(i) && b.entries[i] == a.entries[i]
}

/// The names of every struct of the file are free of the key separator.
pub open spec fn names_ok(file: Seq<LocalCompInfo>) -> bool {
    forall|i: int| 0 <= i < file.len() ==> comma_free(#[trigger] comp_tags(file[i]))
}

/// Global key `g` holds a struct record with the names and kind of `comp`.
pub open spec fn struct_at(t: TableView, g: i64, comp: LocalCompInfo) -> bool {
    &&& t.entries.contains_key(g as int)
    &&& t.entries[g as int].tags == comp_tags(comp)
    &&& t.entries[g as int].args.len() >= 1
    &&& t.entries[g as int].args[0] == struct_flag(comp)
}

proof fn lemma_key_injective(t1: Seq<Seq<char>>, a1: Seq<i64>, t2: Seq<Seq<char>>, a2: Seq<i64>)
    requires
        record_key(t1, a1) == record_key(t2, a2),
        t1.len() >= 1,
        t2.len() >= 1,
        a1.len() >= 1,
        a2.len() >= 1,
        comma_free(t1),
        comma_free(t2),
    ensures
        t1 == t2,
        a1 == a2,
{
    crate::wire::lemma_split_join(t1);
    crate::wire::lemma_split_join(t2);
    crate::wire::lemma_parse_decimals(a1);
    crate::wire::lemma_parse_decimals(a2);
    crate::wire::lemma_split_join(decimals_of(a1));
    crate::wire::lemma_split_join(decimals_of(a2));
}

proof fn lemma_intern_comps(t: TableView, tags: Seq<Seq<char>>, args: Seq<i64>)
    requires
        t.inv(),
        t.next <= i64::MAX,
        well_keyed(t),
        tags.len() >= 1,
        comma_free(tags),
        args.len() >= 1,
    ensures
        ({
            let (t2, r) = spec_intern(t, tags, args);
            &&& t2.inv()
            &&& t2.next <= i64::MAX
            &&& well_keyed(t2)
            &&& grows(t, t2)
            &&& (r matches Ok(k) ==> t2.entries.contains_key(k as int) && t2.entries[k as int].tags
                == tags && t2.entries[k as int].args == args)
        }),
{
    if t.next < i64::MAX {
        let k = record_key(tags, args);
        if t.keys.contains_key(k) {
            let e = t.entries[t.keys[k]];
            lemma_key_injective(tags, args, e.tags, e.args);
        } else {
            let (t2, i) = t.interned(tags, args);
            assert forall|k2| #[trigger] t2.keys.contains_key(k2) implies t2.entries.contains_key(
                t2.keys[k2],
            ) && record_key(t2.entries[t2.keys[k2]].tags, t2.entries[t2.keys[k2]].args) == k2 by {
                if k2 != k {
                    assert(t.keys.contains_key(k2));
                    assert(t.keys[k2] < t.next);
                }
            }
        }
    }
}

proof fn lemma_comp_tags_len(comp: LocalCompInfo)
    ensures
        comp_tags(comp).len() == comp.fields.len() + 1,
        comp_tags(comp)[0] == comp.cname@,
{
}

proof fn lemma_all_committed(st: Seq<KeyStatus>, i: int)
    requires
        0 <= i,
        first_uncommitted(st, i) is None,
    ensures
        forall|k: int| i <= k < st.len() ==> #[trigger] st[k] is Committed,
    decreases st.len() - i,
{
    if i < st.len() {
        lemma_all_committed(st, i + 1);
    }
}

proof fn lemma_restart_good(t: TableView)
    requires
        t.inv(),
        t.next <= i64::MAX,
        well_keyed(t),
    ensures
        spec_restart(t) matches Some(r) ==> r.inv() && r.next <= i64::MAX && well_keyed(r),
        spec_abandon(t).inv(),
        spec_abandon(t).next <= i64::MAX,
        well_keyed(spec_abandon(t)),
{
    if let Some(c) = t.checkpoint {
        let r = t.rolled_back(c);
        assert forall|k| #[trigger] r.keys.contains_key(k) implies r.entries.contains_key(r.keys[k])
            && record_key(r.entries[r.keys[k]].tags, r.entries[r.keys[k]].args) == k by {
            assert(t.entries.contains_key(t.keys[k]));
        }
    }
}

/// The key of the first struct of `file[i..]` whose name or a field name
/// holds the key separator.
pub open spec fn bad_name_from(file: Seq<LocalCompInfo>, i: int) -> Option<i64>
    decreases file.len() - i,
{
    if i < 0 || i >= file.len() {
        None
    } else if !comma_free(comp_tags(file[i])) || !comp_types_ok(file[i]) {
        Some(file[i].ckey)
    } else {
        bad_name_from(file, i + 1)
    }
}

/// The tags of each plain type in `t` are a non-empty list free of the key separator.
pub open spec fn type_tags_ok(t: LocalType) -> bool
    decreases type_size(t),
{
    match t {
        LocalType::Base { tags, args } => tags@.len() >= 1 && comma_free(views_of(tags@)),
        LocalType::Ptr(b) => type_tags_ok(*b),
        LocalType::Array(b, _) => type_tags_ok(*b),
        LocalType::Comp(_) => true,
    }
}

pub open spec fn comp_types_ok(comp: LocalCompInfo) -> bool {
    forall|j: int| 0 <= j < comp.fields.len() ==> type_tags_ok(#[trigger] comp.fields@[j].ftype)
}

pub open spec fn types_ok(file: Seq<LocalCompInfo>) -> bool {
    forall|i: int| 0 <= i < file.len() ==> comp_types_ok(#[trigger] file[i])
}

fn type_tags_ok_exec(t: &LocalType) -> (r: bool)
    ensures
        r == type_tags_ok(*t),
    decreases type_size(*t),
{
    match t {
        LocalType::Base { tags, args } => {
            assert(type_tags_ok(*t) == (tags@.len() >= 1 && comma_free(views_of(tags@))));
            if tags.len() == 0 {
                return false;
            }
            let mut j: usize = 0;
            while j < tags.len()
                invariant
                    j <= tags.len(),
                    tags@.len() >= 1,
                    type_tags_ok(*t) == (tags@.len() >= 1 && comma_free(views_of(tags@))),
                    forall|k: int| 0 <= k < j ==> !(#[trigger] tags@[k])@.contains(','),
                decreases tags.len() - j,
            {
                if has_comma(&tags[j]) {
                    assert(views_of(tags@)[j as int] == tags@[j as int]@);
                    assert(!comma_free(views_of(tags@)));
                    return false;
                }
                j += 1;
            }
            assert(comma_free(views_of(tags@))) by {
                assert forall|k: int| 0 <= k < tags.len() implies !(#[trigger] views_of(tags@)[k]).contains(',') by {
                    assert(views_of(tags@)[k] == tags@[k]@);
                }
            }
            true
        },
        LocalType::Ptr(b) => type_tags_ok_exec(b),
        LocalType::Array(b, _) => type_tags_ok_exec(b),
        LocalType::Comp(_) => true,
    }
}

fn comp_types_ok_exec(comp: &LocalCompInfo) -> (r: bool)
    ensures
        r == comp_types_ok(*comp),
{
    let mut j: usize = 0;
    while j < comp.fields.len()
        invariant
            j <= comp.fields.len(),
            forall|k: int| 0 <= k < j ==> type_tags_ok(#[trigger] comp.fields@[k].ftype),
        decreases comp.fields.len() - j,
    {
        if !type_tags_ok_exec(&comp.fields[j].ftype) {
            return false;
        }
        j += 1;
    }
    true
}

proof fn lemma_names_ok(file: Seq<LocalCompInfo>, i: int)
    requires
        0 <= i,
        bad_name_from(file, i) is None,
    ensures
        forall|k: int| i <= k < file.len() ==> comma_free(#[trigger] comp_tags(file[k])),
        forall|k: int| i <= k < file.len() ==> comp_types_ok(#[trigger] file[k]),
    decreases file.len() - i,
{
    if i < file.len() {
        lemma_names_ok(file, i + 1);
    }
}

fn has_comma(s: &String) -> (r: bool)
    ensures
        r == s@.contains(','),
{
    let text = s.as_str();
    let n = text.unicode_len();
    let mut i: usize = 0;
    while i < n
        invariant
            n == s@.len(),
            text@ == s@,
            i <= n,
            forall|k: int| 0 <= k < i ==> s@[k] != ',',
        decreases n - i,
    {
        if text.get_char(i) == ',' {
            return true;
        }
        i += 1;
    }
    false
}

fn names_comma_free(comp: &LocalCompInfo) -> (r: bool)
    ensures
        r == comma_free(comp_tags(*comp)),
{
    let ghost tags = comp_tags(*comp);
    if has_comma(&comp.cname) {
        assert(!comma_free(tags)) by {
            assert(tags[0] == comp.cname@);
        }
        return false;
    }
    let mut j: usize = 0;
    while j < comp.fields.len()
        invariant
            j <= comp.fields.len(),
            tags == comp_tags(*comp),
            !comp.cname@.contains(','),
            forall|k: int| 0 <= k < j ==> !(#[trigger] comp.fields@[k]).fname@.contains(','),
        decreases comp.fields.len() - j,
    {
        if has_comma(&comp.fields[j].fname) {
            assert(!comma_free(tags)) by {
                assert(tags[j + 1] == comp.fields@[j as int].fname@);
            }
            return false;
        }
        j += 1;
    }
    assert(comma_free(tags)) by {
        assert forall|k: int| 0 <= k < tags.len() implies !(#[trigger] tags[k]).contains(',') by {
            if k > 0 {
                assert(tags[k] == comp.fields@[k - 1].fname@);
            }
        }
    }
    true
}

fn bad_name(file: &Vec<LocalCompInfo>) -> (r: Option<i64>)
    ensures
        r == bad_name_from(file@, 0),
{
    let mut i: usize = 0;
    while i < file.len()
        invariant
            i <= file.len(),
            bad_name_from(file@, 0) == bad_name_from(file@, i as int),
        decreases file.len() - i,
    {
        if !names_comma_free(&file[i]) || !comp_types_ok_exec(&file[i]) {
            return Some(file[i].ckey);
        }
        i += 1;
    }
    None
}


/// The global key a local struct has been given so far in a pass.
pub open spec fn key_of(k: KeyStatus) -> Option<i64> {
    match k {
        KeyStatus::Reserved(g) => Some(g),
        KeyStatus::Conjectured(g) => Some(g),
        KeyStatus::Committed(g) => Some(g),
        _ => None,
    }
}

pub open spec fn keys_of(st: Seq<KeyStatus>) -> Seq<Option<i64>> {
    st.map_values(|k: KeyStatus| key_of(k))
}

/// `b` keeps every key that `a` gives.
pub open spec fn extends(a: Seq<Option<i64>>, b: Seq<Option<i64>>) -> bool {
    &&& a.len() == b.len()
    &&& forall|p: int| 0 <= p < a.len() && (#[trigger] a[p]) is Some ==> b[p] == a[p]
}

/// The type record at `ix` is the local type `t`, with each struct of the
/// file that `t` refers to given by its key in `keys`.
pub open spec fn type_at(
    typs: TableView,
    ix: int,
    t: LocalType,
    file: Seq<LocalCompInfo>,
    keys: Seq<Option<i64>>,
) -> bool
    decreases type_size(t),
{
    typs.entries.contains_key(ix) && match t {
        LocalType::Base { tags, args } => typs.entries[ix].tags == views_of(tags@)
            && typs.entries[ix].args == args@,
        LocalType::Ptr(b) => typs.entries[ix].tags == seq!["tptr"@] && typs.entries[ix].args.len()
            == 1 && type_at(typs, typs.entries[ix].args[0] as int, *b, file, keys),
        LocalType::Array(b, n) => typs.entries[ix].tags == seq!["tarray"@]
            && typs.entries[ix].args.len() == 2 && typs.entries[ix].args[1] == n && type_at(
            typs,
            typs.entries[ix].args[0] as int,
            *b,
            file,
            keys,
        ),
        LocalType::Comp(ckey) => typs.entries[ix].tags == seq!["tcomp"@]
            && typs.entries[ix].args.len() == 1 && match position_from(file, ckey, 0) {
            Some(p) => 0 <= p < keys.len() && keys[p] == Some(typs.entries[ix].args[0]),
            None => false,
        },
    }
}

/// The struct record at `g` is `comp`'s: its name and field names, its
/// kind, and for each field the index of the field's type record, with
/// nested structs given by their keys in `keys`.
pub open spec fn record_of(
    comps: TableView,
    typs: TableView,
    g: i64,
    comp: LocalCompInfo,
    file: Seq<LocalCompInfo>,
    keys: Seq<Option<i64>>,
) -> bool {
    &&& struct_at(comps, g, comp)
    &&& comps.entries[g as int].args.len() == comp.fields.len() + 1
    &&& forall|j: int|
        0 <= j < comp.fields.len() ==> type_at(
            typs,
            comps.entries[g as int].args[j + 1] as int,
            (#[trigger] comp.fields@[j]).ftype,
            file,
            keys,
        )
}

/// Every key of the type table leads to a record with that key, and every
/// type record has a non-empty, separator-free tag list.
pub open spec fn well_keyed_types(t: TableView) -> bool {
    &&& forall|k|
        #[trigger] t.keys.contains_key(k) ==> t.entries.contains_key(t.keys[k]) && record_key(
            t.entries[t.keys[k]].tags,
            t.entries[t.keys[k]].args,
        ) == k
    &&& forall|i: int|
        #[trigger] t.entries.contains_key(i) ==> t.entries[i].tags.len() >= 1 && comma_free(
            t.entries[i].tags,
        )
}

/// The global tables between two files: consistent keys, no checkpoint and
/// no reserved index.
pub open spec fn globals_ok(g: GlobalView) -> bool {
    &&& g.comps.inv()
    &&& g.comps.next <= i64::MAX
    &&& well_keyed(g.comps)
    &&& g.comps.reserved.is_empty()
    &&& g.comps.checkpoint is None
    &&& g.typs.inv()
    &&& g.typs.next <= i64::MAX
    &&& well_keyed_types(g.typs)
    &&& g.typs.checkpoint is None
}

pub open spec fn full_status_ok(s: PassState, file: Seq<LocalCompInfo>) -> bool {
    forall|i: int|
        0 <= i < s.status.len() && i < file.len() ==> match #[trigger] s.status[i] {
            KeyStatus::Committed(g) => record_of(s.comps, s.typs, g, file[i], file, keys_of(s.status)),
            _ => true,
        }
}

/// Each reserved index is the placeholder of a struct of the file.
pub open spec fn reserved_ok(s: PassState) -> bool {
    forall|r: int|
        #[trigger] s.comps.reserved.contains(r) ==> exists|i: int|
            0 <= i < s.status.len() && s.status[i] == KeyStatus::Reserved(r as i64)
}

pub open spec fn pass_ok(s: PassState, file: Seq<LocalCompInfo>) -> bool {
    &&& s.comps.inv()
    &&& s.comps.next <= i64::MAX
    &&& well_keyed(s.comps)
    &&& s.typs.inv()
    &&& s.typs.next <= i64::MAX
    &&& well_keyed_types(s.typs)
    &&& s.status.len() == file.len()
    &&& full_status_ok(s, file)
    &&& reserved_ok(s)
}

/// The statuses of a step: keys once given are kept, and a struct that is
/// neither unvisited nor committed does not become committed.
pub open spec fn status_step(a: Seq<KeyStatus>, b: Seq<KeyStatus>) -> bool {
    &&& extends(keys_of(a), keys_of(b))
    &&& forall|k: int|
        0 <= k < a.len() && !(a[k] is Unvisited) && !(a[k] is Committed) ==> !(#[trigger] b[k] is Committed)
    &&& forall|k: int| 0 <= k < a.len() && (a[k] is Committed) ==> #[trigger] b[k] == a[k]
    &&& forall|k: int| 0 <= k < a.len() && !(a[k] is Unvisited) ==> !(#[trigger] b[k] is Unvisited)
}

proof fn lemma_step_trans(a: Seq<KeyStatus>, b: Seq<KeyStatus>, c: Seq<KeyStatus>)
    requires
        status_step(a, b),
        status_step(b, c),
    ensures
        status_step(a, c),
{
    assert forall|p: int| 0 <= p < a.len() && (#[trigger] keys_of(a)[p]) is Some implies keys_of(c)[p]
        == keys_of(a)[p] by {
        assert(keys_of(b)[p] == keys_of(a)[p]);
    }
    assert forall|k: int| 0 <= k < a.len() && !(a[k] is Unvisited) && !(a[k] is Committed) implies !(
    #[trigger] c[k] is Committed) by {
        assert(!(b[k] is Committed));
        assert(!(b[k] is Unvisited));
    }
}

proof fn lemma_step_refl(a: Seq<KeyStatus>)
    ensures
        status_step(a, a),
{
}

proof fn lemma_step_update(a: Seq<KeyStatus>, i: int, v: KeyStatus)
    requires
        0 <= i < a.len(),
        key_of(a[i]) is None || key_of(v) == key_of(a[i]),
        !(a[i] is Committed),
        !(v is Unvisited),
    ensures
        extends(keys_of(a), keys_of(a.update(i, v))),
        forall|k: int| 0 <= k < a.len() && k != i ==> #[trigger] a.update(i, v)[k] == a[k],
{
    assert forall|p: int| 0 <= p < a.len() && (#[trigger] keys_of(a)[p]) is Some implies keys_of(
        a.update(i, v),
    )[p] == keys_of(a)[p] by {
        if p != i {
            assert(a.update(i, v)[p] == a[p]);
        }
    }
}

proof fn lemma_type_at_carry(
    typs: TableView,
    typs2: TableView,
    ix: int,
    t: LocalType,
    file: Seq<LocalCompInfo>,
    keys: Seq<Option<i64>>,
    keys2: Seq<Option<i64>>,
)
    requires
        type_at(typs, ix, t, file, keys),
        grows(typs, typs2),
        extends(keys, keys2),
    ensures
        type_at(typs2, ix, t, file, keys2),
    decreases type_size(t),
{
    assert(typs.entries.contains_key(ix));
    match t {
        LocalType::Ptr(b) => {
            lemma_type_at_carry(typs, typs2, typs.entries[ix].args[0] as int, *b, file, keys, keys2);
        },
        LocalType::Array(b, _) => {
            lemma_type_at_carry(typs, typs2, typs.entries[ix].args[0] as int, *b, file, keys, keys2);
        },
        LocalType::Comp(ckey) => {
            let p = position_from(file, ckey, 0)->Some_0;
            assert(keys[p] is Some);
        },
        _ => {},
    }
}

proof fn lemma_record_carry(
    comps: TableView,
    typs: TableView,
    comps2: TableView,
    typs2: TableView,
    g: i64,
    comp: LocalCompInfo,
    file: Seq<LocalCompInfo>,
    keys: Seq<Option<i64>>,
    keys2: Seq<Option<i64>>,
)
    requires
        record_of(comps, typs, g, comp, file, keys),
        grows(comps, comps2),
        grows(typs, typs2),
        extends(keys, keys2),
    ensures
        record_of(comps2, typs2, g, comp, file, keys2),
{
    assert(comps.entries.contains_key(g as int));
    assert forall|j: int| 0 <= j < comp.fields.len() implies type_at(
        typs2,
        comps2.entries[g as int].args[j + 1] as int,
        (#[trigger] comp.fields@[j]).ftype,
        file,
        keys2,
    ) by {
        lemma_type_at_carry(
            typs,
            typs2,
            comps.entries[g as int].args[j + 1] as int,
            comp.fields@[j].ftype,
            file,
            keys,
            keys2,
        );
    }
}

/// The full status invariant carries over a step in which the tables only
/// grow, unless a struct was newly committed (whose record is then given).
proof fn lemma_status_carry(s: PassState, s2: PassState, file: Seq<LocalCompInfo>)
    requires
        full_status_ok(s, file),
        grows(s.comps, s2.comps),
        grows(s.typs, s2.typs),
        s2.status.len() == s.status.len(),
        extends(keys_of(s.status), keys_of(s2.status)),
        forall|i: int|
            0 <= i < s2.status.len() && i < file.len() && (#[trigger] s2.status[i]) is Committed ==> (
            s2.status[i] == s.status[i] || record_of(
                s2.comps,
                s2.typs,
                s2.status[i]->Committed_0,
                file[i],
                file,
                keys_of(s2.status),
            )),
    ensures
        full_status_ok(s2, file),
{
    assert forall|i: int| 0 <= i < s2.status.len() && i < file.len() implies match #[trigger] s2.status[i] {
        KeyStatus::Committed(g) => record_of(s2.comps, s2.typs, g, file[i], file, keys_of(s2.status)),
        _ => true,
    } by {
        if let KeyStatus::Committed(g) = s2.status[i] {
            if s2.status[i] == s.status[i] {
                assert(record_of(s.comps, s.typs, g, file[i], file, keys_of(s.status)));
                lemma_record_carry(
                    s.comps,
                    s.typs,
                    s2.comps,
                    s2.typs,
                    g,
                    file[i],
                    file,
                    keys_of(s.status),
                    keys_of(s2.status),
                );
            }
        }
    }
}

proof fn lemma_args_injective(a1: Seq<i64>, a2: Seq<i64>)
    requires
        join_commas(decimals_of(a1)) == join_commas(decimals_of(a2)),
    ensures
        a1 == a2,
{
    crate::wire::lemma_parse_decimals(a1);
    crate::wire::lemma_parse_decimals(a2);
    crate::wire::lemma_join_empty(decimals_of(a1));
    crate::wire::lemma_join_empty(decimals_of(a2));
    if a1.len() > 0 {
        crate::wire::lemma_parse_decimal(a1[0] as int);
        assert(decimals_of(a1)[0] == decimal(a1[0] as int));
    }
    if a2.len() > 0 {
        crate::wire::lemma_parse_decimal(a2[0] as int);
        assert(decimals_of(a2)[0] == decimal(a2[0] as int));
    }
    if a1.len() > 0 && a2.len() > 0 {
        crate::wire::lemma_split_join(decimals_of(a1));
        crate::wire::lemma_split_join(decimals_of(a2));
    } else if a1.len() == 0 && a2.len() == 0 {
        assert(a1 =~= a2);
    }
}

proof fn lemma_intern_types(t: TableView, tags: Seq<Seq<char>>, args: Seq<i64>)
    requires
        t.inv(),
        t.next <= i64::MAX,
        well_keyed_types(t),
        tags.len() >= 1,
        comma_free(tags),
    ensures
        ({
            let (t2, r) = spec_intern(t, tags, args);
            &&& t2.inv()
            &&& t2.next <= i64::MAX
            &&& well_keyed_types(t2)
            &&& grows(t, t2)
            &&& t2.reserved == t.reserved
            &&& t2.checkpoint == t.checkpoint
            &&& (r matches Ok(k) ==> t2.entries.contains_key(k as int) && t2.entries[k as int].tags
                == tags && t2.entries[k as int].args == args)
        }),
{
    if t.next < i64::MAX {
        let k = record_key(tags, args);
        if t.keys.contains_key(k) {
            let e = t.entries[t.keys[k]];
            crate::wire::lemma_split_join(tags);
            crate::wire::lemma_split_join(e.tags);
            lemma_args_injective(args, e.args);
        } else {
            let (t2, i) = t.interned(tags, args);
            assert forall|k2| #[trigger] t2.keys.contains_key(k2) implies t2.entries.contains_key(
                t2.keys[k2],
            ) && record_key(t2.entries[t2.keys[k2]].tags, t2.entries[t2.keys[k2]].args) == k2 by {
                if k2 != k {
                    assert(t.keys.contains_key(k2));
                    assert(t.keys[k2] < t.next);
                }
            }
        }
    }
}

proof fn lemma_literal_tags()
    ensures
        comma_free(seq!["tptr"@]),
        comma_free(seq!["tarray"@]),
        comma_free(seq!["tcomp"@]),
{
    reveal_strlit("tptr");
    reveal_strlit("tarray");
    reveal_strlit("tcomp");
}


/// A step of a pass: the invariant holds after it, the tables only grow,
/// the statuses move forward and the checkpoints stay.
pub open spec fn step_ok(s: PassState, s1: PassState, file: Seq<LocalCompInfo>) -> bool {
    &&& pass_ok(s1, file)
    &&& grows(s.comps, s1.comps)
    &&& grows(s.typs, s1.typs)
    &&& status_step(s.status, s1.status)
    &&& s1.comps.checkpoint == s.comps.checkpoint
    &&& s1.typs.checkpoint == s.typs.checkpoint
}

proof fn lemma_step_ok_trans(s: PassState, s1: PassState, s2: PassState, file: Seq<LocalCompInfo>)
    requires
        step_ok(s, s1, file),
        step_ok(s1, s2, file),
    ensures
        step_ok(s, s2, file),
{
    lemma_step_trans(s.status, s1.status, s2.status);
}

proof fn lemma_position_range(file: Seq<LocalCompInfo>, ckey: i64, i: int)
    requires
        0 <= i,
        position_from(file, ckey, i) is Some,
    ensures
        i <= position_from(file, ckey, i)->Some_0 < file.len(),
    decreases file.len() - i,
{
    if i < file.len() && file[i].ckey != ckey {
        lemma_position_range(file, ckey, i + 1);
    }
}

/// Interning a type record is a step of a pass.
proof fn lemma_typs_step(s: PassState, file: Seq<LocalCompInfo>, tags: Seq<Seq<char>>, args: Seq<i64>)
    requires
        pass_ok(s, file),
        tags.len() >= 1,
        comma_free(tags),
    ensures
        ({
            let (ty, r) = spec_intern(s.typs, tags, args);
            &&& step_ok(s, PassState { typs: ty, ..s }, file)
            &&& (r matches Ok(k) ==> ty.entries.contains_key(k as int) && ty.entries[k as int].tags
                == tags && ty.entries[k as int].args == args)
        }),
{
    lemma_intern_types(s.typs, tags, args);
    let (ty, r) = spec_intern(s.typs, tags, args);
    let s1 = PassState { typs: ty, ..s };
    lemma_step_refl(s.status);
    lemma_status_carry(s, s1, file);
}

proof fn lemma_type_index_full(s: PassState, file: Seq<LocalCompInfo>, inc: Seq<(i64, i64)>, t: LocalType)
    requires
        pass_ok(s, file),
        names_ok(file),
        types_ok(file),
        type_tags_ok(t),
    ensures
        step_ok(s, spec_type_index(s, file, inc, t).0, file),
        spec_type_index(s, file, inc, t).1 matches Ok(ix) ==> type_at(
            spec_type_index(s, file, inc, t).0.typs,
            ix as int,
            t,
            file,
            keys_of(spec_type_index(s, file, inc, t).0.status),
        ),
    decreases count_unvisited(s.status), type_size(t),
{
    match t {
        LocalType::Base { tags, args } => {
            lemma_typs_step(s, file, views_of(tags@), args@);
        },
        LocalType::Ptr(b) => {
            lemma_type_index_full(s, file, inc, *b);
            let (s1, r) = spec_type_index(s, file, inc, *b);
            if let Ok(ti) = r {
                lemma_literal_tags();
                lemma_typs_step(s1, file, seq!["tptr"@], seq![ti]);
                let (ty, r2) = spec_intern(s1.typs, seq!["tptr"@], seq![ti]);
                let s2 = PassState { typs: ty, ..s1 };
                lemma_step_ok_trans(s, s1, s2, file);
                lemma_type_at_carry(s1.typs, ty, ti as int, *b, file, keys_of(s1.status), keys_of(s2.status));
            }
        },
        LocalType::Array(b, size) => {
            lemma_type_index_full(s, file, inc, *b);
            let (s1, r) = spec_type_index(s, file, inc, *b);
            if let Ok(ti) = r {
                lemma_literal_tags();
                lemma_typs_step(s1, file, seq!["tarray"@], seq![ti, size]);
                let (ty, r2) = spec_intern(s1.typs, seq!["tarray"@], seq![ti, size]);
                let s2 = PassState { typs: ty, ..s1 };
                lemma_step_ok_trans(s, s1, s2, file);
                lemma_type_at_carry(s1.typs, ty, ti as int, *b, file, keys_of(s1.status), keys_of(s2.status));
            }
        },
        LocalType::Comp(ckey) => {
            if let Some(p) = position_from(file, ckey, 0) {
                lemma_position_range(file, ckey, 0);
                lemma_comp_key_full(s, file, inc, p);
                let (s1, r) = spec_comp_key(s, file, inc, p);
                if let Ok(g) = r {
                    lemma_literal_tags();
                    lemma_typs_step(s1, file, seq!["tcomp"@], seq![g]);
                    let (ty, r2) = spec_intern(s1.typs, seq!["tcomp"@], seq![g]);
                    let s2 = PassState { typs: ty, ..s1 };
                    lemma_step_ok_trans(s, s1, s2, file);
                    assert(keys_of(s2.status)[p] == key_of(s2.status[p]));
                }
            }
        },
    }
}

proof fn lemma_fields_full(
    s: PassState,
    file: Seq<LocalCompInfo>,
    inc: Seq<(i64, i64)>,
    fields: Seq<LocalField>,
    j: int,
)
    requires
        pass_ok(s, file),
        names_ok(file),
        types_ok(file),
        0 <= j <= fields.len(),
        forall|k: int| 0 <= k < fields.len() ==> type_tags_ok(#[trigger] fields[k].ftype),
    ensures
        step_ok(s, spec_fields(s, file, inc, fields, j).0, file),
        spec_fields(s, file, inc, fields, j).1 matches Ok(v) ==> v.len() == fields.len() - j && forall|k: int|
            0 <= k < v.len() ==> type_at(
                spec_fields(s, file, inc, fields, j).0.typs,
                #[trigger] v[k] as int,
                fields[j + k].ftype,
                file,
                keys_of(spec_fields(s, file, inc, fields, j).0.status),
            ),
    decreases count_unvisited(s.status), fields_size(fields, j),
{
    if j >= fields.len() {
        lemma_step_refl(s.status);
    } else {
        lemma_type_index_full(s, file, inc, fields[j].ftype);
        let (s1, r) = spec_type_index(s, file, inc, fields[j].ftype);
        if let Ok(ti) = r {
            if count_unvisited(s1.status) <= count_unvisited(s.status) {
                lemma_fields_full(s1, file, inc, fields, j + 1);
                let (s2, rest) = spec_fields(s1, file, inc, fields, j + 1);
                lemma_step_ok_trans(s, s1, s2, file);
                if let Ok(tis) = rest {
                    let v = seq![ti] + tis;
                    lemma_type_at_carry(s1.typs, s2.typs, ti as int, fields[j].ftype, file, keys_of(s1.status), keys_of(s2.status));
                    assert forall|k: int| 0 <= k < v.len() implies type_at(
                        s2.typs,
                        #[trigger] v[k] as int,
                        fields[j + k].ftype,
                        file,
                        keys_of(s2.status),
                    ) by {
                        if k > 0 {
                            assert(v[k] == tis[k - 1]);
                            assert(fields[j + k] == fields[(j + 1) + (k - 1)]);
                        }
                    }
                }
            }
        }
    }
}

proof fn lemma_step_finish(a: Seq<KeyStatus>, b: Seq<KeyStatus>, c: Seq<KeyStatus>, i: int)
    requires
        status_step(a, b),
        0 <= i < a.len(),
        a[i] is Unvisited,
        extends(keys_of(b), keys_of(c)),
        c.len() == b.len(),
        forall|k: int| 0 <= k < b.len() && k != i ==> #[trigger] c[k] == b[k],
        !(c[i] is Unvisited),
    ensures
        status_step(a, c),
{
    assert forall|p: int| 0 <= p < a.len() && (#[trigger] keys_of(a)[p]) is Some implies keys_of(c)[p]
        == keys_of(a)[p] by {
        assert(keys_of(b)[p] == keys_of(a)[p]);
    }
}

proof fn lemma_comp_key_full(s: PassState, file: Seq<LocalCompInfo>, inc: Seq<(i64, i64)>, i: int)
    requires
        pass_ok(s, file),
        names_ok(file),
        types_ok(file),
    ensures
        step_ok(s, spec_comp_key(s, file, inc, i).0, file),
        spec_comp_key(s, file, inc, i).1 matches Ok(g) ==> (0 <= i < file.len() ==> key_of(
            spec_comp_key(s, file, inc, i).0.status[i],
        ) == Some(g)),
    decreases count_unvisited(s.status), 0nat,
{
    lemma_step_refl(s.status);
    if 0 <= i < s.status.len() && s.status.len() == file.len() {
        match s.status[i] {
            KeyStatus::Pending => {
                match candidate_from(s.comps, file[i], inc, 1) {
                    Some(g) => {
                        let s2 = PassState { status: s.status.update(i, KeyStatus::Conjectured(g as i64)), ..s };
                        lemma_step_update(s.status, i, KeyStatus::Conjectured(g as i64));
                        lemma_status_carry(s, s2, file);
                        assert(reserved_ok(s2)) by {
                            assert forall|r: int| #[trigger] s2.comps.reserved.contains(r) implies exists|k: int|
                                0 <= k < s2.status.len() && s2.status[k] == KeyStatus::Reserved(r as i64) by {
                                let k = choose|k: int| 0 <= k < s.status.len() && s.status[k] == KeyStatus::Reserved(r as i64);
                                assert(s2.status[k] == s.status[k]);
                            }
                        }
                    },
                    None => {
                        if s.comps.next < i64::MAX {
                            let g = s.comps.next as i64;
                            let s2 = PassState {
                                comps: s.comps.with_reservation(),
                                status: s.status.update(i, KeyStatus::Reserved(g)),
                                ..s
                            };
                            lemma_step_update(s.status, i, KeyStatus::Reserved(g));
                            lemma_status_carry(s, s2, file);
                            assert(reserved_ok(s2)) by {
                                assert forall|r: int| #[trigger] s2.comps.reserved.contains(r) implies exists|k: int|
                                    0 <= k < s2.status.len() && s2.status[k] == KeyStatus::Reserved(r as i64) by {
                                    if r == s.comps.next {
                                        assert(s2.status[i] == KeyStatus::Reserved(r as i64));
                                    } else {
                                        let k = choose|k: int| 0 <= k < s.status.len() && s.status[k] == KeyStatus::Reserved(r as i64);
                                        assert(s2.status[k] == s.status[k]);
                                    }
                                }
                            }
                        }
                    },
                }
            },
            KeyStatus::Unvisited => {
                let s1 = PassState { status: s.status.update(i, KeyStatus::Pending), ..s };
                lemma_step_update(s.status, i, KeyStatus::Pending);
                lemma_status_carry(s, s1, file);
                assert(reserved_ok(s1)) by {
                    assert forall|r: int| #[trigger] s1.comps.reserved.contains(r) implies exists|k: int|
                        0 <= k < s1.status.len() && s1.status[k] == KeyStatus::Reserved(r as i64) by {
                        let k = choose|k: int| 0 <= k < s.status.len() && s.status[k] == KeyStatus::Reserved(r as i64);
                        assert(s1.status[k] == s.status[k]);
                    }
                }
                assert(step_ok(s, s1, file));
                if count_unvisited(s1.status) < count_unvisited(s.status) {
                    assert(comp_types_ok(file[i]));
                    lemma_fields_full(s1, file, inc, file[i].fields@, 0);
                    let (s2, rf) = spec_fields(s1, file, inc, file[i].fields@, 0);
                    lemma_step_ok_trans(s, s1, s2, file);
                    if let Ok(ftypes) = rf {
                        assert(!(s2.status[i] is Committed) && !(s2.status[i] is Unvisited));
                        lemma_finish_full(s2, file, i, ftypes);
                        let (s3, r3) = spec_finish(s2, file[i], i, ftypes);
                        lemma_step_finish(s.status, s2.status, s3.status, i);
                        assert(grows(s.comps, s3.comps)) by {
                            assert forall|x: int| #[trigger] s.comps.entries.contains_key(x) implies s3.comps.entries.contains_key(x)
                                && s3.comps.entries[x] == s.comps.entries[x] by {
                                assert(s2.comps.entries.contains_key(x));
                            }
                        }
                        assert(step_ok(s, s3, file));
                    }
                }
            },
            _ => {},
        }
    }
}

proof fn lemma_finish_full(s: PassState, file: Seq<LocalCompInfo>, i: int, ftypes: Seq<i64>)
    requires
        pass_ok(s, file),
        names_ok(file),
        0 <= i < file.len(),
        !(s.status[i] is Committed),
        !(s.status[i] is Unvisited),
        ftypes.len() == file[i].fields.len(),
        forall|k: int|
            0 <= k < ftypes.len() ==> type_at(
                s.typs,
                #[trigger] ftypes[k] as int,
                file[i].fields@[k].ftype,
                file,
                keys_of(s.status),
            ),
    ensures
        ({
            let (s2, r) = spec_finish(s, file[i], i, ftypes);
            &&& pass_ok(s2, file)
            &&& grows(s.comps, s2.comps)
            &&& s2.typs == s.typs
            &&& extends(keys_of(s.status), keys_of(s2.status))
            &&& s2.status.len() == s.status.len()
            &&& forall|k: int| 0 <= k < s.status.len() && k != i ==> #[trigger] s2.status[k] == s.status[k]
            &&& !(s2.status[i] is Unvisited)
            &&& s2.comps.checkpoint == s.comps.checkpoint
            &&& (r matches Ok(g) ==> s2.status[i] == KeyStatus::Committed(g))
        }),
{
    let comp = file[i];
    let tags = comp_tags(comp);
    let args = seq![struct_flag(comp)] + ftypes;
    lemma_comp_tags_len(comp);
    assert(comma_free(tags));
    lemma_step_refl(s.status);
    let (s2, r) = spec_finish(s, comp, i, ftypes);
    match s.status[i] {
        KeyStatus::Reserved(g) => {
            if s.comps.reserved.contains(g as int) {
                let rec = RecordView { index: g as int, tags, args };
                let c2 = s.comps.committed(g as int, record_key(tags, args), rec);
                assert(!s.comps.entries.contains_key(g as int));
                assert(grows(s.comps, c2));
                assert(well_keyed(c2)) by {
                    assert forall|k2| #[trigger] c2.keys.contains_key(k2) implies c2.entries.contains_key(
                        c2.keys[k2],
                    ) && record_key(c2.entries[c2.keys[k2]].tags, c2.entries[c2.keys[k2]].args) == k2 by {
                        if k2 != record_key(tags, args) {
                            assert(s.comps.keys.contains_key(k2));
                            assert(s.comps.entries.contains_key(s.comps.keys[k2]));
                        }
                    }
                }
                lemma_step_update(s.status, i, KeyStatus::Committed(g));
                assert(keys_of(s2.status) =~= keys_of(s.status)) by {
                    assert forall|p: int| 0 <= p < s.status.len() implies keys_of(s2.status)[p] == keys_of(s.status)[p] by {
                        if p != i {
                            assert(s2.status[p] == s.status[p]);
                        }
                    }
                }
                assert(record_of(c2, s.typs, g, comp, file, keys_of(s2.status))) by {
                    assert forall|j: int| 0 <= j < comp.fields.len() implies type_at(
                        s.typs,
                        c2.entries[g as int].args[j + 1] as int,
                        (#[trigger] comp.fields@[j]).ftype,
                        file,
                        keys_of(s2.status),
                    ) by {
                        assert(c2.entries[g as int].args[j + 1] == ftypes[j]);
                    }
                }
                lemma_status_carry(s, s2, file);
                assert(reserved_ok(s2)) by {
                    assert forall|r: int| #[trigger] s2.comps.reserved.contains(r) implies exists|k: int|
                        0 <= k < s2.status.len() && s2.status[k] == KeyStatus::Reserved(r as i64) by {
                        let k = choose|k: int| 0 <= k < s.status.len() && s.status[k] == KeyStatus::Reserved(r as i64);
                        assert(s.comps.reserved.contains(r));
                        if k == i {
                            assert(r as i64 == g);
                            assert(r == g as int);
                        }
                        assert(s2.status[k] == s.status[k]);
                    }
                }
            }
        },
        KeyStatus::Conjectured(g) => {
            lemma_intern_comps(s.comps, tags, args);
            let (c2, rr) = spec_intern(s.comps, tags, args);
            assert(c2.reserved == s.comps.reserved && c2.checkpoint == s.comps.checkpoint);
            let s1 = PassState { comps: c2, ..s };
            lemma_status_carry(s, s1, file);
            if let Ok(k) = rr {
                if k == g {
                    lemma_step_update(s.status, i, KeyStatus::Committed(g));
                    assert(keys_of(s2.status) =~= keys_of(s.status)) by {
                        assert forall|p: int| 0 <= p < s.status.len() implies keys_of(s2.status)[p] == keys_of(s.status)[p] by {
                            if p != i {
                                assert(s2.status[p] == s.status[p]);
                            }
                        }
                    }
                    assert(record_of(c2, s.typs, g, comp, file, keys_of(s2.status))) by {
                        assert forall|j: int| 0 <= j < comp.fields.len() implies type_at(
                            s.typs,
                            c2.entries[g as int].args[j + 1] as int,
                            (#[trigger] comp.fields@[j]).ftype,
                            file,
                            keys_of(s2.status),
                        ) by {
                            assert(c2.entries[g as int].args[j + 1] == ftypes[j]);
                        }
                    }
                    lemma_status_carry(s, s2, file);
                }
            }
            assert(reserved_ok(s2)) by {
                assert forall|r: int| #[trigger] s2.comps.reserved.contains(r) implies exists|k: int|
                    0 <= k < s2.status.len() && s2.status[k] == KeyStatus::Reserved(r as i64) by {
                    let k = choose|k: int| 0 <= k < s.status.len() && s.status[k] == KeyStatus::Reserved(r as i64);
                    assert(k != i);
                    assert(s2.status[k] == s.status[k]);
                }
            }
        },
        _ => {
            lemma_intern_comps(s.comps, tags, args);
            let (c2, rr) = spec_intern(s.comps, tags, args);
            assert(c2.reserved == s.comps.reserved && c2.checkpoint == s.comps.checkpoint);
            let s1 = PassState { comps: c2, ..s };
            lemma_status_carry(s, s1, file);
            if let Ok(k) = rr {
                lemma_step_update(s.status, i, KeyStatus::Committed(k));
                assert(record_of(c2, s.typs, k, comp, file, keys_of(s2.status))) by {
                    assert forall|j: int| 0 <= j < comp.fields.len() implies type_at(
                        s.typs,
                        c2.entries[k as int].args[j + 1] as int,
                        (#[trigger] comp.fields@[j]).ftype,
                        file,
                        keys_of(s2.status),
                    ) by {
                        assert(c2.entries[k as int].args[j + 1] == ftypes[j]);
                        lemma_type_at_carry(s.typs, s.typs, ftypes[j] as int, comp.fields@[j].ftype, file, keys_of(s.status), keys_of(s2.status));
                    }
                }
                lemma_status_carry(s, s2, file);
            }
            assert(reserved_ok(s2)) by {
                assert forall|r: int| #[trigger] s2.comps.reserved.contains(r) implies exists|k: int|
                    0 <= k < s2.status.len() && s2.status[k] == KeyStatus::Reserved(r as i64) by {
                    let k = choose|k: int| 0 <= k < s.status.len() && s.status[k] == KeyStatus::Reserved(r as i64);
                    assert(k != i);
                    assert(s2.status[k] == s.status[k]);
                }
            }
        },
    }
}


proof fn lemma_pass_full(s: PassState, file: Seq<LocalCompInfo>, inc: Seq<(i64, i64)>, i: int)
    requires
        pass_ok(s, file),
        names_ok(file),
        types_ok(file),
    ensures
        step_ok(s, spec_pass(s, file, inc, i).0, file),
    decreases file.len() - i,
{
    lemma_step_refl(s.status);
    if 0 <= i < file.len() && i < s.status.len() {
        if s.status[i] is Unvisited {
            lemma_comp_key_full(s, file, inc, i);
            let (s1, r) = spec_comp_key(s, file, inc, i);
            if r is Ok {
                lemma_pass_full(s1, file, inc, i + 1);
                lemma_step_ok_trans(s, s1, spec_pass(s1, file, inc, i + 1).0, file);
            }
        } else {
            lemma_pass_full(s, file, inc, i + 1);
        }
    }
}

proof fn lemma_restart_types(t: TableView)
    requires
        t.inv(),
        t.next <= i64::MAX,
        well_keyed_types(t),
    ensures
        spec_restart(t) matches Some(r) ==> r.inv() && r.next <= i64::MAX && well_keyed_types(r)
            && r.checkpoint is Some,
        spec_abandon(t).inv(),
        spec_abandon(t).next <= i64::MAX,
        well_keyed_types(spec_abandon(t)),
        t.checkpoint is Some ==> spec_abandon(t).checkpoint is None,
{
    if let Some(c) = t.checkpoint {
        let r = t.rolled_back(c);
        assert forall|k| #[trigger] r.keys.contains_key(k) implies r.entries.contains_key(r.keys[k])
            && record_key(r.entries[r.keys[k]].tags, r.entries[r.keys[k]].args) == k by {
            assert(t.entries.contains_key(t.keys[k]));
        }
    }
}

/// Every key given.
pub open spec fn known(keys: Seq<i64>) -> Seq<Option<i64>> {
    keys.map_values(|k: i64| Some(k))
}

/// Each key of `keys` holds the record of the struct at the same position,
/// with nested structs given by their keys in `keys`.
pub open spec fn records_ok(
    comps: TableView,
    typs: TableView,
    file: Seq<LocalCompInfo>,
    keys: Seq<i64>,
) -> bool {
    &&& keys.len() == file.len()
    &&& forall|i: int|
        0 <= i < file.len() ==> #[trigger] record_of(
            comps,
            typs,
            keys[i],
            file[i],
            file,
            known(keys),
        )
}

proof fn lemma_attempts_full(
    comps: TableView,
    typs: TableView,
    file: Seq<LocalCompInfo>,
    inc: Seq<(i64, i64)>,
    fuel: nat,
)
    requires
        comps.inv(),
        comps.next <= i64::MAX,
        well_keyed(comps),
        comps.reserved.is_empty(),
        comps.checkpoint is Some,
        typs.inv(),
        typs.next <= i64::MAX,
        well_keyed_types(typs),
        typs.checkpoint is Some,
        names_ok(file),
        types_ok(file),
    ensures
        ({
            let (c, t, r) = spec_attempts(comps, typs, file, inc, fuel);
            &&& c.inv()
            &&& c.next <= i64::MAX
            &&& well_keyed(c)
            &&& c.checkpoint is Some
            &&& t.inv()
            &&& t.next <= i64::MAX
            &&& well_keyed_types(t)
            &&& t.checkpoint is Some
            &&& (r matches Ok(keys) ==> records_ok(c, t, file, keys) && c.reserved.is_empty())
        }),
    decreases fuel,
{
    let s0 = pstate(comps, typs, unvisited_all(file.len()));
    assert(full_status_ok(s0, file));
    assert(reserved_ok(s0));
    lemma_pass_full(s0, file, inc, 0);
    let (s1, r) = spec_pass(s0, file, inc, 0);
    match r {
        Ok(_) => {
            if first_uncommitted(s1.status, 0) is None {
                lemma_all_committed(s1.status, 0);
                let keys = s1.status.map_values(|k: KeyStatus| k->Committed_0);
                assert(keys_of(s1.status) =~= known(keys)) by {
                    assert forall|p: int| 0 <= p < keys.len() implies keys_of(s1.status)[p] == keys.map_values(
                        |k: i64| Some(k),
                    )[p] by {
                        assert(s1.status[p] is Committed);
                    }
                }
                assert forall|i: int| 0 <= i < file.len() implies #[trigger] record_of(
                    s1.comps,
                    s1.typs,
                    keys[i],
                    file[i],
                    file,
                    known(keys),
                ) by {
                    assert(s1.status[i] is Committed);
                }
                assert(s1.comps.reserved =~= Set::<int>::empty()) by {
                    assert forall|x: int| !s1.comps.reserved.contains(x) by {
                        if s1.comps.reserved.contains(x) {
                            let k = choose|k: int| 0 <= k < s1.status.len() && s1.status[k] == KeyStatus::Reserved(x as i64);
                            assert(s1.status[k] is Committed);
                        }
                    }
                }
            }
        },
        Err(PassError::Conflict { ckey, gckey }) => {
            if !(fuel == 0 || inc.contains((ckey, gckey))) {
                lemma_restart_good(s1.comps);
                lemma_restart_types(s1.typs);
                match (spec_restart(s1.comps), spec_restart(s1.typs)) {
                    (Some(c), Some(t)) => {
                        lemma_attempts_full(c, t, file, inc.push((ckey, gckey)), (fuel - 1) as nat);
                    },
                    _ => {},
                }
            }
        },
        _ => {},
    }
}

/// The goal of linking a file: when it succeeds, each struct's global key
/// holds exactly that struct's record (its name and field names, its kind,
/// and for each field the global index of a type record that is the
/// field's type with every nested struct given by that struct's global
/// key), and no index of the struct table is left reserved. Linking, failed
/// or not, keeps the global tables consistent.
pub proof fn lemma_link_goal(g: GlobalView, fid: i64, file: Seq<LocalCompInfo>)
    requires
        globals_ok(g),
    ensures
        globals_ok(spec_link_file(g, fid, file).0),
        spec_link_file(g, fid, file).1 matches Ok(keys) ==> records_ok(
            spec_link_file(g, fid, file).0.comps,
            spec_link_file(g, fid, file).0.typs,
            file,
            keys,
        ) && spec_link_file(g, fid, file).0.comps.reserved.is_empty(),
{
    if duplicate_from(file, 0) is None && bad_name_from(file, 0) is None {
        lemma_names_ok(file, 0);
        let c0 = g.comps.checkpointed();
        let t0 = g.typs.checkpointed();
        let fuel = restart_limit(file.len(), g.comps.next);
        lemma_attempts_full(c0, t0, file, Seq::empty(), fuel);
        let (c1, t1, r) = spec_attempts(c0, t0, file, Seq::empty(), fuel);
        lemma_restart_good(c1);
        lemma_restart_types(t1);
        if let Ok(keys) = r {
            let c2 = TableView { checkpoint: None, ..c1 };
            let t2 = TableView { checkpoint: None, ..t1 };
            assert forall|i: int| 0 <= i < file.len() implies #[trigger] record_of(
                c2,
                t2,
                keys[i],
                file[i],
                file,
                known(keys),
            ) by {
                assert(record_of(c1, t1, keys[i], file[i], file, known(keys)));
                lemma_record_carry(
                    c1,
                    t1,
                    c2,
                    t2,
                    keys[i],
                    file[i],
                    file,
                    known(keys),
                    known(keys),
                );
            }
        }
    }
}

} // verus!
