use vstd::prelude::*;

use crate::error::ChcError;
use crate::pair_map::PairMap;

verus! {

/// A variable of one file: the file's index and the variable's index in it.
#[derive(Clone, Copy, Debug, PartialEq, Eq, Structural)]
pub struct FileVarReference {
    pub fid: i64,
    pub vid: i64,
}

impl FileVarReference {
    pub fn new(fid: i64, vid: i64) -> (r: Self)
        ensures
            r.fid == fid && r.vid == vid,
    {
        FileVarReference { fid, vid }
    }

    pub fn tuple(&self) -> (r: (i64, i64))
        ensures
            r == (self.fid, self.vid),
    {
        (self.fid, self.vid)
    }
}

/// A struct definition of one file: the file's index and the struct's key in it.
#[derive(Clone, Copy, Debug, PartialEq, Eq, Structural)]
pub struct FileKeyReference {
    pub fid: i64,
    pub ckey: i64,
}

impl FileKeyReference {
    pub fn new(fid: i64, ckey: i64) -> (r: Self)
        ensures
            r.fid == fid && r.ckey == ckey,
    {
        FileKeyReference { fid, ckey }
    }
}

/// A variable that is either global (no file) or local to a file.
#[derive(Clone, Copy, Debug, PartialEq, Eq, Structural)]
pub struct VarReference {
    pub fid: Option<i64>,
    pub vid: i64,
}

impl VarReference {
    pub fn new(fid: Option<i64>, vid: i64) -> (r: Self)
        ensures
            r.fid == fid && r.vid == vid,
    {
        VarReference { fid, vid }
    }

    pub fn is_global(&self) -> (r: bool)
        ensures
            r == self.fid is None,
    {
        self.fid.is_none()
    }
}

/// A struct key that is either global (no file) or local to a file.
#[derive(Clone, Copy, Debug, PartialEq, Eq, Structural)]
pub struct CKeyReference {
    pub fid: Option<i64>,
    pub ckey: i64,
}

impl CKeyReference {
    pub fn new(fid: Option<i64>, ckey: i64) -> (r: Self)
        ensures
            r.fid == fid && r.ckey == ckey,
    {
        CKeyReference { fid, ckey }
    }

    pub fn is_global(&self) -> (r: bool)
        ensures
            r == self.fid is None,
    {
        self.fid.is_none()
    }
}

/// The content of an index manager.
pub struct IndexManagerView {
    pub single_file: bool,
    /// (fid, vid) -> gvid
    pub vid2gvid: Map<(i64, i64), i64>,
    /// (gvid, fid) -> vid
    pub gvid2vid: Map<(i64, i64), i64>,
    /// gvid -> the file that defines it
    pub gviddefs: Map<i64, i64>,
    /// fid -> the largest vid recorded for the file
    pub fidvidmax: Map<i64, i64>,
    /// (fid, ckey) -> gckey
    pub ckey2gckey: Map<(i64, i64), i64>,
    /// (gckey, fid) -> ckey
    pub gckey2ckey: Map<(i64, i64), i64>,
}

impl IndexManagerView {
    /// The defining file of every global id holds a reference to it.
    pub open spec fn inv(self) -> bool {
        forall|g: i64| #[trigger]
            self.gviddefs.contains_key(g) ==> self.gvid2vid.contains_key((g, self.gviddefs[g]))
    }

    /// Where the variable `(fid, vid)` is defined, if every link of the chain is there.
    pub open spec fn resolved(self, fv: FileVarReference) -> Option<FileVarReference> {
        if self.single_file {
            Some(fv)
        } else if !self.vid2gvid.contains_key((fv.fid, fv.vid)) {
            None
        } else {
            let g = self.vid2gvid[(fv.fid, fv.vid)];
            if !self.gviddefs.contains_key(g) {
                None
            } else {
                let d = self.gviddefs[g];
                if !self.gvid2vid.contains_key((g, d)) {
                    None
                } else {
                    Some(FileVarReference { fid: d, vid: self.gvid2vid[(g, d)] })
                }
            }
        }
    }
}

spec fn keyed_by_first(m: Map<(i64, i64), i64>) -> Map<i64, i64> {
    Map::new(|k: i64| m.contains_key((k, 0)), |k: i64| m[(k, 0)])
}

/// Program-wide bookkeeping of which local variables and structs stand for
/// which global ones.
pub struct IndexManager {
    is_single_file: bool,
    vid2gvid: PairMap,
    gvid2vid: PairMap,
    fidvidmax: PairMap,
    ckey2gckey: PairMap,
    gckey2ckey: PairMap,
    gviddefs: PairMap,
}

impl View for IndexManager {
    type V = IndexManagerView;

    closed spec fn view(&self) -> IndexManagerView {
        IndexManagerView {
            single_file: self.is_single_file,
            vid2gvid: self.vid2gvid@,
            gvid2vid: self.gvid2vid@,
            gviddefs: keyed_by_first(self.gviddefs@),
            fidvidmax: keyed_by_first(self.fidvidmax@),
            ckey2gckey: self.ckey2gckey@,
            gckey2ckey: self.gckey2ckey@,
        }
    }
}

impl IndexManager {
    pub closed spec fn wf(&self) -> bool {
        &&& self.vid2gvid.wf()
        &&& self.gvid2vid.wf()
        &&& self.fidvidmax.wf()
        &&& self.ckey2gckey.wf()
        &&& self.gckey2ckey.wf()
        &&& self.gviddefs.wf()
        &&& self@.inv()
    }

    pub fn new(is_single_file: bool) -> (r: Self)
        ensures
            r.wf(),
            r@.single_file == is_single_file,
            r@.vid2gvid.is_empty(),
            r@.gvid2vid.is_empty(),
            r@.gviddefs.is_empty(),
            r@.fidvidmax.is_empty(),
            r@.ckey2gckey.is_empty(),
            r@.gckey2ckey.is_empty(),
    {
        let r = IndexManager {
            is_single_file,
            vid2gvid: PairMap::new(),
            gvid2vid: PairMap::new(),
            fidvidmax: PairMap::new(),
            ckey2gckey: PairMap::new(),
            gckey2ckey: PairMap::new(),
            gviddefs: PairMap::new(),
        };
        assert(r@.gviddefs =~= Map::empty());
        assert(r@.fidvidmax =~= Map::empty());
        r
    }

    pub fn is_single_file(&self) -> (r: bool)
        ensures
            r == self@.single_file,
    {
        self.is_single_file
    }

    /// Records that variable `vid` of file `fid` stands for the global `gvid`.
    pub fn add_var_reference(&mut self, fid: i64, vid: i64, gvid: i64)
        requires
            old(self).wf(),
        ensures
            final(self).wf(),
            final(self)@ == (IndexManagerView {
                vid2gvid: old(self)@.vid2gvid.insert((fid, vid), gvid),
                gvid2vid: old(self)@.gvid2vid.insert((gvid, fid), vid),
                fidvidmax: old(self)@.fidvidmax.insert(
                    fid,
                    if old(self)@.fidvidmax.contains_key(fid) && old(self)@.fidvidmax[fid] > vid {
                        old(self)@.fidvidmax[fid]
                    } else {
                        vid
                    },
                ),
                ..old(self)@
            }),
    {
        self.vid2gvid.insert(fid, vid, gvid);
        self.gvid2vid.insert(gvid, fid, vid);
        let m = match self.fidvidmax.get(fid, 0) {
            Some(m) if m > vid => m,
            _ => vid,
        };
        self.fidvidmax.insert(fid, 0, m);
        assert(self@.fidvidmax =~= old(self)@.fidvidmax.insert(fid, m));
        assert(self@.gviddefs =~= old(self)@.gviddefs);
    }

    /// Records that file `fid` defines the global variable `gvid`; the file
    /// must already hold a reference to it.
    pub fn set_var_definition(&mut self, gvid: i64, fid: i64) -> (r: Result<(), ChcError>)
        requires
            old(self).wf(),
        ensures
            final(self).wf(),
            old(self)@.gvid2vid.contains_key((gvid, fid)) ==> (r is Ok && final(self)@ == (
            IndexManagerView { gviddefs: old(self)@.gviddefs.insert(gvid, fid), ..old(self)@ })),
            !old(self)@.gvid2vid.contains_key((gvid, fid)) ==> (r matches Err(
                ChcError::UnreferencedDefinition { .. },
            ) && final(self)@ == old(self)@),
    {
        if self.gvid2vid.get(gvid, fid).is_none() {
            return Err(ChcError::UnreferencedDefinition { gvid, fid });
        }
        self.gviddefs.insert(gvid, 0, fid);
        assert(self@.gviddefs =~= old(self)@.gviddefs.insert(gvid, fid));
        Ok(())
    }

    /// Records that struct `ckey` of file `fid` stands for the global struct `gckey`.
    pub fn add_struct_reference(&mut self, fid: i64, ckey: i64, gckey: i64)
        requires
            old(self).wf(),
        ensures
            final(self).wf(),
            final(self)@ == (IndexManagerView {
                ckey2gckey: old(self)@.ckey2gckey.insert((fid, ckey), gckey),
                gckey2ckey: old(self)@.gckey2ckey.insert((gckey, fid), ckey),
                ..old(self)@
            }),
    {
        self.ckey2gckey.insert(fid, ckey, gckey);
        self.gckey2ckey.insert(gckey, fid, ckey);
        assert(self@.gviddefs =~= old(self)@.gviddefs);
        assert(self@.fidvidmax =~= old(self)@.fidvidmax);
    }

    /// The local reference of the definition of `(fid, vid)`: a variable may
    /// be declared in one file and defined in another. `None` where a link
    /// of the chain is missing; the input itself when there is one file.
    pub fn resolve_vid(&self, filevar: FileVarReference) -> (r: Option<FileVarReference>)
        requires
            self.wf(),
        ensures
            r == self@.resolved(filevar),
    {
        if self.is_single_file {
            return Some(filevar);
        }
        let gvid = match self.vid2gvid.get(filevar.fid, filevar.vid) {
            Some(g) => g,
            None => {
                return None;
            },
        };
        let deffid = match self.gviddefs.get(gvid, 0) {
            Some(d) => d,
            None => {
                return None;
            },
        };
        let defvid = match self.gvid2vid.get(gvid, deffid) {
            Some(v) => v,
            None => {
                return None;
            },
        };
        Some(FileVarReference::new(deffid, defvid))
    }

    /// The global id of the file variable.
    pub fn get_gvid(&self, varref: FileVarReference) -> (r: Option<i64>)
        requires
            self.wf(),
        ensures
            self@.single_file ==> r == Some(varref.vid),
            !self@.single_file ==> r == self@.vid2gvid.get((varref.fid, varref.vid)),
    {
        if self.is_single_file {
            return Some(varref.vid);
        }
        self.vid2gvid.get(varref.fid, varref.vid)
    }

    /// Every file variable that stands for the global `gvid`.
    pub fn get_gvid_references(&self, gvid: i64) -> (r: Vec<FileVarReference>)
        requires
            self.wf(),
        ensures
            forall|j: int|
                0 <= j < r.len() ==> self@.gvid2vid.contains_key((gvid, (#[trigger] r@[j]).fid))
                    && self@.gvid2vid[(gvid, r@[j].fid)] == r@[j].vid,
            forall|f: i64|
                #[trigger] self@.gvid2vid.contains_key((gvid, f)) ==> exists|j: int|
                    0 <= j < r.len() && r@[j].fid == f,
            forall|a: int, b: int| 0 <= a < b < r.len() ==> r@[a].fid != r@[b].fid,
    {
        let pairs = self.gvid2vid.with_first(gvid);
        let mut r: Vec<FileVarReference> = Vec::new();
        let mut i: usize = 0;
        while i < pairs.len()
            invariant
                i <= pairs.len(),
                r.len() == i,
                forall|j: int| 0 <= j < i ==> (#[trigger] r@[j]).fid == pairs@[j].0 && r@[j].vid == pairs@[j].1,
                forall|x: int, y: int| 0 <= x < y < pairs.len() ==> pairs@[x].0 != pairs@[y].0,
            decreases pairs.len() - i,
        {
            r.push(FileVarReference::new(pairs[i].0, pairs[i].1));
            i += 1;
        }
        assert forall|f: i64| #[trigger] self@.gvid2vid.contains_key((gvid, f)) implies exists|j: int|
            0 <= j < r.len() && r@[j].fid == f by {
            let j = choose|j: int| 0 <= j < pairs.len() && pairs@[j].0 == f;
            assert(r@[j].fid == f);
        }
        assert forall|a: int, b: int| 0 <= a < b < r.len() implies r@[a].fid != r@[b].fid by {
            assert(r@[a].fid == pairs@[a].0);
            assert(r@[b].fid == pairs@[b].0);
        }
        r
    }

    /// Every file variable, other than those of the variable's own file,
    /// that stands for the same global variable. Empty when there is one file.
    pub fn get_vid_references(&self, filevar: FileVarReference) -> (r: Vec<FileVarReference>)
        requires
            self.wf(),
        ensures
            self@.single_file || !self@.vid2gvid.contains_key((filevar.fid, filevar.vid)) ==> r.len()
                == 0,
            !self@.single_file && self@.vid2gvid.contains_key((filevar.fid, filevar.vid)) ==> ({
                let g = self@.vid2gvid[(filevar.fid, filevar.vid)];
                &&& forall|j: int|
                    0 <= j < r.len() ==> (#[trigger] r@[j]).fid != filevar.fid
                        && self@.gvid2vid.contains_key((g, r@[j].fid)) && self@.gvid2vid[(g, r@[j].fid)]
                        == r@[j].vid
                &&& forall|f: i64|
                    #[trigger] self@.gvid2vid.contains_key((g, f)) && f != filevar.fid ==> exists|
                        j: int,
                    | 0 <= j < r.len() && r@[j].fid == f
            }),
    {
        if self.is_single_file {
            return Vec::new();
        }
        let gvid = match self.vid2gvid.get(filevar.fid, filevar.vid) {
            Some(g) => g,
            None => {
                return Vec::new();
            },
        };
        let all = self.get_gvid_references(gvid);
        let mut r: Vec<FileVarReference> = Vec::new();
        let mut i: usize = 0;
        while i < all.len()
            invariant
                i <= all.len(),
                forall|j: int|
                    0 <= j < r.len() ==> (#[trigger] r@[j]).fid != filevar.fid
                        && self@.gvid2vid.contains_key((gvid, r@[j].fid)) && self@.gvid2vid[(gvid, r@[j].fid)]
                        == r@[j].vid,
                forall|k: int|
                    0 <= k < i && (#[trigger] all@[k]).fid != filevar.fid ==> exists|j: int|
                        0 <= j < r.len() && r@[j].fid == all@[k].fid,
                forall|j: int|
                    0 <= j < all.len() ==> self@.gvid2vid.contains_key((gvid, (#[trigger] all@[j]).fid))
                        && self@.gvid2vid[(gvid, all@[j].fid)] == all@[j].vid,
            decreases all.len() - i,
        {
            if all[i].fid != filevar.fid {
                let ghost before = r@;
                r.push(all[i]);
                assert forall|k: int|
                    0 <= k < i + 1 && (#[trigger] all@[k]).fid != filevar.fid implies exists|j: int|
                        0 <= j < r.len() && r@[j].fid == all@[k].fid by {
                    if k < i {
                        let j = choose|j: int| 0 <= j < before.len() && before[j].fid == all@[k].fid;
                        assert(r@[j] == before[j]);
                    } else {
                        assert(r@[r.len() - 1].fid == all@[k].fid);
                    }
                }
            }
            i += 1;
        }
        assert forall|f: i64| #[trigger] self@.gvid2vid.contains_key((gvid, f)) && f != filevar.fid implies exists|
            j: int,
        | 0 <= j < r.len() && r@[j].fid == f by {
            let k = choose|k: int| 0 <= k < all.len() && all@[k].fid == f;
            assert(all@[k].fid != filevar.fid);
        }
        r
    }

    /// Whether file `fid` holds a reference to the global `gvid`.
    pub fn has_gvid_reference(&self, gvid: i64, fid: i64) -> (r: bool)
        requires
            self.wf(),
        ensures
            r == self@.gvid2vid.contains_key((gvid, fid)),
    {
        self.gvid2vid.get(gvid, fid).is_some()
    }

    /// The vid that stands for the global `gvid` in file `fid`.
    pub fn get_gvid_reference(&self, gvid: i64, fid: i64) -> (r: Option<i64>)
        requires
            self.wf(),
        ensures
            r == self@.gvid2vid.get((gvid, fid)),
    {
        self.gvid2vid.get(gvid, fid)
    }

    /// The `(vid, gvid)` substitution of file `fid`.
    pub fn get_vid_gvid_subst(&self, fid: i64) -> (r: Vec<(i64, i64)>)
        requires
            self.wf(),
        ensures
            forall|j: int|
                0 <= j < r.len() ==> self@.vid2gvid.contains_key((fid, (#[trigger] r@[j]).0))
                    && self@.vid2gvid[(fid, r@[j].0)] == r@[j].1,
            forall|v: i64|
                #[trigger] self@.vid2gvid.contains_key((fid, v)) ==> exists|j: int|
                    0 <= j < r.len() && r@[j].0 == v,
    {
        self.vid2gvid.with_first(fid)
    }

    /// The `(gvid, vid)` pairs of file `fileindex`.
    pub fn get_fid_gvid_subset(&self, fileindex: i64) -> (r: Vec<(i64, i64)>)
        requires
            self.wf(),
        ensures
            forall|j: int|
                0 <= j < r.len() ==> self@.gvid2vid.contains_key(((#[trigger] r@[j]).0, fileindex))
                    && self@.gvid2vid[(r@[j].0, fileindex)] == r@[j].1,
            forall|g: i64|
                #[trigger] self@.gvid2vid.contains_key((g, fileindex)) ==> exists|j: int|
                    0 <= j < r.len() && r@[j].0 == g,
    {
        self.gvid2vid.with_second(fileindex)
    }

    /// The global struct key of struct `ckey` of file `fid`; the key itself
    /// when there is one file.
    pub fn get_gckey(&self, fid: i64, ckey: i64) -> (r: Option<i64>)
        requires
            self.wf(),
        ensures
            self@.single_file ==> r == Some(ckey),
            !self@.single_file ==> r == self@.ckey2gckey.get((fid, ckey)),
    {
        if self.is_single_file {
            return Some(ckey);
        }
        self.ckey2gckey.get(fid, ckey)
    }

    /// The largest vid recorded for file `fid`.
    pub fn get_fid_vid_max(&self, fid: i64) -> (r: Option<i64>)
        requires
            self.wf(),
        ensures
            r == self@.fidvidmax.get(fid),
    {
        self.fidvidmax.get(fid, 0)
    }
}

} // verus!
