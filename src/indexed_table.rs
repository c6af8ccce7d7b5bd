use vstd::prelude::*;

use crate::error::{is_not_found, ChcError};
use crate::text::{decimals_of, join_commas, join_integers, join_strings, views_of};

verus! {

/// The dedup key of a record: its tags joined by commas and its arguments'
/// decimal text joined by commas.
pub open spec fn record_key(tags: Seq<Seq<char>>, args: Seq<i64>) -> (Seq<char>, Seq<char>) {
    (join_commas(tags), join_commas(decimals_of(args)))
}

/// The mathematical content of a tagged record.
pub struct RecordView {
    pub index: int,
    pub tags: Seq<Seq<char>>,
    pub args: Seq<i64>,
}

/// A tagged record: the universal representation of an interned entity.
#[derive(Clone, Debug)]
pub struct IndexedTableValue {
    index: i64,
    tags: Vec<String>,
    args: Vec<i64>,
}

impl View for IndexedTableValue {
    type V = RecordView;

    closed spec fn view(&self) -> RecordView {
        RecordView { index: self.index as int, tags: views_of(self.tags@), args: self.args@ }
    }
}

impl IndexedTableValue {
    pub fn new(index: i64, tags: Vec<String>, args: Vec<i64>) -> (r: Self)
        ensures
            r@ == (RecordView { index: index as int, tags: views_of(tags@), args: args@ }),
    {
        IndexedTableValue { index, tags, args }
    }

    pub fn index(&self) -> (r: i64)
        ensures
            r == self@.index,
    {
        self.index
    }

    pub fn tags(&self) -> (r: &Vec<String>)
        ensures
            views_of(r@) == self@.tags,
    {
        &self.tags
    }

    pub fn args(&self) -> (r: &Vec<i64>)
        ensures
            r@ == self@.args,
    {
        &self.args
    }

    /// A copy with the same content.
    pub fn duplicate(&self) -> (r: Self)
        ensures
            r@ == self@,
    {
        let tags = self.tags.clone();
        let args = self.args.clone();
        assert(tags@ =~= self.tags@);
        assert(args@ =~= self.args@);
        IndexedTableValue { index: self.index, tags, args }
    }

    /// Checks that the record has exactly the given numbers of tags and arguments.
    pub fn check_key(&self, reqtagcount: usize, reqargcount: usize) -> (r: Result<(), ChcError>)
        ensures
            r is Ok <==> self@.tags.len() == reqtagcount && self@.args.len() == reqargcount,
            r matches Err(e) ==> e matches ChcError::ShapeMismatch {
                expected_tags: et,
                expected_args: ea,
                actual_tags: at,
                actual_args: aa,
                ..
            } && et == reqtagcount && ea == reqargcount && at == self@.tags.len() && aa
                == self@.args.len(),
    {
        if self.tags.len() == reqtagcount && self.args.len() == reqargcount {
            Ok(())
        } else {
            let tag = if self.tags.len() > 0 {
                self.tags[0].clone()
            } else {
                String::new()
            };
            Err(
                ChcError::ShapeMismatch {
                    tag,
                    expected_tags: reqtagcount,
                    expected_args: reqargcount,
                    actual_tags: self.tags.len(),
                    actual_args: self.args.len(),
                },
            )
        }
    }

    /// The record's dedup key.
    pub fn key(&self) -> (r: (String, String))
        ensures
            (r.0@, r.1@) == record_key(self@.tags, self@.args),
    {
        (join_strings(&self.tags), join_integers(&self.args))
    }
}

/// One entry of the key map.
struct KeyEntry {
    tagkey: String,
    argkey: String,
    index: i64,
}

spec fn entry_key(e: KeyEntry) -> (Seq<char>, Seq<char>) {
    (e.tagkey@, e.argkey@)
}

spec fn keymap(s: Seq<KeyEntry>) -> Map<(Seq<char>, Seq<char>), int>
    decreases s.len(),
{
    if s.len() == 0 {
        Map::empty()
    } else {
        keymap(s.drop_last()).insert(entry_key(s.last()), s.last().index as int)
    }
}

spec fn unique_keys(s: Seq<KeyEntry>) -> bool {
    forall|i: int, j: int|
        0 <= i < j < s.len() ==> entry_key(#[trigger] s[i]) != entry_key(#[trigger] s[j])
}

proof fn lemma_keymap_has(s: Seq<KeyEntry>, j: int)
    requires
        unique_keys(s),
        0 <= j < s.len(),
    ensures
        keymap(s).contains_key(entry_key(s[j])),
        keymap(s)[entry_key(s[j])] == s[j].index as int,
    decreases s.len(),
{
    if j < s.len() - 1 {
        assert(entry_key(s[j]) != entry_key(s[s.len() - 1]));
        assert(s.drop_last()[j] == s[j]);
        lemma_keymap_has(s.drop_last(), j);
    }
}

proof fn lemma_keymap_absent(s: Seq<KeyEntry>, k: (Seq<char>, Seq<char>))
    requires
        forall|j: int| 0 <= j < s.len() ==> entry_key(#[trigger] s[j]) != k,
    ensures
        !keymap(s).contains_key(k),
    decreases s.len(),
{
    if s.len() > 0 {
        assert forall|j: int| 0 <= j < s.drop_last().len() implies entry_key(
            #[trigger] s.drop_last()[j],
        ) != k by {
            assert(s.drop_last()[j] == s[j]);
        }
        lemma_keymap_absent(s.drop_last(), k);
        assert(entry_key(s[s.len() - 1]) != k);
    }
}

proof fn lemma_keymap_source(s: Seq<KeyEntry>, k: (Seq<char>, Seq<char>))
    requires
        keymap(s).contains_key(k),
    ensures
        exists|j: int| 0 <= j < s.len() && entry_key(s[j]) == k && s[j].index as int == keymap(s)[k],
    decreases s.len(),
{
    if entry_key(s.last()) == k {
        assert(entry_key(s[s.len() - 1]) == k);
    } else {
        lemma_keymap_source(s.drop_last(), k);
        let j = choose|j: int|
            0 <= j < s.drop_last().len() && entry_key(s.drop_last()[j]) == k && s.drop_last()[j].index as int
                == keymap(s.drop_last())[k];
        assert(s.drop_last()[j] == s[j]);
    }
}

proof fn lemma_keymap_update(s: Seq<KeyEntry>, j: int, e: KeyEntry)
    requires
        unique_keys(s),
        0 <= j < s.len(),
        entry_key(e) == entry_key(s[j]),
    ensures
        keymap(s.update(j, e)) =~= keymap(s).insert(entry_key(e), e.index as int),
    decreases s.len(),
{
    let t = s.update(j, e);
    if j == s.len() - 1 {
        assert(t.drop_last() =~= s.drop_last());
    } else {
        assert(t.drop_last() =~= s.drop_last().update(j, e));
        assert(entry_key(s[j]) != entry_key(s[s.len() - 1]));
        lemma_keymap_update(s.drop_last(), j, e);
    }
}

/// One slot of the index map: slot `i` holds index `i + 1`.
enum Slot {
    Empty,
    Reserved,
    Committed(IndexedTableValue),
}

/// The mathematical content of an interning table.
pub struct TableView {
    pub name: Seq<char>,
    /// key -> index
    pub keys: Map<(Seq<char>, Seq<char>), int>,
    /// index -> committed record
    pub entries: Map<int, RecordView>,
    /// indices allocated but not yet committed
    pub reserved: Set<int>,
    /// the next index to allocate
    pub next: int,
    pub checkpoint: Option<int>,
}

impl TableView {
    /// Every index in the table lies below `next`, and a reserved index holds no record.
    pub open spec fn inv(self) -> bool {
        &&& 1 <= self.next
        &&& forall|k| #[trigger] self.keys.contains_key(k) ==> 1 <= self.keys[k] < self.next
        &&& forall|i| #[trigger] self.entries.contains_key(i) ==> 1 <= i < self.next
        &&& forall|i| #[trigger] self.reserved.contains(i) ==> 1 <= i < self.next
            && !self.entries.contains_key(i)
        &&& self.checkpoint matches Some(c) ==> 1 <= c <= self.next
    }

    /// The table after adding a record under key `k`, and the index
    /// returned: the key's index when the key is known, else `next`.
    pub open spec fn added(self, k: (Seq<char>, Seq<char>), tags: Seq<Seq<char>>, args: Seq<i64>) -> (
        TableView,
        int,
    ) {
        if self.keys.contains_key(k) {
            (self, self.keys[k])
        } else {
            (
                TableView {
                    keys: self.keys.insert(k, self.next),
                    entries: self.entries.insert(
                        self.next,
                        RecordView { index: self.next, tags, args },
                    ),
                    next: self.next + 1,
                    ..self
                },
                self.next,
            )
        }
    }

    /// The table after interning a record, and the index returned.
    pub open spec fn interned(self, tags: Seq<Seq<char>>, args: Seq<i64>) -> (TableView, int) {
        self.added(record_key(tags, args), tags, args)
    }

    /// The table after installing a persisted record at its own index.
    pub open spec fn loaded(self, rec: RecordView) -> TableView {
        TableView {
            keys: self.keys.insert(record_key(rec.tags, rec.args), rec.index),
            entries: self.entries.insert(rec.index, rec),
            next: if rec.index + 1 > self.next {
                rec.index + 1
            } else {
                self.next
            },
            ..self
        }
    }

    /// The table after reserving an index (which is `next`).
    pub open spec fn with_reservation(self) -> TableView {
        TableView { reserved: self.reserved.insert(self.next), next: self.next + 1, ..self }
    }

    /// The table after committing a record at a reserved index.
    pub open spec fn committed(
        self,
        index: int,
        key: (Seq<char>, Seq<char>),
        rec: RecordView,
    ) -> TableView {
        TableView {
            keys: self.keys.insert(key, index),
            entries: self.entries.insert(index, rec),
            reserved: self.reserved.remove(index),
            ..self
        }
    }

    /// The table after setting a checkpoint at `next`.
    pub open spec fn checkpointed(self) -> TableView {
        TableView { checkpoint: Some(self.next), ..self }
    }

    /// The table after removing everything at or above the checkpoint `c`.
    pub open spec fn rolled_back(self, c: int) -> TableView {
        TableView {
            keys: Map::new(|k| self.keys.contains_key(k) && self.keys[k] < c, |k| self.keys[k]),
            entries: Map::new(|i: int| self.entries.contains_key(i) && i < c, |i: int| self.entries[i]),
            reserved: Set::empty(),
            next: c,
            checkpoint: None,
            ..self
        }
    }

    /// The empty table of the given name.
    pub open spec fn empty(name: Seq<char>) -> TableView {
        TableView {
            name,
            keys: Map::empty(),
            entries: Map::empty(),
            reserved: Set::empty(),
            next: 1,
            checkpoint: None,
        }
    }
}

/// Table that gives unique, increasing indices to records identified by their key.
///
/// The table can be checkpointed and reset to that checkpoint; indices can be
/// reserved before the record they stand for is known.
/// Tags must not contain commas: the key joins them with commas.
pub struct IndexedTable {
    name: String,
    keytable: Vec<KeyEntry>,
    slots: Vec<Slot>,
    next: i64,
    checkpoint: Option<i64>,
}

impl View for IndexedTable {
    type V = TableView;

    closed spec fn view(&self) -> TableView {
        TableView {
            name: self.name@,
            keys: keymap(self.keytable@),
            entries: Map::new(
                |i: int| 1 <= i < self.next && self.slots@[i - 1] is Committed,
                |i: int| self.slots@[i - 1]->Committed_0@,
            ),
            reserved: Set::new(|i: int| 1 <= i < self.next && self.slots@[i - 1] is Reserved),
            next: self.next as int,
            checkpoint: match self.checkpoint {
                Some(c) => Some(c as int),
                None => None,
            },
        }
    }
}

impl IndexedTable {
    pub closed spec fn wf(&self) -> bool {
        &&& 1 <= self.next
        &&& self.slots.len() == self.next - 1
        &&& unique_keys(self.keytable@)
        &&& forall|j: int|
            0 <= j < self.keytable.len() ==> 1 <= (#[trigger] self.keytable@[j]).index < self.next
        &&& self.checkpoint matches Some(c) ==> 1 <= c <= self.next
    }

    pub proof fn lemma_wf_inv(&self)
        requires
            self.wf(),
        ensures
            self@.inv(),
            self@.next <= i64::MAX,
    {
        assert forall|k| #[trigger] self@.keys.contains_key(k) implies 1 <= self@.keys[k]
            < self@.next by {
            lemma_keymap_source(self.keytable@, k);
        }
    }

    pub fn new(name: String) -> (r: Self)
        ensures
            r.wf(),
            r@ == TableView::empty(name@),
    {
        let r = IndexedTable {
            name,
            keytable: Vec::new(),
            slots: Vec::new(),
            next: 1,
            checkpoint: None,
        };
        assert(r@.entries =~= Map::empty());
        assert(r@.reserved =~= Set::empty());
        r
    }

    pub fn name(&self) -> (r: &String)
        ensures
            r@ == self@.name,
    {
        &self.name
    }

    /// The number of indices allocated so far.
    pub fn size(&self) -> (r: i64)
        requires
            self.wf(),
        ensures
            r == self@.next - 1,
    {
        self.next - 1
    }

    /// The next index that will be allocated.
    pub fn next_index(&self) -> (r: i64)
        ensures
            r == self@.next,
    {
        self.next
    }

    pub fn checkpoint(&self) -> (r: Option<i64>)
        ensures
            r matches Some(c) ==> self@.checkpoint == Some(c as int),
            r is None ==> self@.checkpoint is None,
    {
        self.checkpoint
    }

    /// Clears the table back to its empty state.
    pub fn reset(&mut self)
        ensures
            final(self).wf(),
            final(self)@ == TableView::empty(old(self)@.name),
    {
        self.keytable.clear();
        self.slots.clear();
        self.next = 1;
        self.checkpoint = None;
        assert(self@.keys =~= Map::empty());
        assert(self@.entries =~= Map::empty());
        assert(self@.reserved =~= Set::empty());
    }

    fn find_key(&self, tagkey: &String, argkey: &String) -> (r: Option<usize>)
        requires
            self.wf(),
        ensures
            r matches Some(j) ==> j < self.keytable.len() && entry_key(self.keytable@[j as int])
                == (tagkey@, argkey@),
            r is None ==> !self@.keys.contains_key((tagkey@, argkey@)),
    {
        let mut j: usize = 0;
        while j < self.keytable.len()
            invariant
                j <= self.keytable.len(),
                forall|i: int| 0 <= i < j ==> entry_key(#[trigger] self.keytable@[i]) != (
                    tagkey@,
                    argkey@,
                ),
            decreases self.keytable.len() - j,
        {
            let e = &self.keytable[j];
            if e.tagkey == *tagkey && e.argkey == *argkey {
                return Some(j);
            }
            j += 1;
        }
        proof {
            lemma_keymap_absent(self.keytable@, (tagkey@, argkey@));
        }
        None
    }

    /// Maps the key to the index, replacing an earlier mapping of the key.
    fn insert_key(&mut self, tagkey: String, argkey: String, index: i64)
        requires
            old(self).wf(),
            1 <= index < old(self).next,
        ensures
            final(self).wf(),
            final(self)@ == (TableView {
                keys: old(self)@.keys.insert((tagkey@, argkey@), index as int),
                ..old(self)@
            }),
    {
        let found = self.find_key(&tagkey, &argkey);
        let ghost key = (tagkey@, argkey@);
        let e = KeyEntry { tagkey, argkey, index };
        match found {
            Some(j) => {
                proof {
                    lemma_keymap_update(self.keytable@, j as int, e);
                }
                self.keytable.set(j, e);
                assert(unique_keys(self.keytable@)) by {
                    assert forall|a: int, b: int|
                        0 <= a < b < self.keytable.len() implies entry_key(
                            #[trigger] self.keytable@[a],
                        ) != entry_key(#[trigger] self.keytable@[b]) by {
                        assert(entry_key(self.keytable@[a]) == entry_key(old(self).keytable@[a]));
                        assert(entry_key(self.keytable@[b]) == entry_key(old(self).keytable@[b]));
                    }
                }
            },
            None => {
                let ghost before = self.keytable@;
                self.keytable.push(e);
                assert(self.keytable@.drop_last() =~= before);
                assert forall|j: int| 0 <= j < before.len() implies entry_key(#[trigger] before[j])
                    != key by {
                    lemma_keymap_has(before, j);
                }
            },
        }
        assert(self@.entries =~= old(self)@.entries);
        assert(self@.reserved =~= old(self)@.reserved);
    }

    /// Returns the index of the record with these tags and arguments, adding
    /// the record at the next index when its key is new.
    pub fn intern(&mut self, tags: Vec<String>, args: Vec<i64>) -> (r: i64)
        requires
            old(self).wf(),
            old(self)@.next < i64::MAX,
        ensures
            final(self).wf(),
            (final(self)@, r as int) == old(self)@.interned(views_of(tags@), args@),
    {
        let tagkey = join_strings(&tags);
        let argkey = join_integers(&args);
        self.add((tagkey, argkey), tags, args)
    }

    /// Returns the index of `key`, adding a record with these tags and
    /// arguments under it at the next index when the key is new.
    pub fn add(&mut self, key: (String, String), tags: Vec<String>, args: Vec<i64>) -> (r: i64)
        requires
            old(self).wf(),
            old(self)@.next < i64::MAX,
        ensures
            final(self).wf(),
            (final(self)@, r as int) == old(self)@.added((key.0@, key.1@), views_of(tags@), args@),
    {
        let (tagkey, argkey) = key;
        let ghost tv = views_of(tags@);
        let ghost av = args@;
        match self.find_key(&tagkey, &argkey) {
            Some(j) => {
                proof {
                    lemma_keymap_has(self.keytable@, j as int);
                }
                self.keytable[j].index
            },
            None => {
                let index = self.next;
                let value = IndexedTableValue { index, tags, args };
                let ghost before = self@;
                self.slots.push(Slot::Committed(value));
                self.next = index + 1;
                assert(self@.entries =~= before.entries.insert(
                    index as int,
                    RecordView { index: index as int, tags: tv, args: av },
                ));
                assert(self@.reserved =~= before.reserved);
                self.insert_key(tagkey, argkey, index);
                index
            },
        }
    }

    /// Installs a persisted record at its own index, under its key, and
    /// moves `next` past it. A reserved index is refused.
    pub fn read_record(&mut self, value: IndexedTableValue) -> (r: Result<(), ChcError>)
        requires
            old(self).wf(),
            1 <= value@.index < i64::MAX,
        ensures
            final(self).wf(),
            old(self)@.reserved.contains(value@.index) ==> (r matches Err(
                ChcError::ReserveMisuse { index: i },
            ) && i == value@.index && final(self)@ == old(self)@),
            !old(self)@.reserved.contains(value@.index) ==> (r is Ok && final(self)@ == old(
                self,
            )@.loaded(value@)),
    {
        let index = value.index();
        let (tagkey, argkey) = value.key();
        let ghost vv = value@;
        let ghost before = self@;
        if index < self.next {
            let slot = (index - 1) as usize;
            if matches!(self.slots[slot], Slot::Reserved) {
                return Err(ChcError::ReserveMisuse { index });
            }
            self.slots.set(slot, Slot::Committed(value));
            assert(self@.entries =~= before.entries.insert(index as int, vv));
            assert(self@.reserved =~= before.reserved);
        } else {
            let ghost old_slots = self.slots@;
            let mut k: i64 = self.next;
            while k < index
                invariant
                    self.next == before.next,
                    self.keytable == old(self).keytable,
                    self.name == old(self).name,
                    self.checkpoint == old(self).checkpoint,
                    1 <= self.next <= k <= index,
                    index < i64::MAX,
                    self.slots.len() == k - 1,
                    self.slots@.subrange(0, self.next - 1) == old_slots,
                    old_slots.len() == self.next - 1,
                    forall|t: int| self.next - 1 <= t < self.slots.len() ==> #[trigger] self.slots@[t] is Empty,
                decreases index - k,
            {
                let ghost pre = self.slots@;
                self.slots.push(Slot::Empty);
                assert(self.slots@.subrange(0, self.next - 1) =~= pre.subrange(0, self.next - 1));
                k += 1;
            }
            self.slots.push(Slot::Committed(value));
            self.next = index + 1;
            assert(self@.entries =~= before.entries.insert(index as int, vv)) by {
                assert forall|x: int| #[trigger] self@.entries.contains_key(x) == before.entries.insert(index as int, vv).contains_key(x) by {
                    if 1 <= x < before.next {
                        assert(self.slots@[x - 1] == self.slots@.subrange(0, before.next - 1)[x - 1]);
                    }
                }
                assert forall|x: int| #[trigger] self@.entries.contains_key(x) implies self@.entries[x]
                    == before.entries.insert(index as int, vv)[x] by {
                    if 1 <= x < before.next {
                        assert(self.slots@[x - 1] == self.slots@.subrange(0, before.next - 1)[x - 1]);
                    }
                }
            }
            assert(self@.reserved =~= before.reserved) by {
                assert forall|x: int| #[trigger] self@.reserved.contains(x) == before.reserved.contains(x) by {
                    if 1 <= x < before.next {
                        assert(self.slots@[x - 1] == self.slots@.subrange(0, before.next - 1)[x - 1]);
                    }
                }
            }
        }
        self.insert_key(tagkey, argkey, index);
        Ok(())
    }

    /// Allocates the next index without a record; it can be committed later.
    pub fn reserve(&mut self) -> (r: i64)
        requires
            old(self).wf(),
            old(self)@.next < i64::MAX,
        ensures
            final(self).wf(),
            r == old(self)@.next,
            final(self)@ == old(self)@.with_reservation(),
    {
        let index = self.next;
        self.slots.push(Slot::Reserved);
        self.next = index + 1;
        assert(self@.entries =~= old(self)@.entries);
        assert(self@.reserved =~= old(self)@.reserved.insert(index as int));
        index
    }

    /// Installs a record, under the given key, at an index that was reserved.
    pub fn commit_reserved(&mut self, index: i64, key: (String, String), value: IndexedTableValue) -> (r:
        Result<(), ChcError>)
        requires
            old(self).wf(),
        ensures
            final(self).wf(),
            old(self)@.reserved.contains(index as int) ==> r is Ok && final(self)@ == old(
                self,
            )@.committed(index as int, (key.0@, key.1@), value@),
            !old(self)@.reserved.contains(index as int) ==> (r matches Err(
                ChcError::ReserveMisuse { index: i },
            ) && i == index && final(self)@ == old(self)@),
    {
        if index < 1 || index >= self.next {
            return Err(ChcError::ReserveMisuse { index });
        }
        let slot = (index - 1) as usize;
        if !matches!(self.slots[slot], Slot::Reserved) {
            return Err(ChcError::ReserveMisuse { index });
        }
        let ghost vv = value@;
        let ghost before = self@;
        self.slots.set(slot, Slot::Committed(value));
        assert(self@.entries =~= before.entries.insert(index as int, vv));
        assert(self@.reserved =~= before.reserved.remove(index as int));
        let (tagkey, argkey) = key;
        self.insert_key(tagkey, argkey, index);
        Ok(())
    }

    /// Records `next` as the checkpoint.
    pub fn set_checkpoint(&mut self) -> (r: Result<i64, ChcError>)
        requires
            old(self).wf(),
        ensures
            final(self).wf(),
            old(self)@.checkpoint is None ==> (r matches Ok(v) && v == old(self)@.next
                && final(self)@ == old(self)@.checkpointed()),
            old(self)@.checkpoint is Some ==> (r matches Err(ChcError::CheckpointMisuse { .. })
                && final(self)@ == old(self)@),
    {
        match self.checkpoint {
            Some(n) => Err(ChcError::CheckpointMisuse { checkpoint: Some(n) }),
            None => {
                self.checkpoint = Some(self.next);
                Ok(self.next)
            },
        }
    }

    /// Drops the checkpoint without touching the content.
    pub fn remove_checkpoint(&mut self)
        requires
            old(self).wf(),
        ensures
            final(self).wf(),
            final(self)@ == (TableView { checkpoint: None, ..old(self)@ }),
    {
        self.checkpoint = None;
    }

    /// Removes every record and key at or above the checkpoint, clears the
    /// reservations, and sets `next` back to the checkpoint.
    pub fn reset_to_checkpoint(&mut self) -> (r: Result<i64, ChcError>)
        requires
            old(self).wf(),
        ensures
            final(self).wf(),
            old(self)@.checkpoint matches Some(c) ==> (r matches Ok(v) && v == c && final(self)@
                == old(self)@.rolled_back(c)),
            old(self)@.checkpoint is None ==> (r matches Err(ChcError::CheckpointMisuse { .. })
                && final(self)@ == old(self)@),
    {
        let cp = match self.checkpoint {
            Some(c) => c,
            None => {
                return Err(ChcError::CheckpointMisuse { checkpoint: None });
            },
        };
        let ghost before = self@;
        let ghost old_keys = self.keytable@;
        let ghost target = Map::new(
            |k| keymap(old_keys).contains_key(k) && keymap(old_keys)[k] < cp,
            |k| keymap(old_keys)[k],
        );
        // keys below the checkpoint
        let mut kept: Vec<KeyEntry> = Vec::new();
        let mut i: usize = 0;
        let ghost kt = self.keytable@;
        while i < self.keytable.len()
            invariant
                self.keytable@ == kt,
                kt == old_keys,
                self.next == old(self).next,
                self.slots == old(self).slots,
                self.checkpoint == Some(cp),
                1 <= cp <= self.next,
                self.slots.len() == self.next - 1,
                forall|j: int| 0 <= j < kt.len() ==> 1 <= (#[trigger] kt[j]).index < self.next,
                i <= kt.len(),
                unique_keys(kt),
                unique_keys(kept@),
                forall|a: int|
                    0 <= a < kept.len() ==> exists|b: int|
                        0 <= b < i && entry_key(#[trigger] kept@[a]) == entry_key(kt[b]),
                forall|a: int| 0 <= a < kept.len() ==> (#[trigger] kept@[a]).index < cp,
                forall|a: int|
                    0 <= a < kept.len() ==> 1 <= (#[trigger] kept@[a]).index,
                keymap(kept@) =~= Map::new(
                    |k| keymap(kt.subrange(0, i as int)).contains_key(k) && keymap(
                        kt.subrange(0, i as int),
                    )[k] < cp,
                    |k| keymap(kt.subrange(0, i as int))[k],
                ),
            decreases kt.len() - i,
        {
            let ghost pre = kt.subrange(0, i as int);
            let ghost post = kt.subrange(0, i as int + 1);
            assert(post.drop_last() =~= pre);
            assert(post.last() == kt[i as int]);
            let ghost k = entry_key(kt[i as int]);
            assert forall|b: int| 0 <= b < pre.len() implies entry_key(#[trigger] pre[b]) != k by {
                assert(pre[b] == kt[b]);
            }
            proof {
                lemma_keymap_absent(pre, k);
            }
            let e = &self.keytable[i];
            if e.index < cp {
                let ghost kept_before = kept@;
                kept.push(KeyEntry { tagkey: e.tagkey.clone(), argkey: e.argkey.clone(), index: e.index });
                assert(kept@.drop_last() =~= kept_before);
                assert forall|a: int| 0 <= a < kept_before.len() implies entry_key(
                    #[trigger] kept_before[a],
                ) != k by {
                    let b = choose|b: int| 0 <= b < i && entry_key(kept_before[a]) == entry_key(kt[b]);
                    assert(entry_key(kt[b]) != entry_key(kt[i as int]));
                }
                assert(unique_keys(kept@)) by {
                    assert forall|a: int, b: int|
                        0 <= a < b < kept@.len() implies entry_key(#[trigger] kept@[a])
                        != entry_key(#[trigger] kept@[b]) by {
                        if b == kept@.len() - 1 {
                            assert(kept@[a] == kept_before[a]);
                        } else {
                            assert(kept@[a] == kept_before[a]);
                            assert(kept@[b] == kept_before[b]);
                        }
                    }
                }
                assert forall|a: int|
                    0 <= a < kept.len() implies exists|b: int|
                        0 <= b < i + 1 && entry_key(#[trigger] kept@[a]) == entry_key(kt[b]) by {
                    if a == kept.len() - 1 {
                        assert(entry_key(kept@[a]) == entry_key(kt[i as int]));
                    } else {
                        assert(kept@[a] == kept_before[a]);
                        let b = choose|b: int| 0 <= b < i && entry_key(kept_before[a]) == entry_key(kt[b]);
                        assert(entry_key(kept@[a]) == entry_key(kt[b]));
                    }
                }
                proof {
                    lemma_wf_key_index(kt, i as int, self.next);
                }
            } else {
                assert forall|a: int|
                    0 <= a < kept.len() implies exists|b: int|
                        0 <= b < i + 1 && entry_key(#[trigger] kept@[a]) == entry_key(kt[b]) by {
                    let b = choose|b: int| 0 <= b < i && entry_key(kept@[a]) == entry_key(kt[b]);
                    assert(0 <= b < i + 1);
                }
            }
            i += 1;
        }
        assert(kt.subrange(0, kt.len() as int) =~= kt);
        assert(keymap(kept@) =~= target);
        self.keytable = kept;
        let ghost kf = self.keytable@;
        // records below the checkpoint, with reservations cleared
        self.slots.truncate((cp - 1) as usize);
        let mut s: usize = 0;
        let ghost truncated = self.slots@;
        while s < self.slots.len()
            invariant
                self.keytable@ == kf,
                keymap(kf) == target,
                unique_keys(kf),
                forall|a: int| 0 <= a < kf.len() ==> 1 <= (#[trigger] kf[a]).index < cp,
                self.next == old(self).next,
                self.checkpoint == Some(cp),
                self.name == old(self).name,
                truncated == old(self).slots@.subrange(0, cp - 1),
                self.slots.len() == truncated.len(),
                s <= self.slots.len(),
                forall|t: int|
                    0 <= t < s ==> (#[trigger] self.slots@[t] is Reserved) == false
                        && (truncated[t] is Committed ==> self.slots@[t] == truncated[t])
                        && (!(truncated[t] is Committed) ==> self.slots@[t] is Empty),
                forall|t: int| s <= t < self.slots.len() ==> #[trigger] self.slots@[t] == truncated[t],
            decreases self.slots.len() - s,
        {
            if matches!(self.slots[s], Slot::Reserved) {
                self.slots.set(s, Slot::Empty);
            }
            s += 1;
        }
        self.next = cp;
        self.checkpoint = None;
        assert(self@.keys =~= before.rolled_back(cp as int).keys);
        assert(self@.entries =~= before.rolled_back(cp as int).entries) by {
            assert forall|x: int| #[trigger] self@.entries.contains_key(x) == before.rolled_back(
                cp as int,
            ).entries.contains_key(x) by {
                if 1 <= x < cp {
                    assert(truncated[x - 1] == old(self).slots@[x - 1]);
                }
            }
            assert forall|x: int| #[trigger] self@.entries.contains_key(x) implies self@.entries[x]
                == before.rolled_back(cp as int).entries[x] by {
                assert(truncated[x - 1] == old(self).slots@[x - 1]);
            }
        }
        assert(self@.reserved =~= Set::empty());
        Ok(cp)
    }
}

impl IndexedTable {
    /// The record committed at `index`.
    pub fn retrieve(&self, index: i64) -> (r: Result<IndexedTableValue, ChcError>)
        requires
            self.wf(),
        ensures
            self@.entries.contains_key(index as int) ==> (r matches Ok(v) && v@
                == self@.entries[index as int]),
            !self@.entries.contains_key(index as int) ==> (r matches Err(e) && is_not_found(
                e,
                index as int,
                self@.name,
                self@.next - 1,
            )),
    {
        if index >= 1 && index < self.next {
            match &self.slots[(index - 1) as usize] {
                Slot::Committed(v) => {
                    return Ok(v.duplicate());
                },
                _ => {},
            }
        }
        Err(ChcError::NotFound { index, table: self.name.clone(), size: self.next - 1 })
    }

    /// The record committed at `index`, borrowed.
    pub fn get_record(&self, index: i64) -> (r: Option<&IndexedTableValue>)
        requires
            self.wf(),
        ensures
            r matches Some(v) ==> self@.entries.contains_key(index as int) && v@ == self@.entries[index as int],
            r is None ==> !self@.entries.contains_key(index as int),
    {
        if index >= 1 && index < self.next {
            match &self.slots[(index - 1) as usize] {
                Slot::Committed(v) => {
                    return Some(v);
                },
                _ => {},
            }
        }
        None
    }

    /// Whether `index` is reserved and not yet committed.
    pub fn is_reserved(&self, index: i64) -> (r: bool)
        requires
            self.wf(),
        ensures
            r == self@.reserved.contains(index as int),
    {
        index >= 1 && index < self.next && matches!(self.slots[(index - 1) as usize], Slot::Reserved)
    }

    /// The indices of the committed records, in increasing order.
    pub fn keys(&self) -> (r: Vec<i64>)
        requires
            self.wf(),
        ensures
            forall|a: int, b: int| 0 <= a < b < r.len() ==> r@[a] < r@[b],
            forall|a: int| 0 <= a < r.len() ==> self@.entries.contains_key(#[trigger] r@[a] as int),
            forall|i: int|
                #[trigger] self@.entries.contains_key(i) ==> exists|a: int|
                    0 <= a < r.len() && r@[a] == i,
    {
        let mut r: Vec<i64> = Vec::new();
        let mut j: usize = 0;
        while j < self.slots.len()
            invariant
                self.wf(),
                j <= self.slots.len(),
                forall|a: int, b: int| 0 <= a < b < r.len() ==> r@[a] < r@[b],
                forall|a: int| 0 <= a < r.len() ==> 1 <= #[trigger] r@[a] <= j,
                forall|a: int|
                    0 <= a < r.len() ==> self@.entries.contains_key(#[trigger] r@[a] as int),
                forall|i: int|
                    1 <= i <= j && #[trigger] self@.entries.contains_key(i) ==> exists|a: int|
                        0 <= a < r.len() && r@[a] == i,
            decreases self.slots.len() - j,
        {
            if matches!(self.slots[j], Slot::Committed(_)) {
                let ghost before = r@;
                r.push((j + 1) as i64);
                assert forall|i: int|
                    1 <= i <= j + 1 && #[trigger] self@.entries.contains_key(i) implies exists|a: int|
                        0 <= a < r.len() && r@[a] == i by {
                    if i <= j {
                        let a = choose|a: int| 0 <= a < before.len() && before[a] == i;
                        assert(r@[a] == i);
                    } else {
                        assert(r@[r.len() - 1] == i);
                    }
                }
            }
            j += 1;
        }
        r
    }

    /// The committed records with their indices, in increasing order of index.
    pub fn items(&self) -> (r: Vec<(i64, IndexedTableValue)>)
        requires
            self.wf(),
        ensures
            forall|a: int, b: int| 0 <= a < b < r.len() ==> r@[a].0 < r@[b].0,
            forall|a: int|
                0 <= a < r.len() ==> self@.entries.contains_key(#[trigger] r@[a].0 as int)
                    && self@.entries[r@[a].0 as int] == r@[a].1@,
            forall|i: int|
                #[trigger] self@.entries.contains_key(i) ==> exists|a: int|
                    0 <= a < r.len() && r@[a].0 == i,
    {
        let mut r: Vec<(i64, IndexedTableValue)> = Vec::new();
        let mut j: usize = 0;
        while j < self.slots.len()
            invariant
                self.wf(),
                j <= self.slots.len(),
                forall|a: int, b: int| 0 <= a < b < r.len() ==> r@[a].0 < r@[b].0,
                forall|a: int| 0 <= a < r.len() ==> 1 <= #[trigger] r@[a].0 <= j,
                forall|a: int|
                    0 <= a < r.len() ==> self@.entries.contains_key(#[trigger] r@[a].0 as int)
                        && self@.entries[r@[a].0 as int] == r@[a].1@,
                forall|i: int|
                    1 <= i <= j && #[trigger] self@.entries.contains_key(i) ==> exists|a: int|
                        0 <= a < r.len() && r@[a].0 == i,
            decreases self.slots.len() - j,
        {
            match &self.slots[j] {
                Slot::Committed(v) => {
                    let ghost before = r@;
                    r.push(((j + 1) as i64, v.duplicate()));
                    assert forall|i: int|
                        1 <= i <= j + 1 && #[trigger] self@.entries.contains_key(i) implies exists|
                            a: int,
                        | 0 <= a < r.len() && r@[a].0 == i by {
                        if i <= j {
                            let a = choose|a: int| 0 <= a < before.len() && before[a].0 == i;
                            assert(r@[a].0 == i);
                        } else {
                            assert(r@[r.len() - 1].0 == i);
                        }
                    }
                },
                _ => {},
            }
            j += 1;
        }
        r
    }
}

/// The table after interning each of the calls in order.
pub open spec fn interned_all(t: TableView, calls: Seq<(Seq<Seq<char>>, Seq<i64>)>) -> TableView
    decreases calls.len(),
{
    if calls.len() == 0 {
        t
    } else {
        interned_all(t, calls.drop_last()).interned(calls.last().0, calls.last().1).0
    }
}

/// Interning the same tags and arguments twice returns the same index both
/// times, and the second call leaves the table exactly as the first left it.
pub proof fn lemma_intern_idempotent(t: TableView, tags: Seq<Seq<char>>, args: Seq<i64>)
    ensures
        ({
            let (t1, i1) = t.interned(tags, args);
            let (t2, i2) = t1.interned(tags, args);
            i2 == i1 && t2 == t1 && t2.next == t1.next
        }),
{
}

/// `next` never decreases: interning a new key and reserving each allocate
/// exactly the index `next` and add one to it; interning a known key,
/// committing and setting a checkpoint leave it as it is.
pub proof fn lemma_allocation_monotonic(
    t: TableView,
    tags: Seq<Seq<char>>,
    args: Seq<i64>,
    index: int,
    key: (Seq<char>, Seq<char>),
    rec: RecordView,
)
    ensures
        ({
            let (t1, i1) = t.interned(tags, args);
            if t.keys.contains_key(record_key(tags, args)) {
                t1.next == t.next
            } else {
                t1.next == t.next + 1 && i1 == t.next
            }
        }),
        t.with_reservation().next == t.next + 1,
        t.committed(index, key, rec).next == t.next,
        t.checkpointed().next == t.next,
{
}

proof fn lemma_interned_all_below(c: TableView, calls: Seq<(Seq<Seq<char>>, Seq<i64>)>)
    requires
        c.inv(),
    ensures
        ({
            let a = interned_all(c, calls);
            &&& a.inv()
            &&& a.next >= c.next
            &&& a.name == c.name
            &&& a.checkpoint == c.checkpoint
            &&& a.reserved == c.reserved
            &&& forall|k|
                (#[trigger] a.keys.contains_key(k) && a.keys[k] < c.next) <==> c.keys.contains_key(
                    k,
                )
            &&& forall|k| #[trigger] c.keys.contains_key(k) ==> a.keys[k] == c.keys[k]
            &&& forall|i: int|
                (#[trigger] a.entries.contains_key(i) && i < c.next) <==> c.entries.contains_key(
                    i,
                )
            &&& forall|i: int| #[trigger] c.entries.contains_key(i) ==> a.entries[i] == c.entries[i]
        }),
    decreases calls.len(),
{
    if calls.len() > 0 {
        lemma_interned_all_below(c, calls.drop_last());
    }
}

/// Interning after `set_checkpoint` and then `reset_to_checkpoint` gives back
/// the table as it was before the checkpoint: the same keys, records, `next`
/// and name, with no checkpoint and no reservation left.
pub proof fn lemma_checkpoint_round_trip(t: TableView, calls: Seq<(Seq<Seq<char>>, Seq<i64>)>)
    requires
        t.inv(),
        t.checkpoint is None,
    ensures
        ({
            let after = interned_all(t.checkpointed(), calls);
            &&& after.checkpoint == Some(t.next)
            &&& after.rolled_back(t.next) == (TableView {
                reserved: Set::empty(),
                checkpoint: None,
                ..t
            })
        }),
{
    let c = t.checkpointed();
    lemma_interned_all_below(c, calls);
    let after = interned_all(c, calls);
    let back = after.rolled_back(t.next);
    assert(back.keys =~= t.keys);
    assert(back.entries =~= t.entries);
}

proof fn lemma_wf_key_index(kt: Seq<KeyEntry>, i: int, next: i64)
    requires
        0 <= i < kt.len(),
        forall|j: int| 0 <= j < kt.len() ==> 1 <= (#[trigger] kt[j]).index < next,
    ensures
        1 <= kt[i].index,
{
}

} // verus!
