use vstd::prelude::*;

use crate::error::{is_unknown_variant, Category, ChcError};
use crate::indexed_table::IndexedTableValue;
use crate::text::views_of;
use crate::variants::{
    build_variant, kind_args, kind_category, kind_tags, variant_built, variant_category, Variant,
    VariantKind,
};

verus! {

/// One registration: the constructor for a tag within a category.
pub struct CDictionaryRegistryEntry {
    category: Category,
    tag: String,
    kind: VariantKind,
}

spec fn entry_key(e: CDictionaryRegistryEntry) -> (Category, Seq<char>) {
    (e.category, e.tag@)
}

spec fn regmap(s: Seq<CDictionaryRegistryEntry>) -> Map<(Category, Seq<char>), VariantKind>
    decreases s.len(),
{
    if s.len() == 0 {
        Map::empty()
    } else {
        regmap(s.drop_last()).insert(entry_key(s.last()), s.last().kind)
    }
}

spec fn unique_entries(s: Seq<CDictionaryRegistryEntry>) -> bool {
    forall|i: int, j: int|
        0 <= i < j < s.len() ==> entry_key(#[trigger] s[i]) != entry_key(#[trigger] s[j])
}

proof fn lemma_regmap_has(s: Seq<CDictionaryRegistryEntry>, j: int)
    requires
        unique_entries(s),
        0 <= j < s.len(),
    ensures
        regmap(s).contains_key(entry_key(s[j])),
        regmap(s)[entry_key(s[j])] == s[j].kind,
    decreases s.len(),
{
    if j < s.len() - 1 {
        assert(entry_key(s[j]) != entry_key(s[s.len() - 1]));
        assert(s.drop_last()[j] == s[j]);
        lemma_regmap_has(s.drop_last(), j);
    }
}

proof fn lemma_regmap_absent(s: Seq<CDictionaryRegistryEntry>, k: (Category, Seq<char>))
    requires
        forall|j: int| 0 <= j < s.len() ==> entry_key(#[trigger] s[j]) != k,
    ensures
        !regmap(s).contains_key(k),
    decreases s.len(),
{
    if s.len() > 0 {
        assert forall|j: int| 0 <= j < s.drop_last().len() implies entry_key(
            #[trigger] s.drop_last()[j],
        ) != k by {
            assert(s.drop_last()[j] == s[j]);
        }
        lemma_regmap_absent(s.drop_last(), k);
        assert(entry_key(s[s.len() - 1]) != k);
    }
}

proof fn lemma_regmap_source(s: Seq<CDictionaryRegistryEntry>, k: (Category, Seq<char>))
    requires
        regmap(s).contains_key(k),
    ensures
        exists|j: int| 0 <= j < s.len() && entry_key(s[j]) == k && s[j].kind == regmap(s)[k],
    decreases s.len(),
{
    if entry_key(s.last()) == k {
        assert(entry_key(s[s.len() - 1]) == k);
    } else {
        lemma_regmap_source(s.drop_last(), k);
        let j = choose|j: int|
            0 <= j < s.drop_last().len() && entry_key(s.drop_last()[j]) == k
                && s.drop_last()[j].kind == regmap(s.drop_last())[k];
        assert(s.drop_last()[j] == s[j]);
    }
}

/// The registrations of every variant kind that C's grammar has here.
pub open spec fn standard_registrations() -> Map<(Category, Seq<char>), VariantKind> {
    map![
        (Category::Typ, "tvoid"@) => VariantKind::TypVoid,
        (Category::Typ, "tint"@) => VariantKind::TypInt,
        (Category::Typ, "tfloat"@) => VariantKind::TypFloat,
        (Category::Typ, "tnamed"@) => VariantKind::TypNamed,
        (Category::Typ, "tcomp"@) => VariantKind::TypComp,
        (Category::Typ, "tenum"@) => VariantKind::TypEnum,
        (Category::Typ, "tbuiltin-va-list"@) => VariantKind::TypBuiltinVaargs,
        (Category::Typ, "tbuiltinvaargs"@) => VariantKind::TypBuiltinVaargs,
        (Category::Typ, "tptr"@) => VariantKind::TypPtr,
        (Category::Typ, "tarray"@) => VariantKind::TypArray,
        (Category::AttrParam, "aint"@) => VariantKind::AttrInt,
        (Category::AttrParam, "astr"@) => VariantKind::AttrStr,
        (Category::AttrParam, "acons"@) => VariantKind::AttrCons,
        (Category::Constant, "int"@) => VariantKind::ConstInt,
        (Category::Constant, "str"@) => VariantKind::ConstStr,
        (Category::Constant, "wstr"@) => VariantKind::ConstWStr,
        (Category::Constant, "chr"@) => VariantKind::ConstChr,
        (Category::Constant, "real"@) => VariantKind::ConstReal,
        (Category::Constant, "enum"@) => VariantKind::ConstEnum,
        (Category::Offset, "n"@) => VariantKind::OffsetNone,
        (Category::Offset, "f"@) => VariantKind::OffsetField,
        (Category::Offset, "i"@) => VariantKind::OffsetIndex,
        (Category::Exp, "const"@) => VariantKind::ExpConst,
    ]
}

/// The table from (category, tag) to the constructor of the variant that the
/// tag stands for within the category. It is filled once at start-up and
/// only read afterwards; each dictionary lookup is handed a reference to it.
pub struct CDictionaryRegistry {
    entries: Vec<CDictionaryRegistryEntry>,
}

impl View for CDictionaryRegistry {
    type V = Map<(Category, Seq<char>), VariantKind>;

    closed spec fn view(&self) -> Map<(Category, Seq<char>), VariantKind> {
        regmap(self.entries@)
    }
}

/// What `mk_instance` gives for a record with these tags and arguments: the
/// variant's constructor if it can read the record, or the failure.
pub open spec fn construct_outcome(
    reg: Map<(Category, Seq<char>), VariantKind>,
    category: Category,
    tags: Seq<Seq<char>>,
    args: Seq<i64>,
    r: Result<Variant, ChcError>,
) -> bool {
    if tags.len() == 0 || !reg.contains_key((category, tags[0])) {
        r matches Err(e) && is_unknown_variant(
            e,
            category,
            if tags.len() == 0 {
                Seq::empty()
            } else {
                tags[0]
            },
        )
    } else {
        let k = reg[(category, tags[0])];
        if tags.len() >= kind_tags(k) && args.len() >= kind_args(k) {
            r matches Ok(v) && variant_built(v, k, tags, args) && variant_category(v) == category
        } else {
            r matches Err(ChcError::ShapeMismatch {
                expected_tags: et,
                expected_args: ea,
                actual_tags: at,
                actual_args: aa,
                ..
            }) && et == kind_tags(k) && ea == kind_args(k) && at == tags.len() && aa == args.len()
        }
    }
}

impl CDictionaryRegistry {

    pub closed spec fn wf(&self) -> bool {
        &&& unique_entries(self.entries@)
        &&& forall|j: int|
            0 <= j < self.entries.len() ==> kind_category((#[trigger] self.entries@[j]).kind)
                == self.entries@[j].category
    }

    /// Every registered constructor builds variants of the category it is registered under.
    pub proof fn lemma_categories(&self)
        requires
            self.wf(),
        ensures
            forall|k: (Category, Seq<char>)| #[trigger]
                self@.contains_key(k) ==> kind_category(self@[k]) == k.0,
    {
        assert forall|k: (Category, Seq<char>)| #[trigger]
            self@.contains_key(k) implies kind_category(self@[k]) == k.0 by {
            lemma_regmap_source(self.entries@, k);
        }
    }

    /// A registry with no entries.
    pub fn new() -> (r: Self)
        ensures
            r.wf(),
            r@ == Map::<(Category, Seq<char>), VariantKind>::empty(),
    {
        CDictionaryRegistry { entries: Vec::new() }
    }

    /// The constructor registered for the tag within the category.
    pub fn lookup(&self, category: Category, tag: &String) -> (r: Option<VariantKind>)
        requires
            self.wf(),
        ensures
            r matches Some(k) ==> self@.contains_key((category, tag@)) && self@[(category, tag@)]
                == k,
            r is None ==> !self@.contains_key((category, tag@)),
    {
        let mut j: usize = 0;
        while j < self.entries.len()
            invariant
                self.wf(),
                j <= self.entries.len(),
                forall|i: int| 0 <= i < j ==> entry_key(#[trigger] self.entries@[i]) != (
                    category,
                    tag@,
                ),
            decreases self.entries.len() - j,
        {
            let e = &self.entries[j];
            if e.category == category && e.tag == *tag {
                proof {
                    lemma_regmap_has(self.entries@, j as int);
                }
                return Some(e.kind);
            }
            j += 1;
        }
        proof {
            lemma_regmap_absent(self.entries@, (category, tag@));
        }
        None
    }

    /// Adds the constructor `kind` for `tag` within `category`. A second
    /// constructor for a registered pair, or one that builds variants of
    /// another category, is refused and leaves the registry as it was.
    pub fn register(&mut self, category: Category, tag: String, kind: VariantKind) -> (r: Result<
        (),
        ChcError,
    >)
        requires
            old(self).wf(),
        ensures
            final(self).wf(),
            kind_category(kind) != category ==> (r matches Err(ChcError::MisplacedVariant { .. })
                && final(self)@ == old(self)@),
            kind_category(kind) == category && old(self)@.contains_key((category, tag@)) ==> (r matches Err(
                ChcError::DuplicateVariant { .. },
            ) && final(self)@ == old(self)@),
            kind_category(kind) == category && !old(self)@.contains_key((category, tag@)) ==> (r is Ok
                && final(self)@ == old(self)@.insert((category, tag@), kind)),
    {
        if kind.category() != category {
            return Err(ChcError::MisplacedVariant { category, tag });
        }
        if self.lookup(category, &tag).is_some() {
            return Err(ChcError::DuplicateVariant { category, tag });
        }
        let ghost before = self.entries@;
        let ghost key = (category, tag@);
        self.entries.push(CDictionaryRegistryEntry { category, tag, kind });
        assert(self.entries@.drop_last() =~= before);
        assert forall|j: int| 0 <= j < before.len() implies entry_key(#[trigger] before[j]) != key by {
            lemma_regmap_has(before, j);
        }
        assert(unique_entries(self.entries@)) by {
            assert forall|a: int, b: int|
                0 <= a < b < self.entries@.len() implies entry_key(#[trigger] self.entries@[a])
                != entry_key(#[trigger] self.entries@[b]) by {
                assert(self.entries@[a] == before[a]);
                if b < before.len() {
                    assert(self.entries@[b] == before[b]);
                }
            }
        }
        Ok(())
    }

    /// Builds the concrete variant of a record: its first tag selects the
    /// constructor within the category. An unregistered tag is an
    /// `UnknownVariant` failure; a record with fewer tags or arguments than
    /// the constructor reads is a `ShapeMismatch`.
    pub fn mk_instance(&self, category: Category, record: &IndexedTableValue) -> (r: Result<
        Variant,
        ChcError,
    >)
        requires
            self.wf(),
        ensures
            construct_outcome(self@, category, record@.tags, record@.args, r),
            record@.tags.len() > 0 && self@.contains_key((category, record@.tags[0])) ==> !(r matches Err(
                ChcError::UnknownVariant { .. },
            )),
    {
        let tags = record.tags();
        let args = record.args();
        if tags.len() == 0 {
            return Err(ChcError::UnknownVariant { category, tag: String::new() });
        }
        let tag = &tags[0];
        match self.lookup(category, tag) {
            None => Err(ChcError::UnknownVariant { category, tag: tag.clone() }),
            Some(k) => {
                proof {
                    self.lemma_categories();
                }
                if tags.len() >= k.tag_count() && args.len() >= k.arg_count() {
                    Ok(build_variant(k, tags, args))
                } else {
                    Err(
                        ChcError::ShapeMismatch {
                            tag: tag.clone(),
                            expected_tags: k.tag_count(),
                            expected_args: k.arg_count(),
                            actual_tags: tags.len(),
                            actual_args: args.len(),
                        },
                    )
                }
            },
        }
    }
}

/// The registry of every variant kind: the types, attribute parameters,
/// constants, offsets and expressions that the dictionaries hold.
pub fn cdregistry() -> (r: CDictionaryRegistry)
    ensures
        r.wf(),
        r@ == standard_registrations(),
{
    let mut reg = CDictionaryRegistry::new();
    proof {
        reveal_strlit("tvoid");
        reveal_strlit("tint");
        reveal_strlit("tfloat");
        reveal_strlit("tnamed");
        reveal_strlit("tcomp");
        reveal_strlit("tenum");
        reveal_strlit("tbuiltin-va-list");
        reveal_strlit("tbuiltinvaargs");
        reveal_strlit("tptr");
        reveal_strlit("tarray");
        reveal_strlit("aint");
        reveal_strlit("astr");
        reveal_strlit("acons");
        reveal_strlit("int");
        reveal_strlit("str");
        reveal_strlit("wstr");
        reveal_strlit("chr");
        reveal_strlit("real");
        reveal_strlit("enum");
        reveal_strlit("n");
        reveal_strlit("f");
        reveal_strlit("i");
        reveal_strlit("const");
        assert("tint"@.len() != "tvoid"@.len());
        assert("tfloat"@.len() != "tvoid"@.len());
        assert("tfloat"@.len() != "tint"@.len());
        assert("tnamed"@.len() != "tvoid"@.len());
        assert("tnamed"@.len() != "tint"@.len());
        assert("tnamed"@[1] != "tfloat"@[1]);
        assert("tcomp"@[1] != "tvoid"@[1]);
        assert("tcomp"@.len() != "tint"@.len());
        assert("tcomp"@.len() != "tfloat"@.len());
        assert("tcomp"@.len() != "tnamed"@.len());
        assert("tenum"@[1] != "tvoid"@[1]);
        assert("tenum"@.len() != "tint"@.len());
        assert("tenum"@.len() != "tfloat"@.len());
        assert("tenum"@.len() != "tnamed"@.len());
        assert("tenum"@[1] != "tcomp"@[1]);
        assert("tbuiltin-va-list"@.len() != "tvoid"@.len());
        assert("tbuiltin-va-list"@.len() != "tint"@.len());
        assert("tbuiltin-va-list"@.len() != "tfloat"@.len());
        assert("tbuiltin-va-list"@.len() != "tnamed"@.len());
        assert("tbuiltin-va-list"@.len() != "tcomp"@.len());
        assert("tbuiltin-va-list"@.len() != "tenum"@.len());
        assert("tbuiltinvaargs"@.len() != "tvoid"@.len());
        assert("tbuiltinvaargs"@.len() != "tint"@.len());
        assert("tbuiltinvaargs"@.len() != "tfloat"@.len());
        assert("tbuiltinvaargs"@.len() != "tnamed"@.len());
        assert("tbuiltinvaargs"@.len() != "tcomp"@.len());
        assert("tbuiltinvaargs"@.len() != "tenum"@.len());
        assert("tbuiltinvaargs"@.len() != "tbuiltin-va-list"@.len());
        assert("tptr"@.len() != "tvoid"@.len());
        assert("tptr"@[1] != "tint"@[1]);
        assert("tptr"@.len() != "tfloat"@.len());
        assert("tptr"@.len() != "tnamed"@.len());
        assert("tptr"@.len() != "tcomp"@.len());
        assert("tptr"@.len() != "tenum"@.len());
        assert("tptr"@.len() != "tbuiltin-va-list"@.len());
        assert("tptr"@.len() != "tbuiltinvaargs"@.len());
        assert("tarray"@.len() != "tvoid"@.len());
        assert("tarray"@.len() != "tint"@.len());
        assert("tarray"@[1] != "tfloat"@[1]);
        assert("tarray"@[1] != "tnamed"@[1]);
        assert("tarray"@.len() != "tcomp"@.len());
        assert("tarray"@.len() != "tenum"@.len());
        assert("tarray"@.len() != "tbuiltin-va-list"@.len());
        assert("tarray"@.len() != "tbuiltinvaargs"@.len());
        assert("tarray"@.len() != "tptr"@.len());
        assert("astr"@[1] != "aint"@[1]);
        assert("acons"@.len() != "aint"@.len());
        assert("acons"@.len() != "astr"@.len());
        assert("str"@[0] != "int"@[0]);
        assert("wstr"@.len() != "int"@.len());
        assert("wstr"@.len() != "str"@.len());
        assert("chr"@[0] != "int"@[0]);
        assert("chr"@[0] != "str"@[0]);
        assert("chr"@.len() != "wstr"@.len());
        assert("real"@.len() != "int"@.len());
        assert("real"@.len() != "str"@.len());
        assert("real"@[0] != "wstr"@[0]);
        assert("real"@.len() != "chr"@.len());
        assert("enum"@.len() != "int"@.len());
        assert("enum"@.len() != "str"@.len());
        assert("enum"@[0] != "wstr"@[0]);
        assert("enum"@.len() != "chr"@.len());
        assert("enum"@[0] != "real"@[0]);
        assert("f"@[0] != "n"@[0]);
        assert("i"@[0] != "n"@[0]);
        assert("i"@[0] != "f"@[0]);
    }
    let _ = reg.register(Category::Typ, String::from_str("tvoid"), VariantKind::TypVoid);
    let _ = reg.register(Category::Typ, String::from_str("tint"), VariantKind::TypInt);
    let _ = reg.register(Category::Typ, String::from_str("tfloat"), VariantKind::TypFloat);
    let _ = reg.register(Category::Typ, String::from_str("tnamed"), VariantKind::TypNamed);
    let _ = reg.register(Category::Typ, String::from_str("tcomp"), VariantKind::TypComp);
    let _ = reg.register(Category::Typ, String::from_str("tenum"), VariantKind::TypEnum);
    let _ = reg.register(Category::Typ, String::from_str("tbuiltin-va-list"), VariantKind::TypBuiltinVaargs);
    let _ = reg.register(Category::Typ, String::from_str("tbuiltinvaargs"), VariantKind::TypBuiltinVaargs);
    let _ = reg.register(Category::Typ, String::from_str("tptr"), VariantKind::TypPtr);
    let _ = reg.register(Category::Typ, String::from_str("tarray"), VariantKind::TypArray);
    let _ = reg.register(Category::AttrParam, String::from_str("aint"), VariantKind::AttrInt);
    let _ = reg.register(Category::AttrParam, String::from_str("astr"), VariantKind::AttrStr);
    let _ = reg.register(Category::AttrParam, String::from_str("acons"), VariantKind::AttrCons);
    let _ = reg.register(Category::Constant, String::from_str("int"), VariantKind::ConstInt);
    let _ = reg.register(Category::Constant, String::from_str("str"), VariantKind::ConstStr);
    let _ = reg.register(Category::Constant, String::from_str("wstr"), VariantKind::ConstWStr);
    let _ = reg.register(Category::Constant, String::from_str("chr"), VariantKind::ConstChr);
    let _ = reg.register(Category::Constant, String::from_str("real"), VariantKind::ConstReal);
    let _ = reg.register(Category::Constant, String::from_str("enum"), VariantKind::ConstEnum);
    let _ = reg.register(Category::Offset, String::from_str("n"), VariantKind::OffsetNone);
    let _ = reg.register(Category::Offset, String::from_str("f"), VariantKind::OffsetField);
    let _ = reg.register(Category::Offset, String::from_str("i"), VariantKind::OffsetIndex);
    let _ = reg.register(Category::Exp, String::from_str("const"), VariantKind::ExpConst);
    assert(reg@ =~= standard_registrations());
    reg
}

} // verus!
