use vstd::prelude::*;

use crate::error::{is_not_found, is_unknown_variant, Category, ChcError};
use crate::indexed_table::{IndexedTable, TableView};
use crate::registry::{construct_outcome, CDictionaryRegistry};
use crate::text::views_of;
use crate::variants::{CAttr, CConst, CExp, COffset, CTyp, Variant};

verus! {

/// An attribute: a name with the indices of its parameters.
#[derive(Clone, Debug)]
pub struct CAttribute {
    pub name: String,
    pub params: Vec<i64>,
}

impl CAttribute {
    pub fn length(&self) -> (r: usize)
        ensures
            r == self.params.len(),
    {
        self.params.len()
    }
}

/// A list of attributes, by their indices in the attribute table.
#[derive(Clone, Debug)]
pub struct CAttributes {
    pub attributes: Vec<i64>,
}

impl CAttributes {
    pub fn length(&self) -> (r: usize)
        ensures
            r == self.attributes.len(),
    {
        self.attributes.len()
    }
}

/// Where a type record keeps the index of its attributes, by its tag.
pub open spec fn attribute_position(tag: Seq<char>) -> Option<int> {
    if tag == "tvoid"@ || tag == "tint"@ || tag == "tfloat"@ || tag == "tnamed"@ || tag
        == "tenum"@ || tag == "tbuiltin-va-list"@ || tag == "tbuiltinvaargs"@ {
        Some(0)
    } else if tag == "tptr"@ || tag == "tcomp"@ {
        Some(1)
    } else if tag == "tarray"@ {
        Some(2)
    } else if tag == "tfun"@ {
        Some(3)
    } else {
        None
    }
}

/// `s` holds the same text as `lit`.
fn text_is(s: &String, lit: &str) -> (r: bool)
    ensures
        r == (s@ == lit@),
{
    *s == String::from_str(lit)
}

fn attribute_position_exec(tag: &String) -> (r: Option<usize>)
    ensures
        r matches Some(p) ==> attribute_position(tag@) == Some(p as int),
        r is None ==> attribute_position(tag@) is None,
{
    if text_is(tag, "tvoid") || text_is(tag, "tint") || text_is(tag, "tfloat") || text_is(
        tag,
        "tnamed",
    ) || text_is(tag, "tenum") || text_is(tag, "tbuiltin-va-list") || text_is(
        tag,
        "tbuiltinvaargs",
    ) {
        Some(0)
    } else if text_is(tag, "tptr") || text_is(tag, "tcomp") {
        Some(1)
    } else if text_is(tag, "tarray") {
        Some(2)
    } else if text_is(tag, "tfun") {
        Some(3)
    } else {
        None
    }
}

/// The result of a category getter, seen as the variant that `construct` gives.
pub open spec fn as_variant<T>(r: Result<T, ChcError>, wrap: spec_fn(T) -> Variant) -> Result<
    Variant,
    ChcError,
> {
    match r {
        Ok(t) => Ok(wrap(t)),
        Err(e) => Err(e),
    }
}

/// What a category getter gives for `ix`: the retrieval failure when the
/// table holds no record there, else what the registry builds from the record.
pub open spec fn lookup_outcome(
    table: TableView,
    reg: Map<(Category, Seq<char>), crate::variants::VariantKind>,
    category: Category,
    ix: int,
    r: Result<Variant, ChcError>,
) -> bool {
    if table.entries.contains_key(ix) {
        construct_outcome(reg, category, table.entries[ix].tags, table.entries[ix].args, r)
    } else {
        r matches Err(e) && is_not_found(e, ix, table.name, table.next - 1)
    }
}

/// The interning tables of one C source file (or of the whole program),
/// one per entity category.
pub struct CDictionary {
    pub attrparam_table: IndexedTable,
    pub attribute_table: IndexedTable,
    pub attributes_table: IndexedTable,
    pub constant_table: IndexedTable,
    pub exp_table: IndexedTable,
    pub funarg_table: IndexedTable,
    pub funargs_table: IndexedTable,
    pub lhost_table: IndexedTable,
    pub lval_table: IndexedTable,
    pub offset_table: IndexedTable,
    pub typ_table: IndexedTable,
    pub typsig_table: IndexedTable,
    pub typsiglist_table: IndexedTable,
}

impl CDictionary {
    pub open spec fn wf(&self) -> bool {
        &&& self.attrparam_table.wf()
        &&& self.attribute_table.wf()
        &&& self.attributes_table.wf()
        &&& self.constant_table.wf()
        &&& self.exp_table.wf()
        &&& self.funarg_table.wf()
        &&& self.funargs_table.wf()
        &&& self.lhost_table.wf()
        &&& self.lval_table.wf()
        &&& self.offset_table.wf()
        &&& self.typ_table.wf()
        &&& self.typsig_table.wf()
        &&& self.typsiglist_table.wf()
    }

    /// A dictionary whose tables are all empty.
    pub fn new() -> (r: Self)
        ensures
            r.wf(),
            r.typ_table@ == TableView::empty("typ-table"@),
            r.attrparam_table@ == TableView::empty("attrparam-table"@),
            r.constant_table@ == TableView::empty("constant-table"@),
            r.exp_table@ == TableView::empty("exp-table"@),
            r.offset_table@ == TableView::empty("offset-table"@),
            r.attribute_table@ == TableView::empty("attribute-table"@),
            r.attributes_table@ == TableView::empty("attributes-table"@),
            r.funarg_table@ == TableView::empty("funarg-table"@),
            r.funargs_table@ == TableView::empty("funargs-table"@),
            r.lhost_table@ == TableView::empty("lhost-table"@),
            r.lval_table@ == TableView::empty("lval-table"@),
            r.typsig_table@ == TableView::empty("typsig-table"@),
            r.typsiglist_table@ == TableView::empty("typsiglist-table"@),
    {
        CDictionary {
            attrparam_table: IndexedTable::new(String::from_str("attrparam-table")),
            attribute_table: IndexedTable::new(String::from_str("attribute-table")),
            attributes_table: IndexedTable::new(String::from_str("attributes-table")),
            constant_table: IndexedTable::new(String::from_str("constant-table")),
            exp_table: IndexedTable::new(String::from_str("exp-table")),
            funarg_table: IndexedTable::new(String::from_str("funarg-table")),
            funargs_table: IndexedTable::new(String::from_str("funargs-table")),
            lhost_table: IndexedTable::new(String::from_str("lhost-table")),
            lval_table: IndexedTable::new(String::from_str("lval-table")),
            offset_table: IndexedTable::new(String::from_str("offset-table")),
            typ_table: IndexedTable::new(String::from_str("typ-table")),
            typsig_table: IndexedTable::new(String::from_str("typsig-table")),
            typsiglist_table: IndexedTable::new(String::from_str("typsiglist-table")),
        }
    }

    fn dict_to_registry(table: &IndexedTable, reg: &CDictionaryRegistry, category: Category, ix: i64) -> (r:
        Result<Variant, ChcError>)
        requires
            table.wf(),
            reg.wf(),
        ensures
            lookup_outcome(table@, reg@, category, ix as int, r),
    {
        let record = table.retrieve(ix)?;
        reg.mk_instance(category, &record)
    }

    /// The type at `ix` of the type table.
    pub fn get_typ(&self, reg: &CDictionaryRegistry, ix: i64) -> (r: Result<CTyp, ChcError>)
        requires
            self.wf(),
            reg.wf(),
        ensures
            lookup_outcome(
                self.typ_table@,
                reg@,
                Category::Typ,
                ix as int,
                as_variant(r, |t: CTyp| Variant::Typ(t)),
            ),
    {
        match Self::dict_to_registry(&self.typ_table, reg, Category::Typ, ix) {
            Ok(Variant::Typ(t)) => Ok(t),
            Ok(_) => {
                proof {
                    reg.lemma_categories();
                }
                vstd::pervasive::unreached()
            },
            Err(e) => Err(e),
        }
    }

    /// The attribute parameter at `ix` of the attribute-parameter table.
    pub fn get_attrparam(&self, reg: &CDictionaryRegistry, ix: i64) -> (r: Result<CAttr, ChcError>)
        requires
            self.wf(),
            reg.wf(),
        ensures
            lookup_outcome(
                self.attrparam_table@,
                reg@,
                Category::AttrParam,
                ix as int,
                as_variant(r, |a: CAttr| Variant::AttrParam(a)),
            ),
    {
        match Self::dict_to_registry(&self.attrparam_table, reg, Category::AttrParam, ix) {
            Ok(Variant::AttrParam(a)) => Ok(a),
            Ok(_) => vstd::pervasive::unreached(),
            Err(e) => Err(e),
        }
    }

    /// The constant at `ix` of the constant table.
    pub fn get_constant(&self, reg: &CDictionaryRegistry, ix: i64) -> (r: Result<CConst, ChcError>)
        requires
            self.wf(),
            reg.wf(),
        ensures
            lookup_outcome(
                self.constant_table@,
                reg@,
                Category::Constant,
                ix as int,
                as_variant(r, |c: CConst| Variant::Constant(c)),
            ),
    {
        match Self::dict_to_registry(&self.constant_table, reg, Category::Constant, ix) {
            Ok(Variant::Constant(c)) => Ok(c),
            Ok(_) => vstd::pervasive::unreached(),
            Err(e) => Err(e),
        }
    }

    /// The expression at `ix` of the expression table.
    pub fn get_exp(&self, reg: &CDictionaryRegistry, ix: i64) -> (r: Result<CExp, ChcError>)
        requires
            self.wf(),
            reg.wf(),
        ensures
            lookup_outcome(
                self.exp_table@,
                reg@,
                Category::Exp,
                ix as int,
                as_variant(r, |e: CExp| Variant::Exp(e)),
            ),
    {
        match Self::dict_to_registry(&self.exp_table, reg, Category::Exp, ix) {
            Ok(Variant::Exp(e)) => Ok(e),
            Ok(_) => vstd::pervasive::unreached(),
            Err(e) => Err(e),
        }
    }

    /// The offset at `ix` of the offset table.
    pub fn get_offset(&self, reg: &CDictionaryRegistry, ix: i64) -> (r: Result<COffset, ChcError>)
        requires
            self.wf(),
            reg.wf(),
        ensures
            lookup_outcome(
                self.offset_table@,
                reg@,
                Category::Offset,
                ix as int,
                as_variant(r, |o: COffset| Variant::Offset(o)),
            ),
    {
        match Self::dict_to_registry(&self.offset_table, reg, Category::Offset, ix) {
            Ok(Variant::Offset(o)) => Ok(o),
            Ok(_) => vstd::pervasive::unreached(),
            Err(e) => Err(e),
        }
    }

    /// The attribute at `ix`: its first tag is the name, its arguments the
    /// indices of its parameters.
    pub fn get_attribute(&self, ix: i64) -> (r: Result<CAttribute, ChcError>)
        requires
            self.wf(),
        ensures
            self.attribute_table@.entries.contains_key(ix as int) && self.attribute_table@.entries[ix as int].tags.len() > 0
                ==> (r matches Ok(a) && a.name@ == self.attribute_table@.entries[ix as int].tags[0]
                && a.params@ == self.attribute_table@.entries[ix as int].args),
            self.attribute_table@.entries.contains_key(ix as int) && self.attribute_table@.entries[ix as int].tags.len() == 0
                ==> (r matches Err(e) && is_unknown_variant(e, Category::AttrParam, Seq::empty())),
            !self.attribute_table@.entries.contains_key(ix as int) ==> (r matches Err(e)
                && is_not_found(
                e,
                ix as int,
                self.attribute_table@.name,
                self.attribute_table@.next - 1,
            )),
    {
        let record = self.attribute_table.retrieve(ix)?;
        let tags = record.tags();
        if tags.len() == 0 {
            return Err(ChcError::UnknownVariant { category: Category::AttrParam, tag: String::new() });
        }
        let args = record.args();
        let params = args.clone();
        assert(params@ =~= args@);
        Ok(CAttribute { name: tags[0].clone(), params })
    }

    /// The attribute list at `ix`: its arguments are the attributes' indices.
    pub fn get_attributes(&self, ix: i64) -> (r: Result<CAttributes, ChcError>)
        requires
            self.wf(),
        ensures
            self.attributes_table@.entries.contains_key(ix as int) ==> (r matches Ok(a)
                && a.attributes@ == self.attributes_table@.entries[ix as int].args),
            !self.attributes_table@.entries.contains_key(ix as int) ==> (r matches Err(e)
                && is_not_found(
                e,
                ix as int,
                self.attributes_table@.name,
                self.attributes_table@.next - 1,
            )),
    {
        let record = self.attributes_table.retrieve(ix)?;
        let args = record.args();
        let attributes = args.clone();
        assert(attributes@ =~= args@);
        Ok(CAttributes { attributes })
    }

    /// The index of the type with these tags and arguments, interning it when new.
    pub fn mk_typ_index(&mut self, tags: Vec<String>, args: Vec<i64>) -> (r: i64)
        requires
            old(self).wf(),
            old(self).typ_table@.next < i64::MAX,
        ensures
            final(self).wf(),
            (final(self).typ_table@, r as int) == old(self).typ_table@.interned(views_of(tags@), args@),
            final(self).attrparam_table == old(self).attrparam_table,
            final(self).attribute_table == old(self).attribute_table,
            final(self).attributes_table == old(self).attributes_table,
            final(self).constant_table == old(self).constant_table,
            final(self).exp_table == old(self).exp_table,
            final(self).offset_table == old(self).offset_table,
    {
        self.typ_table.intern(tags, args)
    }

    /// The type at `ix` without its attributes. A type that has no
    /// attributes (no attribute argument, or the empty list at index 1) is
    /// returned as it is; otherwise the type with the same tags and with its
    /// last argument dropped is interned and its index returned (which is
    /// `ix` itself when that type is the same record).
    pub fn strip_attributes(&mut self, ix: i64) -> (r: Result<i64, ChcError>)
        requires
            old(self).wf(),
            old(self).typ_table@.next < i64::MAX,
        ensures
            final(self).wf(),
            ({
                let t = old(self).typ_table@;
                if !t.entries.contains_key(ix as int) {
                    r matches Err(e) && is_not_found(e, ix as int, t.name, t.next - 1)
                        && final(self).typ_table@ == t
                } else {
                    let rec = t.entries[ix as int];
                    if rec.tags.len() == 0 || attribute_position(rec.tags[0]) is None {
                        r matches Err(e) && is_unknown_variant(
                            e,
                            Category::Typ,
                            if rec.tags.len() == 0 {
                                Seq::empty()
                            } else {
                                rec.tags[0]
                            },
                        ) && final(self).typ_table@ == t
                    } else {
                        let p = attribute_position(rec.tags[0])->Some_0;
                        if p >= rec.args.len() || rec.args[p] == 1 {
                            r == Ok::<i64, ChcError>(ix) && final(self).typ_table@ == t
                        } else {
                            let (t2, i) = t.interned(rec.tags, rec.args.drop_last());
                            r == Ok::<i64, ChcError>(i as i64) && final(self).typ_table@ == t2
                        }
                    }
                }
            }),
            final(self).attributes_table == old(self).attributes_table,
            final(self).attribute_table == old(self).attribute_table,
    {
        let record = self.typ_table.retrieve(ix)?;
        let tags = record.tags();
        if tags.len() == 0 {
            return Err(ChcError::UnknownVariant { category: Category::Typ, tag: String::new() });
        }
        let p = match attribute_position_exec(&tags[0]) {
            Some(p) => p,
            None => {
                return Err(ChcError::UnknownVariant { category: Category::Typ, tag: tags[0].clone() });
            },
        };
        let args = record.args();
        if p >= args.len() || args[p] == 1 {
            return Ok(ix);
        }
        let mut newargs: Vec<i64> = Vec::new();
        let mut j: usize = 0;
        while j + 1 < args.len()
            invariant
                args.len() >= 1,
                j + 1 <= args.len(),
                newargs@ == args@.subrange(0, j as int),
            decreases args.len() - j,
        {
            newargs.push(args[j]);
            j += 1;
            assert(newargs@ =~= args@.subrange(0, j as int));
        }
        assert(newargs@ =~= args@.drop_last());
        let newtags = tags.clone();
        assert(newtags@ =~= tags@);
        Ok(self.typ_table.intern(newtags, newargs))
    }
}

} // verus!
