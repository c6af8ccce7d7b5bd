use vstd::prelude::*;

use crate::error::Category;

verus! {

/// A C type, read from a record of the type table.
/// `attrs` is the index of the type's attributes, when the record has one.
#[derive(Clone, Debug)]
pub enum CTyp {
    Void { attrs: Option<i64> },
    Int { ikind: String, attrs: Option<i64> },
    Float { fkind: String, attrs: Option<i64> },
    Named { name: String, attrs: Option<i64> },
    Comp { ckey: i64, attrs: Option<i64> },
    Enum { name: String, attrs: Option<i64> },
    BuiltinVaargs { attrs: Option<i64> },
    Ptr { target: i64, attrs: Option<i64> },
    Array { base: i64, size_exp: Option<i64>, attrs: Option<i64> },
}

/// An attribute parameter.
#[derive(Clone, Debug)]
pub enum CAttr {
    Int { value: i64 },
    Str { string_index: i64 },
    Cons { name: String, params: Vec<i64> },
}

/// A constant.
#[derive(Clone, Debug)]
pub enum CConst {
    /// The value as written, and the integer kind.
    Int { text: String, ikind: String },
    Str { string_index: i64 },
    /// The wide characters, each as the text of an integer.
    WStr { values: Vec<String> },
    Chr { code: i64 },
    /// The value as written, and the float kind.
    Real { text: String, fkind: String },
    Enum { enum_name: String, item_name: String, exp: i64 },
}

/// An offset into an lvalue.
#[derive(Clone, Debug)]
pub enum COffset {
    NoOffset,
    Field { fieldname: String, ckey: i64, sub: i64 },
    Index { exp: i64, sub: i64 },
}

/// An expression.
#[derive(Clone, Debug)]
pub enum CExp {
    Const { constant: i64 },
}

/// The concrete variant that a registry constructor builds.
#[derive(Clone, Debug)]
pub enum Variant {
    AttrParam(CAttr),
    Constant(CConst),
    Exp(CExp),
    Offset(COffset),
    Typ(CTyp),
}

/// The constructor that a registry entry stands for: one per concrete variant.
#[derive(Clone, Copy, Debug, PartialEq, Eq, Structural)]
pub enum VariantKind {
    TypVoid,
    TypInt,
    TypFloat,
    TypNamed,
    TypComp,
    TypEnum,
    TypBuiltinVaargs,
    TypPtr,
    TypArray,
    AttrInt,
    AttrStr,
    AttrCons,
    ConstInt,
    ConstStr,
    ConstWStr,
    ConstChr,
    ConstReal,
    ConstEnum,
    OffsetNone,
    OffsetField,
    OffsetIndex,
    ExpConst,
}

/// The category whose tag space the constructor belongs to.
pub open spec fn kind_category(k: VariantKind) -> Category {
    match k {
        VariantKind::TypVoid | VariantKind::TypInt | VariantKind::TypFloat | VariantKind::TypNamed
        | VariantKind::TypComp | VariantKind::TypEnum | VariantKind::TypBuiltinVaargs
        | VariantKind::TypPtr | VariantKind::TypArray => Category::Typ,
        VariantKind::AttrInt | VariantKind::AttrStr | VariantKind::AttrCons => Category::AttrParam,
        VariantKind::ConstInt | VariantKind::ConstStr | VariantKind::ConstWStr
        | VariantKind::ConstChr | VariantKind::ConstReal | VariantKind::ConstEnum => Category::Constant,
        VariantKind::OffsetNone | VariantKind::OffsetField | VariantKind::OffsetIndex => Category::Offset,
        VariantKind::ExpConst => Category::Exp,
    }
}

/// The number of tags the constructor reads (the discriminant tag included).
pub open spec fn kind_tags(k: VariantKind) -> nat {
    match k {
        VariantKind::TypInt | VariantKind::TypFloat | VariantKind::TypNamed | VariantKind::TypEnum
        | VariantKind::AttrCons | VariantKind::OffsetField => 2,
        VariantKind::ConstInt | VariantKind::ConstReal | VariantKind::ConstEnum => 3,
        _ => 1,
    }
}

/// The number of arguments the constructor reads at least.
pub open spec fn kind_args(k: VariantKind) -> nat {
    match k {
        VariantKind::TypComp | VariantKind::TypPtr | VariantKind::AttrInt | VariantKind::AttrStr
        | VariantKind::ConstStr | VariantKind::ConstChr | VariantKind::ConstEnum
        | VariantKind::ExpConst => 1,
        VariantKind::TypArray | VariantKind::OffsetField | VariantKind::OffsetIndex => 2,
        _ => 0,
    }
}

impl VariantKind {
    pub fn category(&self) -> (r: Category)
        ensures
            r == kind_category(*self),
    {
        match self {
            VariantKind::TypVoid | VariantKind::TypInt | VariantKind::TypFloat
            | VariantKind::TypNamed | VariantKind::TypComp | VariantKind::TypEnum
            | VariantKind::TypBuiltinVaargs | VariantKind::TypPtr | VariantKind::TypArray => Category::Typ,
            VariantKind::AttrInt | VariantKind::AttrStr | VariantKind::AttrCons => Category::AttrParam,
            VariantKind::ConstInt | VariantKind::ConstStr | VariantKind::ConstWStr
            | VariantKind::ConstChr | VariantKind::ConstReal | VariantKind::ConstEnum => Category::Constant,
            VariantKind::OffsetNone | VariantKind::OffsetField | VariantKind::OffsetIndex => Category::Offset,
            VariantKind::ExpConst => Category::Exp,
        }
    }

    pub fn tag_count(&self) -> (r: usize)
        ensures
            r == kind_tags(*self),
    {
        match self {
            VariantKind::TypInt | VariantKind::TypFloat | VariantKind::TypNamed
            | VariantKind::TypEnum | VariantKind::AttrCons | VariantKind::OffsetField => 2,
            VariantKind::ConstInt | VariantKind::ConstReal | VariantKind::ConstEnum => 3,
            _ => 1,
        }
    }

    pub fn arg_count(&self) -> (r: usize)
        ensures
            r == kind_args(*self),
    {
        match self {
            VariantKind::TypComp | VariantKind::TypPtr | VariantKind::AttrInt
            | VariantKind::AttrStr | VariantKind::ConstStr | VariantKind::ConstChr
            | VariantKind::ConstEnum | VariantKind::ExpConst => 1,
            VariantKind::TypArray | VariantKind::OffsetField | VariantKind::OffsetIndex => 2,
            _ => 0,
        }
    }
}

/// The argument at `i`, if the record has one.
pub open spec fn opt_arg(args: Seq<i64>, i: int) -> Option<i64> {
    if 0 <= i < args.len() {
        Some(args[i])
    } else {
        None
    }
}

/// The category of a built variant.
pub open spec fn variant_category(v: Variant) -> Category {
    match v {
        Variant::AttrParam(_) => Category::AttrParam,
        Variant::Constant(_) => Category::Constant,
        Variant::Exp(_) => Category::Exp,
        Variant::Offset(_) => Category::Offset,
        Variant::Typ(_) => Category::Typ,
    }
}

/// `t` is the type that constructor `k` reads from a record with these tags and arguments.
pub open spec fn typ_built(t: CTyp, k: VariantKind, tags: Seq<Seq<char>>, args: Seq<i64>) -> bool {
    match t {
        CTyp::Void { attrs } => k == VariantKind::TypVoid && attrs == opt_arg(args, 0),
        CTyp::Int { ikind, attrs } => k == VariantKind::TypInt && ikind@ == tags[1] && attrs
            == opt_arg(args, 0),
        CTyp::Float { fkind, attrs } => k == VariantKind::TypFloat && fkind@ == tags[1] && attrs
            == opt_arg(args, 0),
        CTyp::Named { name, attrs } => k == VariantKind::TypNamed && name@ == tags[1] && attrs
            == opt_arg(args, 0),
        CTyp::Comp { ckey, attrs } => k == VariantKind::TypComp && ckey == args[0] && attrs
            == opt_arg(args, 1),
        CTyp::Enum { name, attrs } => k == VariantKind::TypEnum && name@ == tags[1] && attrs
            == opt_arg(args, 0),
        CTyp::BuiltinVaargs { attrs } => k == VariantKind::TypBuiltinVaargs && attrs == opt_arg(
            args,
            0,
        ),
        CTyp::Ptr { target, attrs } => k == VariantKind::TypPtr && target == args[0] && attrs
            == opt_arg(args, 1),
        CTyp::Array { base, size_exp, attrs } => k == VariantKind::TypArray && base == args[0]
            && size_exp == (if args[1] >= 0 {
            Some(args[1])
        } else {
            None
        }) && attrs == opt_arg(args, 2),
    }
}

/// `v` is the variant that constructor `k` reads from a record with these tags and arguments.
pub open spec fn variant_built(v: Variant, k: VariantKind, tags: Seq<Seq<char>>, args: Seq<i64>) -> bool {
    match v {
        Variant::Typ(t) => typ_built(t, k, tags, args),
        Variant::AttrParam(a) => match a {
            CAttr::Int { value } => k == VariantKind::AttrInt && value == args[0],
            CAttr::Str { string_index } => k == VariantKind::AttrStr && string_index == args[0],
            CAttr::Cons { name, params } => k == VariantKind::AttrCons && name@ == tags[1]
                && params@ == args,
        },
        Variant::Constant(c) => match c {
            CConst::Int { text, ikind } => k == VariantKind::ConstInt && text@ == tags[1] && ikind@
                == tags[2],
            CConst::Str { string_index } => k == VariantKind::ConstStr && string_index == args[0],
            CConst::WStr { values } => k == VariantKind::ConstWStr && values@.map_values(
                |s: String| s@,
            ) == tags.subrange(1, tags.len() as int),
            CConst::Chr { code } => k == VariantKind::ConstChr && code == args[0],
            CConst::Real { text, fkind } => k == VariantKind::ConstReal && text@ == tags[1]
                && fkind@ == tags[2],
            CConst::Enum { enum_name, item_name, exp } => k == VariantKind::ConstEnum
                && enum_name@ == tags[1] && item_name@ == tags[2] && exp == args[0],
        },
        Variant::Offset(o) => match o {
            COffset::NoOffset => k == VariantKind::OffsetNone,
            COffset::Field { fieldname, ckey, sub } => k == VariantKind::OffsetField && fieldname@
                == tags[1] && ckey == args[0] && sub == args[1],
            COffset::Index { exp, sub } => k == VariantKind::OffsetIndex && exp == args[0] && sub
                == args[1],
        },
        Variant::Exp(e) => match e {
            CExp::Const { constant } => k == VariantKind::ExpConst && constant == args[0],
        },
    }
}

fn opt_arg_exec(args: &Vec<i64>, i: usize) -> (r: Option<i64>)
    ensures
        r == opt_arg(args@, i as int),
{
    if i < args.len() {
        Some(args[i])
    } else {
        None
    }
}

/// Builds the variant of constructor `k` from a record that has at least the
/// tags and arguments that `k` reads.
pub fn build_variant(k: VariantKind, tags: &Vec<String>, args: &Vec<i64>) -> (r: Variant)
    requires
        tags.len() >= kind_tags(k),
        args.len() >= kind_args(k),
    ensures
        variant_built(r, k, tags@.map_values(|s: String| s@), args@),
        variant_category(r) == kind_category(k),
{
    let ghost tv = tags@.map_values(|s: String| s@);
    match k {
        VariantKind::TypVoid => Variant::Typ(CTyp::Void { attrs: opt_arg_exec(args, 0) }),
        VariantKind::TypInt => Variant::Typ(
            CTyp::Int { ikind: tags[1].clone(), attrs: opt_arg_exec(args, 0) },
        ),
        VariantKind::TypFloat => Variant::Typ(
            CTyp::Float { fkind: tags[1].clone(), attrs: opt_arg_exec(args, 0) },
        ),
        VariantKind::TypNamed => Variant::Typ(
            CTyp::Named { name: tags[1].clone(), attrs: opt_arg_exec(args, 0) },
        ),
        VariantKind::TypComp => Variant::Typ(
            CTyp::Comp { ckey: args[0], attrs: opt_arg_exec(args, 1) },
        ),
        VariantKind::TypEnum => Variant::Typ(
            CTyp::Enum { name: tags[1].clone(), attrs: opt_arg_exec(args, 0) },
        ),
        VariantKind::TypBuiltinVaargs => Variant::Typ(
            CTyp::BuiltinVaargs { attrs: opt_arg_exec(args, 0) },
        ),
        VariantKind::TypPtr => Variant::Typ(
            CTyp::Ptr { target: args[0], attrs: opt_arg_exec(args, 1) },
        ),
        VariantKind::TypArray => {
            let size_exp = if args[1] >= 0 {
                Some(args[1])
            } else {
                None
            };
            Variant::Typ(CTyp::Array { base: args[0], size_exp, attrs: opt_arg_exec(args, 2) })
        },
        VariantKind::AttrInt => Variant::AttrParam(CAttr::Int { value: args[0] }),
        VariantKind::AttrStr => Variant::AttrParam(CAttr::Str { string_index: args[0] }),
        VariantKind::AttrCons => {
            let params = args.clone();
            assert(params@ =~= args@);
            Variant::AttrParam(CAttr::Cons { name: tags[1].clone(), params })
        },
        VariantKind::ConstInt => Variant::Constant(
            CConst::Int { text: tags[1].clone(), ikind: tags[2].clone() },
        ),
        VariantKind::ConstStr => Variant::Constant(CConst::Str { string_index: args[0] }),
        VariantKind::ConstWStr => {
            let mut values: Vec<String> = Vec::new();
            let mut i: usize = 1;
            while i < tags.len()
                invariant
                    1 <= i <= tags.len(),
                    values.len() == i - 1,
                    forall|j: int| 0 <= j < values.len() ==> (#[trigger] values@[j])@ == tags@[j + 1]@,
                decreases tags.len() - i,
            {
                values.push(tags[i].clone());
                i += 1;
            }
            assert(values@.map_values(|s: String| s@) =~= tv.subrange(1, tv.len() as int));
            Variant::Constant(CConst::WStr { values })
        },
        VariantKind::ConstChr => Variant::Constant(CConst::Chr { code: args[0] }),
        VariantKind::ConstReal => Variant::Constant(
            CConst::Real { text: tags[1].clone(), fkind: tags[2].clone() },
        ),
        VariantKind::ConstEnum => Variant::Constant(
            CConst::Enum {
                enum_name: tags[1].clone(),
                item_name: tags[2].clone(),
                exp: args[0],
            },
        ),
        VariantKind::OffsetNone => Variant::Offset(COffset::NoOffset),
        VariantKind::OffsetField => Variant::Offset(
            COffset::Field { fieldname: tags[1].clone(), ckey: args[0], sub: args[1] },
        ),
        VariantKind::OffsetIndex => Variant::Offset(COffset::Index { exp: args[0], sub: args[1] }),
        VariantKind::ExpConst => Variant::Exp(CExp::Const { constant: args[0] }),
    }
}

} // verus!
