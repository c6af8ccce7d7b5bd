use vstd::prelude::*;

verus! {

/// The entity categories of a dictionary that the variant registry
/// dispatches on.
#[derive(Clone, Copy, Debug, PartialEq, Eq, Structural)]
pub enum Category {
    AttrParam,
    Constant,
    Exp,
    Offset,
    Typ,
}

/// The failures of the dictionary core. Each one signals that an invariant of
/// the calling algorithm was broken; none of them is retried.
#[derive(Clone, Debug)]
pub enum ChcError {
    /// Retrieval of an index that holds no committed record.
    NotFound { index: i64, table: String, size: i64 },
    /// A record with fewer tags or arguments than its variant reads.
    ShapeMismatch {
        tag: String,
        expected_tags: usize,
        expected_args: usize,
        actual_tags: usize,
        actual_args: usize,
    },
    /// No constructor is registered for the category and tag.
    UnknownVariant { category: Category, tag: String },
    /// A second constructor for a category and tag that already has one.
    DuplicateVariant { category: Category, tag: String },
    /// A constructor registered under a category it does not build.
    MisplacedVariant { category: Category, tag: String },
    /// A checkpoint set while one is pending, or a reset without one.
    CheckpointMisuse { checkpoint: Option<i64> },
    /// A commit of an index that is not reserved.
    ReserveMisuse { index: i64 },
    /// A definition recorded for a file that holds no reference to the global id.
    UnreferencedDefinition { gvid: i64, fid: i64 },
    /// A table whose next index would no longer fit in an `i64`.
    TableFull { table: String },
    /// A persisted record without its index.
    MissingIndex,
    /// A persisted index or argument that is not an `i64` in decimal.
    InvalidInteger { text: String },
}

/// `e` is the retrieval failure for `index` in the table named `name` of size `size`.
pub open spec fn is_not_found(e: ChcError, index: int, name: Seq<char>, size: int) -> bool {
    match e {
        ChcError::NotFound { index: i, table: t, size: s } => i == index && t@ == name && s
            == size,
        _ => false,
    }
}

/// `e` is the lookup failure for `tag` in `category`.
pub open spec fn is_unknown_variant(e: ChcError, category: Category, tag: Seq<char>) -> bool {
    match e {
        ChcError::UnknownVariant { category: c, tag: t } => c == category && t@ == tag,
        _ => false,
    }
}

} // verus!
