use vstd::prelude::*;

use crate::error::ChcError;
use crate::indexed_table::{IndexedTableValue, RecordView};
use crate::text::{
    decimal, decimal_string, decimals_of, digit_char, join_commas, join_integers, join_strings,
    nat_digits, views_of,
};

verus! {

/// The pieces of `s` between commas, as `str::split(',')` gives them: the
/// empty text is one empty piece.
pub open spec fn split_commas(s: Seq<char>) -> Seq<Seq<char>>
    decreases s.len(),
{
    if s.len() == 0 {
        seq![Seq::empty()]
    } else {
        let p = split_commas(s.drop_last());
        if s.last() == ',' {
            p.push(Seq::empty())
        } else {
            p.update(p.len() - 1, p.last().push(s.last()))
        }
    }
}

pub open spec fn is_digit(c: char) -> bool {
    '0' <= c && c <= '9'
}

pub open spec fn digit_of(c: char) -> int {
    c as u32 as int - '0' as u32 as int
}

/// The value of a text of decimal digits.
pub open spec fn digits_value(s: Seq<char>) -> int
    decreases s.len(),
{
    if s.len() == 0 {
        0
    } else {
        digits_value(s.drop_last()) * 10 + digit_of(s.last())
    }
}

pub open spec fn all_digits(s: Seq<char>) -> bool {
    forall|i: int| 0 <= i < s.len() ==> is_digit(#[trigger] s[i])
}

/// The `i64` that `s` writes in decimal, with an optional sign, as
/// `str::parse::<i64>` reads it; `None` for any other text or a value out of range.
pub open spec fn parse_int(s: Seq<char>) -> Option<i64> {
    let neg = s.len() > 0 && s[0] == '-';
    let body = if s.len() > 0 && (s[0] == '-' || s[0] == '+') {
        s.drop_first()
    } else {
        s
    };
    if body.len() == 0 || !all_digits(body) {
        None
    } else {
        let v = if neg {
            -digits_value(body)
        } else {
            digits_value(body)
        };
        if i64::MIN <= v <= i64::MAX {
            Some(v as i64)
        } else {
            None
        }
    }
}

/// Each text read as an `i64`, or `None` if one is not.
pub open spec fn parse_all(parts: Seq<Seq<char>>) -> Option<Seq<i64>>
    decreases parts.len(),
{
    if parts.len() == 0 {
        Some(Seq::empty())
    } else {
        match (parse_all(parts.drop_last()), parse_int(parts.last())) {
            (Some(vs), Some(v)) => Some(vs.push(v)),
            _ => None,
        }
    }
}

/// An attribute that is left out when its text is empty.
pub open spec fn opt_text(s: Seq<char>) -> Option<Seq<char>> {
    if s.len() == 0 {
        None
    } else {
        Some(s)
    }
}

pub open spec fn opt_view(s: Option<String>) -> Option<Seq<char>> {
    match s {
        Some(x) => Some(x@),
        None => None,
    }
}

/// The `t`, `a` and `ix` attributes of a record.
pub open spec fn written(r: RecordView) -> (Option<Seq<char>>, Option<Seq<char>>, Seq<char>) {
    (opt_text(join_commas(r.tags)), opt_text(join_commas(decimals_of(r.args))), decimal(r.index))
}

/// The record that `t`, `a` and `ix` attributes describe, if they describe one.
pub open spec fn parsed(t: Option<Seq<char>>, a: Option<Seq<char>>, ix: Option<Seq<char>>) -> Option<
    RecordView,
> {
    let tags = match t {
        None => Seq::empty(),
        Some(x) => split_commas(x),
    };
    let args = match a {
        None => Some(Seq::empty()),
        Some(x) => if x.len() == 0 {
            Some(Seq::empty())
        } else {
            parse_all(split_commas(x))
        },
    };
    match (args, ix) {
        (Some(args), Some(ix)) => match parse_int(ix) {
            Some(i) => Some(RecordView { index: i as int, tags, args }),
            None => None,
        },
        _ => None,
    }
}

proof fn lemma_split_len(s: Seq<char>)
    ensures
        split_commas(s).len() >= 1,
    decreases s.len(),
{
    if s.len() > 0 {
        lemma_split_len(s.drop_last());
    }
}

/// Appending comma-free text extends the last piece.
proof fn lemma_split_append(z: Seq<char>, y: Seq<char>)
    requires
        !y.contains(','),
    ensures
        split_commas(z + y) == split_commas(z).update(
            split_commas(z).len() - 1,
            split_commas(z).last() + y,
        ),
    decreases y.len(),
{
    lemma_split_len(z);
    if y.len() == 0 {
        assert(z + y =~= z);
        assert(split_commas(z).last() + y =~= split_commas(z).last());
        assert(split_commas(z).update(split_commas(z).len() - 1, split_commas(z).last())
            =~= split_commas(z));
    } else {
        let y0 = y.drop_last();
        assert(!y0.contains(',')) by {
            if y0.contains(',') {
                let k = choose|k: int| 0 <= k < y0.len() && y0[k] == ',';
                assert(y[k] == ',');
            }
        }
        lemma_split_append(z, y0);
        assert((z + y).drop_last() =~= z + y0);
        assert(y.last() != ',') by {
            assert(y[y.len() - 1] == y.last());
        }
        lemma_split_len(z + y0);
        assert(split_commas(z).last() + y =~= (split_commas(z).last() + y0).push(y.last()));
        assert(split_commas(z + y) =~= split_commas(z).update(
            split_commas(z).len() - 1,
            split_commas(z).last() + y,
        ));
    }
}

/// Splitting the comma-joined text of comma-free parts gives the parts back.
pub(crate) proof fn lemma_split_join(parts: Seq<Seq<char>>)
    requires
        parts.len() >= 1,
        forall|i: int| 0 <= i < parts.len() ==> !(#[trigger] parts[i]).contains(','),
    ensures
        split_commas(join_commas(parts)) == parts,
    decreases parts.len(),
{
    if parts.len() == 1 {
        lemma_split_append(Seq::empty(), parts[0]);
        assert(Seq::<char>::empty() + parts[0] =~= parts[0]);
        assert(split_commas(Seq::empty()) =~= seq![Seq::<char>::empty()]);
        assert(Seq::<char>::empty() + parts[0] =~= parts[0]);
        assert(split_commas(join_commas(parts)) =~= parts);
    } else {
        let init = parts.drop_last();
        assert forall|i: int| 0 <= i < init.len() implies !(#[trigger] init[i]).contains(',') by {
            assert(init[i] == parts[i]);
        }
        lemma_split_join(init);
        let x = join_commas(init);
        let xc = x + seq![','];
        assert((xc).drop_last() =~= x);
        assert(xc.last() == ',');
        assert(split_commas(xc) == split_commas(x).push(Seq::empty()));
        assert(!parts.last().contains(',')) by {
            assert(parts[parts.len() - 1] == parts.last());
        }
        lemma_split_append(xc, parts.last());
        assert(join_commas(parts) == xc + parts.last());
        assert(Seq::<char>::empty() + parts.last() =~= parts.last());
        assert(split_commas(join_commas(parts)) =~= parts);
    }
}

proof fn lemma_digit_of_char(d: int)
    requires
        0 <= d < 10,
    ensures
        digit_of(digit_char(d)) == d,
        is_digit(digit_char(d)),
        digit_char(d) != ',' && digit_char(d) != '-' && digit_char(d) != '+',
{
    let s = seq!['0', '1', '2', '3', '4', '5', '6', '7', '8', '9'];
    assert(digit_char(d) == s[d]);
    if d == 0 { assert(s[0] == '0'); }
    else if d == 1 { assert(s[1] == '1'); }
    else if d == 2 { assert(s[2] == '2'); }
    else if d == 3 { assert(s[3] == '3'); }
    else if d == 4 { assert(s[4] == '4'); }
    else if d == 5 { assert(s[5] == '5'); }
    else if d == 6 { assert(s[6] == '6'); }
    else if d == 7 { assert(s[7] == '7'); }
    else if d == 8 { assert(s[8] == '8'); }
    else { assert(s[9] == '9'); }
}

proof fn lemma_nat_digits(n: nat)
    ensures
        nat_digits(n).len() >= 1,
        all_digits(nat_digits(n)),
        digits_value(nat_digits(n)) == n,
    decreases n,
{
    if n < 10 {
        lemma_digit_of_char(n as int);
        let s = nat_digits(n);
        assert(s.drop_last() =~= Seq::<char>::empty());
        assert(digits_value(Seq::<char>::empty()) == 0);
        assert(digits_value(s) == digits_value(s.drop_last()) * 10 + digit_of(s.last()));
        assert(s.last() == digit_char(n as int));
    } else {
        lemma_nat_digits(n / 10);
        lemma_digit_of_char((n % 10) as int);
        let s = nat_digits(n);
        assert(s.drop_last() =~= nat_digits(n / 10));
        assert(s.last() == digit_char((n % 10) as int));
        assert(digits_value(s) == digits_value(s.drop_last()) * 10 + digit_of(s.last()));
        assert((n / 10) as int * 10 + (n % 10) as int == n as int) by (nonlinear_arith);
        assert(all_digits(s)) by {
            assert forall|i: int| 0 <= i < s.len() implies is_digit(#[trigger] s[i]) by {
                if i < s.len() - 1 {
                    assert(s[i] == nat_digits(n / 10)[i]);
                }
            }
        }
    }
}

pub(crate) proof fn lemma_parse_decimal(i: int)
    requires
        i64::MIN <= i <= i64::MAX,
    ensures
        parse_int(decimal(i)) == Some(i as i64),
        !decimal(i).contains(','),
        decimal(i).len() >= 1,
{
    if i < 0 {
        let m = (-i) as nat;
        lemma_nat_digits(m);
        let s = decimal(i);
        assert(s.drop_first() =~= nat_digits(m));
        assert(!s.contains(',')) by {
            if s.contains(',') {
                let k = choose|k: int| 0 <= k < s.len() && s[k] == ',';
                if k > 0 {
                    assert(s[k] == nat_digits(m)[k - 1]);
                }
            }
        }
    } else {
        let m = i as nat;
        lemma_nat_digits(m);
        let s = decimal(i);
        assert(is_digit(s[0]));
        assert(!s.contains(',')) by {
            if s.contains(',') {
                let k = choose|k: int| 0 <= k < s.len() && s[k] == ',';
                assert(is_digit(s[k]));
            }
        }
    }
}

pub(crate) proof fn lemma_parse_decimals(args: Seq<i64>)
    ensures
        parse_all(decimals_of(args)) == Some(args),
        forall|i: int| 0 <= i < args.len() ==> !(#[trigger] decimals_of(args)[i]).contains(','),
    decreases args.len(),
{
    if args.len() > 0 {
        lemma_parse_decimals(args.drop_last());
        assert(decimals_of(args).drop_last() =~= decimals_of(args.drop_last()));
        lemma_parse_decimal(args.last() as int);
        assert(args.drop_last().push(args.last()) =~= args);
        assert forall|i: int| 0 <= i < args.len() implies !(#[trigger] decimals_of(args)[i]).contains(',') by {
            lemma_parse_decimal(args[i] as int);
        }
    }
}

pub(crate) proof fn lemma_join_empty(parts: Seq<Seq<char>>)
    ensures
        join_commas(parts).len() == 0 ==> parts.len() == 0 || (parts.len() == 1 && parts[0].len()
            == 0),
    decreases parts.len(),
{
}

/// Writing a record's attributes, reading them back and writing again gives
/// the same attributes, for a record whose tags hold no comma; the record
/// read back is the record itself unless its only tag is empty.
pub proof fn lemma_wire_round_trip(r: RecordView)
    requires
        i64::MIN <= r.index <= i64::MAX,
        forall|i: int| 0 <= i < r.tags.len() ==> !(#[trigger] r.tags[i]).contains(','),
    ensures
        ({
            let w = written(r);
            &&& parsed(w.0, w.1, Some(w.2)) is Some
            &&& written(parsed(w.0, w.1, Some(w.2))->Some_0) == w
            &&& r.tags != seq![Seq::<char>::empty()] ==> parsed(w.0, w.1, Some(w.2)) == Some(r)
        }),
{
    let w = written(r);
    lemma_parse_decimal(r.index);
    lemma_parse_decimals(r.args);
    let jt = join_commas(r.tags);
    let ja = join_commas(decimals_of(r.args));
    lemma_join_empty(r.tags);
    lemma_join_empty(decimals_of(r.args));
    // the arguments read back
    let args_read = match w.1 {
        None => Some(Seq::<i64>::empty()),
        Some(x) => if x.len() == 0 {
            Some(Seq::<i64>::empty())
        } else {
            parse_all(split_commas(x))
        },
    };
    if r.args.len() == 0 {
        assert(decimals_of(r.args) =~= Seq::<Seq<char>>::empty());
        assert(ja.len() == 0);
        assert(args_read == Some(r.args));
    } else {
        lemma_parse_decimal(r.args[0] as int);
        assert(decimals_of(r.args)[0] == decimal(r.args[0] as int));
        assert(ja.len() > 0);
        lemma_split_join(decimals_of(r.args));
        assert(args_read == Some(r.args));
    }
    // the tags read back
    let tags_read = match w.0 {
        None => Seq::<Seq<char>>::empty(),
        Some(x) => split_commas(x),
    };
    if jt.len() > 0 {
        assert(r.tags.len() >= 1);
        lemma_split_join(r.tags);
        assert(tags_read == r.tags);
    } else {
        assert(tags_read == Seq::<Seq<char>>::empty());
        if r.tags.len() == 1 {
            assert(r.tags[0] =~= Seq::<char>::empty());
            assert(r.tags =~= seq![Seq::<char>::empty()]);
        }
        assert(join_commas(tags_read).len() == 0);
    }
    let p = RecordView { index: r.index, tags: tags_read, args: r.args };
    assert(parsed(w.0, w.1, Some(w.2)) == Some(p));
    assert(written(p) == w);
    if r.tags != seq![Seq::<char>::empty()] {
        if jt.len() == 0 {
            assert(r.tags =~= Seq::<Seq<char>>::empty());
        }
        assert(p == r);
    }
}

fn split_text(s: &String) -> (r: Vec<String>)
    ensures
        views_of(r@) == split_commas(s@),
{
    let text = s.as_str();
    let n = text.unicode_len();
    let mut pieces: Vec<String> = Vec::new();
    let mut start: usize = 0;
    let mut i: usize = 0;
    assert(views_of(pieces@) =~= Seq::<Seq<char>>::empty());
    assert(s@.subrange(0, 0) =~= Seq::<char>::empty());
    assert(views_of(pieces@).push(s@.subrange(0, 0)) =~= seq![Seq::<char>::empty()]);
    while i < n
        invariant
            n == s@.len(),
            text@ == s@,
            start <= i <= n,
            views_of(pieces@).push(s@.subrange(start as int, i as int)) == split_commas(
                s@.subrange(0, i as int),
            ),
        decreases n - i,
    {
        let c = text.get_char(i);
        let ghost pre = s@.subrange(0, i as int);
        assert(s@.subrange(0, i + 1).drop_last() =~= pre);
        assert(s@.subrange(0, i + 1).last() == c);
        let ghost old_pieces = views_of(pieces@);
        if c == ',' {
            let piece = String::from_str(text.substring_char(start, i));
            pieces.push(piece);
            assert(views_of(pieces@) =~= old_pieces.push(s@.subrange(start as int, i as int)));
            assert(split_commas(s@.subrange(0, i + 1)) == split_commas(pre).push(Seq::empty()));
            assert(s@.subrange(i + 1, i + 1) =~= Seq::<char>::empty());
            assert(views_of(pieces@).push(s@.subrange(i + 1, i + 1)) =~= split_commas(
                s@.subrange(0, i + 1),
            ));
            start = i + 1;
        } else {
            proof {
                lemma_split_len(pre);
            }
            let ghost p = split_commas(pre);
            assert(p == old_pieces.push(s@.subrange(start as int, i as int)));
            assert(split_commas(s@.subrange(0, i + 1)) == p.update(p.len() - 1, p.last().push(c)));
            assert(s@.subrange(start as int, i + 1) =~= s@.subrange(start as int, i as int).push(c));
            assert(views_of(pieces@).push(s@.subrange(start as int, i + 1)) =~= split_commas(
                s@.subrange(0, i + 1),
            ));
        }
        i += 1;
    }
    let last = String::from_str(text.substring_char(start, n));
    pieces.push(last);
    assert(s@.subrange(0, n as int) =~= s@);
    assert(views_of(pieces@) =~= split_commas(s@));
    pieces
}

/// Reads a decimal `i64` with an optional sign.
pub fn parse_integer(s: &String) -> (r: Option<i64>)
    ensures
        r == parse_int(s@),
{
    let text = s.as_str();
    let n = text.unicode_len();
    let mut i: usize = 0;
    let mut neg = false;
    if n > 0 {
        let c0 = text.get_char(0);
        if c0 == '-' || c0 == '+' {
            neg = c0 == '-';
            i = 1;
        }
    }
    let ghost body = if s@.len() > 0 && (s@[0] == '-' || s@[0] == '+') {
        s@.drop_first()
    } else {
        s@
    };
    let first = i;
    assert(body =~= s@.subrange(first as int, n as int));
    if first >= n {
        return None;
    }
    let mut acc: i128 = 0;
    while i < n
        invariant
            n == s@.len(),
            text@ == s@,
            first <= i <= n,
            body == s@.subrange(first as int, n as int),
            body == (if s@.len() > 0 && (s@[0] == '-' || s@[0] == '+') {
                s@.drop_first()
            } else {
                s@
            }),
            neg == (s@.len() > 0 && s@[0] == '-'),
            all_digits(s@.subrange(first as int, i as int)),
            acc == digits_value(s@.subrange(first as int, i as int)),
            0 <= acc <= 0x8000_0000_0000_0000,
        decreases n - i,
    {
        let c = text.get_char(i);
        assert(s@.subrange(first as int, i + 1).drop_last() =~= s@.subrange(first as int, i as int));
        if !('0' <= c && c <= '9') {
            assert(body[i - first] == c);
            assert(!is_digit(body[i - first]));
            assert(!all_digits(body));
            assert(parse_int(s@) is None);
            return None;
        }
        let d = (c as u32 - '0' as u32) as i128;
        assert(digit_of(c) == d);
        let ghost next_sub = s@.subrange(first as int, i + 1);
        assert(next_sub.last() == c);
        assert(digits_value(next_sub) == digits_value(next_sub.drop_last()) * 10 + digit_of(next_sub.last()));
        acc = acc * 10 + d;
        assert(acc == digits_value(next_sub));
        assert(all_digits(s@.subrange(first as int, i + 1)));
        i += 1;
        if acc > 0x8000_0000_0000_0000 {
            proof {
                if all_digits(body) {
                    assert(body.subrange(0, (i - first) as int) =~= s@.subrange(first as int, i as int));
                    lemma_digits_grow(body, (i - first) as int);
                }
            }
            return None;
        }
    }
    assert(s@.subrange(first as int, n as int) == body);
    if neg {
        Some((0 - acc) as i64)
    } else if acc > 0x7fff_ffff_ffff_ffff {
        None
    } else {
        Some(acc as i64)
    }
}

proof fn lemma_digits_grow(s: Seq<char>, k: int)
    requires
        0 <= k <= s.len(),
        all_digits(s),
    ensures
        digits_value(s) >= digits_value(s.subrange(0, k)),
        digits_value(s.subrange(0, k)) >= 0,
    decreases s.len(),
{
    if k < s.len() {
        assert(s.drop_last().subrange(0, k) =~= s.subrange(0, k));
        assert(all_digits(s.drop_last())) by {
            assert forall|i: int| 0 <= i < s.drop_last().len() implies is_digit(#[trigger] s.drop_last()[i]) by {
                assert(s.drop_last()[i] == s[i]);
            }
        }
        lemma_digits_grow(s.drop_last(), k);
        lemma_digits_grow(s.drop_last(), s.len() - 1);
        assert(s.drop_last().subrange(0, s.len() - 1) =~= s.drop_last());
        assert(is_digit(s[s.len() - 1]));
    } else {
        assert(s.subrange(0, k) =~= s);
        if s.len() > 0 {
            assert(all_digits(s.drop_last())) by {
                assert forall|i: int| 0 <= i < s.drop_last().len() implies is_digit(#[trigger] s.drop_last()[i]) by {
                    assert(s.drop_last()[i] == s[i]);
                }
            }
            lemma_digits_grow(s.drop_last(), s.len() - 1);
            assert(s.drop_last().subrange(0, s.len() - 1) =~= s.drop_last());
            assert(is_digit(s[s.len() - 1]));
        }
    }
}

/// The `t`, `a` and `ix` attributes that persist a record: the tags joined
/// by commas, the arguments' decimal text joined by commas (each left out
/// when empty), and the decimal index.
pub fn write_rep(v: &IndexedTableValue) -> (r: (Option<String>, Option<String>, String))
    ensures
        (opt_view(r.0), opt_view(r.1), r.2@) == written(v@),
{
    let t = join_strings(v.tags());
    let a = join_integers(v.args());
    let ix = decimal_string(v.index());
    let t_attr = if t.as_str().unicode_len() == 0 {
        None
    } else {
        Some(t)
    };
    let a_attr = if a.as_str().unicode_len() == 0 {
        None
    } else {
        Some(a)
    };
    (t_attr, a_attr, ix)
}

/// The record that persisted `t`, `a` and `ix` attributes describe. A
/// missing `t` or `a` is an empty list; a missing `ix` is `MissingIndex`;
/// an index or argument that is not a decimal `i64` is `InvalidInteger`.
pub fn get_rep(t: &Option<String>, a: &Option<String>, ix: &Option<String>) -> (r: Result<
    IndexedTableValue,
    ChcError,
>)
    ensures
        match parsed(opt_view(*t), opt_view(*a), opt_view(*ix)) {
            Some(rec) => r matches Ok(v) && v@ == rec,
            None => r is Err,
        },
        ix is None ==> r matches Err(ChcError::MissingIndex) || r matches Err(
            ChcError::InvalidInteger { .. },
        ),
{
    let tags: Vec<String> = match t {
        None => Vec::new(),
        Some(x) => split_text(x),
    };
    proof {
        if t is None {
            assert(views_of(tags@) =~= Seq::<Seq<char>>::empty());
        }
    }
    let mut args: Vec<i64> = Vec::new();
    match a {
        None => {},
        Some(x) => {
            if x.as_str().unicode_len() > 0 {
                let parts = split_text(x);
                let mut j: usize = 0;
                while j < parts.len()
                    invariant
                        j <= parts.len(),
                        views_of(parts@) == split_commas(x@),
                        x@.len() > 0,
                        opt_view(*a) == Some(x@),
                        parse_all(views_of(parts@).subrange(0, j as int)) == Some(args@),
                    decreases parts.len() - j,
                {
                    let ghost pre = views_of(parts@).subrange(0, j as int);
                    assert(views_of(parts@).subrange(0, j + 1).drop_last() =~= pre);
                    match parse_integer(&parts[j]) {
                        Some(v) => {
                            args.push(v);
                            assert(views_of(parts@).subrange(0, j + 1).last() == parts@[j as int]@);
                        },
                        None => {
                            proof {
                                let pre1 = views_of(parts@).subrange(0, j + 1);
                                assert(pre1.last() == parts@[j as int]@);
                                assert(parse_all(pre1) is None);
                                lemma_parse_all_prefix(views_of(parts@), j as int + 1);
                                assert(parse_all(split_commas(x@)) is None);
                                assert(parsed(opt_view(*t), opt_view(*a), opt_view(*ix)) is None);
                            }
                            return Err(ChcError::InvalidInteger { text: parts[j].clone() });
                        },
                    }
                    j += 1;
                }
                assert(views_of(parts@).subrange(0, parts.len() as int) =~= views_of(parts@));
            }
        },
    }
    let ix_text = match ix {
        None => {
            return Err(ChcError::MissingIndex);
        },
        Some(x) => x,
    };
    match parse_integer(ix_text) {
        None => Err(ChcError::InvalidInteger { text: ix_text.clone() }),
        Some(index) => Ok(IndexedTableValue::new(index, tags, args)),
    }
}

/// A list with an unreadable element among its first `k` is unreadable.
proof fn lemma_parse_all_prefix(parts: Seq<Seq<char>>, k: int)
    requires
        0 <= k <= parts.len(),
        parse_all(parts.subrange(0, k)) is None,
    ensures
        parse_all(parts) is None,
    decreases parts.len() - k,
{
    if k < parts.len() {
        assert(parts.subrange(0, k + 1).drop_last() =~= parts.subrange(0, k));
        lemma_parse_all_prefix(parts, k + 1);
    } else {
        assert(parts.subrange(0, k) =~= parts);
    }
}

} // verus!
