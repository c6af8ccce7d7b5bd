use itertools::Itertools;
use vstd::prelude::*;

verus! {

/// The character of a decimal digit `d` (0 through 9).
pub open spec fn digit_char(d: int) -> char {
    seq!['0', '1', '2', '3', '4', '5', '6', '7', '8', '9'][d]
}

/// The decimal digits of `n`, most significant first, without leading zeros.
pub open spec fn nat_digits(n: nat) -> Seq<char>
    decreases n,
{
    if n < 10 {
        seq![digit_char(n as int)]
    } else {
        nat_digits(n / 10) + seq![digit_char((n % 10) as int)]
    }
}

/// The decimal text of an integer, with a leading `-` when it is negative.
pub open spec fn decimal(i: int) -> Seq<char> {
    if i < 0 {
        seq!['-'] + nat_digits((-i) as nat)
    } else {
        nat_digits(i as nat)
    }
}

/// The parts with a comma between each two consecutive ones.
pub open spec fn join_commas(parts: Seq<Seq<char>>) -> Seq<char>
    decreases parts.len(),
{
    if parts.len() == 0 {
        Seq::empty()
    } else if parts.len() == 1 {
        parts[0]
    } else {
        join_commas(parts.drop_last()) + seq![','] + parts.last()
    }
}

/// The text of each string.
pub open spec fn views_of(strings: Seq<String>) -> Seq<Seq<char>> {
    strings.map_values(|s: String| s@)
}

/// The decimal text of each integer.
pub open spec fn decimals_of(values: Seq<i64>) -> Seq<Seq<char>> {
    values.map_values(|v: i64| decimal(v as int))
}

/// Relies on itertools::Itertools::join: the items written one after the
/// other, with the separator "," between each two consecutive ones.
#[verifier::external_body]
fn join_with_commas(parts: &Vec<String>) -> (r: String)
    ensures
        r@ == join_commas(views_of(parts@)),
{
    parts.iter().join(",")
}

fn digit_str(d: u64) -> (r: &'static str)
    requires
        d < 10,
    ensures
        r@ == seq![digit_char(d as int)],
{
    proof {
        reveal_strlit("0");
        reveal_strlit("1");
        reveal_strlit("2");
        reveal_strlit("3");
        reveal_strlit("4");
        reveal_strlit("5");
        reveal_strlit("6");
        reveal_strlit("7");
        reveal_strlit("8");
        reveal_strlit("9");
    }
    if d == 0 {
        "0"
    } else if d == 1 {
        "1"
    } else if d == 2 {
        "2"
    } else if d == 3 {
        "3"
    } else if d == 4 {
        "4"
    } else if d == 5 {
        "5"
    } else if d == 6 {
        "6"
    } else if d == 7 {
        "7"
    } else if d == 8 {
        "8"
    } else {
        "9"
    }
}

fn append_digits(s: &mut String, n: u64)
    ensures
        final(s)@ == old(s)@ + nat_digits(n as nat),
    decreases n,
{
    if n >= 10 {
        append_digits(s, n / 10);
    }
    s.append(digit_str(n % 10));
}

/// The decimal text of `i`.
pub fn decimal_string(i: i64) -> (r: String)
    ensures
        r@ == decimal(i as int),
{
    proof {
        reveal_strlit("");
        reveal_strlit("-");
    }
    if i < 0 {
        let mut s = String::from_str("-");
        let magnitude: u64 = (0i128 - i as i128) as u64;
        append_digits(&mut s, magnitude);
        s
    } else {
        let mut s = String::from_str("");
        append_digits(&mut s, i as u64);
        s
    }
}

/// The comma-joined text of a list of strings.
pub fn join_strings(parts: &Vec<String>) -> (r: String)
    ensures
        r@ == join_commas(views_of(parts@)),
{
    join_with_commas(parts)
}

/// The comma-joined decimal text of a list of integers.
pub fn join_integers(values: &Vec<i64>) -> (r: String)
    ensures
        r@ == join_commas(decimals_of(values@)),
{
    let mut texts: Vec<String> = Vec::new();
    let mut i: usize = 0;
    while i < values.len()
        invariant
            i <= values.len(),
            texts.len() == i,
            forall|j: int| 0 <= j < i ==> (#[trigger] texts@[j])@ == decimal(values@[j] as int),
        decreases values.len() - i,
    {
        texts.push(decimal_string(values[i]));
        i += 1;
    }
    assert(views_of(texts@) =~= decimals_of(values@));
    join_with_commas(&texts)
}

} // verus!
