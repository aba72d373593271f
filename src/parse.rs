//! Splitting and parsing of `<left><sep><right>` text pairs such as `"400x600"`
//! or `"-1.0,0.5"`.

use std::str::FromStr;
use vstd::prelude::*;
use vstd::string::*;

verus! {

/// `left` and `right` are the two sides of `s` around the first occurrence of
/// `sep`: `s` is `left`, then `sep`, then `right`, and `left` holds no `sep`.
pub open spec fn splits_at_first(s: Seq<char>, sep: char, left: Seq<char>, right: Seq<char>) -> bool {
    &&& s == left + seq![sep] + right
    &&& !left.contains(sep)
}

/// Splits `s` at the first occurrence of `separator`, or returns `None` when
/// `s` does not contain it.
pub fn split_pair<'a>(s: &'a str, separator: char) -> (r: Option<(&'a str, &'a str)>)
    ensures
        r is None <==> !s@.contains(separator),
        r matches Some((left, right)) ==> splits_at_first(s@, separator, left@, right@),
{
    let n = s.unicode_len();
    let mut i: usize = 0;
    while i < n
        invariant
            n == s@.len(),
            i <= n,
            forall|j: int| 0 <= j < i ==> s@[j] != separator,
        decreases n - i,
    {
        if s.get_char(i) == separator {
            let left = s.substring_char(0, i);
            let right = s.substring_char(i + 1, n);
            proof {
                assert(s@ =~= left@ + seq![separator] + right@);
                assert(!left@.contains(separator));
            }
            return Some((left, right));
        }
        i = i + 1;
    }
    None
}

/// Pairs two parsed fields: `Some` exactly when both are `Some`.
pub fn join_fields<T>(left: Option<T>, right: Option<T>) -> (r: Option<(T, T)>)
    ensures
        r is Some <==> (left is Some && right is Some),
        r matches Some((l, rt)) ==> left == Some(l) && right == Some(rt),
{
    match (left, right) {
        (Some(l), Some(rt)) => Some((l, rt)),
        _ => None,
    }
}

/// Relies on `FromStr::from_str` of `T` to parse one field; an `Err` becomes
/// `None`.
#[verifier::external_body]
fn parse_field<T: FromStr>(s: &str) -> (r: Option<T>) {
    T::from_str(s).ok()
}

/// Parses `s` of the form `<left><separator><right>`, where both sides parse
/// as `T` in full. Returns `None` when the separator is missing or either side
/// fails to parse (trailing characters included). The two sides are those
/// of `split_pair`; what they parse to is up to `T`'s `FromStr`, of which
/// nothing is stated here for a general `T` (see `parse_bounds` for `usize`).
pub fn parse_pair<T: FromStr>(s: &str, separator: char) -> (r: Option<(T, T)>)
    ensures
        !s@.contains(separator) ==> r is None,
{
    match split_pair(s, separator) {
        None => None,
        Some((left, right)) => join_fields(parse_field::<T>(left), parse_field::<T>(right)),
    }
}

/// Whether `s` is a non-empty run of ASCII decimal digits.
pub open spec fn is_digits(s: Seq<char>) -> bool {
    s.len() > 0 && forall|i: int| 0 <= i < s.len() ==> '0' <= #[trigger] s[i] <= '9'
}

/// The number that the decimal digits `s` spell.
pub open spec fn decimal_value(s: Seq<char>) -> nat
    decreases s.len(),
{
    if s.len() == 0 {
        0
    } else {
        decimal_value(s.drop_last()) * 10 + (s.last() as nat - '0' as nat) as nat
    }
}

/// The `usize` that `s` denotes as an unsigned decimal: an optional `+`, then
/// at least one digit, with a value that fits; `None` for any other text.
pub open spec fn usize_of_text(s: Seq<char>) -> Option<usize> {
    let digits = if s.len() > 0 && s[0] == '+' {
        s.drop_first()
    } else {
        s
    };
    if is_digits(digits) && decimal_value(digits) <= usize::MAX {
        Some(decimal_value(digits) as usize)
    } else {
        None
    }
}

/// Relies on `usize::from_str`: an optional `+` followed by decimal digits,
/// refused when empty, on any other character, or when the value overflows.
#[verifier::external_body]
fn parse_usize(s: &str) -> (r: Option<usize>)
    ensures
        r == usize_of_text(s@),
{
    s.parse::<usize>().ok()
}

/// A text splits at the first separator in only one way.
proof fn lemma_split_unique(s: Seq<char>, sep: char, l1: Seq<char>, r1: Seq<char>, l2: Seq<char>, r2: Seq<char>)
    requires
        splits_at_first(s, sep, l1, r1),
        splits_at_first(s, sep, l2, r2),
    ensures
        l1 == l2,
        r1 == r2,
{
    if l1.len() < l2.len() {
        assert(s[l1.len() as int] == sep);
        assert(l2[l1.len() as int] == sep);
        assert(l2.contains(sep));
    } else if l2.len() < l1.len() {
        assert(s[l2.len() as int] == sep);
        assert(l1[l2.len() as int] == sep);
        assert(l1.contains(sep));
    }
    assert(l1 =~= s.subrange(0, l1.len() as int));
    assert(l2 =~= s.subrange(0, l2.len() as int));
    assert(r1 =~= s.subrange(l1.len() as int + 1, s.len() as int));
    assert(r2 =~= s.subrange(l2.len() as int + 1, s.len() as int));
}

/// Whether `s` is `<width>x<height>` with `width` and `height` unsigned
/// decimals that fit in a `usize`.
pub open spec fn bounds_of_text(s: Seq<char>, width: usize, height: usize) -> bool {
    exists|left: Seq<char>, right: Seq<char>|
        splits_at_first(s, 'x', left, right) && usize_of_text(left) == Some(width)
            && usize_of_text(right) == Some(height)
}

/// Parses pixel bounds written `<width>x<height>`, such as `"400x600"`.
pub fn parse_bounds(s: &str) -> (r: Option<(usize, usize)>)
    ensures
        r matches Some((w, h)) ==> bounds_of_text(s@, w, h),
        r is None ==> forall|w: usize, h: usize| !bounds_of_text(s@, w, h),
{
    match split_pair(s, 'x') {
        None => {
            proof {
                assert forall|w: usize, h: usize| !#[trigger] bounds_of_text(s@, w, h) by {
                    if bounds_of_text(s@, w, h) {
                        let (l2, r2) = choose|l2: Seq<char>, r2: Seq<char>|
                            splits_at_first(s@, 'x', l2, r2) && usize_of_text(l2) == Some(w)
                                && usize_of_text(r2) == Some(h);
                        assert(s@[l2.len() as int] == 'x');
                    }
                }
            }
            None
        },
        Some((left, right)) => {
            let r = join_fields(parse_usize(left), parse_usize(right));
            proof {
                assert forall|w: usize, h: usize| #[trigger] bounds_of_text(s@, w, h) implies r == Some((w, h)) by {
                    let (l2, r2) = choose|l2: Seq<char>, r2: Seq<char>|
                        splits_at_first(s@, 'x', l2, r2) && usize_of_text(l2) == Some(w)
                            && usize_of_text(r2) == Some(h);
                    lemma_split_unique(s@, 'x', left@, right@, l2, r2);
                }
            }
            r
        },
    }
}

} // verus!
