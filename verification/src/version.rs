//! Debian version numbers and their order.

use apt_edsp::scenario::Version;
use vstd::prelude::*;

verus! {

/// A Debian version number, as the protocol model parses it. Opaque here: it
/// is carried around, compared and printed, never taken apart.
#[verifier::external_type_specification]
#[verifier::external_body]
pub struct ExVersion(apt_edsp::scenario::Version);

/// The text a version number was written as: what `Version::as_str` returns.
pub uninterp spec fn version_text(v: Version) -> Seq<char>;

/// The Debian order of two version numbers: negative where `a` is earlier
/// than `b`, zero where neither is earlier, positive where `a` is later.
/// This is what `Version::cmp` computes.
pub uninterp spec fn version_order(a: Version, b: Version) -> int;

/// Whether `c` is an ASCII decimal digit.
pub open spec fn is_digit(c: char) -> bool {
    '0' <= c <= '9'
}

/// Every character of `text` from `from` up to `to` is a decimal digit.
pub open spec fn all_digits(text: Seq<char>, from: int, to: int) -> bool {
    forall|k: int| from <= k < to ==> is_digit(#[trigger] text[k])
}

/// The number that the digits of `text` from `from` up to `to` write.
pub open spec fn number(text: Seq<char>, from: int, to: int) -> nat
    decreases to - from,
{
    if to <= from {
        0
    } else {
        (10 * number(text, from, to - 1) + (text[to - 1] as u32 - '0' as u32)) as nat
    }
}

/// Every number written in `text` fits in 128 bits.
pub open spec fn numbers_fit(text: Seq<char>) -> bool {
    forall|from: int, to: int|
        0 <= from <= to <= text.len() && #[trigger] all_digits(text, from, to) ==> number(
            text,
            from,
            to,
        ) <= u128::MAX
}

/// A version number that can be compared. The comparison reads each run of
/// digits as a number of 128 bits, so every number in the text has to fit.
pub open spec fn comparable(v: Version) -> bool {
    numbers_fit(version_text(v))
}

/// Digits in front do not make a number smaller.
pub proof fn lemma_number_grows(text: Seq<char>, start: int, from: int, to: int)
    requires
        0 <= start <= from <= to <= text.len(),
        all_digits(text, start, to),
    ensures
        number(text, from, to) <= number(text, start, to),
    decreases to - from,
{
    if from < to {
        lemma_number_grows(text, start, from, to - 1);
    }
}

/// `Version::as_str`: the text of the version number.
#[verifier::external_body]
pub(crate) fn version_str<'a>(v: &'a Version) -> (text: &'a str)
    ensures
        text@ == version_text(*v),
{
    v.as_str()
}

/// `Version::clone`: a copy that is the same version number in every respect.
#[verifier::external_body]
pub(crate) fn version_clone(v: &Version) -> (copy: Version)
    ensures
        copy == *v,
{
    v.clone()
}

/// `Version::cmp`, as a sign. The result is the Debian order of `a` and `b`,
/// and, the order being total, the order of `b` and `a` is its opposite.
#[verifier::external_body]
pub(crate) fn compare_versions(a: &Version, b: &Version) -> (sign: i8)
    requires
        comparable(*a),
        comparable(*b),
    ensures
        -1 <= sign <= 1,
        sign == version_order(*a, *b),
        -sign == version_order(*b, *a),
{
    match a.cmp(b) {
        std::cmp::Ordering::Less => -1,
        std::cmp::Ordering::Equal => 0,
        std::cmp::Ordering::Greater => 1,
    }
}

/// Whether the version number can be compared with others.
pub fn is_comparable(v: &Version) -> (ok: bool)
    ensures
        ok == comparable(*v),
{
    let text = version_str(v);
    let ghost chars = text@;
    let ghost mut start: int = 0;
    let mut value: u128 = 0;
    for c in it: text.chars()
        invariant
            chars == text@,
            chars == version_text(*v),
            it.seq() == chars,
            0 <= start <= it.index(),
            all_digits(chars, start, it.index() as int),
            start > 0 ==> !is_digit(chars[start - 1]),
            value == number(chars, start, it.index() as int),
            forall|from: int, to: int|
                0 <= from <= to <= it.index() && #[trigger] all_digits(chars, from, to) ==> number(
                    chars,
                    from,
                    to,
                ) <= u128::MAX,
    {
        let ghost seen = it.index() as int;
        assert(seen < chars.len() && c == chars[seen]);
        if '0' <= c && c <= '9' {
            let digit = (c as u32 - '0' as u32) as u128;
            if value > (u128::MAX - digit) / 10 {
                assert(all_digits(chars, start, seen + 1));
                assert(number(chars, start, seen + 1) > u128::MAX);
                return false;
            }
            value = value * 10 + digit;
        } else {
            value = 0;
            proof {
                start = seen + 1;
            }
        }
        proof {
            let now = seen + 1;
            assert forall|from: int, to: int|
                0 <= from <= to <= now && #[trigger] all_digits(chars, from, to) implies number(
                chars,
                from,
                to,
            ) <= u128::MAX by {
                if to == now && from < to {
                    assert(is_digit(chars[seen]));
                    if from < start {
                        assert(is_digit(chars[start - 1]));
                    }
                    lemma_number_grows(chars, start, from, to);
                }
            }
        }
    }
    true
}

} // verus!
