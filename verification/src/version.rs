//! Canonical `(major, minor, patch)` versions and the tolerant parser that
//! extracts them from free-form version labels.

use crate::text::{decimal_text, digit_char, push_char, push_decimal};
use std::str::FromStr;
use vstd::prelude::*;

verus! {

/// A canonical version triple. Two labels that normalise to the same triple
/// name the same release target.
#[derive(Debug, Clone, Copy, PartialEq, Eq, PartialOrd, Ord, Hash, Structural)]
pub struct SemanticVersion {
    pub major: u32,
    pub minor: u32,
    pub patch: u32,
}

/// Why a label has no canonical version.
#[derive(Debug, Clone, Copy, PartialEq, Eq, Hash, Structural)]
pub enum ParseError {
    /// The label is the empty string.
    Empty,
    /// The label holds no digit at all.
    NoMajor,
    /// A component does not fit in 32 bits.
    Overflow,
}

/// The decimal digits `'0'` to `'9'`.
pub open spec fn is_digit(c: char) -> bool {
    '0' <= c && c <= '9'
}

/// The number that a decimal digit stands for.
pub open spec fn digit_value(c: char) -> nat {
    (c as u32 - '0' as u32) as nat
}

/// Whether every character of `s` is a decimal digit.
pub open spec fn all_digits(s: Seq<char>) -> bool {
    forall|i: int| 0 <= i < s.len() ==> is_digit(#[trigger] s[i])
}

/// The number written by a sequence of decimal digits, most significant
/// first; the empty sequence writes 0.
pub open spec fn decimal_value(s: Seq<char>) -> nat
    decreases s.len(),
{
    if s.len() == 0 {
        0
    } else {
        decimal_value(s.drop_last()) * 10 + digit_value(s.last())
    }
}

/// The first position at or after `from` that holds a digit, or the length
/// of `s` when there is none.
pub open spec fn skip_non_digits(s: Seq<char>, from: int) -> int
    decreases s.len() - from,
{
    if from < 0 || from >= s.len() || is_digit(s[from]) {
        from
    } else {
        skip_non_digits(s, from + 1)
    }
}

/// The first position at or after `from` that holds no digit, or the length
/// of `s` when only digits follow.
pub open spec fn skip_digits(s: Seq<char>, from: int) -> int
    decreases s.len() - from,
{
    if from < 0 || from >= s.len() || !is_digit(s[from]) {
        from
    } else {
        skip_digits(s, from + 1)
    }
}

/// The value of the maximal run of digits that starts at `from`.
pub open spec fn run_value(s: Seq<char>, from: int) -> nat {
    decimal_value(s.subrange(from, skip_digits(s, from)))
}

/// Whether a further component starts at `at`: a dot directly followed by
/// a digit. A dot without a digit behind it belongs to the ignored suffix.
pub open spec fn component_at(s: Seq<char>, at: int) -> bool {
    0 <= at && at + 1 < s.len() && s[at] == '.' && is_digit(s[at + 1])
}

/// A component's value as the parser reports it.
pub open spec fn fit(value: nat) -> Option<u32> {
    if value <= u32::MAX {
        Some(value as u32)
    } else {
        None
    }
}

/// What a label parses to.
///
/// Leading characters up to the first digit are skipped. The first run of
/// digits is the major component. Up to two more components follow, each
/// introduced by a dot that is directly followed by a digit. Whatever comes
/// after the last component that was read is ignored.
pub open spec fn parse_spec(s: Seq<char>) -> Result<SemanticVersion, ParseError> {
    let a = skip_non_digits(s, 0);
    let b = skip_digits(s, a);
    let c = skip_digits(s, b + 1);
    if s.len() == 0 {
        Err(ParseError::Empty)
    } else if a >= s.len() {
        Err(ParseError::NoMajor)
    } else if run_value(s, a) > u32::MAX {
        Err(ParseError::Overflow)
    } else if !component_at(s, b) {
        Ok(SemanticVersion { major: run_value(s, a) as u32, minor: 0, patch: 0 })
    } else if run_value(s, b + 1) > u32::MAX {
        Err(ParseError::Overflow)
    } else if !component_at(s, c) {
        Ok(
            SemanticVersion {
                major: run_value(s, a) as u32,
                minor: run_value(s, b + 1) as u32,
                patch: 0,
            },
        )
    } else if run_value(s, c + 1) > u32::MAX {
        Err(ParseError::Overflow)
    } else {
        Ok(
            SemanticVersion {
                major: run_value(s, a) as u32,
                minor: run_value(s, b + 1) as u32,
                patch: run_value(s, c + 1) as u32,
            },
        )
    }
}

/// Whether `c` is a decimal digit.
pub fn is_digit_char(c: char) -> (r: bool)
    ensures
        r == is_digit(c),
{
    c >= '0' && c <= '9'
}

/// Appending a digit to a run multiplies its value by ten and adds the digit.
proof fn lemma_run_extends(s: Seq<char>, from: int, i: int)
    requires
        0 <= from <= i < s.len(),
    ensures
        decimal_value(s.subrange(from, i + 1)) == decimal_value(s.subrange(from, i)) * 10
            + digit_value(s[i]),
{
    assert(s.subrange(from, i + 1).drop_last() =~= s.subrange(from, i));
}

/// Finds the first digit of `raw`, whose length in characters is `n`.
fn first_digit(raw: &str, n: usize) -> (a: usize)
    requires
        n == raw@.len(),
    ensures
        a == skip_non_digits(raw@, 0),
        a <= n,
{
    let mut i: usize = 0;
    let mut found = false;
    while i < n && !found
        invariant
            i <= n,
            n == raw@.len(),
            skip_non_digits(raw@, 0) == skip_non_digits(raw@, i as int),
            found ==> i < n && is_digit(raw@[i as int]),
        decreases n - i + (if found { 0int } else { 1int }),
    {
        let c = raw.get_char(i);
        if is_digit_char(c) {
            found = true;
        } else {
            i = i + 1;
        }
    }
    i
}

/// Reads the maximal run of digits that starts at `from`. Returns where the
/// run ends and its value, or `None` for a value beyond 32 bits.
fn read_run(raw: &str, n: usize, from: usize) -> (r: (usize, Option<u32>))
    requires
        n == raw@.len(),
        from <= n,
    ensures
        r.0 == skip_digits(raw@, from as int),
        from <= r.0 <= n,
        r.1 == fit(run_value(raw@, from as int)),
{
    let mut i: usize = from;
    let mut acc: Option<u32> = Some(0);
    let mut stop = false;
    while i < n && !stop
        invariant
            from <= i <= n,
            n == raw@.len(),
            skip_digits(raw@, from as int) == skip_digits(raw@, i as int),
            stop ==> i < n && !is_digit(raw@[i as int]),
            acc == fit(decimal_value(raw@.subrange(from as int, i as int))),
        decreases n - i + (if stop { 0int } else { 1int }),
    {
        let c = raw.get_char(i);
        if is_digit_char(c) {
            let d: u32 = (c as u32) - ('0' as u32);
            proof {
                lemma_run_extends(raw@, from as int, i as int);
            }
            acc = match acc {
                Some(v) => if v <= (u32::MAX - d) / 10 {
                    Some(v * 10 + d)
                } else {
                    None
                },
                None => None,
            };
            i = i + 1;
        } else {
            stop = true;
        }
    }
    (i, acc)
}

/// Whether a dot directly followed by a digit stands at `at`.
fn starts_component(raw: &str, n: usize, at: usize) -> (r: bool)
    requires
        n == raw@.len(),
        at <= n,
    ensures
        r == component_at(raw@, at as int),
{
    if at < n && n - at > 1 {
        raw.get_char(at) == '.' && is_digit_char(raw.get_char(at + 1))
    } else {
        false
    }
}

impl SemanticVersion {
    /// Extracts the canonical version from a label.
    pub fn parse(raw: &str) -> (r: Result<SemanticVersion, ParseError>)
        ensures
            r == parse_spec(raw@),
    {
        let n = raw.unicode_len();
        if n == 0 {
            return Err(ParseError::Empty);
        }
        let a = first_digit(raw, n);
        if a >= n {
            return Err(ParseError::NoMajor);
        }
        let (b, major) = read_run(raw, n, a);
        let major = match major {
            Some(v) => v,
            None => {
                return Err(ParseError::Overflow);
            },
        };
        if !starts_component(raw, n, b) {
            return Ok(SemanticVersion { major, minor: 0, patch: 0 });
        }
        let (c, minor) = read_run(raw, n, b + 1);
        let minor = match minor {
            Some(v) => v,
            None => {
                return Err(ParseError::Overflow);
            },
        };
        if !starts_component(raw, n, c) {
            return Ok(SemanticVersion { major, minor, patch: 0 });
        }
        let (_, patch) = read_run(raw, n, c + 1);
        match patch {
            Some(v) => Ok(SemanticVersion { major, minor, patch: v }),
            None => Err(ParseError::Overflow),
        }
    }
}

impl FromStr for SemanticVersion {
    type Err = ParseError;

    fn from_str(s: &str) -> (r: Result<SemanticVersion, ParseError>)
        ensures
            r == parse_spec(s@),
    {
        SemanticVersion::parse(s)
    }
}

/// A run of digits that starts at `from` and is `len` long, with no digit
/// behind it, ends at `from + len`.
proof fn lemma_skip_digits_run(s: Seq<char>, from: int, len: int)
    requires
        0 <= from,
        0 <= len,
        from + len <= s.len(),
        forall|i: int| from <= i < from + len ==> is_digit(#[trigger] s[i]),
        from + len < s.len() ==> !is_digit(s[from + len]),
    ensures
        skip_digits(s, from) == from + len,
    decreases len,
{
    if len > 0 {
        lemma_skip_digits_run(s, from + 1, len - 1);
    }
}

/// A stretch without digits that starts at `from` and is `len` long, with a
/// digit or the end behind it, is skipped whole.
proof fn lemma_skip_non_digits_run(s: Seq<char>, from: int, len: int)
    requires
        0 <= from,
        0 <= len,
        from + len <= s.len(),
        forall|i: int| from <= i < from + len ==> !is_digit(#[trigger] s[i]),
        from + len < s.len() ==> is_digit(s[from + len]),
    ensures
        skip_non_digits(s, from) == from + len,
    decreases len,
{
    if len > 0 {
        lemma_skip_non_digits_run(s, from + 1, len - 1);
    }
}

/// The label that writes three digit runs with dots between them, behind
/// `prefix` and before `rest`.
pub open spec fn dotted_label(
    prefix: Seq<char>,
    major: Seq<char>,
    minor: Seq<char>,
    patch: Seq<char>,
    rest: Seq<char>,
) -> Seq<char> {
    prefix + major + seq!['.'] + minor + seq!['.'] + patch + rest
}

/// A label of the shape `M.N.P` parses to exactly the three numbers that
/// its digit runs write: whatever stands before the first digit and whatever
/// follows the third run changes nothing. If one of the three numbers does
/// not fit in 32 bits the label is refused as an overflow.
pub proof fn lemma_parse_dotted_triple(
    prefix: Seq<char>,
    major: Seq<char>,
    minor: Seq<char>,
    patch: Seq<char>,
    rest: Seq<char>,
)
    requires
        forall|i: int| 0 <= i < prefix.len() ==> !is_digit(#[trigger] prefix[i]),
        major.len() > 0 && all_digits(major),
        minor.len() > 0 && all_digits(minor),
        patch.len() > 0 && all_digits(patch),
        rest.len() > 0 ==> !is_digit(rest[0]),
    ensures
        parse_spec(dotted_label(prefix, major, minor, patch, rest)) == (if decimal_value(major)
            <= u32::MAX && decimal_value(minor) <= u32::MAX && decimal_value(patch) <= u32::MAX {
            Ok::<SemanticVersion, ParseError>(
                SemanticVersion {
                    major: decimal_value(major) as u32,
                    minor: decimal_value(minor) as u32,
                    patch: decimal_value(patch) as u32,
                },
            )
        } else {
            Err::<SemanticVersion, ParseError>(ParseError::Overflow)
        }),
{
    let s = dotted_label(prefix, major, minor, patch, rest);
    let a = prefix.len() as int;
    let b = a + major.len();
    let c = b + 1 + minor.len();
    let d = c + 1 + patch.len();
    assert(s.len() == d + rest.len());
    assert forall|i: int| 0 <= i < a implies !is_digit(#[trigger] s[i]) by {
        assert(s[i] == prefix[i]);
    }
    assert forall|i: int| a <= i < b implies is_digit(#[trigger] s[i]) by {
        assert(s[i] == major[i - a]);
    }
    assert(s[b] == '.');
    assert forall|i: int| b + 1 <= i < c implies is_digit(#[trigger] s[i]) by {
        assert(s[i] == minor[i - b - 1]);
    }
    assert(s[c] == '.');
    assert forall|i: int| c + 1 <= i < d implies is_digit(#[trigger] s[i]) by {
        assert(s[i] == patch[i - c - 1]);
    }
    if rest.len() > 0 {
        assert(s[d] == rest[0]);
    }
    lemma_skip_non_digits_run(s, 0, a);
    lemma_skip_digits_run(s, a, b - a);
    lemma_skip_digits_run(s, b + 1, c - b - 1);
    lemma_skip_digits_run(s, c + 1, d - c - 1);
    assert(s.subrange(a, b) =~= major);
    assert(s.subrange(b + 1, c) =~= minor);
    assert(s.subrange(c + 1, d) =~= patch);
}

/// A label with one digit run, behind `prefix` and before a `rest` that
/// starts no further component, parses to that number as the major
/// component, with minor and patch 0.
pub proof fn lemma_parse_major_only(prefix: Seq<char>, major: Seq<char>, rest: Seq<char>)
    requires
        forall|i: int| 0 <= i < prefix.len() ==> !is_digit(#[trigger] prefix[i]),
        major.len() > 0 && all_digits(major),
        rest.len() > 0 ==> !is_digit(rest[0]),
        !component_at(rest, 0),
    ensures
        parse_spec(prefix + major + rest) == (if decimal_value(major) <= u32::MAX {
            Ok::<SemanticVersion, ParseError>(
                SemanticVersion { major: decimal_value(major) as u32, minor: 0, patch: 0 },
            )
        } else {
            Err::<SemanticVersion, ParseError>(ParseError::Overflow)
        }),
{
    let s = prefix + major + rest;
    let a = prefix.len() as int;
    let b = a + major.len();
    assert forall|i: int| 0 <= i < a implies !is_digit(#[trigger] s[i]) by {
        assert(s[i] == prefix[i]);
    }
    assert forall|i: int| a <= i < b implies is_digit(#[trigger] s[i]) by {
        assert(s[i] == major[i - a]);
    }
    if rest.len() > 0 {
        assert(s[b] == rest[0]);
    }
    if rest.len() > 1 {
        assert(s[b + 1] == rest[1]);
    }
    lemma_skip_non_digits_run(s, 0, a);
    lemma_skip_digits_run(s, a, b - a);
    assert(s.subrange(a, b) =~= major);
}

/// A label with two digit runs joined by a dot, behind `prefix` and before
/// a `rest` that starts no further component, parses to the two numbers as
/// major and minor, with patch 0.
pub proof fn lemma_parse_major_minor(
    prefix: Seq<char>,
    major: Seq<char>,
    minor: Seq<char>,
    rest: Seq<char>,
)
    requires
        forall|i: int| 0 <= i < prefix.len() ==> !is_digit(#[trigger] prefix[i]),
        major.len() > 0 && all_digits(major),
        minor.len() > 0 && all_digits(minor),
        rest.len() > 0 ==> !is_digit(rest[0]),
        !component_at(rest, 0),
    ensures
        parse_spec(prefix + major + seq!['.'] + minor + rest) == (if decimal_value(major)
            <= u32::MAX && decimal_value(minor) <= u32::MAX {
            Ok::<SemanticVersion, ParseError>(
                SemanticVersion {
                    major: decimal_value(major) as u32,
                    minor: decimal_value(minor) as u32,
                    patch: 0,
                },
            )
        } else {
            Err::<SemanticVersion, ParseError>(ParseError::Overflow)
        }),
{
    let s = prefix + major + seq!['.'] + minor + rest;
    let a = prefix.len() as int;
    let b = a + major.len();
    let c = b + 1 + minor.len();
    assert forall|i: int| 0 <= i < a implies !is_digit(#[trigger] s[i]) by {
        assert(s[i] == prefix[i]);
    }
    assert forall|i: int| a <= i < b implies is_digit(#[trigger] s[i]) by {
        assert(s[i] == major[i - a]);
    }
    assert(s[b] == '.');
    assert forall|i: int| b + 1 <= i < c implies is_digit(#[trigger] s[i]) by {
        assert(s[i] == minor[i - b - 1]);
    }
    if rest.len() > 0 {
        assert(s[c] == rest[0]);
    }
    if rest.len() > 1 {
        assert(s[c + 1] == rest[1]);
    }
    lemma_skip_non_digits_run(s, 0, a);
    lemma_skip_digits_run(s, a, b - a);
    lemma_skip_digits_run(s, b + 1, c - b - 1);
    assert(s.subrange(a, b) =~= major);
    assert(s.subrange(b + 1, c) =~= minor);
}

/// The order of versions: by major, then by minor, then by patch.
pub open spec fn version_lt(a: SemanticVersion, b: SemanticVersion) -> bool {
    a.major < b.major || (a.major == b.major && (a.minor < b.minor || (a.minor == b.minor
        && a.patch < b.patch)))
}

/// The text of a version: its three components in decimal, with dots
/// between them.
pub open spec fn version_text(v: SemanticVersion) -> Seq<char> {
    decimal_text(v.major as nat) + seq!['.'] + decimal_text(v.minor as nat) + seq!['.']
        + decimal_text(v.patch as nat)
}

impl SemanticVersion {
    /// Whether this version comes before `other`.
    pub fn precedes(&self, other: &SemanticVersion) -> (r: bool)
        ensures
            r == version_lt(*self, *other),
    {
        self.major < other.major || (self.major == other.major && (self.minor < other.minor || (
        self.minor == other.minor && self.patch < other.patch)))
    }

    /// The version as text, such as `1.20.4`.
    pub fn to_string(&self) -> (r: String)
        ensures
            r@ == version_text(*self),
    {
        let mut out = String::new();
        push_decimal(&mut out, self.major as u128);
        push_char(&mut out, '.');
        push_decimal(&mut out, self.minor as u128);
        push_char(&mut out, '.');
        push_decimal(&mut out, self.patch as u128);
        assert(out@ =~= version_text(*self));
        out
    }
}

/// The order of versions is a strict total order.
pub proof fn lemma_version_order_total(a: SemanticVersion, b: SemanticVersion, c: SemanticVersion)
    ensures
        !version_lt(a, a),
        version_lt(a, b) || a == b || version_lt(b, a),
        !(version_lt(a, b) && version_lt(b, a)),
        version_lt(a, b) && version_lt(b, c) ==> version_lt(a, c),
{
}

/// The decimal text of a number is a non-empty run of digits that writes
/// the number.
pub proof fn lemma_decimal_text_value(n: nat)
    ensures
        decimal_text(n).len() > 0,
        all_digits(decimal_text(n)),
        decimal_value(decimal_text(n)) == n,
    decreases n,
{
    if n < 10 {
        let s = decimal_text(n);
        assert(s.drop_last() =~= Seq::<char>::empty());
        assert(decimal_value(s.drop_last()) == 0);
    } else {
        lemma_decimal_text_value(n / 10);
        let before = decimal_text(n / 10);
        let s = before.push(digit_char(n % 10));
        assert(s.drop_last() =~= before);
        assert forall|i: int| 0 <= i < s.len() implies is_digit(#[trigger] s[i]) by {
            if i < before.len() {
                assert(s[i] == before[i]);
            }
        }
    }
}

/// A version's text parses back to the version.
pub proof fn lemma_text_parses_back(v: SemanticVersion)
    ensures
        parse_spec(version_text(v)) == Ok::<SemanticVersion, ParseError>(v),
{
    let major = decimal_text(v.major as nat);
    let minor = decimal_text(v.minor as nat);
    let patch = decimal_text(v.patch as nat);
    lemma_decimal_text_value(v.major as nat);
    lemma_decimal_text_value(v.minor as nat);
    lemma_decimal_text_value(v.patch as nat);
    lemma_parse_dotted_triple(Seq::empty(), major, minor, patch, Seq::empty());
    assert(dotted_label(Seq::empty(), major, minor, patch, Seq::empty()) =~= version_text(v));
}

} // verus!
