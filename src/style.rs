//! Style declarations turned into box-model primitives: lengths in whole units,
//! percentages of the container, and `auto`.
use vstd::prelude::*;
use crate::value::{str_eq, Value, ValueModel};

verus! {

/// The largest magnitude a parsed length may have.
pub const MAX_UNITS: i64 = 1_000_000_000;

/// A size: absolute units, a percentage of the container, or automatic.
#[derive(Clone, Copy, Debug, PartialEq, Eq, Structural)]
pub enum Dimension {
    Points(i64),
    Percent(i64),
    Auto,
}

/// A length that cannot be automatic (padding, gap).
#[derive(Clone, Copy, Debug, PartialEq, Eq, Structural)]
pub enum LengthPercentage {
    Points(i64),
    Percent(i64),
}

/// A length that may be automatic (insets, margin).
#[derive(Clone, Copy, Debug, PartialEq, Eq, Structural)]
pub enum LengthPercentageAuto {
    Points(i64),
    Percent(i64),
    Auto,
}

pub open spec fn is_digit(c: char) -> bool {
    '0' <= c && c <= '9'
}

pub open spec fn all_digits(s: Seq<char>) -> bool {
    s.len() > 0 && forall|i: int| 0 <= i < s.len() ==> is_digit(#[trigger] s[i])
}

/// The value of a run of decimal digits.
pub open spec fn digits_value(s: Seq<char>) -> int
    decreases s.len(),
{
    if s.len() == 0 {
        0
    } else {
        digits_value(s.drop_last()) * 10 + (s.last() as int - '0' as int)
    }
}

/// The integer that `s` spells: an optional minus sign and decimal digits, of
/// magnitude at most `MAX_UNITS`.
pub open spec fn int_of(s: Seq<char>) -> Option<int> {
    if s.len() > 0 && s[0] == '-' && all_digits(s.drop_first()) {
        if digits_value(s.drop_first()) <= MAX_UNITS {
            Some(-digits_value(s.drop_first()))
        } else {
            None
        }
    } else if all_digits(s) {
        if digits_value(s) <= MAX_UNITS {
            Some(digits_value(s))
        } else {
            None
        }
    } else {
        None
    }
}

/// The number that `s` spells, its fraction dropped (rounded toward zero): an
/// integer as `int_of` reads it, optionally followed by '.' and digits.
pub open spec fn number_of(s: Seq<char>) -> Option<int> {
    match s.index_of_first('.') {
        Some(p) => if all_digits(s.subrange(p + 1, s.len() as int)) {
            int_of(s.subrange(0, p))
        } else {
            None
        },
        None => int_of(s),
    }
}

pub open spec fn ends_with(s: Seq<char>, suf: Seq<char>) -> bool {
    s.len() >= suf.len() && s.subrange(s.len() - suf.len(), s.len() as int) == suf
}

/// `s` with every trailing repetition of `suf` taken off.
pub open spec fn strip_all(s: Seq<char>, suf: Seq<char>) -> Seq<char>
    decreases s.len(),
{
    if suf.len() > 0 && ends_with(s, suf) {
        strip_all(s.subrange(0, s.len() - suf.len()), suf)
    } else {
        s
    }
}

pub open spec fn or_zero(o: Option<int>) -> i64 {
    match o {
        Some(v) => v as i64,
        None => 0,
    }
}

/// The dimension a declared value stands for.
pub open spec fn dimension_of(v: ValueModel) -> Dimension {
    match v {
        ValueModel::Text(s) => if s == "auto"@ {
            Dimension::Auto
        } else if ends_with(s, "px"@) {
            Dimension::Points(or_zero(number_of(strip_all(s, "px"@))))
        } else if ends_with(s, "%"@) {
            Dimension::Percent(or_zero(number_of(strip_all(s, "%"@))))
        } else {
            match number_of(s) {
                Some(n) => Dimension::Points(n as i64),
                None => Dimension::Auto,
            }
        },
        ValueModel::Int(n) => Dimension::Points(n as i64),
        ValueModel::Raw(s) => match number_of(s) {
            Some(n) => Dimension::Points(n as i64),
            None => Dimension::Auto,
        },
        _ => Dimension::Auto,
    }
}

/// The possibly automatic length a declared value stands for.
pub open spec fn length_auto_of(v: ValueModel) -> LengthPercentageAuto {
    match dimension_of(v) {
        Dimension::Points(n) => LengthPercentageAuto::Points(n),
        Dimension::Percent(p) => LengthPercentageAuto::Percent(p),
        Dimension::Auto => LengthPercentageAuto::Auto,
    }
}

/// The length a declared value stands for; anything unreadable is zero.
pub open spec fn length_of(v: ValueModel) -> LengthPercentage {
    match v {
        ValueModel::Text(s) => if ends_with(s, "%"@) {
            LengthPercentage::Percent(or_zero(number_of(strip_all(s, "%"@))))
        } else {
            LengthPercentage::Points(or_zero(number_of(strip_all(s, "px"@))))
        },
        ValueModel::Int(n) => LengthPercentage::Points(n as i64),
        ValueModel::Raw(s) => LengthPercentage::Points(or_zero(number_of(s))),
        _ => LengthPercentage::Points(0),
    }
}

/// Whether `s` ends with `suf`.
pub fn text_ends_with(s: &str, suf: &str) -> (r: bool)
    ensures
        r == ends_with(s@, suf@),
{
    let n = s.unicode_len();
    let m = suf.unicode_len();
    if n < m {
        return false;
    }
    let mut i: usize = 0;
    while i < m
        invariant
            n == s@.len(),
            m == suf@.len(),
            m <= n,
            i <= m,
            forall|j: int| 0 <= j < i ==> s@[n - m + j] == suf@[j],
        decreases m - i,
    {
        if s.get_char(n - m + i) != suf.get_char(i) {
            assert(s@.subrange(n - m, n as int)[i as int] != suf@[i as int]);
            return false;
        }
        i = i + 1;
    }
    assert(s@.subrange(n - m, n as int) =~= suf@);
    true
}

/// `s` with every trailing repetition of `suf` taken off.
pub fn strip_suffixes<'a>(s: &'a str, suf: &str) -> (r: &'a str)
    ensures
        r@ == strip_all(s@, suf@),
{
    let m = suf.unicode_len();
    if m == 0 {
        return s;
    }
    let mut cur = s;
    while text_ends_with(cur, suf)
        invariant
            m == suf@.len(),
            m > 0,
            strip_all(cur@, suf@) == strip_all(s@, suf@),
        decreases cur@.len(),
    {
        let n = cur.unicode_len();
        cur = cur.substring_char(0, n - m);
    }
    cur
}

proof fn lemma_digits_prefix(s: Seq<char>, i: int)
    requires
        0 <= i < s.len(),
    ensures
        digits_value(s.subrange(0, i + 1)) == digits_value(s.subrange(0, i)) * 10 + (s[i] as int
            - '0' as int),
{
    assert(s.subrange(0, i + 1).drop_last() =~= s.subrange(0, i));
}

proof fn lemma_digits_nonneg(s: Seq<char>)
    requires
        forall|i: int| 0 <= i < s.len() ==> is_digit(#[trigger] s[i]),
    ensures
        digits_value(s) >= 0,
    decreases s.len(),
{
    if s.len() > 0 {
        lemma_digits_nonneg(s.drop_last());
    }
}

/// The value of a run of digits, capped just above `MAX_UNITS`; none when a
/// character is not a digit or the run is empty.
fn digits_capped(s: &str) -> (r: Option<i64>)
    ensures
        r is Some <==> all_digits(s@),
        r matches Some(v) ==> 0 <= v && v == if digits_value(s@) <= MAX_UNITS {
            digits_value(s@)
        } else {
            MAX_UNITS + 1
        },
{
    let n = s.unicode_len();
    if n == 0 {
        return None;
    }
    let mut acc: i64 = 0;
    let mut i: usize = 0;
    while i < n
        invariant
            n == s@.len(),
            i <= n,
            forall|j: int| 0 <= j < i ==> is_digit(#[trigger] s@[j]),
            acc >= 0,
            acc == if digits_value(s@.subrange(0, i as int)) <= MAX_UNITS {
                digits_value(s@.subrange(0, i as int))
            } else {
                MAX_UNITS + 1
            },
        decreases n - i,
    {
        let c = s.get_char(i);
        if !('0' <= c && c <= '9') {
            return None;
        }
        proof {
            lemma_digits_prefix(s@, i as int);
            lemma_digits_nonneg(s@.subrange(0, i as int));
        }
        let d = (c as u32 - '0' as u32) as i64;
        if acc <= MAX_UNITS {
            let next = acc * 10 + d;
            acc = if next > MAX_UNITS {
                MAX_UNITS + 1
            } else {
                next
            };
        }
        i = i + 1;
    }
    assert(s@.subrange(0, n as int) =~= s@);
    Some(acc)
}

/// The integer that `s` spells, as `int_of` says.
pub fn parse_int(s: &str) -> (r: Option<i64>)
    ensures
        r matches Some(v) ==> int_of(s@) == Some(v as int),
        r is None <==> int_of(s@) is None,
{
    let n = s.unicode_len();
    if n > 0 && s.get_char(0) == '-' {
        let rest = s.substring_char(1, n);
        assert(rest@ =~= s@.drop_first());
        match digits_capped(rest) {
            Some(v) => if v <= MAX_UNITS {
                Some(-v)
            } else {
                None
            },
            None => None,
        }
    } else {
        proof {
            if n > 0 && all_digits(s@) {
                assert(is_digit(s@[0]));
            }
        }
        match digits_capped(s) {
            Some(v) => if v <= MAX_UNITS {
                Some(v)
            } else {
                None
            },
            None => None,
        }
    }
}

/// The number that `s` spells, as `number_of` says.
pub fn parse_number(s: &str) -> (r: Option<i64>)
    ensures
        r matches Some(v) ==> number_of(s@) == Some(v as int),
        r is None <==> number_of(s@) is None,
{
    let n = s.unicode_len();
    let mut i: usize = 0;
    while i < n
        invariant
            n == s@.len(),
            i <= n,
            forall|j: int| 0 <= j < i ==> s@[j] != '.',
        decreases n - i,
    {
        if s.get_char(i) == '.' {
            proof {
                s@.index_of_first_ensures('.');
                assert(s@.contains('.')) by {
                    assert(s@[i as int] == '.');
                }
                let f = s@.index_of_first('.')->0;
                assert(f == i);
            }
            let rest = s.substring_char(i + 1, n);
            let head = s.substring_char(0, i);
            if !all_digits_text(rest) {
                return None;
            }
            return parse_int(head);
        }
        i = i + 1;
    }
    proof {
        s@.index_of_first_ensures('.');
        if s@.contains('.') {
            let j = choose|j: int| 0 <= j < s@.len() && s@[j] == '.';
            assert(s@[j] != '.');
        }
    }
    parse_int(s)
}

fn all_digits_text(s: &str) -> (r: bool)
    ensures
        r == all_digits(s@),
{
    let n = s.unicode_len();
    if n == 0 {
        return false;
    }
    let mut i: usize = 0;
    while i < n
        invariant
            n == s@.len(),
            i <= n,
            forall|j: int| 0 <= j < i ==> is_digit(#[trigger] s@[j]),
        decreases n - i,
    {
        let c = s.get_char(i);
        if !('0' <= c && c <= '9') {
            return false;
        }
        i = i + 1;
    }
    true
}

fn parse_or_zero(s: &str) -> (r: i64)
    ensures
        r == or_zero(number_of(s@)),
{
    match parse_number(s) {
        Some(v) => v,
        None => 0,
    }
}

/// Reads a declared size: `"auto"`, `"Npx"`, `"N%"`, a bare number, or a
/// number value; a fraction is dropped; anything else is automatic.
pub fn parse_dimension(v: &Value) -> (r: Dimension)
    ensures
        r == dimension_of(v@),
{
    match v {
        Value::Text(s) => {
            let s = s.as_str();
            if str_eq(s, "auto") {
                Dimension::Auto
            } else if text_ends_with(s, "px") {
                Dimension::Points(parse_or_zero(strip_suffixes(s, "px")))
            } else if text_ends_with(s, "%") {
                Dimension::Percent(parse_or_zero(strip_suffixes(s, "%")))
            } else {
                match parse_number(s) {
                    Some(n) => Dimension::Points(n),
                    None => Dimension::Auto,
                }
            }
        },
        Value::Int(n) => Dimension::Points(*n),
        Value::Raw(s) => match parse_number(s.as_str()) {
            Some(n) => Dimension::Points(n),
            None => Dimension::Auto,
        },
        _ => Dimension::Auto,
    }
}

/// Reads a declared inset or margin.
pub fn parse_length_percentage_auto(v: &Value) -> (r: LengthPercentageAuto)
    ensures
        r == length_auto_of(v@),
{
    match parse_dimension(v) {
        Dimension::Points(n) => LengthPercentageAuto::Points(n),
        Dimension::Percent(p) => LengthPercentageAuto::Percent(p),
        Dimension::Auto => LengthPercentageAuto::Auto,
    }
}

/// Reads a declared padding or gap; anything unreadable is zero.
pub fn parse_length_percentage(v: &Value) -> (r: LengthPercentage)
    ensures
        r == length_of(v@),
{
    match v {
        Value::Text(s) => {
            let s = s.as_str();
            if text_ends_with(s, "%") {
                LengthPercentage::Percent(parse_or_zero(strip_suffixes(s, "%")))
            } else {
                LengthPercentage::Points(parse_or_zero(strip_suffixes(s, "px")))
            }
        },
        Value::Int(n) => LengthPercentage::Points(*n),
        Value::Raw(s) => LengthPercentage::Points(parse_or_zero(s.as_str())),
        _ => LengthPercentage::Points(0),
    }
}

} // verus!
