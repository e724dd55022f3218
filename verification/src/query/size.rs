//! Size predicate parsing and matching (`size:` filter).

use vstd::prelude::*;

use crate::error::{FilesystemError, Result};
use crate::strings::{
    concat_strs, debug_quoted, lemma_lookup_names_in, lookup_names, lookup_table, table_view, strs_views,
    chars_of, contains_seq, find_seq, first_index, first_occurrence_from, is_ws, lemma_first_index,
    lower_chars, lower_seq, starts_with, sub_chars, trim, trim_chars, trim_end, trim_start,
};

verus! {

/// Comparison operator of a size predicate.
#[derive(Debug, Clone, Copy, PartialEq, Eq, Structural)]
pub enum SizeComparisonOp {
    Lt,
    Lte,
    Gt,
    Gte,
    Eq,
    Ne,
}

/// The shape of a size predicate.
#[derive(Debug, Clone, Copy, PartialEq, Eq, Structural)]
pub enum SizePredicateKind {
    Comparison { op: SizeComparisonOp, value: u64 },
    Range { min: Option<u64>, max: Option<u64> },
}

/// A parsed size predicate for filtering by file size.
#[derive(Debug, Clone, Copy, PartialEq, Eq, Structural)]
pub struct SizePredicate {
    pub kind: SizePredicateKind,
}

/// Whether a size satisfies a predicate.
pub open spec fn size_satisfies(p: SizePredicate, value: u64) -> bool {
    match p.kind {
        SizePredicateKind::Comparison { op, value: right } => match op {
            SizeComparisonOp::Lt => value < right,
            SizeComparisonOp::Lte => value <= right,
            SizeComparisonOp::Gt => value > right,
            SizeComparisonOp::Gte => value >= right,
            SizeComparisonOp::Eq => value == right,
            SizeComparisonOp::Ne => value != right,
        },
        SizePredicateKind::Range { min, max } => (match min {
            Some(m) => value >= m,
            None => true,
        }) && (match max {
            Some(m) => value <= m,
            None => true,
        }),
    }
}

/// The comparison operator a predicate text starts with and its length:
/// `<=`, `>=`, `!=`, `<`, `>`, `=` are tried in that order.
pub open spec fn comparison_prefix(t: Seq<char>) -> Option<(u8, nat)> {
    if t.len() >= 2 && t[0] == '<' && t[1] == '=' {
        Some((1u8, 2nat))
    } else if t.len() >= 2 && t[0] == '>' && t[1] == '=' {
        Some((3u8, 2nat))
    } else if t.len() >= 2 && t[0] == '!' && t[1] == '=' {
        Some((5u8, 2nat))
    } else if t.len() >= 1 && t[0] == '<' {
        Some((0u8, 1nat))
    } else if t.len() >= 1 && t[0] == '>' {
        Some((2u8, 1nat))
    } else if t.len() >= 1 && t[0] == '=' {
        Some((4u8, 1nat))
    } else {
        None
    }
}

/// A leading comparison operator and the trimmed operand after it; none
/// when the operand is empty.
pub open spec fn split_comparison(t: Seq<char>) -> Option<(u8, Seq<char>)> {
    match comparison_prefix(t) {
        None => None,
        Some((k, n)) => {
            let v = trim(t.subrange(n as int, t.len() as int));
            if v.len() == 0 {
                None
            } else {
                Some((k, v))
            }
        },
    }
}

/// Operator code to size operator: 0 `<`, 1 `<=`, 2 `>`, 3 `>=`, 4 `=`, 5 `!=`.
pub open spec fn size_op_of(k: u8) -> SizeComparisonOp {
    if k == 0 {
        SizeComparisonOp::Lt
    } else if k == 1 {
        SizeComparisonOp::Lte
    } else if k == 2 {
        SizeComparisonOp::Gt
    } else if k == 3 {
        SizeComparisonOp::Gte
    } else if k == 4 {
        SizeComparisonOp::Eq
    } else {
        SizeComparisonOp::Ne
    }
}

/// The trimmed texts around the first `..`; none when both are empty.
pub open spec fn split_range(t: Seq<char>) -> Option<(Seq<char>, Seq<char>)> {
    if contains_seq(t, seq!['.', '.']) {
        let i = first_index(t, seq!['.', '.']);
        let a = trim(t.subrange(0, i));
        let b = trim(t.subrange(i + 2, t.len() as int));
        if a.len() == 0 && b.len() == 0 {
            None
        } else {
            Some((a, b))
        }
    } else {
        None
    }
}

/// Finds a leading comparison operator.
pub fn parse_comparison(t: &Vec<char>) -> (r: Option<(u8, Vec<char>)>)
    ensures
        match r {
            Some((k, v)) => split_comparison(t@) == Some((k, v@)),
            None => split_comparison(t@) is None,
        },
{
    let n: usize = if t.len() >= 2 && t[0] == '<' && t[1] == '=' {
        2
    } else if t.len() >= 2 && t[0] == '>' && t[1] == '=' {
        2
    } else if t.len() >= 2 && t[0] == '!' && t[1] == '=' {
        2
    } else if t.len() >= 1 && (t[0] == '<' || t[0] == '>' || t[0] == '=') {
        1
    } else {
        0
    };
    let k: u8 = if n == 2 {
        if t[0] == '<' {
            1
        } else if t[0] == '>' {
            3
        } else {
            5
        }
    } else if n == 1 {
        if t[0] == '<' {
            0
        } else if t[0] == '>' {
            2
        } else {
            4
        }
    } else {
        0
    };
    proof {
        if n == 0 {
            assert(comparison_prefix(t@) is None);
        } else {
            assert(comparison_prefix(t@) == Some((k, n as nat)));
        }
    }
    if n == 0 {
        return None;
    }
    let rest = sub_chars(t, n, t.len());
    let v = trim_chars(&rest);
    if v.len() == 0 {
        None
    } else {
        Some((k, v))
    }
}

/// Finds a `start..end` range.
pub fn parse_range(t: &Vec<char>) -> (r: Option<(Vec<char>, Vec<char>)>)
    ensures
        match r {
            Some((a, b)) => split_range(t@) == Some((a@, b@)),
            None => split_range(t@) is None,
        },
{
    let dots: Vec<char> = vec!['.', '.'];
    assert(dots@ =~= seq!['.', '.']);
    match find_seq(t, &dots) {
        None => None,
        Some(i) => {
            proof {
                lemma_first_index(t@, dots@, i as int);
            }
            assert(i + 2 <= t.len());
            let before = sub_chars(t, 0, i);
            let a = trim_chars(&before);
            let after = sub_chars(t, i + 2, t.len());
            let b = trim_chars(&after);
            if a.len() == 0 && b.len() == 0 {
                None
            } else {
                Some((a, b))
            }
        },
    }
}


/// The units a size literal may carry and their multipliers.
pub open spec fn unit_table() -> Seq<(Seq<Seq<char>>, u64)> {
    seq![
        (seq![""@, "b"@, "byte"@, "bytes"@], 1u64),
        (seq!["k"@, "kb"@, "kib"@, "kilobyte"@, "kilobytes"@], 1024u64),
        (seq!["m"@, "mb"@, "mib"@, "megabyte"@, "megabytes"@], 1048576u64),
        (seq!["g"@, "gb"@, "gib"@, "gigabyte"@, "gigabytes"@], 1073741824u64),
        (seq!["t"@, "tb"@, "tib"@, "terabyte"@, "terabytes"@], 1099511627776u64),
        (seq!["p"@, "pb"@, "pib"@, "petabyte"@, "petabytes"@], 1125899906842624u64),
    ]
}

/// The multiplier of a unit (case-insensitive, surrounding whitespace ignored).
pub open spec fn unit_multiplier(unit: Seq<char>) -> Option<u64> {
    lookup_names(unit_table(), lower_seq(trim(unit)), 0)
}

/// The named size classes and their inclusive byte bounds.
pub open spec fn keyword_table() -> Seq<(Seq<Seq<char>>, (Option<u64>, Option<u64>))> {
    seq![
        (seq!["empty"@], (Some(0u64), Some(0u64))),
        (seq!["tiny"@], (Some(0u64), Some(10240u64))),
        (seq!["small"@], (Some(10241u64), Some(102400u64))),
        (seq!["medium"@], (Some(102401u64), Some(1048576u64))),
        (seq!["large"@], (Some(1048577u64), Some(16777216u64))),
        (seq!["huge"@], (Some(16777217u64), Some(134217728u64))),
        (seq!["gigantic"@, "giant"@], (Some(134217729u64), None)),
    ]
}

/// The bounds of a size keyword (case-insensitive).
pub open spec fn size_keyword(raw: Seq<char>) -> Option<(Option<u64>, Option<u64>)> {
    lookup_names(keyword_table(), lower_seq(trim(raw)), 0)
}

fn unit_table_exec() -> (t: Vec<(Vec<&'static str>, u64)>)
    ensures
        table_view(t@) == unit_table(),
{
    let mut t: Vec<(Vec<&'static str>, u64)> = Vec::new();
    t.push((vec!["", "b", "byte", "bytes"], 1));
    t.push((vec!["k", "kb", "kib", "kilobyte", "kilobytes"], 1024));
    t.push((vec!["m", "mb", "mib", "megabyte", "megabytes"], 1048576));
    t.push((vec!["g", "gb", "gib", "gigabyte", "gigabytes"], 1073741824));
    t.push((vec!["t", "tb", "tib", "terabyte", "terabytes"], 1099511627776));
    t.push((vec!["p", "pb", "pib", "petabyte", "petabytes"], 1125899906842624));
    assert(table_view(t@) =~= unit_table()) by {
        assert(strs_views(t@[0].0@) =~= seq![""@, "b"@, "byte"@, "bytes"@]);
        assert(strs_views(t@[1].0@) =~= seq!["k"@, "kb"@, "kib"@, "kilobyte"@, "kilobytes"@]);
        assert(strs_views(t@[2].0@) =~= seq!["m"@, "mb"@, "mib"@, "megabyte"@, "megabytes"@]);
        assert(strs_views(t@[3].0@) =~= seq!["g"@, "gb"@, "gib"@, "gigabyte"@, "gigabytes"@]);
        assert(strs_views(t@[4].0@) =~= seq!["t"@, "tb"@, "tib"@, "terabyte"@, "terabytes"@]);
        assert(strs_views(t@[5].0@) =~= seq!["p"@, "pb"@, "pib"@, "petabyte"@, "petabytes"@]);
    }
    t
}

fn keyword_table_exec() -> (t: Vec<(Vec<&'static str>, (Option<u64>, Option<u64>))>)
    ensures
        table_view(t@) == keyword_table(),
{
    let mut t: Vec<(Vec<&'static str>, (Option<u64>, Option<u64>))> = Vec::new();
    t.push((vec!["empty"], (Some(0), Some(0))));
    t.push((vec!["tiny"], (Some(0), Some(10240))));
    t.push((vec!["small"], (Some(10241), Some(102400))));
    t.push((vec!["medium"], (Some(102401), Some(1048576))));
    t.push((vec!["large"], (Some(1048577), Some(16777216))));
    t.push((vec!["huge"], (Some(16777217), Some(134217728))));
    t.push((vec!["gigantic", "giant"], (Some(134217729), None)));
    assert(table_view(t@) =~= keyword_table()) by {
        assert(strs_views(t@[0].0@) =~= seq!["empty"@]);
        assert(strs_views(t@[1].0@) =~= seq!["tiny"@]);
        assert(strs_views(t@[2].0@) =~= seq!["small"@]);
        assert(strs_views(t@[3].0@) =~= seq!["medium"@]);
        assert(strs_views(t@[4].0@) =~= seq!["large"@]);
        assert(strs_views(t@[5].0@) =~= seq!["huge"@]);
        assert(strs_views(t@[6].0@) =~= seq!["gigantic"@, "giant"@]);
    }
    t
}

/// Looks up the multiplier of a unit.
pub fn size_unit_multiplier(unit: &Vec<char>) -> (r: Option<u64>)
    ensures
        r == unit_multiplier(unit@),
        r matches Some(m) ==> 1 <= m <= 1125899906842624u64,
{
    let t = trim_chars(unit);
    let l = lower_chars(&t);
    let table = unit_table_exec();
    let r = lookup_table(&table, &l);
    proof {
        if r is Some {
            lemma_lookup_names_in(unit_table(), l@, 0);
        }
    }
    r
}

/// Looks up a size keyword.
pub fn size_keyword_bounds(raw: &Vec<char>) -> (r: Option<(Option<u64>, Option<u64>)>)
    ensures
        r == size_keyword(raw@),
{
    let t = trim_chars(raw);
    let l = lower_chars(&t);
    let table = keyword_table_exec();
    lookup_table(&table, &l)
}


/// A decimal digit.
pub open spec fn is_digit(c: char) -> bool {
    '0' <= c && c <= '9'
}

/// A character of the numeric part of a size literal.
pub open spec fn is_number_char(c: char) -> bool {
    is_digit(c) || c == '.'
}

/// The value of a decimal digit.
pub open spec fn digit_value(c: char) -> nat {
    ((c as u32) - ('0' as u32)) as nat
}

/// The value of a string of decimal digits.
pub open spec fn digits_value(s: Seq<char>) -> nat
    decreases s.len(),
{
    if s.len() == 0 {
        0
    } else {
        digits_value(s.drop_last()) * 10 + digit_value(s.last())
    }
}

/// Ten to the power `k`.
pub open spec fn pow10(k: nat) -> nat
    decreases k,
{
    if k == 0 {
        1
    } else {
        10 * pow10((k - 1) as nat)
    }
}

/// The length of the leading run of number characters.
pub open spec fn number_len(t: Seq<char>) -> nat
    decreases t.len(),
{
    if t.len() > 0 && is_number_char(t[0]) {
        1 + number_len(t.drop_first())
    } else {
        0
    }
}

/// The digits without leading zeros.
pub open spec fn strip_zeros(s: Seq<char>) -> Seq<char>
    decreases s.len(),
{
    if s.len() > 0 && s[0] == '0' {
        strip_zeros(s.drop_first())
    } else {
        s
    }
}

/// The position of the first `c` in `s`, chosen.
pub open spec fn first_char_index(s: Seq<char>, c: char) -> int {
    choose|i: int| 0 <= i < s.len() && s[i] == c && forall|j: int| 0 <= j < i ==> s[j] != c
}

/// Integer and fraction digits of a run of digits and dots, when it reads
/// as a decimal number (at most one dot, at least one digit).
pub open spec fn decimal_parts(num: Seq<char>) -> Option<(Seq<char>, Seq<char>)> {
    if num.contains('.') {
        let i = first_char_index(num, '.');
        let frac = num.subrange(i + 1, num.len() as int);
        if frac.contains('.') || num.len() == 1 {
            None
        } else {
            Some((num.subrange(0, i), frac))
        }
    } else if num.len() == 0 {
        None
    } else {
        Some((num, Seq::empty()))
    }
}

/// Fraction digits beyond this many are not read.
pub open spec fn max_fraction_digits() -> nat {
    18
}

/// `(i + f / p) * m` rounded half away from zero.
pub open spec fn round_scaled(i: nat, f: nat, p: nat, m: nat) -> nat {
    ((2 * ((i * p + f) * m) + p) / (2 * p)) as nat
}

/// The byte count of `int_part.frac` units of `m` bytes, rounded to the
/// nearest byte and saturated at `u64::MAX`; out of range when the integer
/// part has more than 308 significant digits.
pub open spec fn scaled_bytes(int_part: Seq<char>, frac: Seq<char>, m: u64) -> Option<u64> {
    if strip_zeros(int_part).len() > 308 {
        None
    } else {
        let k = if frac.len() < max_fraction_digits() { frac.len() } else { max_fraction_digits() };
        let q = round_scaled(digits_value(int_part), digits_value(frac.subrange(0, k as int)), pow10(k), m as nat);
        Some(if q > u64::MAX { u64::MAX } else { q as u64 })
    }
}

/// The byte count a size literal denotes, such as `1.5mb` or `200`.
pub open spec fn size_literal(raw: Seq<char>) -> Option<u64> {
    let t = trim(raw);
    let n = number_len(t);
    let num = t.subrange(0, n as int);
    let unit = t.subrange(n as int, t.len() as int);
    if t.len() == 0 || n == 0 {
        None
    } else {
        match decimal_parts(num) {
            None => None,
            Some((ip, fp)) => match unit_multiplier(unit) {
                None => None,
                Some(m) => scaled_bytes(ip, fp, m),
            },
        }
    }
}

proof fn lemma_digits_bound(s: Seq<char>)
    requires
        forall|j: int| 0 <= j < s.len() ==> is_digit(s[j]),
    ensures
        digits_value(s) < pow10(s.len()),
    decreases s.len(),
{
    if s.len() > 0 {
        lemma_digits_bound(s.drop_last());
        let a = digits_value(s.drop_last());
        let p = pow10((s.len() - 1) as nat);
        assert(digit_value(s.last()) <= 9);
        assert(a * 10 + digit_value(s.last()) < 10 * p) by (nonlinear_arith)
            requires a < p, digit_value(s.last()) <= 9;
    }
}

proof fn lemma_round_at_least(i: nat, f: nat, p: nat, m: nat)
    requires
        p > 0,
        m >= 1,
    ensures
        round_scaled(i, f, p, m) >= i * m,
        i * m >= i,
{
    assert(2 * ((i * p + f) * m) + p >= (i * m) * (2 * p)) by (nonlinear_arith)
        requires p > 0, m >= 1;
    assert((2 * ((i * p + f) * m) + p) / (2 * p) >= i * m) by (nonlinear_arith)
        requires 2 * ((i * p + f) * m) + p >= (i * m) * (2 * p), p > 0;
    assert(i * m >= i) by (nonlinear_arith)
        requires m >= 1;
}

/// Reads a run of digits as a number, saturating: `(value, too_big)`.
fn parse_digits(s: &Vec<char>) -> (r: (u64, bool))
    requires
        forall|j: int| 0 <= j < s.len() ==> is_digit(s@[j]),
    ensures
        r.1 == (digits_value(s@) > u64::MAX),
        !r.1 ==> r.0 == digits_value(s@),
{
    let mut v: u64 = 0;
    let mut big = false;
    let mut i: usize = 0;
    while i < s.len()
        invariant
            i <= s.len(),
            forall|j: int| 0 <= j < s.len() ==> is_digit(s@[j]),
            big == (digits_value(s@.subrange(0, i as int)) > u64::MAX),
            !big ==> v == digits_value(s@.subrange(0, i as int)),
        decreases s.len() - i,
    {
        let d: u32 = (s[i] as u32) - ('0' as u32);
        let ghost prev = s@.subrange(0, i as int);
        assert(s@.subrange(0, i + 1).drop_last() =~= prev);
        assert(d == digit_value(s@[i as int]));
        if !big {
            let w: u128 = (v as u128) * 10 + (d as u128);
            if w > (u64::MAX as u128) {
                big = true;
            } else {
                v = w as u64;
            }
        }
        i = i + 1;
    }
    assert(s@.subrange(0, s.len() as int) =~= s@);
    (v, big)
}

/// Splits a numeric run at its dot.
fn split_decimal(num: &Vec<char>) -> (r: Option<(Vec<char>, Vec<char>)>)
    requires
        forall|j: int| 0 <= j < num.len() ==> is_number_char(num@[j]),
    ensures
        match r {
            Some((a, b)) => decimal_parts(num@) == Some((a@, b@))
                && (forall|j: int| 0 <= j < a.len() ==> is_digit(a@[j]))
                && (forall|j: int| 0 <= j < b.len() ==> is_digit(b@[j])),
            None => decimal_parts(num@) is None,
        },
{
    let mut i: usize = 0;
    while i < num.len() && num[i] != '.'
        invariant
            i <= num.len(),
            forall|j: int| 0 <= j < i ==> num@[j] != '.',
        decreases num.len() - i,
    {
        i = i + 1;
    }
    if i == num.len() {
        assert(!num@.contains('.'));
        if num.len() == 0 {
            return None;
        }
        return Some((num.clone(), Vec::new()));
    }
    proof {
        assert(num@.contains('.'));
        let c = first_char_index(num@, '.');
        if c < i {
            assert(num@[c] != '.');
        }
        if i < c {
            assert(num@[i as int] != '.');
        }
        assert(c == i);
    }
    let frac = sub_chars(num, i + 1, num.len());
    let mut j: usize = 0;
    while j < frac.len()
        invariant
            j <= frac.len(),
            forall|k: int| 0 <= k < j ==> frac@[k] != '.',
            num@.contains('.'),
            frac@ == num@.subrange(first_char_index(num@, '.') + 1, num.len() as int),
        decreases frac.len() - j,
    {
        if frac[j] == '.' {
            assert(frac@.contains('.'));
            return None;
        }
        j = j + 1;
    }
    assert(!frac@.contains('.'));
    if num.len() == 1 {
        return None;
    }
    let ip = sub_chars(num, 0, i);
    Some((ip, frac))
}

/// The position after the leading zeros.
fn leading_zeros(s: &Vec<char>) -> (r: usize)
    ensures
        r <= s.len(),
        strip_zeros(s@) == s@.subrange(r as int, s.len() as int),
{
    let mut i: usize = 0;
    assert(s@.subrange(0, s.len() as int) =~= s@);
    while i < s.len() && s[i] == '0'
        invariant
            i <= s.len(),
            strip_zeros(s@) == strip_zeros(s@.subrange(i as int, s.len() as int)),
        decreases s.len() - i,
    {
        assert(s@.subrange(i as int, s.len() as int).drop_first() =~= s@.subrange(i + 1, s.len() as int));
        i = i + 1;
    }
    i
}

/// The byte count of a decimal number of `m`-byte units.
fn scale_decimal(ip: &Vec<char>, fp: &Vec<char>, m: u64) -> (r: Option<u64>)
    requires
        forall|j: int| 0 <= j < ip.len() ==> is_digit(ip@[j]),
        forall|j: int| 0 <= j < fp.len() ==> is_digit(fp@[j]),
        1 <= m <= 1125899906842624u64,
    ensures
        r == scaled_bytes(ip@, fp@, m),
{
    let lz = leading_zeros(ip);
    if ip.len() - lz > 308 {
        return None;
    }
    let k: usize = if fp.len() < 18 { fp.len() } else { 18 };
    let (iv, big) = parse_digits(ip);
    let fdigits = sub_chars(fp, 0, k);
    let (fv, fbig) = parse_digits(&fdigits);
    let mut p: u64 = 1;
    let mut c: usize = 0;
    while c < k
        invariant
            c <= k <= 18,
            p == pow10(c as nat),
            p <= 1000000000000000000u64,
        decreases k - c,
    {
        assert(pow10((c + 1) as nat) == 10 * pow10(c as nat));
        assert(c < 18);
        proof {
            lemma_pow10_le(c as nat);
        }
        p = p * 10;
        c = c + 1;
    }
    proof {
        lemma_digits_bound(fdigits@);
        lemma_round_at_least(digits_value(ip@), digits_value(fdigits@), pow10(k as nat), m as nat);
    }
    let ghost q = round_scaled(digits_value(ip@), digits_value(fdigits@), pow10(k as nat), m as nat);
    if big {
        assert(q > u64::MAX);
        return Some(u64::MAX);
    }
    assert((iv as int) * (m as int) <= 18446744073709551615int * 1125899906842624int) by (nonlinear_arith)
        requires iv <= 18446744073709551615int, m <= 1125899906842624int;
    let prod: u128 = (iv as u128) * (m as u128);
    if prod > (u64::MAX as u128) {
        assert(q > u64::MAX);
        return Some(u64::MAX);
    }
    assert(fv < p);
    assert((prod as int) * (p as int) <= 18446744073709551615int * 1000000000000000000int) by (nonlinear_arith)
        requires prod <= 18446744073709551615int, p <= 1000000000000000000int;
    let a: u128 = prod * (p as u128);
    assert((fv as int) * (m as int) <= 1000000000000000000int * 1125899906842624int) by (nonlinear_arith)
        requires fv < p, p <= 1000000000000000000int, m <= 1125899906842624int;
    let b: u128 = (fv as u128) * (m as u128);
    let total: u128 = a + b;
    let qq: u128 = (2 * total + (p as u128)) / (2 * (p as u128));
    assert(total == (iv * p + fv) * m) by (nonlinear_arith)
        requires a == (iv * m) * p, b == fv * m, total == a + b, prod == iv * m;
    assert(qq == q);
    if qq > (u64::MAX as u128) {
        Some(u64::MAX)
    } else {
        Some(qq as u64)
    }
}

proof fn lemma_pow10_mono(a: nat, b: nat)
    requires
        a <= b,
    ensures
        pow10(a) <= pow10(b),
    decreases b,
{
    if a < b {
        lemma_pow10_mono(a, (b - 1) as nat);
    }
}

proof fn lemma_pow10_le(c: nat)
    requires
        c < 18,
    ensures
        pow10(c) <= 100000000000000000,
{
    reveal_with_fuel(pow10, 18);
    assert(pow10(17) == 100000000000000000);
    lemma_pow10_mono(c, 17);
}


fn size_error(message: &str) -> (e: FilesystemError)
    ensures
        e is QueryParse,
{
    FilesystemError::QueryParse(String::from_str(message))
}

fn size_error_with(prefix: &str, raw: &Vec<char>, suffix: &str) -> (e: FilesystemError)
    ensures
        e is QueryParse,
{
    let text = crate::strings::string_of(raw);
    let quoted = debug_quoted(text.as_str());
    let head = concat_strs(prefix, quoted.as_str());
    FilesystemError::QueryParse(concat_strs(head.as_str(), suffix))
}

/// Parses a size literal such as `10`, `1.5mb` or `2 GiB` into bytes.
pub fn parse_size_literal(raw: &Vec<char>) -> (r: Result<u64>)
    ensures
        match size_literal(raw@) {
            Some(v) => r matches Ok(x) && x == v,
            None => r matches Err(FilesystemError::QueryParse(_)),
        },
{
    let t = trim_chars(raw);
    if t.len() == 0 {
        return Err(size_error("size: expected a number"));
    }
    let mut n: usize = 0;
    assert(t@.subrange(0, t.len() as int) =~= t@);
    while n < t.len() && (('0' <= t[n] && t[n] <= '9') || t[n] == '.')
        invariant
            n <= t.len(),
            number_len(t@) == n + number_len(t@.subrange(n as int, t.len() as int)),
            forall|j: int| 0 <= j < n ==> is_number_char(t@[j]),
        decreases t.len() - n,
    {
        assert(t@.subrange(n as int, t.len() as int).drop_first() =~= t@.subrange(n + 1, t.len() as int));
        n = n + 1;
    }
    assert(number_len(t@) == n);
    if n == 0 {
        return Err(size_error_with("size: expected a numeric value in ", raw, ""));
    }
    let num = sub_chars(&t, 0, n);
    let unit = sub_chars(&t, n, t.len());
    match split_decimal(&num) {
        None => Err(size_error_with("size: failed to parse number in ", raw, "")),
        Some((ip, fp)) => match size_unit_multiplier(&unit) {
            None => {
                let u = crate::strings::string_of(&unit);
                let msg = concat_strs("unknown size unit: ", u.as_str());
                Err(FilesystemError::QueryParse(msg))
            },
            Some(m) => match scale_decimal(&ip, &fp, m) {
                None => Err(size_error_with("size: value ", raw, " is out of range")),
                Some(v) => Ok(v),
            },
        },
    }
}

/// The predicate a `size:` argument denotes; `None` when it is rejected.
pub open spec fn size_predicate_of(raw: Seq<char>) -> Option<SizePredicate> {
    let t = trim(raw);
    if t.len() == 0 {
        None
    } else {
        match split_comparison(t) {
            Some((k, v)) => if size_keyword(v) is Some {
                None
            } else {
                match size_literal(v) {
                    Some(x) => Some(SizePredicate { kind: SizePredicateKind::Comparison { op: size_op_of(k), value: x } }),
                    None => None,
                }
            },
            None => match split_range(t) {
                Some((a, b)) => {
                    let lo = if a.len() == 0 { Some(None) } else { match size_literal(a) { Some(x) => Some(Some(x)), None => None } };
                    let hi = if b.len() == 0 { Some(None) } else { match size_literal(b) { Some(x) => Some(Some(x)), None => None } };
                    match (lo, hi) {
                        (Some(min), Some(max)) => if min is Some && max is Some && min->0 > max->0 {
                            None
                        } else {
                            Some(SizePredicate { kind: SizePredicateKind::Range { min, max } })
                        },
                        _ => None,
                    }
                },
                None => match size_keyword(t) {
                    Some((min, max)) => Some(SizePredicate { kind: SizePredicateKind::Range { min, max } }),
                    None => match size_literal(t) {
                        Some(x) => Some(SizePredicate { kind: SizePredicateKind::Comparison { op: SizeComparisonOp::Eq, value: x } }),
                        None => None,
                    },
                },
            },
        }
    }
}

fn size_op_exec(k: u8) -> (op: SizeComparisonOp)
    ensures
        op == size_op_of(k),
{
    if k == 0 {
        SizeComparisonOp::Lt
    } else if k == 1 {
        SizeComparisonOp::Lte
    } else if k == 2 {
        SizeComparisonOp::Gt
    } else if k == 3 {
        SizeComparisonOp::Gte
    } else if k == 4 {
        SizeComparisonOp::Eq
    } else {
        SizeComparisonOp::Ne
    }
}

impl SizePredicate {
    /// Parses the argument of a `size:` filter.
    pub fn parse(raw: &str) -> (r: Result<Self>)
        ensures
            match size_predicate_of(raw@) {
                Some(p) => r matches Ok(q) && q == p,
                None => r matches Err(FilesystemError::QueryParse(_)),
            },
    {
        let v = chars_of(raw);
        let t = trim_chars(&v);
        if t.len() == 0 {
            return Err(size_error("size: requires a value"));
        }
        match parse_comparison(&t) {
            Some((k, value_raw)) => {
                if size_keyword_bounds(&value_raw).is_some() {
                    return Err(size_error("size keywords cannot be used with comparison operators"));
                }
                let value = parse_size_literal(&value_raw)?;
                return Ok(SizePredicate { kind: SizePredicateKind::Comparison { op: size_op_exec(k), value } });
            },
            None => {},
        }
        match parse_range(&t) {
            Some((a, b)) => {
                let min = if a.len() == 0 {
                    None
                } else {
                    Some(parse_size_literal(&a)?)
                };
                let max = if b.len() == 0 {
                    None
                } else {
                    Some(parse_size_literal(&b)?)
                };
                match (min, max) {
                    (Some(lo), Some(hi)) => {
                        if lo > hi {
                            return Err(size_error("size range start must be less than or equal to end"));
                        }
                    },
                    _ => {},
                }
                return Ok(SizePredicate { kind: SizePredicateKind::Range { min, max } });
            },
            None => {},
        }
        match size_keyword_bounds(&t) {
            Some((min, max)) => {
                return Ok(SizePredicate { kind: SizePredicateKind::Range { min, max } });
            },
            None => {},
        }
        let value = parse_size_literal(&t)?;
        Ok(SizePredicate { kind: SizePredicateKind::Comparison { op: SizeComparisonOp::Eq, value } })
    }

    /// Checks whether a size satisfies this predicate.
    pub fn matches(&self, value: u64) -> (r: bool)
        ensures
            r == size_satisfies(*self, value),
    {
        match self.kind {
            SizePredicateKind::Comparison { op, value: right } => match op {
                SizeComparisonOp::Lt => value < right,
                SizeComparisonOp::Lte => value <= right,
                SizeComparisonOp::Gt => value > right,
                SizeComparisonOp::Gte => value >= right,
                SizeComparisonOp::Eq => value == right,
                SizeComparisonOp::Ne => value != right,
            },
            SizePredicateKind::Range { min, max } => {
                if let Some(minimum) = min {
                    if value < minimum {
                        return false;
                    }
                }
                if let Some(maximum) = max {
                    if value > maximum {
                        return false;
                    }
                }
                true
            },
        }
    }
}


/// The code of a text's leading comparison operator.
pub open spec fn prefix_code(o: Seq<char>) -> u8 {
    match comparison_prefix(o) {
        Some((k, _)) => k,
        None => 0,
    }
}

/// The length of a text's leading comparison operator.
pub open spec fn prefix_len(o: Seq<char>) -> nat {
    match comparison_prefix(o) {
        Some((_, n)) => n,
        None => 0,
    }
}

/// Size predicates read as written: a size literal `a` alone means "equal
/// to it", and an operator (`<`, `<=`, `>`, `>=`, `=`, `!=`) before it
/// compares with it; `!=` accepts exactly the sizes `=` rejects.
pub proof fn law_size_predicates(o: Seq<char>, a: Seq<char>, x: u64)
    requires
        a.len() > 0,
        '0' <= a[0] <= '9',
        !is_ws(a.last()),
        !contains_seq(a, seq!['.', '.']),
        size_keyword(a) is None,
        size_literal(a) is Some,
        comparison_prefix(o) is Some,
        prefix_len(o) == o.len(),
    ensures
        size_predicate_of(a) == Some(SizePredicate {
            kind: SizePredicateKind::Comparison { op: SizeComparisonOp::Eq, value: size_literal(a)->0 },
        }),
        size_predicate_of(o + a) == Some(SizePredicate {
            kind: SizePredicateKind::Comparison { op: size_op_of(prefix_code(o)), value: size_literal(a)->0 },
        }),
        size_satisfies(SizePredicate { kind: SizePredicateKind::Comparison { op: SizeComparisonOp::Ne, value: size_literal(a)->0 } }, x)
            == !size_satisfies(size_predicate_of(a)->0, x),
{
    assert(trim_start(a) == a);
    assert(trim_end(a) == a);
    assert(trim(a) == a);
    let t = o + a;
    assert(t[0] == o[0]);
    assert(!is_ws(t[0]));
    assert(t.last() == a.last());
    assert(trim_start(t) == t);
    assert(trim_end(t) == t);
    assert(trim(t) == t);
    let n = prefix_len(o);
    assert(comparison_prefix(t) == comparison_prefix(o)) by {
        if o.len() == 1 {
            assert(t[1] == a[0]);
        } else {
            assert(t[1] == o[1]);
        }
    }
    assert(t.subrange(n as int, t.len() as int) =~= a);
    assert(comparison_prefix(a) is None);
}

} // verus!
