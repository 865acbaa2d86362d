//! The per-field codec: each of the six configuration fields has a fixed
//! line index, a fixed name, and a validator over raw text.
//!
//! Validator and parser agree by construction: the counts and the pin are
//! parsed by the same functions that validate them, and the duration,
//! multiplier and timezone fields keep the raw text itself as their value
//! once it passes validation.

use vstd::prelude::*;

use crate::text::{
    all_digits, char_is_digit, is_u64_text, is_u8_text, parse_u64, parse_u8, text_free_of,
};

verus! {

/// The closed set of configuration fields, in canonical record order:
/// relay-actuation count, relay maximum actuations, maximum actuation
/// duration, GPIO pin id, timezone, multiplier.
#[derive(Clone, Copy, Debug, PartialEq, Eq, Structural)]
pub enum FieldKind {
    Count,
    MaxCount,
    MaxDuration,
    PinId,
    Zone,
    Factor,
}

/// The fixed position of a field's line in the record.
pub open spec fn spec_line_index(k: FieldKind) -> int {
    match k {
        FieldKind::Count => 0,
        FieldKind::MaxCount => 1,
        FieldKind::MaxDuration => 2,
        FieldKind::PinId => 3,
        FieldKind::Zone => 4,
        FieldKind::Factor => 5,
    }
}

/// The fixed key under which a field's line is written.
pub open spec fn spec_field_name(k: FieldKind) -> Seq<char> {
    match k {
        FieldKind::Count => "RelayCount"@,
        FieldKind::MaxCount => "RelayMax"@,
        FieldKind::MaxDuration => "MaxTime"@,
        FieldKind::PinId => "GpioPin"@,
        FieldKind::Zone => "Timezone"@,
        FieldKind::Factor => "Multiplier"@,
    }
}

pub fn line_index(k: FieldKind) -> (r: usize)
    ensures
        r == spec_line_index(k),
{
    match k {
        FieldKind::Count => 0,
        FieldKind::MaxCount => 1,
        FieldKind::MaxDuration => 2,
        FieldKind::PinId => 3,
        FieldKind::Zone => 4,
        FieldKind::Factor => 5,
    }
}

pub fn field_name(k: FieldKind) -> (r: &'static str)
    ensures
        r@ == spec_field_name(k),
{
    match k {
        FieldKind::Count => "RelayCount",
        FieldKind::MaxCount => "RelayMax",
        FieldKind::MaxDuration => "MaxTime",
        FieldKind::PinId => "GpioPin",
        FieldKind::Zone => "Timezone",
        FieldKind::Factor => "Multiplier",
    }
}

/// Raw text that can stand as the value part of one record line: non-empty,
/// with no space and no line break.
pub open spec fn value_fits_line(v: Seq<char>) -> bool {
    v.len() > 0 && text_free_of(v, ' ') && text_free_of(v, '\n')
}

pub open spec fn char_is_sign(c: char) -> bool {
    c == '+' || c == '-'
}

pub open spec fn strip_sign(s: Seq<char>) -> Seq<char> {
    if s.len() > 0 && char_is_sign(s[0]) {
        s.skip(1)
    } else {
        s
    }
}

/// `c` equals the lower-case letter `l`, ignoring ASCII case.
pub open spec fn char_ci_eq(c: char, l: char) -> bool {
    c == l || (97 <= l as u32 <= 122 && c as u32 + 32 == l as u32)
}

pub open spec fn is_keyword_ci(s: Seq<char>, kw: Seq<char>) -> bool {
    s.len() == kw.len() && forall|i: int| 0 <= i < s.len() ==> char_ci_eq(s[i], kw[i])
}

/// The digits of a float literal before any exponent: digits and at most
/// one point, with at least one digit.
pub open spec fn is_mantissa(s: Seq<char>) -> bool {
    &&& s.len() > 0
    &&& forall|i: int| 0 <= i < s.len() ==> char_is_digit(s[i]) || s[i] == '.'
    &&& forall|i: int, j: int|
        0 <= i < s.len() && 0 <= j < s.len() && s[i] == '.' && s[j] == '.' ==> i == j
    &&& exists|i: int| 0 <= i < s.len() && char_is_digit(s[i])
}

/// What may follow the exponent marker: an optional sign, then at least one
/// digit.
pub open spec fn is_exp_part(s: Seq<char>) -> bool {
    strip_sign(s).len() > 0 && all_digits(strip_sign(s))
}

/// A decimal number with optional fraction and optional exponent.
pub open spec fn is_number_text(s: Seq<char>) -> bool {
    is_mantissa(s) || (exists|i: int|
        0 <= i < s.len() && (s[i] == 'e' || s[i] == 'E') && is_mantissa(s.take(i)) && is_exp_part(
            s.skip(i + 1),
        ))
}

/// Standard decimal float text: an optional sign, then `inf`, `infinity` or
/// `nan` in any letter case, or a decimal number with optional fraction and
/// exponent.
pub open spec fn is_float_text(s: Seq<char>) -> bool {
    ||| is_keyword_ci(strip_sign(s), "inf"@)
    ||| is_keyword_ci(strip_sign(s), "infinity"@)
    ||| is_keyword_ci(strip_sign(s), "nan"@)
    ||| is_number_text(strip_sign(s))
}

/// Whether the text from `from` to the end equals `kw` ignoring ASCII case.
fn keyword_ci_at(s: &str, from: usize, kw: &str) -> (r: bool)
    requires
        from <= s@.len() <= usize::MAX,
    ensures
        r == is_keyword_ci(s@.skip(from as int), kw@),
{
    let n = s.unicode_len();
    let m = kw.unicode_len();
    if n - from != m {
        return false;
    }
    let mut j: usize = 0;
    while j < m
        invariant
            0 <= j <= m,
            from + m == n,
            n == s@.len(),
            m == kw@.len(),
            forall|i: int| 0 <= i < j ==> char_ci_eq(s@.skip(from as int)[i], kw@[i]),
        decreases m - j,
    {
        let c = s.get_char(from + j);
        let l = kw.get_char(j);
        let ok = c == l || (97 <= l as u32 && l as u32 <= 122 && c as u32 + 32 == l as u32);
        if !ok {
            proof {
                assert(s@.skip(from as int)[j as int] == s@[from + j]);
                assert(!char_ci_eq(s@.skip(from as int)[j as int], kw@[j as int]));
            }
            return false;
        }
        proof {
            assert(s@.skip(from as int)[j as int] == s@[from + j]);
        }
        j = j + 1;
    }
    true
}

/// Whether the text from `from` to `to` is a valid mantissa.
fn mantissa_region_ok(s: &str, from: usize, to: usize) -> (r: bool)
    requires
        from <= to <= s@.len() <= usize::MAX,
    ensures
        r == is_mantissa(s@.subrange(from as int, to as int)),
{
    let ghost t = s@.subrange(from as int, to as int);
    if from == to {
        return false;
    }
    let mut j: usize = from;
    let mut seen_digit = false;
    let mut seen_dot = false;
    let ghost mut digit_idx: int = 0;
    let ghost mut dot_idx: int = 0;
    while j < to
        invariant
            from <= j <= to <= s@.len() <= usize::MAX,
            from < to,
            t == s@.subrange(from as int, to as int),
            forall|i: int| 0 <= i < j - from ==> char_is_digit(t[i]) || t[i] == '.',
            seen_digit ==> 0 <= digit_idx < j - from && char_is_digit(t[digit_idx]),
            !seen_digit ==> forall|i: int| 0 <= i < j - from ==> !char_is_digit(t[i]),
            seen_dot ==> 0 <= dot_idx < j - from && t[dot_idx] == '.',
            forall|i: int| 0 <= i < j - from && t[i] == '.' ==> seen_dot && i == dot_idx,
        decreases to - j,
    {
        let c = s.get_char(j);
        proof {
            assert(t[j - from] == s@[j as int]);
        }
        if c >= '0' && c <= '9' {
            if !seen_digit {
                seen_digit = true;
                proof {
                    digit_idx = j - from;
                }
            }
        } else if c == '.' {
            if seen_dot {
                proof {
                    assert(t[dot_idx] == '.' && t[j - from] == '.' && dot_idx != j - from);
                }
                return false;
            }
            seen_dot = true;
            proof {
                dot_idx = j - from;
            }
        } else {
            proof {
                assert(!(char_is_digit(t[j - from]) || t[j - from] == '.'));
            }
            return false;
        }
        j = j + 1;
    }
    seen_digit
}

/// Whether the text from `from` to `to` is all digits, at least one.
fn digits_region_ok(s: &str, from: usize, to: usize) -> (r: bool)
    requires
        from <= to <= s@.len() <= usize::MAX,
    ensures
        r == (to - from > 0 && all_digits(s@.subrange(from as int, to as int))),
{
    let ghost t = s@.subrange(from as int, to as int);
    if from == to {
        return false;
    }
    let mut j: usize = from;
    while j < to
        invariant
            from <= j <= to <= s@.len() <= usize::MAX,
            from < to,
            t == s@.subrange(from as int, to as int),
            forall|i: int| 0 <= i < j - from ==> char_is_digit(t[i]),
        decreases to - j,
    {
        let c = s.get_char(j);
        proof {
            assert(t[j - from] == s@[j as int]);
        }
        if c < '0' || c > '9' {
            proof {
                assert(!char_is_digit(t[j - from]));
            }
            return false;
        }
        j = j + 1;
    }
    true
}

/// Whether the text from `from` to the end is a number with optional
/// exponent.
fn number_ok(s: &str, from: usize) -> (r: bool)
    requires
        from <= s@.len() <= usize::MAX,
    ensures
        r == is_number_text(s@.skip(from as int)),
{
    let ghost t = s@.skip(from as int);
    let n = s.unicode_len();
    let mut k: usize = from;
    let mut has_e = false;
    let mut e_idx: usize = 0;
    while k < n
        invariant
            from <= k <= n,
            n == s@.len() <= usize::MAX,
            t == s@.skip(from as int),
            has_e ==> from <= e_idx < k && (s@[e_idx as int] == 'e' || s@[e_idx as int] == 'E'),
            has_e ==> forall|i: int| from <= i < e_idx ==> s@[i] != 'e' && s@[i] != 'E',
            !has_e ==> forall|i: int| from <= i < k ==> s@[i] != 'e' && s@[i] != 'E',
        decreases n - k,
    {
        let c = s.get_char(k);
        if (c == 'e' || c == 'E') && !has_e {
            has_e = true;
            e_idx = k;
        }
        k = k + 1;
    }
    if !has_e {
        let r = mantissa_region_ok(s, from, n);
        proof {
            assert(s@.subrange(from as int, n as int) =~= t);
            assert forall|i: int| 0 <= i < t.len() implies t[i] != 'e' && t[i] != 'E' by {
                assert(t[i] == s@[from + i]);
            }
        }
        return r;
    }
    // the first exponent marker stands at e_idx
    let mant = mantissa_region_ok(s, from, e_idx);
    let mut es: usize = e_idx + 1;
    if es < n {
        let c = s.get_char(es);
        if c == '+' || c == '-' {
            es = es + 1;
        }
    }
    let exp = digits_region_ok(s, es, n);
    let ghost ei = e_idx - from;
    proof {
        assert(t[ei] == s@[e_idx as int]);
        assert(t.take(ei) =~= s@.subrange(from as int, e_idx as int));
        // the region checked for digits is the exponent part with its sign
        // stripped
        assert(strip_sign(t.skip(ei + 1)) =~= s@.subrange(es as int, n as int)) by {
            let u = t.skip(ei + 1);
            assert(u =~= s@.subrange(e_idx + 1, n as int));
            if u.len() > 0 && char_is_sign(u[0]) {
                assert(u.skip(1) =~= s@.subrange(e_idx + 2, n as int));
            }
        }
    }
    if mant && exp {
        proof {
            assert(0 <= ei < t.len() && (t[ei] == 'e' || t[ei] == 'E') && is_mantissa(t.take(ei))
                && is_exp_part(t.skip(ei + 1)));
        }
        return true;
    }
    proof {
        // no other split can satisfy the number form: before e_idx there is
        // no marker, and any later split keeps the marker in its mantissa
        assert(!is_mantissa(t)) by {
            assert(!(char_is_digit(t[ei]) || t[ei] == '.'));
        }
        assert forall|i: int|
            0 <= i < t.len() && (t[i] == 'e' || t[i] == 'E') implies !(is_mantissa(t.take(i))
            && is_exp_part(t.skip(i + 1))) by {
            if i < ei {
                assert(t[i] == s@[from + i]);
                assert(false);
            } else if i > ei {
                assert(t.take(i)[ei] == t[ei]);
                assert(!(char_is_digit(t.take(i)[ei]) || t.take(i)[ei] == '.'));
            }
        }
    }
    false
}

/// Standard decimal float text, by the grammar of `is_float_text`.
pub fn float_text_ok(s: &str) -> (r: bool)
    ensures
        r == is_float_text(s@),
{
    let n = s.unicode_len();
    let start: usize = if n > 0 {
        let c = s.get_char(0);
        if c == '+' || c == '-' {
            1
        } else {
            0
        }
    } else {
        0
    };
    proof {
        assert(strip_sign(s@) =~= s@.skip(start as int));
    }
    if keyword_ci_at(s, start, "inf") {
        return true;
    }
    if keyword_ci_at(s, start, "infinity") {
        return true;
    }
    if keyword_ci_at(s, start, "nan") {
        return true;
    }
    number_ok(s, start)
}

/// Accepted by the external IANA timezone table, matched without regard to
/// letter case; the decision depends on the characters of the string alone.
pub uninterp spec fn tz_accepts(s: Seq<char>) -> bool;

/// Relies on chrono_tz::Tz::from_str_insensitive: whether the text names an
/// IANA timezone, matched case-insensitively against the compiled-in table.
#[verifier::external_body]
pub(crate) fn tz_lookup_ok(s: &str) -> (r: bool)
    ensures
        r == tz_accepts(s@),
{
    chrono_tz::Tz::from_str_insensitive(s).is_ok()
}

/// Whether raw text may stand as the value part of one record line.
pub fn fits_line(v: &str) -> (r: bool)
    ensures
        r == value_fits_line(v@),
{
    let n = v.unicode_len();
    if n == 0 {
        return false;
    }
    let mut i: usize = 0;
    while i < n
        invariant
            0 <= i <= n,
            n == v@.len(),
            forall|j: int| 0 <= j < i ==> v@[j] != ' ' && v@[j] != '\n',
        decreases n - i,
    {
        let c = v.get_char(i);
        if c == ' ' || c == '\n' {
            return false;
        }
        i = i + 1;
    }
    true
}

/// What each field's validator accepts.
pub open spec fn field_accepts(k: FieldKind, v: Seq<char>) -> bool {
    match k {
        FieldKind::Count => is_u64_text(v),
        FieldKind::MaxCount => is_u64_text(v),
        FieldKind::MaxDuration => is_float_text(v),
        FieldKind::PinId => is_u8_text(v),
        FieldKind::Zone => tz_accepts(v) && value_fits_line(v),
        FieldKind::Factor => is_float_text(v),
    }
}

proof fn lemma_keyword_fits(s: Seq<char>, kw: Seq<char>)
    requires
        is_keyword_ci(s, kw),
        forall|i: int| 0 <= i < kw.len() ==> 97 <= (#[trigger] kw[i]) as u32 <= 122,
    ensures
        forall|i: int| 0 <= i < s.len() ==> s[i] != ' ' && s[i] != '\n',
{
    assert forall|i: int| 0 <= i < s.len() implies s[i] != ' ' && s[i] != '\n' by {
        assert(char_ci_eq(s[i], kw[i]));
    }
}

/// Whatever a field's validator accepts can stand as the value part of one
/// record line: it is non-empty and holds no space and no line break.
pub proof fn lemma_field_value_fits(k: FieldKind, v: Seq<char>)
    requires
        field_accepts(k, v),
    ensures
        value_fits_line(v),
{
    let b = strip_sign(v);
    if k == FieldKind::Count || k == FieldKind::MaxCount || k == FieldKind::PinId {
        let u = crate::text::unsigned_body(v);
        assert forall|i: int| 0 <= i < v.len() implies v[i] != ' ' && v[i] != '\n' by {
            if v[0] == '+' && i == 0 {
            } else if v[0] == '+' {
                assert(char_is_digit(u[i - 1]));
            } else {
                assert(char_is_digit(u[i]));
            }
        }
    } else if k == FieldKind::Zone {
    } else {
        // duration and multiplier: float text
        reveal_strlit("inf");
        reveal_strlit("infinity");
        reveal_strlit("nan");
        assert forall|i: int| 0 <= i < "inf"@.len() implies 97 <= (#[trigger] "inf"@[i]) as u32
            <= 122 by {
            if i == 0 {
                assert("inf"@[0] == 'i');
            } else if i == 1 {
                assert("inf"@[1] == 'n');
            } else {
                assert("inf"@[2] == 'f');
            }
        }
        assert forall|i: int| 0 <= i < "infinity"@.len() implies 97 <= (#[trigger] "infinity"@[i]) as u32
            <= 122 by {
            if i == 0 {
                assert("infinity"@[0] == 'i');
            } else if i == 1 {
                assert("infinity"@[1] == 'n');
            } else if i == 2 {
                assert("infinity"@[2] == 'f');
            } else if i == 3 {
                assert("infinity"@[3] == 'i');
            } else if i == 4 {
                assert("infinity"@[4] == 'n');
            } else if i == 5 {
                assert("infinity"@[5] == 'i');
            } else if i == 6 {
                assert("infinity"@[6] == 't');
            } else {
                assert("infinity"@[7] == 'y');
            }
        }
        assert forall|i: int| 0 <= i < "nan"@.len() implies 97 <= (#[trigger] "nan"@[i]) as u32
            <= 122 by {
            if i == 0 {
                assert("nan"@[0] == 'n');
            } else if i == 1 {
                assert("nan"@[1] == 'a');
            } else {
                assert("nan"@[2] == 'n');
            }
        }
        assert(forall|i: int| 0 <= i < b.len() ==> b[i] != ' ' && b[i] != '\n') by {
            if is_keyword_ci(b, "inf"@) {
                lemma_keyword_fits(b, "inf"@);
            } else if is_keyword_ci(b, "infinity"@) {
                lemma_keyword_fits(b, "infinity"@);
            } else if is_keyword_ci(b, "nan"@) {
                lemma_keyword_fits(b, "nan"@);
            } else {
                assert(is_number_text(b));
                if is_mantissa(b) {
                    assert forall|i: int| 0 <= i < b.len() implies b[i] != ' ' && b[i] != '\n' by {
                        assert(char_is_digit(b[i]) || b[i] == '.');
                    }
                } else {
                    let e = choose|e: int|
                        0 <= e < b.len() && (b[e] == 'e' || b[e] == 'E') && is_mantissa(b.take(e))
                            && is_exp_part(b.skip(e + 1));
                    let tail = b.skip(e + 1);
                    let d = strip_sign(tail);
                    assert forall|i: int| 0 <= i < b.len() implies b[i] != ' ' && b[i] != '\n' by {
                        if i < e {
                            assert(b.take(e)[i] == b[i]);
                            assert(char_is_digit(b.take(e)[i]) || b.take(e)[i] == '.');
                        } else if i == e {
                        } else {
                            if tail.len() > 0 && char_is_sign(tail[0]) && i == e + 1 {
                            } else if tail.len() > 0 && char_is_sign(tail[0]) {
                                assert(d[i - e - 2] == b[i]);
                                assert(char_is_digit(d[i - e - 2]));
                            } else {
                                assert(d[i - e - 1] == b[i]);
                                assert(char_is_digit(d[i - e - 1]));
                            }
                        }
                    }
                }
            }
        }
        assert(b.len() > 0);
        assert forall|i: int| 0 <= i < v.len() implies v[i] != ' ' && v[i] != '\n' by {
            if v.len() > 0 && char_is_sign(v[0]) {
                if i > 0 {
                    assert(b[i - 1] == v[i]);
                }
            } else {
                assert(b[i] == v[i]);
            }
        }
    }
}

/// Run a field's validator on raw text.
pub fn validate(k: FieldKind, raw: &str) -> (r: bool)
    ensures
        r == field_accepts(k, raw@),
{
    match k {
        FieldKind::Count => parse_u64(raw).is_some(),
        FieldKind::MaxCount => parse_u64(raw).is_some(),
        FieldKind::MaxDuration => float_text_ok(raw),
        FieldKind::PinId => parse_u8(raw).is_some(),
        FieldKind::Zone => {
            if !tz_lookup_ok(raw) {
                false
            } else {
                fits_line(raw)
            }
        },
        FieldKind::Factor => float_text_ok(raw),
    }
}

} // verus!
