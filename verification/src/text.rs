//! The text model the config store and the unit manager rest on:
//! separator splitting and joining, decimal integer parsing, and substring
//! search, each with an exact specification.

use vstd::prelude::*;

verus! {

/// Split `s` at every occurrence of `sep`. The result always has at least
/// one part; a separator at the start, the end, or next to another yields an
/// empty part there.
pub open spec fn split_text(s: Seq<char>, sep: char) -> Seq<Seq<char>>
    decreases s.len(),
{
    if s.len() == 0 {
        seq![Seq::<char>::empty()]
    } else if s[0] == sep {
        seq![Seq::<char>::empty()] + split_text(s.skip(1), sep)
    } else {
        let rest = split_text(s.skip(1), sep);
        seq![seq![s[0]] + rest[0]] + rest.skip(1)
    }
}

/// Join `parts` with `sep` between neighbours.
pub open spec fn join_text(parts: Seq<Seq<char>>, sep: char) -> Seq<char>
    decreases parts.len(),
{
    if parts.len() == 0 {
        Seq::<char>::empty()
    } else if parts.len() == 1 {
        parts[0]
    } else {
        parts[0] + seq![sep] + join_text(parts.skip(1), sep)
    }
}

pub open spec fn text_free_of(s: Seq<char>, sep: char) -> bool {
    forall|i: int| 0 <= i < s.len() ==> s[i] != sep
}

pub proof fn lemma_split_len_pos(s: Seq<char>, sep: char)
    ensures
        split_text(s, sep).len() >= 1,
    decreases s.len(),
{
    if s.len() > 0 && s[0] != sep {
        lemma_split_len_pos(s.skip(1), sep);
    }
}

/// A string without the separator splits into itself alone.
pub proof fn lemma_split_free(s: Seq<char>, sep: char)
    requires
        text_free_of(s, sep),
    ensures
        split_text(s, sep) =~~= seq![s],
    decreases s.len(),
{
    if s.len() == 0 {
        assert(split_text(s, sep) =~~= seq![s]);
    } else {
        assert(s[0] != sep);
        lemma_split_free(s.skip(1), sep);
        let rest = split_text(s.skip(1), sep);
        assert(rest =~~= seq![s.skip(1)]);
        assert(seq![s[0]] + s.skip(1) =~= s);
        assert(split_text(s, sep) =~~= seq![s]);
    }
}

/// Splitting cuts at the first separator: the part before it, then the
/// split of what follows it.
pub proof fn lemma_split_at_first(s: Seq<char>, sep: char, i: int)
    requires
        0 <= i < s.len(),
        s[i] == sep,
        forall|j: int| 0 <= j < i ==> s[j] != sep,
    ensures
        split_text(s, sep) =~~= seq![s.take(i)] + split_text(s.skip(i + 1), sep),
    decreases i,
{
    if i == 0 {
        assert(s.take(0) =~= Seq::<char>::empty());
        assert(split_text(s, sep) =~~= seq![s.take(0)] + split_text(s.skip(1), sep));
    } else {
        assert(s[0] != sep);
        let t = s.skip(1);
        assert(t[i - 1] == sep);
        assert(forall|j: int| 0 <= j < i - 1 ==> t[j] != sep);
        lemma_split_at_first(t, sep, i - 1);
        let rest = split_text(t, sep);
        assert(rest =~~= seq![t.take(i - 1)] + split_text(t.skip(i), sep));
        assert(rest[0] == t.take(i - 1));
        assert(seq![s[0]] + t.take(i - 1) =~= s.take(i));
        assert(rest.skip(1) =~~= split_text(t.skip(i), sep));
        assert(t.skip(i) =~= s.skip(i + 1));
        assert(split_text(s, sep) =~~= seq![s.take(i)] + split_text(s.skip(i + 1), sep));
    }
}

/// Every part of a split is free of the separator.
pub proof fn lemma_split_parts_free(s: Seq<char>, sep: char)
    ensures
        forall|k: int|
            0 <= k < split_text(s, sep).len() ==> text_free_of(#[trigger] split_text(s, sep)[k], sep),
    decreases s.len(),
{
    if s.len() == 0 {
    } else if s[0] == sep {
        lemma_split_parts_free(s.skip(1), sep);
        assert forall|k: int| 0 <= k < split_text(s, sep).len() implies text_free_of(
            #[trigger] split_text(s, sep)[k],
            sep,
        ) by {
            if k > 0 {
                assert(split_text(s, sep)[k] == split_text(s.skip(1), sep)[k - 1]);
            }
        }
    } else {
        lemma_split_parts_free(s.skip(1), sep);
        let rest = split_text(s.skip(1), sep);
        lemma_split_len_pos(s.skip(1), sep);
        assert forall|k: int| 0 <= k < split_text(s, sep).len() implies text_free_of(
            #[trigger] split_text(s, sep)[k],
            sep,
        ) by {
            if k == 0 {
                assert(text_free_of(rest[0], sep));
                assert(split_text(s, sep)[0] == seq![s[0]] + rest[0]);
                assert forall|i: int| 0 <= i < (seq![s[0]] + rest[0]).len() implies (seq![s[0]]
                    + rest[0])[i] != sep by {
                    if i > 0 {
                        assert((seq![s[0]] + rest[0])[i] == rest[0][i - 1]);
                    }
                }
            } else {
                assert(split_text(s, sep)[k] == rest.skip(1)[k - 1]);
                assert(rest.skip(1)[k - 1] == rest[k]);
            }
        }
    }
}

/// Joining then splitting gives the parts back, provided no part holds the
/// separator itself.
pub proof fn lemma_split_of_join(parts: Seq<Seq<char>>, sep: char)
    requires
        parts.len() >= 1,
        forall|k: int| 0 <= k < parts.len() ==> text_free_of(#[trigger] parts[k], sep),
    ensures
        split_text(join_text(parts, sep), sep) =~~= parts,
    decreases parts.len(),
{
    if parts.len() == 1 {
        lemma_split_free(parts[0], sep);
        assert(join_text(parts, sep) == parts[0]);
        assert(split_text(join_text(parts, sep), sep) =~~= seq![parts[0]]);
        assert(seq![parts[0]] =~~= parts);
    } else {
        let s = join_text(parts, sep);
        let head = parts[0];
        let tail_join = join_text(parts.skip(1), sep);
        assert(s == head + seq![sep] + tail_join);
        let i = head.len() as int;
        assert(s.len() == head.len() + 1 + tail_join.len());
        assert(s[i] == sep);
        assert(forall|j: int| 0 <= j < i ==> s[j] == head[j]);
        assert(forall|j: int| 0 <= j < i ==> s[j] != sep);
        lemma_split_at_first(s, sep, i);
        assert(s.take(i) =~= head);
        assert(s.skip(i + 1) =~= tail_join);
        assert(forall|k: int|
            0 <= k < parts.skip(1).len() ==> parts.skip(1)[k] == parts[k + 1]);
        lemma_split_of_join(parts.skip(1), sep);
        assert(split_text(s, sep) =~~= seq![head] + parts.skip(1));
        assert(seq![head] + parts.skip(1) =~~= parts);
    }
}

/// The views of a vector of owned strings.
pub open spec fn views_of(v: Seq<String>) -> Seq<Seq<char>> {
    v.map_values(|p: String| p@)
}

/// Split an owned string at every occurrence of `sep`.
pub fn split_char(s: &str, sep: char) -> (r: Vec<String>)
    ensures
        views_of(r@) =~~= split_text(s@, sep),
{
    let n = s.unicode_len();
    let mut r: Vec<String> = Vec::new();
    let mut start: usize = 0;
    let mut i: usize = 0;
    proof {
        assert(s@.skip(0) =~= s@);
        assert(views_of(r@) =~~= Seq::<Seq<char>>::empty());
    }
    while i < n
        invariant
            0 <= start <= i <= n,
            n == s@.len(),
            forall|j: int| start <= j < i ==> s@[j] != sep,
            split_text(s@, sep) =~~= views_of(r@) + split_text(s@.skip(start as int), sep),
        decreases n - i,
    {
        if s.get_char(i) == sep {
            let part = s.substring_char(start, i);
            proof {
                let tail = s@.skip(start as int);
                assert(tail[i - start] == sep);
                assert(forall|j: int| 0 <= j < i - start ==> tail[j] != sep);
                lemma_split_at_first(tail, sep, i - start);
                assert(tail.take(i - start) =~= s@.subrange(start as int, i as int));
                assert(tail.skip(i - start + 1) =~= s@.skip(i + 1));
            }
            let ghost old_r = r@;
            r.push(part.to_owned());
            proof {
                assert(views_of(r@) =~~= views_of(old_r) + seq![part@]);
                assert(split_text(s@, sep) =~~= views_of(r@) + split_text(
                    s@.skip(i + 1),
                    sep,
                ));
            }
            start = i + 1;
        }
        i = i + 1;
    }
    let last = s.substring_char(start, n);
    proof {
        let tail = s@.skip(start as int);
        assert(forall|j: int| 0 <= j < tail.len() ==> tail[j] != sep);
        lemma_split_free(tail, sep);
        assert(tail =~= s@.subrange(start as int, n as int));
    }
    let ghost old_r = r@;
    r.push(last.to_owned());
    proof {
        assert(views_of(r@) =~~= views_of(old_r) + seq![last@]);
    }
    r
}

/// Join the parts with a newline between neighbours.
pub fn join_newline(parts: &Vec<String>) -> (r: String)
    requires
        parts@.len() >= 1,
    ensures
        r@ =~= join_text(views_of(parts@), '\n'),
{
    proof {
        reveal_strlit("\n");
    }
    let mut r: String = parts[0].clone();
    let mut i: usize = 1;
    while i < parts.len()
        invariant
            1 <= i <= parts@.len(),
            r@ =~= join_text(views_of(parts@).take(i as int), '\n'),
        decreases parts@.len() - i,
    {
        r.append("\n");
        r.append(parts[i].as_str());
        proof {
            reveal_strlit("\n");
            assert("\n"@ =~= seq!['\n']);
            let views = views_of(parts@);
            lemma_join_snoc(views.take(i as int), views[i as int], '\n');
            assert(views.take(i as int).push(views[i as int]) =~~= views.take(i + 1));
        }
        i = i + 1;
    }
    proof {
        assert(views_of(parts@).take(parts@.len() as int) =~~= views_of(parts@));
    }
    r
}

/// Appending one more part joins it on the right with one separator.
pub proof fn lemma_join_snoc(parts: Seq<Seq<char>>, last: Seq<char>, sep: char)
    requires
        parts.len() >= 1,
    ensures
        join_text(parts.push(last), sep) =~= join_text(parts, sep) + seq![sep] + last,
    decreases parts.len(),
{
    if parts.len() == 1 {
        let two = parts.push(last);
        assert(two.len() == 2);
        assert(two.skip(1) =~~= seq![last]);
        assert(join_text(two, sep) == two[0] + seq![sep] + join_text(two.skip(1), sep));
    } else {
        let p = parts.push(last);
        assert(p.skip(1) =~~= parts.skip(1).push(last));
        lemma_join_snoc(parts.skip(1), last, sep);
        assert(join_text(p, sep) == p[0] + seq![sep] + join_text(p.skip(1), sep));
        assert(join_text(p, sep) =~= join_text(parts, sep) + seq![sep] + last);
    }
}

pub open spec fn char_is_digit(c: char) -> bool {
    48 <= c as u32 <= 57
}

pub open spec fn digit_val(c: char) -> nat {
    (c as u32 - 48) as nat
}

pub open spec fn all_digits(s: Seq<char>) -> bool {
    forall|i: int| 0 <= i < s.len() ==> char_is_digit(s[i])
}

/// The number a digit string denotes, most significant digit first.
pub open spec fn digits_val(s: Seq<char>) -> nat
    decreases s.len(),
{
    if s.len() == 0 {
        0
    } else {
        digits_val(s.drop_last()) * 10 + digit_val(s.last())
    }
}

/// The digits of an unsigned decimal literal: everything after one
/// optional leading `+`.
pub open spec fn unsigned_body(s: Seq<char>) -> Seq<char> {
    if s.len() > 0 && s[0] == '+' {
        s.skip(1)
    } else {
        s
    }
}

/// Accepted by standard unsigned 64-bit decimal parsing: an optional `+`,
/// then at least one digit, denoting a value that fits.
pub open spec fn is_u64_text(s: Seq<char>) -> bool {
    let b = unsigned_body(s);
    b.len() > 0 && all_digits(b) && digits_val(b) <= u64::MAX
}

pub open spec fn u64_text_value(s: Seq<char>) -> nat {
    digits_val(unsigned_body(s))
}

/// The same for an 8-bit value.
pub open spec fn is_u8_text(s: Seq<char>) -> bool {
    let b = unsigned_body(s);
    b.len() > 0 && all_digits(b) && digits_val(b) <= u8::MAX
}

pub proof fn lemma_digits_val_take_le(s: Seq<char>, k: int)
    requires
        0 <= k <= s.len(),
    ensures
        digits_val(s.take(k)) <= digits_val(s),
    decreases s.len(),
{
    if k < s.len() {
        assert(s.drop_last().take(k) =~= s.take(k));
        lemma_digits_val_take_le(s.drop_last(), k);
        assert(digits_val(s) == digits_val(s.drop_last()) * 10 + digit_val(s.last()));
        assert(digits_val(s.drop_last()) * 10 >= digits_val(s.drop_last())) by (nonlinear_arith);
    } else {
        assert(s.take(k) =~= s);
    }
}

/// Parse an unsigned 64-bit decimal literal, optional `+` included;
/// `None` on any other text and on overflow.
pub fn parse_u64(s: &str) -> (r: Option<u64>)
    ensures
        r is Some <==> is_u64_text(s@),
        r matches Some(v) ==> v as nat == u64_text_value(s@),
{
    let n = s.unicode_len();
    let start: usize = if n > 0 && s.get_char(0) == '+' {
        1
    } else {
        0
    };
    let ghost b = unsigned_body(s@);
    proof {
        assert(b =~= s@.skip(start as int));
    }
    if start == n {
        return None;
    }
    let mut val: u64 = 0;
    let mut i: usize = start;
    while i < n
        invariant
            start <= i <= n,
            n == s@.len(),
            start < n,
            b == unsigned_body(s@),
            b == s@.skip(start as int),
            all_digits(b.take(i - start)),
            val as nat == digits_val(b.take(i - start)),
        decreases n - i,
    {
        let c = s.get_char(i);
        if c < '0' || c > '9' {
            proof {
                assert(b[i - start] == s@[i as int]);
                assert(!char_is_digit(b[i - start]));
                assert(!all_digits(b));
            }
            return None;
        }
        let d: u64 = (c as u32 - 48) as u64;
        proof {
            assert(char_is_digit(s@[i as int]));
            assert(d == digit_val(s@[i as int]));
            assert(b.take(i - start + 1).drop_last() =~= b.take(i - start));
            assert(b.take(i - start + 1).last() == b[i - start]);
            assert(b[i - start] == s@[i as int]);
            assert(digits_val(b.take(i - start + 1)) == val as nat * 10 + d);
        }
        let scaled = match val.checked_mul(10) {
            Some(m) => m,
            None => {
                proof {
                    lemma_digits_val_take_le(b, i - start + 1);
                }
                return None;
            },
        };
        let next = match scaled.checked_add(d) {
            Some(m) => m,
            None => {
                proof {
                    lemma_digits_val_take_le(b, i - start + 1);
                }
                return None;
            },
        };
        val = next;
        i = i + 1;
    }
    proof {
        assert(b.take(n - start) =~= b);
    }
    Some(val)
}

/// Parse an unsigned 8-bit decimal literal.
pub fn parse_u8(s: &str) -> (r: Option<u8>)
    ensures
        r is Some <==> is_u8_text(s@),
        r matches Some(v) ==> v as nat == u64_text_value(s@),
{
    match parse_u64(s) {
        Some(v) => {
            if v <= 255 {
                Some(v as u8)
            } else {
                None
            }
        },
        None => None,
    }
}

/// `sub` occurs in `s` starting at index `i`.
pub open spec fn has_sub_at(s: Seq<char>, sub: Seq<char>, i: int) -> bool {
    0 <= i && i + sub.len() <= s.len() && s.subrange(i, i + sub.len() as int) == sub
}

/// The least index at which `sub` occurs in `s`, if it occurs at all.
pub open spec fn find_sub(s: Seq<char>, sub: Seq<char>) -> Option<int>
    decreases s.len(),
{
    if sub.len() > s.len() {
        None
    } else if s.take(sub.len() as int) == sub {
        Some(0int)
    } else if s.len() == 0 {
        None
    } else {
        match find_sub(s.skip(1), sub) {
            Some(i) => Some(i + 1),
            None => None,
        }
    }
}

pub proof fn lemma_find_sub_correct(s: Seq<char>, sub: Seq<char>)
    ensures
        match find_sub(s, sub) {
            Some(i) => has_sub_at(s, sub, i) && forall|j: int| 0 <= j < i ==> !has_sub_at(s, sub, j),
            None => forall|j: int| !has_sub_at(s, sub, j),
        },
    decreases s.len(),
{
    if sub.len() > s.len() {
    } else if s.take(sub.len() as int) == sub {
        assert(s.subrange(0, sub.len() as int) =~= s.take(sub.len() as int));
    } else if s.len() == 0 {
        assert(s.subrange(0, 0) =~= s.take(0));
    } else {
        lemma_find_sub_correct(s.skip(1), sub);
        let t = s.skip(1);
        assert forall|j: int| 1 <= j && has_sub_at(s, sub, j) implies has_sub_at(t, sub, j - 1) by {
            assert(t.subrange(j - 1, j - 1 + sub.len() as int) =~= s.subrange(
                j,
                j + sub.len() as int,
            ));
        }
        assert forall|j: int| 0 <= j && has_sub_at(t, sub, j) implies has_sub_at(s, sub, j + 1) by {
            assert(s.subrange(j + 1, j + 1 + sub.len() as int) =~= t.subrange(
                j,
                j + sub.len() as int,
            ));
        }
        assert(!has_sub_at(s, sub, 0)) by {
            if has_sub_at(s, sub, 0) {
                assert(s.subrange(0, sub.len() as int) =~= s.take(sub.len() as int));
            }
        }
    }
}

/// Whether the characters of `lit` stand in `s` at position `from`.
pub fn text_matches_at(s: &str, from: usize, lit: &str) -> (r: bool)
    requires
        from + lit@.len() <= s@.len(),
        s@.len() <= usize::MAX,
    ensures
        r == has_sub_at(s@, lit@, from as int),
{
    let m = lit.unicode_len();
    let mut j: usize = 0;
    while j < m
        invariant
            0 <= j <= m,
            m == lit@.len(),
            from + m <= s@.len(),
            s@.len() <= usize::MAX,
            forall|k: int| 0 <= k < j ==> s@[from + k] == lit@[k],
        decreases m - j,
    {
        if s.get_char(from + j) != lit.get_char(j) {
            proof {
                assert(s@.subrange(from as int, from + m) != lit@) by {
                    assert(s@.subrange(from as int, from + m)[j as int] == s@[from + j]);
                }
            }
            return false;
        }
        j = j + 1;
    }
    proof {
        assert(s@.subrange(from as int, from + m) =~= lit@);
    }
    true
}

/// The least position at which `lit` occurs in `s`.
pub fn find_in_text(s: &str, lit: &str) -> (r: Option<usize>)
    ensures
        match r {
            Some(i) => find_sub(s@, lit@) == Some(i as int),
            None => find_sub(s@, lit@) is None,
        },
{
    let n = s.unicode_len();
    let m = lit.unicode_len();
    proof {
        lemma_find_sub_correct(s@, lit@);
    }
    if m > n {
        return None;
    }
    if m == 0 {
        proof {
            assert(s@.take(0) =~= lit@);
        }
        return Some(0);
    }
    let mut i: usize = 0;
    while i <= n - m
        invariant
            0 <= i <= n - m + 1,
            1 <= m <= n,
            n == s@.len(),
            m == lit@.len(),
            forall|j: int| 0 <= j < i ==> !has_sub_at(s@, lit@, j),
        decreases n - i,
    {
        if text_matches_at(s, i, lit) {
            proof {
                lemma_find_sub_correct(s@, lit@);
                match find_sub(s@, lit@) {
                    Some(k) => {
                        assert(k == i as int);
                    },
                    None => {
                        assert(false);
                    },
                }
            }
            return Some(i);
        }
        i = i + 1;
    }
    proof {
        lemma_find_sub_correct(s@, lit@);
        assert forall|j: int| !has_sub_at(s@, lit@, j) by {
            if 0 <= j && j + m <= n {
                assert(j < i);
            }
        }
    }
    None
}

} // verus!
