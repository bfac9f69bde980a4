use vstd::prelude::*;

use crate::datetime::{all_digits, digits_value, is_digit};

verus! {

/// The characters of `s`, one by one.
pub fn chars_of(s: &str) -> (r: Vec<char>)
    ensures
        r@ == s@,
{
    let n = s.unicode_len();
    let mut r: Vec<char> = Vec::new();
    let mut i: usize = 0;
    while i < n
        invariant
            n == s@.len(),
            i <= n,
            r@ == s@.subrange(0, i as int),
        decreases n - i,
    {
        r.push(s.get_char(i));
        i = i + 1;
    }
    r
}

/// Relies on `FromIterator<char>` for `String`: the string holds the characters in order.
#[verifier::external_body]
pub(crate) fn string_of(v: &[char]) -> (r: String)
    ensures
        r@ == v@,
{
    v.iter().collect()
}

/// `a` and `b` hold the same characters.
pub fn str_eq(a: &str, b: &str) -> (r: bool)
    ensures
        r == (a@ == b@),
{
    let x = chars_of(a);
    let y = chars_of(b);
    chars_eq(&x, &y)
}

/// `a` and `b` hold the same characters.
pub fn chars_eq(a: &[char], b: &[char]) -> (r: bool)
    ensures
        r == (a@ == b@),
{
    if a.len() != b.len() {
        return false;
    }
    let mut i: usize = 0;
    while i < a.len()
        invariant
            a@.len() == b@.len(),
            i <= a@.len(),
            a@.subrange(0, i as int) == b@.subrange(0, i as int),
        decreases a@.len() - i,
    {
        if a[i] != b[i] {
            assert(a@[i as int] != b@[i as int]);
            return false;
        }
        assert(a@.subrange(0, i + 1) == a@.subrange(0, i as int).push(a@[i as int]));
        assert(b@.subrange(0, i + 1) == b@.subrange(0, i as int).push(b@[i as int]));
        i = i + 1;
    }
    assert(a@ == a@.subrange(0, a@.len() as int));
    assert(b@ == b@.subrange(0, b@.len() as int));
    true
}

/// `a` and `b` hold the same bytes.
pub fn bytes_eq(a: &[u8], b: &[u8]) -> (r: bool)
    ensures
        r == (a@ == b@),
{
    if a.len() != b.len() {
        return false;
    }
    let mut i: usize = 0;
    while i < a.len()
        invariant
            a@.len() == b@.len(),
            i <= a@.len(),
            a@.subrange(0, i as int) == b@.subrange(0, i as int),
        decreases a@.len() - i,
    {
        if a[i] != b[i] {
            assert(a@[i as int] != b@[i as int]);
            return false;
        }
        assert(a@.subrange(0, i + 1) == a@.subrange(0, i as int).push(a@[i as int]));
        assert(b@.subrange(0, i + 1) == b@.subrange(0, i as int).push(b@[i as int]));
        i = i + 1;
    }
    assert(a@ == a@.subrange(0, a@.len() as int));
    assert(b@ == b@.subrange(0, b@.len() as int));
    true
}

/// A vector with the bytes of `v`.
pub fn copy_slice(v: &[u8]) -> (r: Vec<u8>)
    ensures
        r@ == v@,
{
    let mut r: Vec<u8> = Vec::new();
    let mut k: usize = 0;
    while k < v.len()
        invariant
            k <= v@.len(),
            r@ == v@.subrange(0, k as int),
        decreases v@.len() - k,
    {
        r.push(v[k]);
        k = k + 1;
    }
    assert(r@ =~= v@);
    r
}

/// A copy of `v` with the same bytes.
pub fn copy_bytes(v: &Vec<u8>) -> (r: Vec<u8>)
    ensures
        r@ == v@,
{
    let r = v.clone();
    assert(r@ =~= v@);
    r
}

pub open spec fn is_space(c: char) -> bool {
    c == ' ' || c == '\t' || c == '\n' || c == '\r' || c == '\x0C'
}

/// `s` without leading characters that satisfy `p`.
pub open spec fn trim_start_by(s: Seq<char>, p: spec_fn(char) -> bool) -> Seq<char>
    decreases s.len(),
{
    if s.len() > 0 && p(s[0]) {
        trim_start_by(s.drop_first(), p)
    } else {
        s
    }
}

/// `s` without trailing characters that satisfy `p`.
pub open spec fn trim_end_by(s: Seq<char>, p: spec_fn(char) -> bool) -> Seq<char>
    decreases s.len(),
{
    if s.len() > 0 && p(s.last()) {
        trim_end_by(s.drop_last(), p)
    } else {
        s
    }
}

pub open spec fn trim_by(s: Seq<char>, p: spec_fn(char) -> bool) -> Seq<char> {
    trim_end_by(trim_start_by(s, p), p)
}

/// `s` without ASCII white space at either end.
pub open spec fn trimmed(s: Seq<char>) -> Seq<char> {
    trim_by(s, |c: char| is_space(c))
}

/// `s` without `-` at either end.
pub open spec fn trimmed_dashes(s: Seq<char>) -> Seq<char> {
    trim_by(s, |c: char| c == '-')
}

proof fn lemma_trim_start_suffix(s: Seq<char>, p: spec_fn(char) -> bool, i: int)
    requires
        0 <= i <= s.len(),
        forall|j: int| 0 <= j < i ==> p(#[trigger] s[j]),
        i == s.len() || !p(s[i]),
    ensures
        trim_start_by(s, p) == s.subrange(i, s.len() as int),
    decreases i,
{
    if i > 0 {
        assert(p(s[0]));
        let t = s.drop_first();
        assert forall|j: int| 0 <= j < i - 1 implies p(#[trigger] t[j]) by {
            assert(t[j] == s[j + 1]);
        }
        lemma_trim_start_suffix(t, p, i - 1);
        assert(t.subrange(i - 1, t.len() as int) =~= s.subrange(i, s.len() as int));
    } else {
        assert(s.subrange(0, s.len() as int) =~= s);
    }
}

proof fn lemma_trim_end_prefix(s: Seq<char>, p: spec_fn(char) -> bool, k: int)
    requires
        0 <= k <= s.len(),
        forall|j: int| k <= j < s.len() ==> p(#[trigger] s[j]),
        k == 0 || !p(s[k - 1]),
    ensures
        trim_end_by(s, p) == s.subrange(0, k),
    decreases s.len() - k,
{
    if k < s.len() {
        assert(p(s.last()));
        let t = s.drop_last();
        assert forall|j: int| k <= j < t.len() implies p(#[trigger] t[j]) by {
            assert(t[j] == s[j]);
        }
        lemma_trim_end_prefix(t, p, k);
        assert(t.subrange(0, k) =~= s.subrange(0, k));
    } else {
        assert(s.subrange(0, k) =~= s);
    }
}

/// The characters of `s` without those at either end that satisfy `p`.
pub(crate) fn trim_chars_by(s: &[char], Ghost(p): Ghost<spec_fn(char) -> bool>, is_p: impl Fn(char) -> bool) -> (r: Vec<char>)
    requires
        forall|c: char| #[trigger] is_p.requires((c,)),
        forall|c: char, b: bool| #[trigger] is_p.ensures((c,), b) ==> b == p(c),
    ensures
        r@ == trim_by(s@, p),
{
    let n = s.len();
    let mut i: usize = 0;
    while i < n && is_p(s[i])
        invariant
            n == s@.len(),
            i <= n,
            forall|c: char| #[trigger] is_p.requires((c,)),
            forall|c: char, b: bool| #[trigger] is_p.ensures((c,), b) ==> b == p(c),
            forall|j: int| 0 <= j < i ==> p(#[trigger] s@[j]),
        decreases n - i,
    {
        i = i + 1;
    }
    proof {
        lemma_trim_start_suffix(s@, p, i as int);
    }
    let ghost t = s@.subrange(i as int, n as int);
    let mut k: usize = n;
    while k > i && is_p(s[k - 1])
        invariant
            n == s@.len(),
            i <= k <= n,
            t == s@.subrange(i as int, n as int),
            forall|c: char| #[trigger] is_p.requires((c,)),
            forall|c: char, b: bool| #[trigger] is_p.ensures((c,), b) ==> b == p(c),
            forall|j: int| k <= j < n ==> p(#[trigger] s@[j]),
        decreases k,
    {
        k = k - 1;
    }
    proof {
        assert forall|j: int| k - i <= j < t.len() implies p(#[trigger] t[j]) by {
            assert(t[j] == s@[j + i]);
        }
        if k > i {
            assert(t[k - i - 1] == s@[k - 1]);
        }
        lemma_trim_end_prefix(t, p, k - i);
    }
    let mut r: Vec<char> = Vec::new();
    let mut j: usize = i;
    while j < k
        invariant
            i <= j <= k <= n,
            n == s@.len(),
            r@ == s@.subrange(i as int, j as int),
        decreases k - j,
    {
        r.push(s[j]);
        j = j + 1;
    }
    assert(r@ =~= t.subrange(0, k - i));
    r
}

/// `s` without ASCII white space at either end.
pub fn trim(s: &str) -> (r: String)
    ensures
        r@ == trimmed(s@),
{
    let v = chars_of(s);
    let t = trim_chars_by(&v, Ghost(|c: char| is_space(c)), |c: char| -> (b: bool)
        ensures b == is_space(c)
        { c == ' ' || c == '\t' || c == '\n' || c == '\r' || c == '\x0C' });
    string_of(&t)
}

/// The characters of `s` from `from` up to `to`.
pub fn slice_chars(s: &[char], from: usize, to: usize) -> (r: Vec<char>)
    requires
        from <= to <= s@.len(),
    ensures
        r@ == s@.subrange(from as int, to as int),
{
    let mut r: Vec<char> = Vec::new();
    let mut i = from;
    while i < to
        invariant
            from <= i <= to <= s@.len(),
            r@ == s@.subrange(from as int, i as int),
        decreases to - i,
    {
        r.push(s[i]);
        i = i + 1;
    }
    r
}

/// The text of `s` before the first occurrence of `p`, or all of `s` where `p` does not occur.
pub open spec fn before_first(s: Seq<char>, p: Seq<char>) -> Seq<char>
    decreases s.len(),
{
    if s.len() < p.len() || p.len() == 0 {
        s
    } else if s.subrange(0, p.len() as int) == p {
        Seq::empty()
    } else {
        seq![s[0]] + before_first(s.drop_first(), p)
    }
}

/// The text of `s` after the first occurrence of `p`, where `p` occurs.
pub open spec fn after_first(s: Seq<char>, p: Seq<char>) -> Option<Seq<char>>
    decreases s.len(),
{
    if s.len() < p.len() || p.len() == 0 {
        None
    } else if s.subrange(0, p.len() as int) == p {
        Some(s.subrange(p.len() as int, s.len() as int))
    } else {
        after_first(s.drop_first(), p)
    }
}

/// Splits `s` at the first occurrence of `p`: the text before it, and the text after it where
/// `p` occurs.
pub fn split_first(s: &[char], p: &[char]) -> (r: (Vec<char>, Option<Vec<char>>))
    requires
        p@.len() > 0,
    ensures
        r.0@ == before_first(s@, p@),
        r.1 matches Some(a) ==> after_first(s@, p@) == Some(a@),
        r.1 is None ==> after_first(s@, p@) is None,
{
    let n = s.len();
    let m = p.len();
    let mut i: usize = 0;
    let mut head: Vec<char> = Vec::new();
    assert(s@.subrange(0, n as int) =~= s@);
    assert(head@ + before_first(s@, p@) =~= before_first(s@, p@));
    while i < n && m <= n - i
        invariant
            i <= n,
            n == s@.len(),
            m == p@.len(),
            m > 0,
            head@ == s@.subrange(0, i as int),
            before_first(s@, p@) == head@ + before_first(s@.subrange(i as int, n as int), p@),
            after_first(s@, p@) == after_first(s@.subrange(i as int, n as int), p@),
        decreases n - i,
    {
        let ghost rest = s@.subrange(i as int, n as int);
        let hit = crate::codec::starts_with_at(s, i, p);
        if hit {
            proof {
                assert(rest.subrange(0, m as int) =~= s@.subrange(i as int, i + m));
            }
            let tail = slice_chars(s, i + m, n);
            proof {
                assert(rest.subrange(m as int, rest.len() as int) =~= tail@);
                assert(head@ + Seq::<char>::empty() =~= head@);
            }
            return (head, Some(tail));
        }
        proof {
            assert(rest.subrange(0, m as int) =~= s@.subrange(i as int, i + m));
            assert(rest.drop_first() =~= s@.subrange(i + 1, n as int));
            assert(head@.push(s@[i as int]) + before_first(rest.drop_first(), p@) =~= head@ + (seq![rest[0]]
                + before_first(rest.drop_first(), p@)));
        }
        head.push(s[i]);
        i = i + 1;
    }
    let ghost rest = s@.subrange(i as int, n as int);
    assert(rest.len() < m);
    while i < n
        invariant
            i <= n,
            n == s@.len(),
            head@ == s@.subrange(0, i as int),
        decreases n - i,
    {
        head.push(s[i]);
        i = i + 1;
    }
    assert(head@ =~= s@);
    proof {
        assert(s@.subrange(0, (n - rest.len()) as int) + rest =~= s@);
    }
    (head, None)
}

/// What `s` stands for as a decimal integer with an optional sign.
pub open spec fn int_value(s: Seq<char>) -> Option<int> {
    if s.len() > 1 && s[0] == '-' && all_digits(s.drop_first()) {
        Some(-(digits_value(s.drop_first()) as int))
    } else if s.len() > 1 && s[0] == '+' && all_digits(s.drop_first()) {
        Some(digits_value(s.drop_first()) as int)
    } else if s.len() > 0 && all_digits(s) {
        Some(digits_value(s) as int)
    } else {
        None
    }
}

proof fn lemma_digits_value_grows(d: Seq<char>, i: int)
    requires
        all_digits(d),
        0 <= i <= d.len(),
    ensures
        digits_value(d.subrange(0, i)) <= digits_value(d),
    decreases d.len() - i,
{
    if i < d.len() {
        lemma_digits_value_grows(d, i + 1);
        assert(d.subrange(0, i + 1).drop_last() =~= d.subrange(0, i));
    } else {
        assert(d.subrange(0, i) =~= d);
    }
}

/// The decimal integer written by `s`, with an optional sign, where it lies within `-bound..=bound`.
pub fn parse_int(s: &[char], bound: i64) -> (r: Option<i64>)
    requires
        0 <= bound,
    ensures
        r matches Some(v) ==> int_value(s@) == Some(v as int) && -bound <= v <= bound,
        r is None ==> !(int_value(s@) matches Some(v) && -bound <= v <= bound),
{
    let n = s.len();
    if n == 0 {
        return None;
    }
    let negative = s[0] == '-';
    let start: usize = if (s[0] == '-' || s[0] == '+') && n > 1 {
        1
    } else {
        0
    };
    let ghost d = s@.subrange(start as int, n as int);
    let mut v: i64 = 0;
    let mut i = start;
    while i < n
        invariant
            start <= i <= n,
            n == s@.len(),
            d == s@.subrange(start as int, n as int),
            0 <= v <= bound,
            v == digits_value(s@.subrange(start as int, i as int)),
            forall|j: int| start <= j < i ==> is_digit(#[trigger] s@[j]),
            0 <= bound,
            n > 0,
            start <= 1,
            start == 1 <==> ((s@[0] == '-' || s@[0] == '+') && n > 1),
            negative == (s@[0] == '-'),
        decreases n - i,
    {
        let c = s[i];
        if !('0' <= c && c <= '9') {
            proof {
                assert(!is_digit(d[i - start]));
                if start == 1 {
                    assert(s@.drop_first() =~= d);
                } else {
                    assert(s@ =~= d);
                }
            }
            return None;
        }
        assert(s@.subrange(start as int, i + 1).drop_last() =~= s@.subrange(start as int, i as int));
        let digit = (c as u32 - 48) as i64;
        if digit > bound || v > (bound - digit) / 10 {
            proof {
                assert(forall|j: int| 0 <= j < d.len() ==> #[trigger] d[j] == s@[start + j]);
                if all_digits(d) {
                    lemma_digits_value_grows(d, i + 1 - start);
                    assert(d.subrange(0, i + 1 - start) =~= s@.subrange(start as int, i + 1));
                }
                if start == 1 {
                    assert(s@.drop_first() =~= d);
                } else {
                    assert(s@ =~= d);
                }
            }
            return None;
        }
        assert(v * 10 + digit <= bound) by (nonlinear_arith)
            requires
                v <= (bound - digit) / 10,
                bound - digit >= 0,
        ;
        v = v * 10 + digit;
        i = i + 1;
    }
    assert(s@.subrange(start as int, n as int) == d);
    assert(all_digits(d));
    if start == 1 {
        assert(s@.drop_first() =~= d);
        if negative {
            return Some(-v);
        }
        return Some(v);
    }
    assert(d =~= s@);
    if n > 1 && (s[0] == '-' || s[0] == '+') {
        assert(false);
    }
    if negative {
        assert(!is_digit(s@[0]));
        return None;
    }
    Some(v)
}

pub open spec fn is_separator(c: char) -> bool {
    c == ' ' || c == '/' || c == ')' || c == '(' || c == '.'
}

/// `s` with each run of the characters ` /)(.` replaced by one `-`.
pub open spec fn collapse_separators(s: Seq<char>) -> Seq<char>
    decreases s.len(),
{
    if s.len() == 0 {
        Seq::empty()
    } else if is_separator(s[0]) && s.len() > 1 && is_separator(s[1]) {
        collapse_separators(s.drop_first())
    } else if is_separator(s[0]) {
        seq!['-'] + collapse_separators(s.drop_first())
    } else {
        seq![s[0]] + collapse_separators(s.drop_first())
    }
}

/// Relies on regex: `Regex::new` on the pattern `[ /)(.]+` and `Regex::replace_all`, which
/// replaces each leftmost-first match, here each maximal run of those characters, with `-`.
#[verifier::external_body]
fn replace_all_matches(pattern: &str, s: &str, replacement: &str) -> (r: String)
    requires
        pattern@ == "[ /)(.]+"@,
        replacement@ == "-"@,
    ensures
        r@ == collapse_separators(s@),
{
    regex::Regex::new(pattern).unwrap().replace_all(s, replacement).into_owned()
}

/// What `str::to_lowercase` makes of the characters `s`.
pub uninterp spec fn lower_of(s: Seq<char>) -> Seq<char>;

/// Relies on `str::to_lowercase`: the result depends on the characters alone, and an empty
/// string stays empty.
#[verifier::external_body]
fn lowercase(s: &str) -> (r: String)
    ensures
        r@ == lower_of(s@),
        s@.len() == 0 ==> r@.len() == 0,
{
    s.to_lowercase()
}

/// A slug for a free-text label: runs of ` /)(.` become one `-`, `-` at either end is
/// dropped, and the rest is lowercased.
pub fn slug(s: &str) -> (r: String)
    ensures
        r@ == lower_of(trimmed_dashes(collapse_separators(s@))),
{
    let replaced = replace_all_matches("[ /)(.]+", s, "-");
    let v = chars_of(replaced.as_str());
    let t = trim_chars_by(&v, Ghost(|c: char| c == '-'), |c: char| -> (b: bool)
        ensures b == (c == '-')
        { c == '-' });
    let joined = string_of(&t);
    lowercase(joined.as_str())
}

/// A copy of `s`.
pub fn copy_string(s: &String) -> (r: String)
    ensures
        r@ == s@,
{
    s.clone()
}

} // verus!
