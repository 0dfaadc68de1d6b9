//! Character-level text operations with mathematical models.
//!
//! Every spec function here is written over `Seq<char>` and processes its input
//! from left to right (recursion on `drop_last`), which is the order in which
//! the executable loops below consume characters.
use vstd::prelude::*;

verus! {

// ---------------------------------------------------------------------------
// Character classes
// ---------------------------------------------------------------------------

/// The Unicode `White_Space` property, as `char::is_whitespace` defines it.
pub open spec fn is_ws(c: char) -> bool {
    ||| c == ' '
    ||| ('\t' <= c && c <= '\r')
    ||| c == '\u{85}'
    ||| c == '\u{A0}'
    ||| c == '\u{1680}'
    ||| ('\u{2000}' <= c && c <= '\u{200A}')
    ||| c == '\u{2028}'
    ||| c == '\u{2029}'
    ||| c == '\u{202F}'
    ||| c == '\u{205F}'
    ||| c == '\u{3000}'
}

pub open spec fn is_digit(c: char) -> bool {
    '0' <= c && c <= '9'
}

pub open spec fn is_lower(c: char) -> bool {
    'a' <= c && c <= 'z'
}

pub open spec fn is_upper(c: char) -> bool {
    'A' <= c && c <= 'Z'
}

pub open spec fn is_alnum(c: char) -> bool {
    is_digit(c) || is_lower(c) || is_upper(c)
}

pub open spec fn lower_char(c: char) -> char {
    if is_upper(c) {
        ((c as u32) + 32) as char
    } else {
        c
    }
}

pub open spec fn lower(s: Seq<char>) -> Seq<char> {
    s.map_values(|c: char| lower_char(c))
}

pub fn char_is_ws(c: char) -> (b: bool)
    ensures
        b == is_ws(c),
{
    c == ' ' || ('\t' <= c && c <= '\r') || c == '\u{85}' || c == '\u{A0}' || c == '\u{1680}' || (
    '\u{2000}' <= c && c <= '\u{200A}') || c == '\u{2028}' || c == '\u{2029}' || c == '\u{202F}'
        || c == '\u{205F}' || c == '\u{3000}'
}

pub fn char_is_digit(c: char) -> (b: bool)
    ensures
        b == is_digit(c),
{
    '0' <= c && c <= '9'
}

pub fn char_is_alnum(c: char) -> (b: bool)
    ensures
        b == is_alnum(c),
{
    ('0' <= c && c <= '9') || ('a' <= c && c <= 'z') || ('A' <= c && c <= 'Z')
}

pub fn char_lower(c: char) -> (r: char)
    ensures
        r == lower_char(c),
{
    if 'A' <= c && c <= 'Z' {
        ((c as u8) + 32) as char
    } else {
        c
    }
}

// ---------------------------------------------------------------------------
// Conversions between strings and character vectors
// ---------------------------------------------------------------------------
/// Appends one character to a string: `String::push`, which the contract
/// takes to add `c` at the end and change nothing else.
#[verifier::external_body]
pub(crate) fn push_char(s: &mut String, c: char)
    ensures
        final(s)@ == old(s)@.push(c),
{
    s.push(c);
}

pub fn chars_of(s: &str) -> (v: Vec<char>)
    ensures
        v@ == s@,
{
    let mut v: Vec<char> = Vec::new();
    for c in it: s.chars()
        invariant
            v@ == it.seq().take(it.index() as int),
            it.seq() == s@,
    {
        v.push(c);
    }
    v
}

pub fn string_of(v: &Vec<char>) -> (s: String)
    ensures
        s@ == v@,
{
    let mut s = String::new();
    let mut i: usize = 0;
    while i < v.len()
        invariant
            i <= v.len(),
            s@ == v@.take(i as int),
        decreases v.len() - i,
    {
        push_char(&mut s, v[i]);
        assert(v@.take(i + 1) =~= v@.take(i as int).push(v@[i as int]));
        i = i + 1;
    }
    assert(v@.take(v.len() as int) =~= v@);
    s
}

pub fn append_chars(s: &mut String, v: &Vec<char>)
    ensures
        final(s)@ == old(s)@ + v@,
{
    let mut i: usize = 0;
    while i < v.len()
        invariant
            i <= v.len(),
            s@ == old(s)@ + v@.take(i as int),
        decreases v.len() - i,
    {
        push_char(s, v[i]);
        assert(v@.take(i + 1) =~= v@.take(i as int).push(v@[i as int]));
        i = i + 1;
    }
    assert(v@.take(v.len() as int) =~= v@);
}

pub fn append_str(s: &mut String, t: &str)
    ensures
        final(s)@ == old(s)@ + t@,
{
    let v = chars_of(t);
    append_chars(s, &v);
}

/// The concatenation of `a` and `b`.
pub fn concat(a: &str, b: &str) -> (r: String)
    ensures
        r@ == a@ + b@,
{
    let mut r = owned(a);
    append_str(&mut r, b);
    r
}

/// A fresh string holding the characters of `s`.
pub fn owned(s: &str) -> (r: String)
    ensures
        r@ == s@,
{
    s.to_owned()
}

pub fn chars_eq(a: &Vec<char>, b: &Vec<char>) -> (r: bool)
    ensures
        r == (a@ == b@),
{
    if a.len() != b.len() {
        return false;
    }
    let mut i: usize = 0;
    while i < a.len()
        invariant
            a.len() == b.len(),
            i <= a.len(),
            forall|j: int| 0 <= j < i ==> a@[j] == b@[j],
        decreases a.len() - i,
    {
        if a[i] != b[i] {
            return false;
        }
        i = i + 1;
    }
    assert(a@ =~= b@);
    true
}

pub fn str_eq(a: &str, b: &str) -> (r: bool)
    ensures
        r == (a@ == b@),
{
    let x = chars_of(a);
    let y = chars_of(b);
    chars_eq(&x, &y)
}

// ---------------------------------------------------------------------------
// Case
// ---------------------------------------------------------------------------
pub fn lower_chars(v: &Vec<char>) -> (r: Vec<char>)
    ensures
        r@ == lower(v@),
{
    let mut r: Vec<char> = Vec::new();
    let mut i: usize = 0;
    while i < v.len()
        invariant
            i <= v.len(),
            r@ =~= lower(v@.take(i as int)),
        decreases v.len() - i,
    {
        let c = char_lower(v[i]);
        r.push(c);
        i = i + 1;
    }
    assert(v@.take(v.len() as int) =~= v@);
    r
}

/// `str::eq_ignore_ascii_case`.
pub fn eq_ignore_case(a: &str, b: &str) -> (r: bool)
    ensures
        r == (lower(a@) == lower(b@)),
{
    let x = lower_chars(&chars_of(a));
    let y = lower_chars(&chars_of(b));
    chars_eq(&x, &y)
}

// ---------------------------------------------------------------------------
// Trimming
// ---------------------------------------------------------------------------
/// Number of whitespace characters at the start of `s`.
pub open spec fn lead_ws(s: Seq<char>) -> nat
    decreases s.len(),
{
    if s.len() == 0 {
        0
    } else {
        let p = lead_ws(s.drop_last());
        if p == s.len() - 1 && is_ws(s.last()) {
            p + 1
        } else {
            p
        }
    }
}

/// Number of whitespace characters at the end of `s`.
pub open spec fn trail_ws(s: Seq<char>) -> nat
    decreases s.len(),
{
    if s.len() == 0 {
        0
    } else if is_ws(s.last()) {
        trail_ws(s.drop_last()) + 1
    } else {
        0
    }
}

pub open spec fn trim_start(s: Seq<char>) -> Seq<char> {
    s.skip(lead_ws(s) as int)
}

pub open spec fn trim_end(s: Seq<char>) -> Seq<char> {
    s.take(s.len() - trail_ws(s))
}

/// `str::trim`: `s` without leading and trailing whitespace.
pub open spec fn trim(s: Seq<char>) -> Seq<char> {
    trim_end(trim_start(s))
}

pub proof fn lemma_lead_ws_bound(s: Seq<char>)
    ensures
        lead_ws(s) <= s.len(),
        forall|j: int| 0 <= j < lead_ws(s) ==> is_ws(#[trigger] s[j]),
        lead_ws(s) < s.len() ==> !is_ws(s[lead_ws(s) as int]),
    decreases s.len(),
{
    if s.len() > 0 {
        lemma_lead_ws_bound(s.drop_last());
        assert forall|j: int| 0 <= j < lead_ws(s) implies is_ws(#[trigger] s[j]) by {
            if j < s.len() - 1 {
                assert(s.drop_last()[j] == s[j]);
            }
        }
        if lead_ws(s) < s.len() - 1 {
            assert(s.drop_last()[lead_ws(s) as int] == s[lead_ws(s) as int]);
        }
    }
}

pub proof fn lemma_trail_ws_bound(s: Seq<char>)
    ensures
        trail_ws(s) <= s.len(),
        forall|j: int| s.len() - trail_ws(s) <= j < s.len() ==> is_ws(#[trigger] s[j]),
        trail_ws(s) < s.len() ==> !is_ws(s[s.len() - trail_ws(s) - 1]),
    decreases s.len(),
{
    if s.len() > 0 {
        lemma_trail_ws_bound(s.drop_last());
        assert forall|j: int| s.len() - trail_ws(s) <= j < s.len() implies is_ws(#[trigger] s[j]) by {
            if j < s.len() - 1 {
                assert(s.drop_last()[j] == s[j]);
            }
        }
        if 0 < trail_ws(s) < s.len() {
            assert(s.drop_last()[s.len() - trail_ws(s) - 1] == s[s.len() - trail_ws(s) - 1]);
        }
    }
}

pub fn trim_chars(v: &Vec<char>) -> (r: Vec<char>)
    ensures
        r@ == trim(v@),
{
    let n = v.len();
    let mut lead: usize = 0;
    let mut i: usize = 0;
    while i < n
        invariant
            n == v.len(),
            i <= n,
            lead == lead_ws(v@.take(i as int)),
        decreases n - i,
    {
        proof {
            lemma_lead_ws_bound(v@.take(i as int));
        }
        assert(v@.take(i + 1).drop_last() =~= v@.take(i as int));
        if lead == i && char_is_ws(v[i]) {
            lead = lead + 1;
        }
        i = i + 1;
    }
    assert(v@.take(n as int) =~= v@);
    proof {
        lemma_lead_ws_bound(v@);
    }
    let ghost rest = v@.skip(lead as int);
    let mut trail: usize = 0;
    let mut k: usize = lead;
    while k < n
        invariant
            n == v.len(),
            lead <= k <= n,
            rest == v@.skip(lead as int),
            trail == trail_ws(rest.take(k - lead)),
            trail <= k - lead,
        decreases n - k,
    {
        assert(rest.take(k + 1 - lead).drop_last() =~= rest.take(k - lead));
        assert(rest.take(k + 1 - lead).last() == v@[k as int]);
        if char_is_ws(v[k]) {
            trail = trail + 1;
        } else {
            trail = 0;
        }
        k = k + 1;
    }
    assert(rest.take(n - lead) =~= rest);
    proof {
        lemma_trail_ws_bound(rest);
    }
    let mut r: Vec<char> = Vec::new();
    let mut j: usize = lead;
    let end = n - trail;
    while j < end
        invariant
            n == v.len(),
            lead <= j <= end,
            end <= n,
            r@ =~= v@.subrange(lead as int, j as int),
        decreases end - j,
    {
        r.push(v[j]);
        j = j + 1;
    }
    assert(trim(v@) =~= v@.subrange(lead as int, end as int));
    r
}

/// `str::trim`.
pub fn trim_str(s: &str) -> (r: String)
    ensures
        r@ == trim(s@),
{
    let v = chars_of(s);
    let t = trim_chars(&v);
    string_of(&t)
}

// ---------------------------------------------------------------------------
// Prefixes, suffixes and substrings
// ---------------------------------------------------------------------------
pub open spec fn starts_with(s: Seq<char>, p: Seq<char>) -> bool {
    p.len() <= s.len() && s.take(p.len() as int) == p
}

/// `needle` occurs in `s` at position `i`.
pub open spec fn occurs_at(s: Seq<char>, needle: Seq<char>, i: int) -> bool {
    0 <= i && i + needle.len() <= s.len() && s.subrange(i, i + needle.len()) == needle
}

pub open spec fn contains(s: Seq<char>, needle: Seq<char>) -> bool {
    exists|i: int| occurs_at(s, needle, i)
}

pub fn chars_starts_with(s: &Vec<char>, p: &Vec<char>) -> (r: bool)
    ensures
        r == starts_with(s@, p@),
{
    if p.len() > s.len() {
        return false;
    }
    let mut i: usize = 0;
    while i < p.len()
        invariant
            p.len() <= s.len(),
            i <= p.len(),
            forall|j: int| 0 <= j < i ==> s@[j] == p@[j],
        decreases p.len() - i,
    {
        if s[i] != p[i] {
            assert(s@.take(p.len() as int)[i as int] != p@[i as int]);
            return false;
        }
        i = i + 1;
    }
    assert(s@.take(p.len() as int) =~= p@);
    true
}

pub fn str_starts_with(s: &str, p: &str) -> (r: bool)
    ensures
        r == starts_with(s@, p@),
{
    chars_starts_with(&chars_of(s), &chars_of(p))
}

fn occurs_at_exec(s: &Vec<char>, needle: &Vec<char>, i: usize) -> (r: bool)
    requires
        i + needle.len() <= s.len(),
    ensures
        r == occurs_at(s@, needle@, i as int),
{
    let mut k: usize = 0;
    while k < needle.len()
        invariant
            i + needle.len() <= s.len(),
            k <= needle.len(),
            forall|j: int| 0 <= j < k ==> s@[i + j] == needle@[j],
        decreases needle.len() - k,
    {
        if s[i + k] != needle[k] {
            assert(s@.subrange(i as int, i + needle.len())[k as int] != needle@[k as int]);
            return false;
        }
        k = k + 1;
    }
    assert(s@.subrange(i as int, i + needle.len()) =~= needle@);
    true
}

pub fn chars_contains(s: &Vec<char>, needle: &Vec<char>) -> (r: bool)
    ensures
        r == contains(s@, needle@),
{
    if needle.len() > s.len() {
        return false;
    }
    if needle.len() == 0 {
        assert(s@.subrange(0, 0) =~= needle@);
        assert(occurs_at(s@, needle@, 0));
        return true;
    }
    let last = s.len() - needle.len();
    let mut i: usize = 0;
    while i <= last
        invariant
            1 <= needle.len() <= s.len(),
            last == s.len() - needle.len(),
            i <= last + 1,
            forall|j: int| 0 <= j < i ==> !occurs_at(s@, needle@, j),
        decreases last + 1 - i,
    {
        if occurs_at_exec(s, needle, i) {
            return true;
        }
        i = i + 1;
    }
    false
}

// ---------------------------------------------------------------------------
// Replacement
// ---------------------------------------------------------------------------
/// `s` with every occurrence of the character `c` replaced by `by`.
pub open spec fn replace_char(s: Seq<char>, c: char, by: Seq<char>) -> Seq<char>
    decreases s.len(),
{
    if s.len() == 0 {
        s
    } else if s.last() == c {
        replace_char(s.drop_last(), c, by) + by
    } else {
        replace_char(s.drop_last(), c, by).push(s.last())
    }
}

pub fn replace_chars(v: &Vec<char>, c: char, by: &Vec<char>) -> (r: Vec<char>)
    ensures
        r@ == replace_char(v@, c, by@),
{
    let mut r: Vec<char> = Vec::new();
    let mut i: usize = 0;
    while i < v.len()
        invariant
            i <= v.len(),
            r@ == replace_char(v@.take(i as int), c, by@),
        decreases v.len() - i,
    {
        assert(v@.take(i + 1).drop_last() =~= v@.take(i as int));
        if v[i] == c {
            let mut k: usize = 0;
            let ghost before = r@;
            while k < by.len()
                invariant
                    k <= by.len(),
                    r@ == before + by@.take(k as int),
                decreases by.len() - k,
            {
                r.push(by[k]);
                assert(by@.take(k + 1) =~= by@.take(k as int).push(by@[k as int]));
                k = k + 1;
            }
            assert(by@.take(by.len() as int) =~= by@);
        } else {
            r.push(v[i]);
        }
        i = i + 1;
    }
    assert(v@.take(v.len() as int) =~= v@);
    r
}

// ---------------------------------------------------------------------------
// Decimal and hexadecimal numerals
// ---------------------------------------------------------------------------
pub open spec fn digit_char(d: nat) -> char {
    ((d + 48) as u32) as char
}

/// The decimal numeral of `n`, without leading zeros.
pub open spec fn decimal(n: nat) -> Seq<char>
    decreases n,
{
    if n < 10 {
        seq![digit_char(n)]
    } else {
        decimal(n / 10).push(digit_char(n % 10))
    }
}

pub fn push_decimal(s: &mut String, n: u128)
    ensures
        final(s)@ == old(s)@ + decimal(n as nat),
    decreases n,
{
    if n >= 10 {
        push_decimal(s, n / 10);
    }
    let d = (n % 10) as u8;
    push_char(s, (d + 48) as char);
    assert(((d + 48) as u8) as char == digit_char((n % 10) as nat));
}

pub fn decimal_string(n: u128) -> (s: String)
    ensures
        s@ == decimal(n as nat),
{
    let mut s = String::new();
    push_decimal(&mut s, n);
    s
}

pub open spec fn hex_digit(d: nat) -> char {
    if d < 10 {
        digit_char(d)
    } else {
        ((d + 87) as u32) as char
    }
}

/// The lowercase hexadecimal numeral of `n` in exactly `width` digits
/// (the low `width` nibbles, most significant first).
pub open spec fn hex_fixed(n: nat, width: nat) -> Seq<char>
    decreases width,
{
    if width == 0 {
        seq![]
    } else {
        hex_fixed(n / 16, (width - 1) as nat).push(hex_digit(n % 16))
    }
}

fn push_hex_fixed(s: &mut String, n: u64, width: u32)
    requires
        width <= 16,
    ensures
        final(s)@ == old(s)@ + hex_fixed(n as nat, width as nat),
    decreases width,
{
    if width > 0 {
        push_hex_fixed(s, n / 16, width - 1);
        let d = (n % 16) as u8;
        if d < 10 {
            push_char(s, (d + 48) as char);
        } else {
            push_char(s, (d + 87) as char);
        }
    }
}

/// `format!("{n:016x}")`.
pub fn hex16(n: u64) -> (s: String)
    ensures
        s@ == hex_fixed(n as nat, 16),
{
    let mut s = String::new();
    push_hex_fixed(&mut s, n, 16);
    s
}

// ---------------------------------------------------------------------------
// Parsing unsigned integers (`str::parse::<uN>`)
// ---------------------------------------------------------------------------
pub open spec fn all_digits(s: Seq<char>) -> bool {
    forall|i: int| 0 <= i < s.len() ==> is_digit(#[trigger] s[i])
}

/// The value of a string of decimal digits.
pub open spec fn digits_value(s: Seq<char>) -> nat
    decreases s.len(),
{
    if s.len() == 0 {
        0
    } else {
        digits_value(s.drop_last()) * 10 + ((s.last() as u32) - 48) as nat
    }
}

/// The digits that `uN::from_str` reads: an optional leading `+`, then at
/// least one decimal digit and nothing else.
pub open spec fn numeral_body(s: Seq<char>) -> Seq<char> {
    if s.len() > 0 && s[0] == '+' {
        s.drop_first()
    } else {
        s
    }
}

pub open spec fn is_numeral(s: Seq<char>) -> bool {
    numeral_body(s).len() > 0 && all_digits(numeral_body(s))
}

/// What `s.parse::<uN>()` gives, where `max` is `uN::MAX`.
pub open spec fn parse_unsigned(s: Seq<char>, max: nat) -> Option<nat> {
    if is_numeral(s) && digits_value(numeral_body(s)) <= max {
        Some(digits_value(numeral_body(s)))
    } else {
        None
    }
}

pub proof fn lemma_digits_value_prefix(s: Seq<char>, i: int)
    requires
        0 <= i <= s.len(),
        all_digits(s),
    ensures
        digits_value(s.take(i)) <= digits_value(s),
    decreases s.len() - i,
{
    if i < s.len() {
        lemma_digits_value_prefix(s, i + 1);
        assert(s.take(i + 1).drop_last() =~= s.take(i));
        assert(is_digit(s[i]));
    } else {
        assert(s.take(i) =~= s);
    }
}

/// `s.parse::<u64>()` restricted to values up to `max`.
pub fn parse_u64_max(s: &Vec<char>, max: u64) -> (r: Option<u64>)
    ensures
        r matches Some(x) ==> parse_unsigned(s@, max as nat) == Some(x as nat),
        r is None ==> parse_unsigned(s@, max as nat) is None,
{
    let start: usize = if s.len() > 0 && s[0] == '+' {
        1
    } else {
        0
    };
    let ghost body = numeral_body(s@);
    assert(body =~= s@.skip(start as int));
    if start >= s.len() {
        return None;
    }
    let mut acc: u64 = 0;
    let mut i: usize = start;
    while i < s.len()
        invariant
            start <= i <= s.len(),
            body == s@.skip(start as int),
            body == numeral_body(s@),
            acc as nat == digits_value(body.take(i - start)),
            acc <= max,
            all_digits(body.take(i - start)),
        decreases s.len() - i,
    {
        let c = s[i];
        assert(body.take(i + 1 - start).drop_last() =~= body.take(i - start));
        assert(body.take(i + 1 - start).last() == c);
        if !char_is_digit(c) {
            assert(body[i - start] == c);
            assert(!all_digits(body));
            return None;
        }
        let d = (c as u32 - 48) as u64;
        if d > max || acc > (max - d) / 10 {
            proof {
                assert(digits_value(body.take(i + 1 - start)) > max) by (nonlinear_arith)
                    requires
                        digits_value(body.take(i + 1 - start)) == acc * 10 + d,
                        d > max || acc > (max - d) / 10,
                        d <= 9,
                ;
                if all_digits(body) {
                    lemma_digits_value_prefix(body, i + 1 - start);
                }
            }
            return None;
        }
        proof {
            assert(acc * 10 + d <= max) by (nonlinear_arith)
                requires
                    acc <= (max - d) / 10,
                    d <= max,
            ;
        }
        acc = acc * 10 + d;
        i = i + 1;
    }
    assert(body.take(s.len() - start) =~= body);
    Some(acc)
}

// ---------------------------------------------------------------------------
// Splitting
// ---------------------------------------------------------------------------
/// `s.split_once(c)`: the text before the first `c`, and the text after it
/// when `c` occurs.
pub open spec fn split_once(s: Seq<char>, c: char) -> (Seq<char>, Option<Seq<char>>)
    decreases s.len(),
{
    if s.len() == 0 {
        (s, None)
    } else {
        let (h, r) = split_once(s.drop_last(), c);
        match r {
            None => if s.last() == c {
                (h, Some(Seq::<char>::empty()))
            } else {
                (h.push(s.last()), None)
            },
            Some(t) => (h, Some(t.push(s.last()))),
        }
    }
}

pub fn split_once_chars(v: &Vec<char>, c: char) -> (r: (Vec<char>, Option<Vec<char>>))
    ensures
        r.0@ == split_once(v@, c).0,
        r.1 is None <==> split_once(v@, c).1 is None,
        r.1 matches Some(t) ==> split_once(v@, c).1 == Some(t@),
{
    let mut head: Vec<char> = Vec::new();
    let mut rest: Vec<char> = Vec::new();
    let mut found = false;
    let mut i: usize = 0;
    while i < v.len()
        invariant
            i <= v.len(),
            head@ == split_once(v@.take(i as int), c).0,
            found <==> split_once(v@.take(i as int), c).1 is Some,
            found ==> split_once(v@.take(i as int), c).1 == Some(rest@),
            !found ==> rest@.len() == 0,
        decreases v.len() - i,
    {
        assert(v@.take(i + 1).drop_last() =~= v@.take(i as int));
        if found {
            rest.push(v[i]);
        } else if v[i] == c {
            found = true;
        } else {
            head.push(v[i]);
        }
        i = i + 1;
    }
    assert(v@.take(v.len() as int) =~= v@);
    if found {
        (head, Some(rest))
    } else {
        (head, None)
    }
}

/// `str::split(sep)` for a one-character separator: never empty.
pub open spec fn split_on(s: Seq<char>, sep: char) -> Seq<Seq<char>>
    decreases s.len(),
{
    if s.len() == 0 {
        seq![Seq::<char>::empty()]
    } else {
        let prev = split_on(s.drop_last(), sep);
        if s.last() == sep {
            prev.push(Seq::<char>::empty())
        } else {
            prev.update(prev.len() - 1, prev.last().push(s.last()))
        }
    }
}

pub proof fn lemma_split_on_nonempty(s: Seq<char>, sep: char)
    ensures
        split_on(s, sep).len() >= 1,
    decreases s.len(),
{
    if s.len() > 0 {
        lemma_split_on_nonempty(s.drop_last(), sep);
    }
}

pub open spec fn strip_cr(line: Seq<char>) -> Seq<char> {
    if line.len() > 0 && line.last() == '\r' {
        line.drop_last()
    } else {
        line
    }
}

/// `str::lines`: lines end at `\n` (an `\r` just before it is dropped too),
/// and a final line ending adds no empty line.
pub open spec fn lines(s: Seq<char>) -> Seq<Seq<char>> {
    let parts = split_on(s, '\n');
    let ended = parts.drop_last().map_values(|p: Seq<char>| strip_cr(p));
    if parts.last().len() == 0 {
        ended
    } else {
        ended.push(parts.last())
    }
}

pub fn split_on_chars(v: &Vec<char>, sep: char) -> (r: Vec<Vec<char>>)
    ensures
        r@.len() == split_on(v@, sep).len(),
        forall|k: int| 0 <= k < r@.len() ==> #[trigger] r@[k]@ == split_on(v@, sep)[k],
{
    let mut parts: Vec<Vec<char>> = Vec::new();
    let mut cur: Vec<char> = Vec::new();
    let mut i: usize = 0;
    while i < v.len()
        invariant
            i <= v.len(),
            parts@.len() + 1 == split_on(v@.take(i as int), sep).len(),
            forall|k: int|
                0 <= k < parts@.len() ==> #[trigger] parts@[k]@ == split_on(
                    v@.take(i as int),
                    sep,
                )[k],
            cur@ == split_on(v@.take(i as int), sep).last(),
        decreases v.len() - i,
    {
        assert(v@.take(i + 1).drop_last() =~= v@.take(i as int));
        proof {
            lemma_split_on_nonempty(v@.take(i as int), sep);
        }
        if v[i] == sep {
            let done = cur;
            parts.push(done);
            cur = Vec::new();
        } else {
            cur.push(v[i]);
        }
        i = i + 1;
    }
    assert(v@.take(v.len() as int) =~= v@);
    proof {
        lemma_split_on_nonempty(v@, sep);
    }
    parts.push(cur);
    parts
}

pub fn strip_cr_chars(v: Vec<char>) -> (r: Vec<char>)
    ensures
        r@ == strip_cr(v@),
{
    let mut v = v;
    if v.len() > 0 && v[v.len() - 1] == '\r' {
        v.pop();
    }
    v
}

/// `str::lines`.
pub fn lines_of(s: &str) -> (r: Vec<Vec<char>>)
    ensures
        r@.len() == lines(s@).len(),
        forall|k: int| 0 <= k < r@.len() ==> #[trigger] r@[k]@ == lines(s@)[k],
{
    let v = chars_of(s);
    let parts = split_on_chars(&v, '\n');
    proof {
        lemma_split_on_nonempty(v@, '\n');
    }
    let ghost spec_parts = split_on(v@, '\n');
    let n = parts.len();
    let mut r: Vec<Vec<char>> = Vec::new();
    let mut i: usize = 0;
    while i + 1 < n
        invariant
            n == parts@.len(),
            n == spec_parts.len(),
            spec_parts == split_on(s@, '\n'),
            forall|k: int| 0 <= k < n ==> #[trigger] parts@[k]@ == spec_parts[k],
            i < n,
            r@.len() == i,
            forall|k: int| 0 <= k < i ==> #[trigger] r@[k]@ == strip_cr(spec_parts[k]),
        decreases n - i,
    {
        let p = parts[i].clone();
        let q = strip_cr_chars(p);
        r.push(q);
        i = i + 1;
    }
    let last = parts[n - 1].clone();
    if last.len() > 0 {
        r.push(last);
    }
    r
}

/// `str::split_whitespace`: the maximal runs of non-whitespace characters.
pub open spec fn words(s: Seq<char>) -> Seq<Seq<char>>
    decreases s.len(),
{
    if s.len() == 0 {
        seq![]
    } else {
        let prev = words(s.drop_last());
        let c = s.last();
        if is_ws(c) {
            prev
        } else if s.len() >= 2 && !is_ws(s[s.len() - 2]) {
            prev.update(prev.len() - 1, prev.last().push(c))
        } else {
            prev.push(seq![c])
        }
    }
}

pub proof fn lemma_words_nonempty_when_in_word(s: Seq<char>)
    requires
        s.len() > 0,
        !is_ws(s.last()),
    ensures
        words(s).len() > 0,
    decreases s.len(),
{
    if s.len() >= 2 && !is_ws(s[s.len() - 2]) {
        assert(s.drop_last().last() == s[s.len() - 2]);
        lemma_words_nonempty_when_in_word(s.drop_last());
    }
}

pub fn words_of(s: &str) -> (r: Vec<Vec<char>>)
    ensures
        r@.len() == words(s@).len(),
        forall|k: int| 0 <= k < r@.len() ==> #[trigger] r@[k]@ == words(s@)[k],
{
    let v = chars_of(s);
    let mut done: Vec<Vec<char>> = Vec::new();
    let mut cur: Vec<char> = Vec::new();
    let mut in_word = false;
    let mut i: usize = 0;
    while i < v.len()
        invariant
            v@ == s@,
            i <= v.len(),
            in_word <==> (i > 0 && !is_ws(v@[i - 1])),
            in_word ==> words(v@.take(i as int)).len() == done@.len() + 1 && cur@ == words(
                v@.take(i as int),
            ).last(),
            !in_word ==> words(v@.take(i as int)).len() == done@.len(),
            forall|k: int|
                0 <= k < done@.len() ==> #[trigger] done@[k]@ == words(v@.take(i as int))[k],
        decreases v.len() - i,
    {
        assert(v@.take(i + 1).drop_last() =~= v@.take(i as int));
        let c = v[i];
        if char_is_ws(c) {
            if in_word {
                let w = cur;
                done.push(w);
                cur = Vec::new();
            }
            in_word = false;
        } else {
            if !in_word {
                cur = Vec::new();
            }
            cur.push(c);
            in_word = true;
        }
        proof {
            if !is_ws(c) {
                lemma_words_nonempty_when_in_word(v@.take(i + 1));
            }
        }
        i = i + 1;
    }
    assert(v@.take(v.len() as int) =~= v@);
    if in_word {
        done.push(cur);
    }
    done
}


// ---------------------------------------------------------------------------
// Slices, digit runs and trimmed lines
// ---------------------------------------------------------------------------
/// The views of a sequence of strings.
pub open spec fn views(v: Seq<String>) -> Seq<Seq<char>> {
    v.map_values(|x: String| x@)
}

pub fn slice_chars(v: &Vec<char>, from: usize, to: usize) -> (r: Vec<char>)
    requires
        from <= to <= v.len(),
    ensures
        r@ == v@.subrange(from as int, to as int),
{
    let mut r: Vec<char> = Vec::new();
    let mut i: usize = from;
    while i < to
        invariant
            from <= i <= to,
            to <= v.len(),
            r@ =~= v@.subrange(from as int, i as int),
        decreases to - i,
    {
        r.push(v[i]);
        i = i + 1;
    }
    r
}

/// Number of decimal digits at the start of `s`.
pub open spec fn lead_digits(s: Seq<char>) -> nat
    decreases s.len(),
{
    if s.len() == 0 {
        0
    } else {
        let p = lead_digits(s.drop_last());
        if p == s.len() - 1 && is_digit(s.last()) {
            p + 1
        } else {
            p
        }
    }
}

pub proof fn lemma_lead_digits_bound(s: Seq<char>)
    ensures
        lead_digits(s) <= s.len(),
        forall|j: int| 0 <= j < lead_digits(s) ==> is_digit(#[trigger] s[j]),
        lead_digits(s) < s.len() ==> !is_digit(s[lead_digits(s) as int]),
    decreases s.len(),
{
    if s.len() > 0 {
        lemma_lead_digits_bound(s.drop_last());
        assert forall|j: int| 0 <= j < lead_digits(s) implies is_digit(#[trigger] s[j]) by {
            if j < s.len() - 1 {
                assert(s.drop_last()[j] == s[j]);
            }
        }
        if lead_digits(s) < s.len() - 1 {
            assert(s.drop_last()[lead_digits(s) as int] == s[lead_digits(s) as int]);
        }
    }
}

pub fn count_lead_digits(v: &Vec<char>) -> (n: usize)
    ensures
        n == lead_digits(v@),
{
    let mut n: usize = 0;
    let mut i: usize = 0;
    while i < v.len()
        invariant
            i <= v.len(),
            n == lead_digits(v@.take(i as int)),
            n <= i,
        decreases v.len() - i,
    {
        assert(v@.take(i + 1).drop_last() =~= v@.take(i as int));
        if n == i && char_is_digit(v[i]) {
            n = n + 1;
        }
        i = i + 1;
    }
    assert(v@.take(v.len() as int) =~= v@);
    n
}

/// The lines that are not blank, each trimmed, in order.
pub open spec fn keep_trimmed(ls: Seq<Seq<char>>) -> Seq<Seq<char>>
    decreases ls.len(),
{
    if ls.len() == 0 {
        seq![]
    } else {
        let p = keep_trimmed(ls.drop_last());
        let t = trim(ls.last());
        if t.len() > 0 {
            p.push(t)
        } else {
            p
        }
    }
}

/// `text.lines().map(str::trim).filter(|l| !l.is_empty())`.
pub open spec fn trimmed_lines(text: Seq<char>) -> Seq<Seq<char>> {
    keep_trimmed(lines(text))
}

pub fn trimmed_lines_of(text: &str) -> (r: Vec<String>)
    ensures
        views(r@) == trimmed_lines(text@),
{
    let ls = lines_of(text);
    let ghost spec_ls = lines(text@);
    let mut r: Vec<String> = Vec::new();
    let mut i: usize = 0;
    while i < ls.len()
        invariant
            i <= ls.len(),
            ls@.len() == spec_ls.len(),
            spec_ls == lines(text@),
            forall|k: int| 0 <= k < ls@.len() ==> #[trigger] ls@[k]@ == spec_ls[k],
            views(r@) == keep_trimmed(spec_ls.take(i as int)),
        decreases ls.len() - i,
    {
        assert(spec_ls.take(i + 1).drop_last() =~= spec_ls.take(i as int));
        assert(spec_ls.take(i + 1).last() == ls@[i as int]@);
        let t = trim_chars(&ls[i]);
        if t.len() > 0 {
            let ghost before = r@;
            r.push(string_of(&t));
            assert(views(r@) =~= views(before).push(t@));
        }
        i = i + 1;
    }
    assert(spec_ls.take(ls.len() as int) =~= spec_ls);
    r
}


// ---------------------------------------------------------------------------
// Trimming one character (`str::trim_matches(c)`)
// ---------------------------------------------------------------------------
/// Number of copies of `c` at the start of `s`.
pub open spec fn lead_char(s: Seq<char>, c: char) -> nat
    decreases s.len(),
{
    if s.len() == 0 {
        0
    } else {
        let p = lead_char(s.drop_last(), c);
        if p == s.len() - 1 && s.last() == c {
            p + 1
        } else {
            p
        }
    }
}

/// Number of copies of `c` at the end of `s`.
pub open spec fn trail_char(s: Seq<char>, c: char) -> nat
    decreases s.len(),
{
    if s.len() == 0 {
        0
    } else if s.last() == c {
        trail_char(s.drop_last(), c) + 1
    } else {
        0
    }
}

pub proof fn lemma_lead_char_bound(s: Seq<char>, c: char)
    ensures
        lead_char(s, c) <= s.len(),
        lead_char(s, c) < s.len() ==> s[lead_char(s, c) as int] != c,
    decreases s.len(),
{
    if s.len() > 0 {
        lemma_lead_char_bound(s.drop_last(), c);
        if lead_char(s, c) < s.len() - 1 {
            assert(s.drop_last()[lead_char(s, c) as int] == s[lead_char(s, c) as int]);
        }
    }
}

pub proof fn lemma_trail_char_bound(s: Seq<char>, c: char)
    ensures
        trail_char(s, c) <= s.len(),
    decreases s.len(),
{
    if s.len() > 0 {
        lemma_trail_char_bound(s.drop_last(), c);
    }
}

/// `s` without the copies of `c` at either end.
pub open spec fn trim_char(s: Seq<char>, c: char) -> Seq<char> {
    let a = s.skip(lead_char(s, c) as int);
    a.take(a.len() - trail_char(a, c))
}

pub fn trim_char_chars(v: &Vec<char>, c: char) -> (r: Vec<char>)
    ensures
        r@ == trim_char(v@, c),
{
    let n = v.len();
    let mut lead: usize = 0;
    let mut i: usize = 0;
    while i < n
        invariant
            n == v.len(),
            i <= n,
            lead == lead_char(v@.take(i as int), c),
            lead <= i,
        decreases n - i,
    {
        assert(v@.take(i + 1).drop_last() =~= v@.take(i as int));
        if lead == i && v[i] == c {
            lead = lead + 1;
        }
        i = i + 1;
    }
    assert(v@.take(n as int) =~= v@);
    let a = slice_chars(v, lead, n);
    assert(a@ =~= v@.skip(lead as int));
    let mut trail: usize = 0;
    let mut k: usize = 0;
    while k < a.len()
        invariant
            k <= a.len(),
            trail == trail_char(a@.take(k as int), c),
            trail <= k,
        decreases a.len() - k,
    {
        assert(a@.take(k + 1).drop_last() =~= a@.take(k as int));
        if a[k] == c {
            trail = trail + 1;
        } else {
            trail = 0;
        }
        k = k + 1;
    }
    assert(a@.take(a.len() as int) =~= a@);
    let r = slice_chars(&a, 0, a.len() - trail);
    assert(r@ =~= trim_char(v@, c));
    r
}


// ---------------------------------------------------------------------------
// Numerals read back
// ---------------------------------------------------------------------------
pub proof fn lemma_decimal_digits(n: nat)
    ensures
        decimal(n).len() > 0,
        all_digits(decimal(n)),
        digits_value(decimal(n)) == n,
    decreases n,
{
    assert((digit_char(n % 10) as u32) == n % 10 + 48);
    if n >= 10 {
        lemma_decimal_digits(n / 10);
        let d = decimal(n);
        assert(d.drop_last() =~= decimal(n / 10));
        assert forall|i: int| 0 <= i < d.len() implies is_digit(#[trigger] d[i]) by {
            if i < d.len() - 1 {
                assert(d[i] == decimal(n / 10)[i]);
            }
        }
        assert((n / 10) * 10 + n % 10 == n) by (nonlinear_arith);
        assert(d.last() == digit_char(n % 10));
        assert(digits_value(d) == digits_value(decimal(n / 10)) * 10 + (n % 10));
    } else {
        let d = decimal(n);
        assert(d.drop_last() =~= Seq::<char>::empty());
        assert(n % 10 == n);
        assert(digits_value(d) == digits_value(d.drop_last()) * 10 + n);
    }
}

/// The decimal numeral of a number reads back as that number.
pub proof fn lemma_parse_decimal(n: nat, max: nat)
    requires
        n <= max,
    ensures
        parse_unsigned(decimal(n), max) == Some(n),
{
    lemma_decimal_digits(n);
    let d = decimal(n);
    assert(is_digit(d[0]));
    assert(numeral_body(d) == d);
}


// ---------------------------------------------------------------------------
// Text that the operations leave unchanged
// ---------------------------------------------------------------------------
/// Text that does not trim to nothing trims to its own trim.
pub proof fn lemma_trim_twice(s: Seq<char>)
    requires
        trim(s).len() > 0,
    ensures
        trim(trim(s)) == trim(s),
{
    let a = trim_start(s);
    lemma_lead_ws_bound(s);
    lemma_trail_ws_bound(a);
    let t = trim(s);
    assert(t[0] == a[0]);
    assert(a[0] == s[lead_ws(s) as int]);
    assert(t.last() == a[a.len() - trail_ws(a) - 1]);
    lemma_trim_noop(t);
}

/// Text that neither starts nor ends with whitespace is its own trim.
pub proof fn lemma_trim_noop(s: Seq<char>)
    requires
        s.len() > 0,
        !is_ws(s[0]),
        !is_ws(s.last()),
    ensures
        trim(s) == s,
{
    lemma_lead_ws_bound(s);
    if lead_ws(s) > 0 {
        assert(is_ws(s[0]));
    }
    assert(trim_start(s) =~= s);
    lemma_trail_ws_bound(s);
    if trail_ws(s) > 0 {
        assert(is_ws(s[s.len() - 1]));
    }
    assert(trim_end(s) =~= s);
}

/// Text without uppercase letters is its own lowercase.
pub proof fn lemma_lower_noop(s: Seq<char>)
    requires
        forall|i: int| 0 <= i < s.len() ==> !is_upper(#[trigger] s[i]),
    ensures
        lower(s) == s,
{
    assert(lower(s) =~= s);
}

/// Replacing a character that does not occur changes nothing.
pub proof fn lemma_replace_noop(s: Seq<char>, c: char, by: Seq<char>)
    requires
        forall|i: int| 0 <= i < s.len() ==> #[trigger] s[i] != c,
    ensures
        replace_char(s, c, by) == s,
    decreases s.len(),
{
    if s.len() > 0 {
        assert forall|i: int| 0 <= i < s.drop_last().len() implies #[trigger] s.drop_last()[i] != c by {
            assert(s.drop_last()[i] == s[i]);
        }
        lemma_replace_noop(s.drop_last(), c, by);
        assert(s.drop_last().push(s.last()) =~= s);
    }
}

} // verus!
