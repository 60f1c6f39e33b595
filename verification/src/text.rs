//! Character classes, UTF-16/UTF-8 measures and string building over `char` sequences.
use vstd::prelude::*;

verus! {

/// Number of UTF-16 code units that encode `c`.
pub open spec fn utf16_width(c: char) -> nat {
    if (c as u32) < 0x10000 { 1 } else { 2 }
}

/// Number of UTF-8 bytes that encode `c`.
pub open spec fn utf8_width(c: char) -> nat {
    if (c as u32) < 0x80 { 1 } else if (c as u32) < 0x800 { 2 } else if (c as u32) < 0x10000 { 3 } else { 4 }
}

/// UTF-16 length of a character sequence.
pub open spec fn utf16_len(s: Seq<char>) -> nat
    decreases s.len(),
{
    if s.len() == 0 { 0 } else { utf16_len(s.drop_last()) + utf16_width(s.last()) }
}

/// UTF-8 length of a character sequence (what `str::len` reports).
pub open spec fn utf8_len(s: Seq<char>) -> nat
    decreases s.len(),
{
    if s.len() == 0 { 0 } else { utf8_len(s.drop_last()) + utf8_width(s.last()) }
}

/// The UTF-16 code units of a character sequence.
pub open spec fn utf16_units(s: Seq<char>) -> Seq<u16>
    decreases s.len(),
{
    if s.len() == 0 { Seq::empty() } else { utf16_units(s.drop_last()) + char_units(s.last()) }
}

/// The UTF-16 code units of one character (one unit, or a surrogate pair).
pub open spec fn char_units(c: char) -> Seq<u16> {
    let v = c as u32;
    if v < 0x10000 {
        seq![v as u16]
    } else {
        let w = (v - 0x10000) as int;
        seq![(0xD800 + w / 1024) as u16, (0xDC00 + w % 1024) as u16]
    }
}

/// ECMAScript white space and line terminators, the separators of the expression language.
pub open spec fn is_ecma_space(c: char) -> bool {
    let v = c as u32;
    v == 0x09 || v == 0x0a || v == 0x0b || v == 0x0c || v == 0x0d || v == 0x20 || v == 0xa0
        || v == 0x1680 || (0x2000 <= v <= 0x200a) || v == 0x2028 || v == 0x2029 || v == 0x202f
        || v == 0x205f || v == 0x3000 || v == 0xfeff
}

/// Unicode `White_Space`, the property that `char::is_whitespace` reports.
pub open spec fn is_unicode_space(c: char) -> bool {
    let v = c as u32;
    (0x09 <= v <= 0x0d) || v == 0x20 || v == 0x85 || v == 0xa0 || v == 0x1680
        || (0x2000 <= v <= 0x200a) || v == 0x2028 || v == 0x2029 || v == 0x202f || v == 0x205f
        || v == 0x3000
}

/// General category `Cc`, the property that `char::is_control` reports.
pub open spec fn is_control(c: char) -> bool {
    let v = c as u32;
    v <= 0x1f || (0x7f <= v <= 0x9f)
}

pub open spec fn is_ascii_digit(c: char) -> bool { '0' <= c <= '9' }

pub open spec fn is_ascii_alpha(c: char) -> bool { ('a' <= c <= 'z') || ('A' <= c <= 'Z') }

pub open spec fn is_word_start(c: char) -> bool { is_ascii_alpha(c) || c == '_' }

pub open spec fn is_word_char(c: char) -> bool { is_ascii_alpha(c) || is_ascii_digit(c) || c == '_' }

/// Value of a hexadecimal digit, when `c` is one.
pub open spec fn hex_value(c: char) -> Option<u32> {
    if '0' <= c <= '9' { Some((c as u32 - '0' as u32) as u32) }
    else if 'a' <= c <= 'f' { Some((c as u32 - 'a' as u32 + 10) as u32) }
    else if 'A' <= c <= 'F' { Some((c as u32 - 'A' as u32 + 10) as u32) }
    else { None }
}

/// Strict code-point lexicographic order, the order `Ord for String` uses.
pub open spec fn seq_lt(a: Seq<char>, b: Seq<char>) -> bool
    decreases a.len(),
{
    if b.len() == 0 { false }
    else if a.len() == 0 { true }
    else if a[0] != b[0] { a[0] < b[0] }
    else { seq_lt(a.drop_first(), b.drop_first()) }
}

pub fn char_utf16_width(c: char) -> (w: usize)
    ensures w == utf16_width(c),
{
    if (c as u32) < 0x10000 { 1 } else { 2 }
}

pub fn char_utf8_width(c: char) -> (w: usize)
    ensures w == utf8_width(c),
{
    let v = c as u32;
    if v < 0x80 { 1 } else if v < 0x800 { 2 } else if v < 0x10000 { 3 } else { 4 }
}

pub fn ecma_space(c: char) -> (r: bool)
    ensures r == is_ecma_space(c),
{
    let v = c as u32;
    v == 0x09 || v == 0x0a || v == 0x0b || v == 0x0c || v == 0x0d || v == 0x20 || v == 0xa0
        || v == 0x1680 || (0x2000 <= v && v <= 0x200a) || v == 0x2028 || v == 0x2029 || v == 0x202f
        || v == 0x205f || v == 0x3000 || v == 0xfeff
}

pub fn unicode_space(c: char) -> (r: bool)
    ensures r == is_unicode_space(c),
{
    let v = c as u32;
    (0x09 <= v && v <= 0x0d) || v == 0x20 || v == 0x85 || v == 0xa0 || v == 0x1680
        || (0x2000 <= v && v <= 0x200a) || v == 0x2028 || v == 0x2029 || v == 0x202f || v == 0x205f
        || v == 0x3000
}

pub fn control(c: char) -> (r: bool)
    ensures r == is_control(c),
{
    let v = c as u32;
    v <= 0x1f || (0x7f <= v && v <= 0x9f)
}

pub fn ascii_digit(c: char) -> (r: bool)
    ensures r == is_ascii_digit(c),
{
    '0' <= c && c <= '9'
}

pub fn word_start(c: char) -> (r: bool)
    ensures r == is_word_start(c),
{
    ('a' <= c && c <= 'z') || ('A' <= c && c <= 'Z') || c == '_'
}

pub fn word_char(c: char) -> (r: bool)
    ensures r == is_word_char(c),
{
    ('a' <= c && c <= 'z') || ('A' <= c && c <= 'Z') || ('0' <= c && c <= '9') || c == '_'
}

pub fn hex_digit(c: char) -> (r: Option<u32>)
    ensures r == hex_value(c),
{
    if '0' <= c && c <= '9' { Some(c as u32 - '0' as u32) }
    else if 'a' <= c && c <= 'f' { Some(c as u32 - 'a' as u32 + 10) }
    else if 'A' <= c && c <= 'F' { Some(c as u32 - 'A' as u32 + 10) }
    else { None }
}

/// The characters of `s`, in order.
pub fn chars_of(s: &str) -> (v: Vec<char>)
    ensures v@ == s@,
{
    let mut v: Vec<char> = Vec::new();
    for c in it: s.chars()
        invariant
            v@ == it.seq().take(it.index()),
    {
        v.push(c);
    }
    v
}

} // verus!

verus! {

#[verifier::external_body]
fn push_char_unchecked(s: &mut String, c: char)
    ensures final(s)@ == old(s)@.push(c),
{
    s.push(c)
}

/// Appends one character.
pub fn push_char(s: &mut String, c: char)
    ensures final(s)@ == old(s)@.push(c),
{
    push_char_unchecked(s, c)
}

/// Appends a string slice.
pub fn push_str(s: &mut String, t: &str)
    ensures final(s)@ == old(s)@ + t@,
{
    s.append(t)
}

/// A string made of exactly the given characters.
pub fn string_of(v: &[char]) -> (s: String)
    ensures s@ == v@,
{
    let mut s = String::new();
    let mut i: usize = 0;
    while i < v.len()
        invariant
            i <= v@.len(),
            s@ == v@.take(i as int),
        decreases v@.len() - i,
    {
        push_char(&mut s, v[i]);
        assert(v@.take(i as int).push(v@[i as int]) =~= v@.take(i + 1));
        i += 1;
    }
    assert(v@.take(v@.len() as int) =~= v@);
    s
}

/// Equality of two character sequences.
pub fn chars_equal(a: &[char], b: &[char]) -> (r: bool)
    ensures r == (a@ == b@),
{
    if a.len() != b.len() { return false; }
    let mut i: usize = 0;
    while i < a.len()
        invariant
            a@.len() == b@.len(),
            i <= a@.len(),
            forall|j: int| 0 <= j < i ==> a@[j] == b@[j],
        decreases a@.len() - i,
    {
        if a[i] != b[i] { return false; }
        i += 1;
    }
    assert(a@ =~= b@);
    true
}

/// Equality of two string slices, by their characters.
pub fn str_equal(a: &str, b: &str) -> (r: bool)
    ensures r == (a@ == b@),
{
    let x = chars_of(a);
    let y = chars_of(b);
    chars_equal(x.as_slice(), y.as_slice())
}

proof fn lemma_seq_lt_irreflexive(a: Seq<char>)
    ensures !seq_lt(a, a),
    decreases a.len(),
{
    if a.len() > 0 { lemma_seq_lt_irreflexive(a.drop_first()); }
}

/// Strict code-point lexicographic order of two character sequences.
pub fn chars_less(a: &[char], b: &[char]) -> (r: bool)
    ensures r == seq_lt(a@, b@),
{
    let mut i: usize = 0;
    assert(a@.skip(0) =~= a@);
    assert(b@.skip(0) =~= b@);
    while i < a.len() && i < b.len() && a[i] == b[i]
        invariant
            i <= a@.len(), i <= b@.len(),
            seq_lt(a@, b@) == seq_lt(a@.skip(i as int), b@.skip(i as int)),
        decreases a@.len() - i,
    {
        assert(a@.skip(i as int).drop_first() =~= a@.skip(i + 1));
        assert(b@.skip(i as int).drop_first() =~= b@.skip(i + 1));
        i += 1;
    }
    if i == b.len() {
        false
    } else if i == a.len() {
        true
    } else {
        a[i] < b[i]
    }
}

/// Strict code-point lexicographic order of two string slices.
pub fn str_less(a: &str, b: &str) -> (r: bool)
    ensures r == seq_lt(a@, b@),
{
    let x = chars_of(a);
    let y = chars_of(b);
    chars_less(x.as_slice(), y.as_slice())
}

/// A prefix is never longer in UTF-16 than the whole.
pub proof fn lemma_utf16_len_prefix(s: Seq<char>, n: int)
    requires 0 <= n <= s.len(),
    ensures utf16_len(s.take(n)) <= utf16_len(s),
    decreases s.len() - n,
{
    if n < s.len() {
        lemma_utf16_len_prefix(s, n + 1);
        assert(s.take(n + 1).drop_last() =~= s.take(n));
    } else {
        assert(s.take(n) =~= s);
    }
}

/// Each character takes at least one UTF-16 unit.
pub proof fn lemma_utf16_len_at_least_len(s: Seq<char>)
    ensures s.len() <= utf16_len(s),
    decreases s.len(),
{
    if s.len() > 0 { lemma_utf16_len_at_least_len(s.drop_last()); }
}

/// UTF-16 length of `s`, or `None` once it exceeds `limit`.
pub fn count_utf16_bounded(s: &[char], limit: usize) -> (r: Option<usize>)
    requires limit < usize::MAX,
    ensures
        match r {
            Some(n) => n == utf16_len(s@) && n <= limit,
            None => utf16_len(s@) > limit,
        },
{
    let mut n: usize = 0;
    let mut i: usize = 0;
    while i < s.len()
        invariant
            i <= s@.len(),
            n == utf16_len(s@.take(i as int)),
            n <= limit, limit < usize::MAX,
        decreases s@.len() - i,
    {
        assert(s@.take(i + 1).drop_last() =~= s@.take(i as int));
        let w = char_utf16_width(s[i]);
        if w > limit - n {
            proof { lemma_utf16_len_prefix(s@, i + 1); }
            return None;
        }
        n = n + w;
        i += 1;
    }
    assert(s@.take(s@.len() as int) =~= s@);
    Some(n)
}

/// UTF-8 length of `s`, or `None` once it exceeds `limit`.
pub fn count_utf8_bounded(s: &[char], limit: usize) -> (r: Option<usize>)
    requires limit < usize::MAX - 4,
    ensures
        match r {
            Some(n) => n == utf8_len(s@) && n <= limit,
            None => utf8_len(s@) > limit,
        },
{
    let mut n: usize = 0;
    let mut i: usize = 0;
    while i < s.len()
        invariant
            i <= s@.len(),
            n == utf8_len(s@.take(i as int)),
            n <= limit, limit < usize::MAX - 4,
        decreases s@.len() - i,
    {
        assert(s@.take(i + 1).drop_last() =~= s@.take(i as int));
        let w = char_utf8_width(s[i]);
        assert(w <= 4);
        if w > limit - n {
            proof { lemma_utf8_len_prefix(s@, i + 1); }
            return None;
        }
        n = n + w;
        i += 1;
    }
    assert(s@.take(s@.len() as int) =~= s@);
    Some(n)
}

pub proof fn lemma_utf8_len_prefix(s: Seq<char>, n: int)
    requires 0 <= n <= s.len(),
    ensures utf8_len(s.take(n)) <= utf8_len(s),
    decreases s.len() - n,
{
    if n < s.len() {
        lemma_utf8_len_prefix(s, n + 1);
        assert(s.take(n + 1).drop_last() =~= s.take(n));
    } else {
        assert(s.take(n) =~= s);
    }
}

/// Appends the UTF-16 code units of `c`.
pub fn push_units(units: &mut Vec<u16>, c: char)
    ensures final(units)@ == old(units)@ + char_units(c),
{
    let v = c as u32;
    if v < 0x10000 {
        units.push(v as u16);
        assert(final(units)@ =~= old(units)@ + char_units(c));
    } else {
        let w = v - 0x10000;
        units.push((0xD800 + w / 1024) as u16);
        units.push((0xDC00 + w % 1024) as u16);
        assert(final(units)@ =~= old(units)@ + char_units(c));
    }
}


/// The UTF-16 code units of a string.
pub fn utf16_of(s: &str) -> (v: Vec<u16>)
    ensures v@ == utf16_units(s@),
{
    let cs = chars_of(s);
    let mut v: Vec<u16> = Vec::new();
    let mut i: usize = 0;
    while i < cs.len()
        invariant i <= cs@.len(), cs@ == s@, v@ == utf16_units(cs@.take(i as int)),
        decreases cs@.len() - i,
    {
        proof { assert(cs@.take(i + 1).drop_last() =~= cs@.take(i as int)); }
        push_units(&mut v, cs[i]);
        i += 1;
    }
    assert(cs@.take(cs@.len() as int) =~= cs@);
    v
}

} // verus!
