//! Byte-level text utilities: ASCII case folding, case-insensitive
//! comparison and containment, whitespace trimming, substring search, and
//! the bridge between byte sequences and UTF-8 strings.
use vstd::prelude::*;
use vstd::string::StringSliceAdditionalSpecFns;
use vstd::utf8::valid_utf8;
use vstd::utf8::decode_utf8;

verus! {

// ---------------------------------------------------------------------------
// ASCII case folding
// ---------------------------------------------------------------------------
/// Lowercases one byte if it is an ASCII capital letter.
pub open spec fn lower8(b: u8) -> u8 {
    if 65 <= b <= 90 {
        (b + 32) as u8
    } else {
        b
    }
}

/// Uppercases one byte if it is an ASCII small letter.
pub open spec fn upper8(b: u8) -> u8 {
    if 97 <= b <= 122 {
        (b - 32) as u8
    } else {
        b
    }
}

/// Uppercases an ASCII small letter; any other character passes through.
pub open spec fn upper_char(c: char) -> char {
    if 'a' <= c <= 'z' {
        ((c as u8) - 32) as char
    } else {
        c
    }
}

pub fn lower_byte(b: u8) -> (r: u8)
    ensures
        r == lower8(b),
{
    if 65 <= b && b <= 90 {
        b + 32
    } else {
        b
    }
}

pub fn upper_byte(b: u8) -> (r: u8)
    ensures
        r == upper8(b),
{
    if 97 <= b && b <= 122 {
        b - 32
    } else {
        b
    }
}

// ---------------------------------------------------------------------------
// Comparison and containment
// ---------------------------------------------------------------------------
/// Case-insensitive (ASCII) equality of two byte sequences.
pub open spec fn eq_ci(a: Seq<u8>, b: Seq<u8>) -> bool {
    a.len() == b.len() && forall|i: int| 0 <= i < a.len() ==> lower8(a[i]) == lower8(b[i])
}

/// The pattern occurs in the text starting exactly at offset `i`.
pub open spec fn match_at(t: Seq<u8>, p: Seq<u8>, i: int) -> bool {
    0 <= i && i + p.len() <= t.len() && t.subrange(i, i + p.len() as int) == p
}

/// The pattern occurs somewhere in the text.
pub open spec fn has_sub(t: Seq<u8>, p: Seq<u8>) -> bool {
    exists|i: int| match_at(t, p, i)
}

/// The pattern occurs at offset `i`, compared case-insensitively.
pub open spec fn match_at_ci(t: Seq<u8>, p: Seq<u8>, i: int) -> bool {
    0 <= i && i + p.len() <= t.len() && eq_ci(t.subrange(i, i + p.len() as int), p)
}

/// The pattern occurs somewhere in the text, compared case-insensitively.
pub open spec fn has_sub_ci(t: Seq<u8>, p: Seq<u8>) -> bool {
    exists|i: int| match_at_ci(t, p, i)
}

/// Exact equality of two byte slices.
pub fn bytes_eq(a: &[u8], b: &[u8]) -> (r: bool)
    ensures
        r == (a@ == b@),
{
    if a.len() != b.len() {
        assert(a@ != b@);
        return false;
    }
    let n = a.len();
    let mut i: usize = 0;
    while i < n
        invariant
            0 <= i <= n,
            n == a@.len() == b@.len(),
            forall|j: int| 0 <= j < i ==> a@[j] == b@[j],
        decreases n - i,
    {
        if a[i] != b[i] {
            assert(a@ != b@);
            return false;
        }
        i += 1;
    }
    assert(a@ =~= b@);
    true
}

/// Case-insensitive (ASCII) equality of two byte slices.
pub fn eq_ignore_case(a: &[u8], b: &[u8]) -> (r: bool)
    ensures
        r == eq_ci(a@, b@),
{
    if a.len() != b.len() {
        return false;
    }
    let n = a.len();
    let mut i: usize = 0;
    while i < n
        invariant
            0 <= i <= n,
            n == a@.len() == b@.len(),
            forall|j: int| 0 <= j < i ==> lower8(a@[j]) == lower8(b@[j]),
        decreases n - i,
    {
        if lower_byte(a[i]) != lower_byte(b[i]) {
            return false;
        }
        i += 1;
    }
    true
}

/// Case-insensitive match of the pattern against the text at offset `i`.
fn match_ci_at(t: &[u8], p: &[u8], i: usize) -> (r: bool)
    requires
        i + p@.len() <= t@.len(),
    ensures
        r == match_at_ci(t@, p@, i as int),
{
    let m = p.len();
    let tn = t.len();
    let mut j: usize = 0;
    while j < m
        invariant
            0 <= j <= m,
            m == p@.len(),
            tn == t@.len(),
            i + m <= tn,
            forall|k: int| 0 <= k < j ==> lower8(t@[i + k]) == lower8(p@[k]),
        decreases m - j,
    {
        if lower_byte(t[i + j]) != lower_byte(p[j]) {
            assert(t@.subrange(i as int, i + m as int)[j as int] == t@[i + j]);
            return false;
        }
        j += 1;
    }
    assert forall|k: int| 0 <= k < m implies lower8(
        t@.subrange(i as int, i + m as int)[k],
    ) == lower8(p@[k]) by {
        assert(t@.subrange(i as int, i + m as int)[k] == t@[i + k]);
    }
    true
}

/// Case-insensitive substring containment.
pub fn contains_ci(t: &[u8], p: &[u8]) -> (r: bool)
    ensures
        r == has_sub_ci(t@, p@),
{
    if p.len() > t.len() {
        return false;
    }
    let last = t.len() - p.len();
    let mut i: usize = 0;
    loop
        invariant
            0 <= i <= last,
            last == t@.len() - p@.len(),
            p@.len() <= t@.len(),
            forall|k: int| 0 <= k < i ==> !match_at_ci(t@, p@, k),
        decreases last - i,
    {
        if match_ci_at(t, p, i) {
            return true;
        }
        if i == last {
            return false;
        }
        i += 1;
    }
}

// ---------------------------------------------------------------------------
// Whitespace and trimming
// ---------------------------------------------------------------------------
/// ASCII whitespace.
pub open spec fn is_ws(b: u8) -> bool {
    b == 32 || b == 9 || b == 10 || b == 13 || b == 11 || b == 12
}

pub fn ws_byte(b: u8) -> (r: bool)
    ensures
        r == is_ws(b),
{
    b == 32 || b == 9 || b == 10 || b == 13 || b == 11 || b == 12
}

/// Length of the run of whitespace at the front of a sequence.
pub open spec fn lead_ws(s: Seq<u8>) -> int
    decreases s.len(),
{
    if s.len() > 0 && is_ws(s[0]) {
        1 + lead_ws(s.drop_first())
    } else {
        0
    }
}

/// Length of the run of whitespace at the back of a sequence.
pub open spec fn tail_ws(s: Seq<u8>) -> int
    decreases s.len(),
{
    if s.len() > 0 && is_ws(s.last()) {
        1 + tail_ws(s.drop_last())
    } else {
        0
    }
}

/// The sequence with leading and trailing ASCII whitespace removed.
pub open spec fn trim_of(s: Seq<u8>) -> Seq<u8> {
    let a = lead_ws(s);
    let b = s.len() - tail_ws(s);
    if a <= b {
        s.subrange(a, b)
    } else {
        Seq::empty()
    }
}

pub proof fn lemma_lead_ws(s: Seq<u8>)
    ensures
        0 <= lead_ws(s) <= s.len(),
        forall|j: int| 0 <= j < lead_ws(s) ==> is_ws(s[j]),
        lead_ws(s) < s.len() ==> !is_ws(s[lead_ws(s)]),
    decreases s.len(),
{
    if s.len() > 0 && is_ws(s[0]) {
        lemma_lead_ws(s.drop_first());
        assert forall|j: int| 0 <= j < lead_ws(s) implies is_ws(s[j]) by {
            if j > 0 {
                assert(s.drop_first()[j - 1] == s[j]);
            }
        }
        if lead_ws(s) < s.len() {
            assert(s.drop_first()[lead_ws(s) - 1] == s[lead_ws(s)]);
        }
    }
}

pub proof fn lemma_tail_ws(s: Seq<u8>)
    ensures
        0 <= tail_ws(s) <= s.len(),
        forall|j: int| s.len() - tail_ws(s) <= j < s.len() ==> is_ws(s[j]),
        tail_ws(s) < s.len() ==> !is_ws(s[s.len() - tail_ws(s) - 1]),
    decreases s.len(),
{
    if s.len() > 0 && is_ws(s.last()) {
        lemma_tail_ws(s.drop_last());
        assert forall|j: int| s.len() - tail_ws(s) <= j < s.len() implies is_ws(s[j]) by {
            if j < s.len() - 1 {
                assert(s.drop_last()[j] == s[j]);
            }
        }
        if tail_ws(s) < s.len() {
            assert(s.drop_last()[s.len() - tail_ws(s) - 1] == s[s.len() - tail_ws(s) - 1]);
        }
    }
}

/// The subslice with leading and trailing ASCII whitespace removed.
pub fn trim_slice<'a>(s: &'a [u8]) -> (r: &'a [u8])
    ensures
        r@ == trim_of(s@),
{
    proof {
        lemma_lead_ws(s@);
        lemma_tail_ws(s@);
    }
    let n = s.len();
    let mut a: usize = 0;
    while a < n && ws_byte(s[a])
        invariant
            0 <= a <= n,
            n == s@.len(),
            forall|j: int| 0 <= j < a ==> is_ws(s@[j]),
        decreases n - a,
    {
        a += 1;
    }
    assert(a == lead_ws(s@)) by {
        if a < lead_ws(s@) {
            assert(is_ws(s@[a as int]));
        }
        if lead_ws(s@) < a {
            assert(!is_ws(s@[lead_ws(s@)]));
        }
    }
    if a == n {
        let r = vstd::slice::slice_subrange(s, 0, 0);
        assert(trim_of(s@) =~= r@);
        return r;
    }
    let mut b: usize = n;
    while b > a && ws_byte(s[b - 1])
        invariant
            a <= b <= n,
            a < n,
            n == s@.len(),
            !is_ws(s@[a as int]),
            forall|j: int| b <= j < n ==> is_ws(s@[j]),
        decreases b,
    {
        b -= 1;
    }
    assert(b == s@.len() - tail_ws(s@)) by {
        if b < s@.len() - tail_ws(s@) {
            assert(is_ws(s@[b as int]));
        }
        if s@.len() - tail_ws(s@) < b {
            assert(is_ws(s@[s@.len() - tail_ws(s@)]));
            assert(b > a);
        }
    }
    let r = vstd::slice::slice_subrange(s, a, b);
    assert(trim_of(s@) =~= r@);
    r
}

// ---------------------------------------------------------------------------
// Byte search: trusted wrappers over the accelerated search primitives
// ---------------------------------------------------------------------------
/// Relies on `memchr::memchr`: index of the first occurrence of a byte in a
/// slice, `None` when the byte does not occur.
#[verifier::external_body]
pub(crate) fn find_byte(data: &[u8], needle: u8) -> (r: Option<usize>)
    ensures
        match r {
            Some(i) => i < data@.len() && data@[i as int] == needle && forall|j: int|
                0 <= j < i ==> data@[j] != needle,
            None => forall|j: int| 0 <= j < data@.len() ==> data@[j] != needle,
        },
{
    memchr::memchr(needle, data)
}

/// Relies on `memchr::memrchr`: index of the last occurrence of a byte in a
/// slice, `None` when the byte does not occur.
#[verifier::external_body]
pub(crate) fn rfind_byte(data: &[u8], needle: u8) -> (r: Option<usize>)
    ensures
        match r {
            Some(i) => i < data@.len() && data@[i as int] == needle && forall|j: int|
                i < j < data@.len() ==> data@[j] != needle,
            None => forall|j: int| 0 <= j < data@.len() ==> data@[j] != needle,
        },
{
    memchr::memrchr(needle, data)
}

/// Relies on `memchr::memmem::find`: index of the first occurrence of the
/// needle in the haystack, `None` when the needle does not occur.
#[verifier::external_body]
pub(crate) fn find_sub(haystack: &[u8], needle: &[u8]) -> (r: Option<usize>)
    ensures
        match r {
            Some(i) => match_at(haystack@, needle@, i as int) && forall|j: int|
                0 <= j < i ==> !match_at(haystack@, needle@, j),
            None => !has_sub(haystack@, needle@),
        },
{
    memchr::memmem::find(haystack, needle)
}

// ---------------------------------------------------------------------------
// UTF-8 bridge
// ---------------------------------------------------------------------------
/// Relies on `core::str::from_utf8`: succeeds exactly on valid UTF-8 and
/// returns a string of those very bytes.
#[verifier::external_body]
pub(crate) fn utf8_str<'a>(bytes: &'a [u8]) -> (r: Option<&'a str>)
    ensures
        match r {
            Some(s) => valid_utf8(bytes@) && s@ == decode_utf8(bytes@),
            None => !valid_utf8(bytes@),
        },
{
    core::str::from_utf8(bytes).ok()
}

/// Relies on `String::push_str`: appends the given slice to the string.
#[verifier::external_body]
pub(crate) fn push_str(s: &mut String, t: &str)
    ensures
        final(s)@ == old(s)@ + t@,
{
    s.push_str(t);
}

// ---------------------------------------------------------------------------
// Decimal rendering
// ---------------------------------------------------------------------------
/// The decimal digit character for a value below ten.
pub open spec fn digit_char(d: nat) -> char {
    ((48 + d) as u8) as char
}

/// The decimal representation of a natural number.
pub open spec fn dec_rep(n: nat) -> Seq<char>
    decreases n,
{
    if n < 10 {
        seq![digit_char(n)]
    } else {
        dec_rep(n / 10).push(digit_char(n % 10))
    }
}

/// Relies on the `Display` implementation for `usize`: formats the value in
/// decimal with no sign or padding.
#[verifier::external_body]
pub(crate) fn usize_to_string(n: usize) -> (r: String)
    ensures
        r@ == dec_rep(n as nat),
{
    format!("{}", n)
}

// ---------------------------------------------------------------------------
// ASCII byte sequences are valid UTF-8
// ---------------------------------------------------------------------------
/// A run of bytes below 0x80 is valid UTF-8 and decodes to the same values
/// read as characters.
pub proof fn lemma_ascii_bytes_utf8(s: Seq<u8>)
    requires
        forall|i: int| 0 <= i < s.len() ==> s[i] < 0x80,
    ensures
        valid_utf8(s),
        decode_utf8(s) =~= s.map_values(|b: u8| b as char),
    decreases s.len(),
{
    if s.len() > 0 {
        let b0: u8 = s[0];
        assert(b0 < 0x80);
        assert(b0 & 0x7f == b0) by (bit_vector)
            requires
                b0 < 0x80,
        ;
        assert(vstd::utf8::valid_first_scalar(s));
        assert(vstd::utf8::length_of_first_scalar(s) == 1);
        assert(vstd::utf8::pop_first_scalar(s) =~= s.drop_first());
        lemma_ascii_bytes_utf8(s.drop_first());
        assert(vstd::utf8::decode_first_scalar(s) == s[0] as u32);
        assert(decode_utf8(s) =~= seq![(s[0] as u32) as char] + decode_utf8(s.drop_first()));
        assert(decode_utf8(s) =~= s.map_values(|b: u8| b as char)) by {
            assert forall|i: int| 0 <= i < s.len() implies decode_utf8(s)[i] == (s[i] as char) by {
                if i > 0 {
                    assert(decode_utf8(s.drop_first())[i - 1] == (s.drop_first()[i - 1] as char));
                    assert(s.drop_first()[i - 1] == s[i]);
                } else {
                    assert((s[0] as u32) as char == s[0] as char);
                }
            }
        }
    }
}

/// A position whose own byte or whose preceding byte is ASCII is a character
/// boundary of a valid UTF-8 sequence.
pub proof fn lemma_boundary_ascii(bytes: Seq<u8>, k: int)
    requires
        valid_utf8(bytes),
        0 <= k <= bytes.len(),
        k == bytes.len() || bytes[k] < 0x80 || (k > 0 && bytes[k - 1] < 0x80),
    ensures
        vstd::utf8::is_char_boundary(bytes, k),
{
    if k == bytes.len() {
        vstd::utf8::is_char_boundary_start_end_of_seq(bytes);
    } else if bytes[k] < 0x80 {
        vstd::utf8::is_char_boundary_iff_not_is_continuation_byte(bytes, k);
    } else {
        assert(k > 0 && bytes[k - 1] < 0x80);
        vstd::utf8::is_char_boundary_iff_not_is_continuation_byte(bytes, k - 1);
        assert(vstd::utf8::is_char_boundary(bytes, k - 1));
        vstd::utf8::valid_utf8_split(bytes, k - 1);
        let s2 = bytes.subrange(k - 1, bytes.len() as int);
        assert(valid_utf8(s2));
        assert(s2[0] == bytes[k - 1]);
        assert(vstd::utf8::length_of_first_scalar(s2) == 1);
        assert(vstd::utf8::pop_first_scalar(s2) =~= bytes.subrange(k, bytes.len() as int));
        let s3 = bytes.subrange(k, bytes.len() as int);
        assert(valid_utf8(s3));
        assert(s3.len() > 0);
        assert(vstd::utf8::valid_first_scalar(s3));
        assert(s3[0] == bytes[k]);
        assert(!vstd::utf8::is_continuation_byte(bytes[k]));
        vstd::utf8::is_char_boundary_iff_not_is_continuation_byte(bytes, k);
    }
}

/// A byte range cut at ASCII-adjacent positions of a valid UTF-8 sequence is
/// itself valid UTF-8.
pub proof fn lemma_mid_valid(bytes: Seq<u8>, a: int, b: int)
    requires
        valid_utf8(bytes),
        0 <= a <= b <= bytes.len(),
        a == 0 || bytes[a] < 0x80 || bytes[a - 1] < 0x80,
        b == bytes.len() || bytes[b] < 0x80 || (b > 0 && bytes[b - 1] < 0x80),
    ensures
        valid_utf8(bytes.subrange(a, b)),
{
    if a == 0 {
        vstd::utf8::is_char_boundary_start_end_of_seq(bytes);
    } else {
        lemma_boundary_ascii(bytes, a);
    }
    vstd::utf8::valid_utf8_split(bytes, a);
    let suf = bytes.subrange(a, bytes.len() as int);
    assert(valid_utf8(suf));
    if b == bytes.len() {
        vstd::utf8::is_char_boundary_start_end_of_seq(suf);
        assert(vstd::utf8::is_char_boundary(suf, b - a));
    } else {
        assert(b - a == suf.len() || suf[b - a] == bytes[b]);
        if b - a < suf.len() && bytes[b] < 0x80 {
            lemma_boundary_ascii(suf, b - a);
        } else {
            assert(b > 0 && bytes[b - 1] < 0x80);
            if b - a == 0 {
                vstd::utf8::is_char_boundary_start_end_of_seq(suf);
            } else {
                assert(suf[b - a - 1] == bytes[b - 1]);
                lemma_boundary_ascii(suf, b - a);
            }
        }
    }
    vstd::utf8::valid_utf8_split(suf, b - a);
    assert(suf.subrange(0, b - a) =~= bytes.subrange(a, b));
}

/// Trimming ASCII whitespace from a valid UTF-8 sequence leaves valid UTF-8.
pub proof fn lemma_trim_valid(bytes: Seq<u8>)
    requires
        valid_utf8(bytes),
    ensures
        valid_utf8(trim_of(bytes)),
{
    lemma_lead_ws(bytes);
    lemma_tail_ws(bytes);
    let a = lead_ws(bytes);
    let b = bytes.len() - tail_ws(bytes);
    if a <= b {
        if a > 0 {
            assert(is_ws(bytes[a - 1]));
        }
        if b < bytes.len() {
            assert(is_ws(bytes[b as int]));
        }
        lemma_mid_valid(bytes, a, b);
    }
}

/// A character sequence is empty exactly when its encoding is.
pub proof fn lemma_encode_empty(chars: Seq<char>)
    ensures
        (chars.len() == 0) == (vstd::utf8::encode_utf8(chars).len() == 0),
{
    if chars.len() > 0 {
        assert(vstd::utf8::encode_scalar(chars[0] as u32).len() >= 1);
    }
}

/// UTF-8 encoding is injective on character sequences.
pub proof fn lemma_encode_injective(a: Seq<char>, b: Seq<char>)
    requires
        vstd::utf8::encode_utf8(a) == vstd::utf8::encode_utf8(b),
    ensures
        a == b,
{
    vstd::utf8::encode_utf8_decode_utf8(a);
    vstd::utf8::encode_utf8_decode_utf8(b);
}

/// ASCII-uppercases a character sequence when it is wholly ASCII; any other
/// sequence passes through unchanged.
pub open spec fn upper_ascii_of(s: Seq<char>) -> Seq<char> {
    if vstd::utf8::is_ascii_chars(s) {
        s.map_values(|c: char| upper_char(c))
    } else {
        s
    }
}

/// Uppercases the ASCII letters of an ASCII string.
pub fn upper_ascii(s: &str) -> (r: String)
    ensures
        r@ == upper_ascii_of(s@),
{
    if !s.is_ascii() {
        return s.to_owned();
    }
    proof {
        vstd::utf8::is_ascii_chars_encode_utf8(s@);
    }
    let b = s.as_bytes();
    let n = b.len();
    let mut out: Vec<u8> = Vec::new();
    let mut i: usize = 0;
    while i < n
        invariant
            0 <= i <= n,
            n == b@.len(),
            out@.len() == i,
            forall|j: int| 0 <= j < i ==> out@[j] == upper8(b@[j]),
        decreases n - i,
    {
        out.push(upper_byte(b[i]));
        i += 1;
    }
    proof {
        assert forall|j: int| 0 <= j < out@.len() implies out@[j] < 0x80 by {
            assert(b@[j] == (s@[j] as u8));
            assert(s@[j] as nat <= 127);
        }
        lemma_ascii_bytes_utf8(out@);
        assert(decode_utf8(out@) =~= s@.map_values(|c: char| upper_char(c))) by {
            assert forall|j: int| 0 <= j < out@.len() implies decode_utf8(out@)[j] == upper_char(
                s@[j],
            ) by {
                assert(out@[j] == upper8(b@[j]));
                assert(b@[j] == (s@[j] as u8));
                assert(s@[j] as nat <= 127);
            }
        }
    }
    match utf8_str(out.as_slice()) {
        Some(t) => t.to_owned(),
        None => s.to_owned(),
    }
}

/// Exact equality of two strings, decided on their bytes.
pub fn str_eq(a: &str, b: &str) -> (r: bool)
    ensures
        r == (a@ == b@),
{
    let r = bytes_eq(a.as_bytes(), b.as_bytes());
    proof {
        if a.spec_bytes() == b.spec_bytes() {
            lemma_encode_injective(a@, b@);
        }
    }
    r
}

} // verus!
