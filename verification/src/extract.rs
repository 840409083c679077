//! Per-line extraction of level, timestamp, error type and message.
//!
//! The original line grammar (a level token in brackets or before a colon, a
//! `YYYY-MM-DD HH:MM:SS` timestamp, and a fixed set of error signatures) is
//! implemented as verified scanners with leftmost-match semantics.
use vstd::prelude::*;
use vstd::string::StringSliceAdditionalSpecFns;
use vstd::utf8::valid_utf8;
use vstd::utf8::decode_utf8;
use vstd::utf8::is_ascii_chars;
use crate::text::match_at;
use crate::text::match_at_ci;
use crate::text::is_ws;
use crate::text::lemma_ascii_bytes_utf8;

verus! {

// ---------------------------------------------------------------------------
// Shared helpers
// ---------------------------------------------------------------------------
/// The bytes of an ASCII character sequence.
pub open spec fn wb(s: Seq<char>) -> Seq<u8> {
    s.map_values(|c: char| c as u8)
}

pub open spec fn is_letter(b: u8) -> bool {
    (65 <= b <= 90) || (97 <= b <= 122)
}

pub open spec fn is_digit(b: u8) -> bool {
    48 <= b <= 57
}

pub fn letter_byte(b: u8) -> (r: bool)
    ensures
        r == is_letter(b),
{
    (65 <= b && b <= 90) || (97 <= b && b <= 122)
}

pub fn digit_byte(b: u8) -> (r: bool)
    ensures
        r == is_digit(b),
{
    48 <= b && b <= 57
}

/// The bytes of an ASCII string, as a vector.
pub fn ascii_bytes(s: &str) -> (r: Vec<u8>)
    requires
        is_ascii_chars(s@),
    ensures
        r@ == wb(s@),
{
    proof {
        vstd::utf8::is_ascii_chars_encode_utf8(s@);
        assert(s.spec_bytes() =~= wb(s@));
    }
    vstd::slice::slice_to_vec(s.as_bytes())
}

/// Exact match of a pattern at a given offset.
pub fn match_exact_at(t: &[u8], p: &[u8], i: usize) -> (r: bool)
    requires
        i + p@.len() <= t@.len(),
    ensures
        r == match_at(t@, p@, i as int),
{
    let tn = t.len();
    proof {
        assert(i + p@.len() <= tn);
    }
    let sub = vstd::slice::slice_subrange(t, i, i + p.len());
    crate::text::bytes_eq(sub, p)
}

/// Index of the first occurrence of the pattern, scanning left to right.
pub open spec fn first_occ(t: Seq<u8>, p: Seq<u8>, i: int) -> Option<int>
    decreases t.len() - i,
{
    if i + p.len() > t.len() || i > t.len() {
        None
    } else if match_at(t, p, i) {
        Some(i)
    } else if i < t.len() {
        first_occ(t, p, i + 1)
    } else {
        None
    }
}

pub proof fn lemma_first_occ(t: Seq<u8>, p: Seq<u8>, from: int)
    ensures
        match first_occ(t, p, from) {
            Some(i) => from <= i && match_at(t, p, i),
            None => true,
        },
    decreases t.len() - from,
{
    if !(from + p.len() > t.len() || from > t.len()) && !match_at(t, p, from) && from < t.len() {
        lemma_first_occ(t, p, from + 1);
    }
}

/// Finds the first occurrence of the pattern at or after `from`.
pub fn find_first(t: &[u8], p: &[u8], from: usize) -> (r: Option<usize>)
    requires
        from <= t@.len(),
    ensures
        match r {
            Some(i) => from <= i && Some(i as int) == first_occ(t@, p@, from as int),
            None => first_occ(t@, p@, from as int) is None,
        },
{
    if p.len() > t.len() || from > t.len() - p.len() {
        return None;
    }
    // scan backward so that the leftmost hit is what remains
    let mut i = t.len() - p.len();
    let mut cur: Option<usize> = None;
    proof {
        assert(first_occ(t@, p@, i + 1) is None);
    }
    loop
        invariant
            from <= i <= t@.len() - p@.len(),
            p@.len() <= t@.len(),
            match cur {
                Some(x) => from <= x && Some(x as int) == first_occ(t@, p@, i + 1),
                None => first_occ(t@, p@, i + 1) is None,
            },
        decreases i,
    {
        if match_exact_at(t, p, i) {
            cur = Some(i);
        }
        proof {
            assert(first_occ(t@, p@, i as int) == if match_at(t@, p@, i as int) {
                Some(i as int)
            } else {
                first_occ(t@, p@, i + 1)
            });
        }
        if i == from {
            return cur;
        }
        i -= 1;
    }
}

// ---------------------------------------------------------------------------
// Level token
// ---------------------------------------------------------------------------
/// The level vocabulary, in the order the grammar tries it.
pub open spec fn level_words() -> Seq<Seq<u8>> {
    seq![
        wb("ERROR"@),
        wb("WARN"@),
        wb("INFO"@),
        wb("DEBUG"@),
        wb("TRACE"@),
        wb("SEVERE"@),
        wb("WARNING"@),
        wb("FINE"@),
    ]
}

/// Every byte of every level word is ASCII, and each word is 4 to 7 bytes.
pub proof fn lemma_level_words_ascii()
    ensures
        forall|k: int, j: int|
            0 <= k < level_words().len() && 0 <= j < level_words()[k].len()
                ==> level_words()[k][j] < 0x80,
        forall|k: int|
            0 <= k < level_words().len() ==> 4 <= #[trigger] level_words()[k].len() <= 7,
{
    reveal_strlit("ERROR");
    reveal_strlit("WARN");
    reveal_strlit("INFO");
    reveal_strlit("DEBUG");
    reveal_strlit("TRACE");
    reveal_strlit("SEVERE");
    reveal_strlit("WARNING");
    reveal_strlit("FINE");
    assert forall|k: int, j: int|
        0 <= k < level_words().len() && 0 <= j < level_words()[k].len()
            implies level_words()[k][j] < 0x80 by {
        if k == 0 {
            assert(level_words()[0][j] < 0x80);
        } else if k == 1 {
            assert(level_words()[1][j] < 0x80);
        } else if k == 2 {
            assert(level_words()[2][j] < 0x80);
        } else if k == 3 {
            assert(level_words()[3][j] < 0x80);
        } else if k == 4 {
            assert(level_words()[4][j] < 0x80);
        } else if k == 5 {
            assert(level_words()[5][j] < 0x80);
        } else if k == 6 {
            assert(level_words()[6][j] < 0x80);
        } else {
            assert(level_words()[7][j] < 0x80);
        }
    }
}

/// The word sits in brackets starting at offset `i`: `[WORD]`.
pub open spec fn bracket_match(t: Seq<u8>, w: Seq<u8>, i: int) -> bool {
    &&& 0 <= i
    &&& i + w.len() + 2 <= t.len()
    &&& t[i] == 91
    &&& match_at_ci(t, w, i + 1)
    &&& t[i + 1 + w.len()] == 93
}

/// The word is followed directly by a colon starting at offset `i`: `WORD:`.
pub open spec fn colon_match(t: Seq<u8>, w: Seq<u8>, i: int) -> bool {
    &&& 0 <= i
    &&& i + w.len() + 1 <= t.len()
    &&& match_at_ci(t, w, i)
    &&& t[i + w.len()] == 58
}

/// First vocabulary word (from index `k` on) that matches in brackets at `i`.
pub open spec fn first_bracket(t: Seq<u8>, i: int, k: int) -> Option<Seq<u8>>
    decreases level_words().len() - k,
{
    if k < 0 || k >= level_words().len() {
        None
    } else if bracket_match(t, level_words()[k], i) {
        Some(level_words()[k])
    } else {
        first_bracket(t, i, k + 1)
    }
}

/// First vocabulary word (from index `k` on) that matches before a colon at `i`.
pub open spec fn first_colon(t: Seq<u8>, i: int, k: int) -> Option<Seq<u8>>
    decreases level_words().len() - k,
{
    if k < 0 || k >= level_words().len() {
        None
    } else if colon_match(t, level_words()[k], i) {
        Some(level_words()[k])
    } else {
        first_colon(t, i, k + 1)
    }
}

/// The level word recognised at offset `i`, if any.
pub open spec fn level_at(t: Seq<u8>, i: int) -> Option<Seq<u8>> {
    match first_bracket(t, i, 0) {
        Some(w) => Some(w),
        None => first_colon(t, i, 0),
    }
}

/// The leftmost level word in the line, scanning from offset `i`.
pub open spec fn find_level(t: Seq<u8>, i: int) -> Option<Seq<u8>>
    decreases t.len() - i,
{
    if i < 0 || i >= t.len() {
        None
    } else {
        match level_at(t, i) {
            Some(w) => Some(w),
            None => find_level(t, i + 1),
        }
    }
}

/// The extracted level of a line: the leftmost vocabulary word in brackets or
/// before a colon, as its canonical uppercase characters; `None` when absent.
pub open spec fn level_of(t: Seq<u8>) -> Option<Seq<char>> {
    match find_level(t, 0) {
        Some(w) => Some(decode_utf8(w)),
        None => None,
    }
}

/// The eight vocabulary words as vectors.
fn level_words_vec() -> (r: Vec<Vec<u8>>)
    ensures
        r.deep_view() =~= level_words(),
{
    proof {
        reveal_strlit("ERROR");
        reveal_strlit("WARN");
        reveal_strlit("INFO");
        reveal_strlit("DEBUG");
        reveal_strlit("TRACE");
        reveal_strlit("SEVERE");
        reveal_strlit("WARNING");
        reveal_strlit("FINE");
    }
    let mut r: Vec<Vec<u8>> = Vec::new();
    r.push(ascii_bytes("ERROR"));
    r.push(ascii_bytes("WARN"));
    r.push(ascii_bytes("INFO"));
    r.push(ascii_bytes("DEBUG"));
    r.push(ascii_bytes("TRACE"));
    r.push(ascii_bytes("SEVERE"));
    r.push(ascii_bytes("WARNING"));
    r.push(ascii_bytes("FINE"));
    assert(r.deep_view() =~= level_words()) by {
        assert(r.deep_view().len() == 8);
        assert(r.deep_view()[0] == wb("ERROR"@));
        assert(r.deep_view()[1] == wb("WARN"@));
        assert(r.deep_view()[2] == wb("INFO"@));
        assert(r.deep_view()[3] == wb("DEBUG"@));
        assert(r.deep_view()[4] == wb("TRACE"@));
        assert(r.deep_view()[5] == wb("SEVERE"@));
        assert(r.deep_view()[6] == wb("WARNING"@));
        assert(r.deep_view()[7] == wb("FINE"@));
    }
    r
}

/// The vocabulary word recognised in brackets at offset `i`, if any.
fn bracket_at(t: &[u8], words: &Vec<Vec<u8>>, i: usize) -> (r: Option<usize>)
    requires
        words.deep_view() =~= level_words(),
        i < t@.len(),
    ensures
        match r {
            Some(k) => k < 8 && first_bracket(t@, i as int, 0) == Some(level_words()[k as int]),
            None => first_bracket(t@, i as int, 0) is None,
        },
{
    proof {
        lemma_level_words_ascii();
    }
    let n = t.len();
    let mut k: usize = 8;
    let mut cur: Option<usize> = None;
    loop
        invariant
            0 <= k <= 8,
            words.deep_view() =~= level_words(),
            i < n == t@.len(),
            forall|x: int| 0 <= x < level_words().len() ==> 4 <= #[trigger] level_words()[x].len() <= 7,
            match cur {
                Some(x) => x < 8 && first_bracket(t@, i as int, k as int) == Some(
                    level_words()[x as int],
                ),
                None => first_bracket(t@, i as int, k as int) is None,
            },
        decreases k,
    {
        if k == 0 {
            return cur;
        }
        k -= 1;
        let w = &words[k];
        assert(w@ == level_words()[k as int]);
        let wl = w.len();
        assert(wl <= 7);
        if wl + 2 <= n - i && t[i] == 91 && t[i + 1 + wl] == 93 {
            if crate::text::eq_ignore_case(
                vstd::slice::slice_subrange(t, i + 1, i + 1 + wl),
                w.as_slice(),
            ) {
                cur = Some(k);
            } else {
                assert(!bracket_match(t@, level_words()[k as int], i as int));
            }
        } else {
            assert(!bracket_match(t@, level_words()[k as int], i as int));
        }
    }
}

/// The vocabulary word recognised before a colon at offset `i`, if any.
fn colon_at(t: &[u8], words: &Vec<Vec<u8>>, i: usize) -> (r: Option<usize>)
    requires
        words.deep_view() =~= level_words(),
        i < t@.len(),
    ensures
        match r {
            Some(k) => k < 8 && first_colon(t@, i as int, 0) == Some(level_words()[k as int]),
            None => first_colon(t@, i as int, 0) is None,
        },
{
    proof {
        lemma_level_words_ascii();
    }
    let n = t.len();
    let mut k: usize = 8;
    let mut cur: Option<usize> = None;
    loop
        invariant
            0 <= k <= 8,
            words.deep_view() =~= level_words(),
            i < n == t@.len(),
            forall|x: int| 0 <= x < level_words().len() ==> 4 <= #[trigger] level_words()[x].len() <= 7,
            match cur {
                Some(x) => x < 8 && first_colon(t@, i as int, k as int) == Some(
                    level_words()[x as int],
                ),
                None => first_colon(t@, i as int, k as int) is None,
            },
        decreases k,
    {
        if k == 0 {
            return cur;
        }
        k -= 1;
        let w = &words[k];
        assert(w@ == level_words()[k as int]);
        let wl = w.len();
        assert(wl <= 7);
        if wl + 1 <= n - i && t[i + wl] == 58 {
            if crate::text::eq_ignore_case(
                vstd::slice::slice_subrange(t, i, i + wl),
                w.as_slice(),
            ) {
                cur = Some(k);
            } else {
                assert(!colon_match(t@, level_words()[k as int], i as int));
            }
        } else {
            assert(!colon_match(t@, level_words()[k as int], i as int));
        }
    }
}

/// Extracts the leftmost level token of the line, uppercased.
pub fn extract_level(t: &[u8]) -> (r: Option<String>)
    ensures
        match r {
            Some(s) => level_of(t@) == Some(s@),
            None => level_of(t@) is None,
        },
{
    let words = level_words_vec();
    let n = t.len();
    if n == 0 {
        return None;
    }
    let mut i = n;
    let mut cur: Option<usize> = None;
    while i > 0
        invariant
            0 <= i <= n,
            n == t@.len(),
            words.deep_view() =~= level_words(),
            match cur {
                Some(k) => k < 8 && find_level(t@, i as int) == Some(level_words()[k as int]),
                None => find_level(t@, i as int) is None,
            },
        decreases i,
    {
        i -= 1;
        let hit = match bracket_at(t, &words, i) {
            Some(k) => Some(k),
            None => colon_at(t, &words, i),
        };
        if let Some(k) = hit {
            cur = Some(k);
        }
    }
    match cur {
        Some(k) => {
            let w = &words[k];
            proof {
                lemma_level_words_ascii();
                assert(w@ =~= level_words()[k as int]);
                lemma_ascii_bytes_utf8(w@);
            }
            match crate::text::utf8_str(w.as_slice()) {
                Some(s) => Some(s.to_owned()),
                None => None,
            }
        },
        None => None,
    }
}

// ---------------------------------------------------------------------------
// Timestamp
// ---------------------------------------------------------------------------
/// `n` decimal digits starting at offset `i`.
pub open spec fn digits_at(t: Seq<u8>, i: int, n: int) -> bool {
    0 <= i && i + n <= t.len() && forall|j: int| i <= j < i + n ==> is_digit(#[trigger] t[j])
}

/// Length of the run of ASCII whitespace starting at offset `i`.
pub open spec fn ws_run(t: Seq<u8>, i: int) -> int
    decreases t.len() - i,
{
    if 0 <= i < t.len() && is_ws(t[i]) {
        1 + ws_run(t, i + 1)
    } else {
        0
    }
}

pub proof fn lemma_ws_run(t: Seq<u8>, i: int)
    requires
        0 <= i <= t.len(),
    ensures
        0 <= ws_run(t, i),
        i + ws_run(t, i) <= t.len(),
        forall|j: int| i <= j < i + ws_run(t, i) ==> is_ws(#[trigger] t[j]),
        i + ws_run(t, i) < t.len() ==> !is_ws(t[i + ws_run(t, i)]),
    decreases t.len() - i,
{
    if i < t.len() && is_ws(t[i]) {
        lemma_ws_run(t, i + 1);
    }
}

/// A `HH:MM:SS`-shaped time starting at offset `i`.
pub open spec fn time_at(t: Seq<u8>, i: int) -> bool {
    &&& digits_at(t, i, 2)
    &&& i + 8 <= t.len()
    &&& t[i + 2] == 58
    &&& digits_at(t, i + 3, 2)
    &&& t[i + 5] == 58
    &&& digits_at(t, i + 6, 2)
}

/// End offset of a `YYYY-MM-DD <ws> HH:MM:SS` match starting at offset `i`.
pub open spec fn ts_end_at(t: Seq<u8>, i: int) -> Option<int> {
    if digits_at(t, i, 4) && i + 10 <= t.len() && t[i + 4] == 45 && digits_at(t, i + 5, 2) && t[i
        + 7] == 45 && digits_at(t, i + 8, 2) {
        let m = ws_run(t, i + 10);
        if m >= 1 && time_at(t, i + 10 + m) {
            Some(i + 10 + m + 8)
        } else {
            None
        }
    } else {
        None
    }
}

/// Start offset of the leftmost timestamp match, scanning from offset `i`.
pub open spec fn find_ts(t: Seq<u8>, i: int) -> Option<int>
    decreases t.len() - i,
{
    if i < 0 || i >= t.len() {
        None
    } else if ts_end_at(t, i) is Some {
        Some(i)
    } else {
        find_ts(t, i + 1)
    }
}

/// The leftmost timestamp substring of the line, whole.
pub open spec fn ts_of(t: Seq<u8>) -> Option<Seq<char>> {
    match find_ts(t, 0) {
        Some(i) => Some(decode_utf8(t.subrange(i, ts_end_at(t, i)->Some_0))),
        None => None,
    }
}

/// `n` decimal digits starting at offset `i`, decided by scanning.
fn check_digits(t: &[u8], i: usize, n: usize) -> (r: bool)
    requires
        i + n <= t@.len(),
    ensures
        r == digits_at(t@, i as int, n as int),
{
    let tn = t.len();
    let mut j: usize = 0;
    while j < n
        invariant
            0 <= j <= n,
            tn == t@.len(),
            i + n <= tn,
            forall|x: int| i <= x < i + j ==> is_digit(#[trigger] t@[x]),
        decreases n - j,
    {
        if !digit_byte(t[i + j]) {
            return false;
        }
        j += 1;
    }
    true
}

/// Length of the whitespace run starting at offset `i`.
fn ws_run_at(t: &[u8], i: usize) -> (r: usize)
    requires
        i <= t@.len(),
    ensures
        r == ws_run(t@, i as int),
        i + r <= t@.len(),
{
    proof {
        lemma_ws_run(t@, i as int);
    }
    let n = t.len();
    let mut j = i;
    while j < n && crate::text::ws_byte(t[j])
        invariant
            i <= j <= n,
            n == t@.len(),
            forall|x: int| i <= x < j ==> is_ws(#[trigger] t@[x]),
        decreases n - j,
    {
        j += 1;
    }
    assert(j - i == ws_run(t@, i as int)) by {
        if j - i < ws_run(t@, i as int) {
            assert(is_ws(t@[j as int]));
        }
        if ws_run(t@, i as int) < j - i {
            assert(!is_ws(t@[i + ws_run(t@, i as int)]));
        }
    }
    j - i
}

/// End of a timestamp match at offset `i`, if one starts there.
fn ts_at(t: &[u8], i: usize) -> (r: Option<usize>)
    requires
        i < t@.len(),
    ensures
        match r {
            Some(e) => ts_end_at(t@, i as int) == Some(e as int) && i < e <= t@.len(),
            None => ts_end_at(t@, i as int) is None,
        },
{
    let n = t.len();
    if n - i < 10 {
        return None;
    }
    if !(check_digits(t, i, 4) && t[i + 4] == 45 && check_digits(t, i + 5, 2) && t[i + 7] == 45
        && check_digits(t, i + 8, 2)) {
        return None;
    }
    let m = ws_run_at(t, i + 10);
    if m < 1 {
        return None;
    }
    let p = i + 10 + m;
    if n - p < 8 {
        return None;
    }
    if check_digits(t, p, 2) && t[p + 2] == 58 && check_digits(t, p + 3, 2) && t[p + 5] == 58
        && check_digits(t, p + 6, 2) {
        Some(p + 8)
    } else {
        None
    }
}

/// Extracts the leftmost `YYYY-MM-DD HH:MM:SS`-shaped substring of the line.
pub fn extract_timestamp(t: &[u8]) -> (r: Option<String>)
    ensures
        match r {
            Some(s) => ts_of(t@) == Some(s@),
            None => ts_of(t@) is None,
        },
{
    let n = t.len();
    let mut i = n;
    let mut cur: Option<(usize, usize)> = None;
    while i > 0
        invariant
            0 <= i <= n,
            n == t@.len(),
            match cur {
                Some(p) => find_ts(t@, i as int) == Some(p.0 as int) && ts_end_at(t@, p.0 as int)
                    == Some(p.1 as int) && p.0 < p.1 <= n,
                None => find_ts(t@, i as int) is None,
            },
        decreases i,
    {
        i -= 1;
        if let Some(e) = ts_at(t, i) {
            cur = Some((i, e));
        }
    }
    match cur {
        Some(p) => {
            let sub = vstd::slice::slice_subrange(t, p.0, p.1);
            proof {
                assert forall|j: int| 0 <= j < sub@.len() implies sub@[j] < 0x80 by {
                    let x = j + p.0 as int;
                    assert(sub@[j] == t@[x]);
                    let s = p.0 as int;
                    let m = ws_run(t@, s + 10);
                    lemma_ws_run(t@, s + 10);
                    assert(ts_end_at(t@, s) == Some(s + 10 + m + 8));
                    if x < s + 4 {
                        assert(is_digit(t@[x]));
                    } else if x == s + 4 || x == s + 7 {
                    } else if x < s + 10 {
                        assert(is_digit(t@[x]));
                    } else if x < s + 10 + m {
                        assert(is_ws(t@[x]));
                    } else {
                        let q = s + 10 + m;
                        assert(time_at(t@, q));
                        if x == q + 2 || x == q + 5 {
                        } else {
                            assert(is_digit(t@[x]));
                        }
                    }
                }
                lemma_ascii_bytes_utf8(sub@);
            }
            match crate::text::utf8_str(sub) {
                Some(s) => Some(s.to_owned()),
                None => None,
            }
        },
        None => None,
    }
}

/// Exact substring containment, decided by scanning.
pub fn contains_sub(t: &[u8], p: &[u8]) -> (r: bool)
    ensures
        r == crate::text::has_sub(t@, p@),
{
    match find_first(t, p, 0) {
        Some(i) => {
            proof {
                lemma_first_occ(t@, p@, 0);
            }
            true
        },
        None => {
            proof {
                if crate::text::has_sub(t@, p@) {
                    let j = choose|j: int| match_at(t@, p@, j);
                    lemma_first_occ_finds(t@, p@, 0, j);
                }
            }
            false
        },
    }
}

/// The scan returns the position of a match that nothing precedes.
pub proof fn lemma_first_occ_is(t: Seq<u8>, p: Seq<u8>, a: int, i: int)
    requires
        0 <= a <= i,
        match_at(t, p, i),
        forall|j: int| a <= j < i ==> !match_at(t, p, j),
    ensures
        first_occ(t, p, a) == Some(i),
    decreases i - a,
{
    if a < i {
        lemma_first_occ_is(t, p, a + 1, i);
    }
}

/// A match anywhere implies the scan finds one.
pub proof fn lemma_first_occ_finds(t: Seq<u8>, p: Seq<u8>, i: int, j: int)
    requires
        0 <= i <= j,
        match_at(t, p, j),
    ensures
        first_occ(t, p, i) is Some,
    decreases j - i,
{
    if i < j && !match_at(t, p, i) {
        lemma_first_occ_finds(t, p, i + 1, j);
    }
}

/// The leftmost timestamp substring, truncated to its first 13 bytes — the
/// date and the hour — when it is that long.
pub open spec fn ts_trunc_of(t: Seq<u8>) -> Option<Seq<char>> {
    match find_ts(t, 0) {
        Some(i) => {
            let e = ts_end_at(t, i)->Some_0;
            let h = if e - i >= 13 {
                i + 13
            } else {
                e
            };
            Some(decode_utf8(t.subrange(i, h)))
        },
        None => None,
    }
}

/// Extracts the leftmost timestamp, truncated to date-and-hour granularity.
pub fn extract_timestamp_trunc(t: &[u8]) -> (r: Option<String>)
    ensures
        match r {
            Some(s) => ts_trunc_of(t@) == Some(s@),
            None => ts_trunc_of(t@) is None,
        },
{
    let n = t.len();
    let mut i = n;
    let mut cur: Option<(usize, usize)> = None;
    while i > 0
        invariant
            0 <= i <= n,
            n == t@.len(),
            match cur {
                Some(p) => find_ts(t@, i as int) == Some(p.0 as int) && ts_end_at(t@, p.0 as int)
                    == Some(p.1 as int) && p.0 < p.1 <= n,
                None => find_ts(t@, i as int) is None,
            },
        decreases i,
    {
        i -= 1;
        if let Some(e) = ts_at(t, i) {
            cur = Some((i, e));
        }
    }
    match cur {
        Some(p) => {
            let h = if p.1 - p.0 >= 13 {
                p.0 + 13
            } else {
                p.1
            };
            let sub = vstd::slice::slice_subrange(t, p.0, h);
            proof {
                assert forall|j: int| 0 <= j < sub@.len() implies sub@[j] < 0x80 by {
                    let x = j + p.0 as int;
                    assert(sub@[j] == t@[x]);
                    let s = p.0 as int;
                    let m = ws_run(t@, s + 10);
                    lemma_ws_run(t@, s + 10);
                    assert(ts_end_at(t@, s) == Some(s + 10 + m + 8));
                    if x < s + 4 {
                        assert(is_digit(t@[x]));
                    } else if x == s + 4 || x == s + 7 {
                    } else if x < s + 10 {
                        assert(is_digit(t@[x]));
                    } else if x < s + 10 + m {
                        assert(is_ws(t@[x]));
                    } else {
                        let q = s + 10 + m;
                        assert(time_at(t@, q));
                        if x == q + 2 || x == q + 5 {
                        } else {
                            assert(is_digit(t@[x]));
                        }
                    }
                }
                lemma_ascii_bytes_utf8(sub@);
            }
            match crate::text::utf8_str(sub) {
                Some(s) => Some(s.to_owned()),
                None => None,
            }
        },
        None => None,
    }
}

// ---------------------------------------------------------------------------
// Error type
// ---------------------------------------------------------------------------
/// Length of the run of ASCII letters starting at offset `i`.
pub open spec fn letter_run(t: Seq<u8>, i: int) -> int
    decreases t.len() - i,
{
    if 0 <= i < t.len() && is_letter(t[i]) {
        1 + letter_run(t, i + 1)
    } else {
        0
    }
}

pub proof fn lemma_letter_run(t: Seq<u8>, i: int)
    requires
        0 <= i <= t.len(),
    ensures
        0 <= letter_run(t, i),
        i + letter_run(t, i) <= t.len(),
        forall|j: int| i <= j < i + letter_run(t, i) ==> is_letter(#[trigger] t[j]),
        i + letter_run(t, i) < t.len() ==> !is_letter(t[i + letter_run(t, i)]),
    decreases t.len() - i,
{
    if i < t.len() && is_letter(t[i]) {
        lemma_letter_run(t, i + 1);
    }
}

/// Largest `k` (at most `k0`, at least 1) such that the suffix word starts at
/// `i + k`: the greedy split of a letters-then-word alternative.
pub open spec fn best_k(t: Seq<u8>, i: int, w: Seq<u8>, k: int) -> Option<int>
    decreases k,
{
    if k < 1 {
        None
    } else if match_at(t, w, i + k) {
        Some(k)
    } else {
        best_k(t, i, w, k - 1)
    }
}

/// End offset of a greedy `[A-Za-z]+<w>` match starting at offset `i`.
pub open spec fn suffix_end(t: Seq<u8>, i: int, w: Seq<u8>) -> Option<int> {
    let r = letter_run(t, i);
    if r >= 1 {
        match best_k(t, i, w, r) {
            Some(k) => Some(i + k + w.len()),
            None => None,
        }
    } else {
        None
    }
}

/// End offset of a `[A-Za-z]+\s+timeout` match starting at offset `i`.
pub open spec fn timeout_end(t: Seq<u8>, i: int) -> Option<int> {
    let r = letter_run(t, i);
    if r >= 1 {
        let m = ws_run(t, i + r);
        if m >= 1 && match_at(t, wb("timeout"@), i + r + m) {
            Some(i + r + m + wb("timeout"@).len())
        } else {
            None
        }
    } else {
        None
    }
}

/// End offset of the error signature recognised at offset `i`, trying the
/// alternatives in grammar order.
pub open spec fn err_at(t: Seq<u8>, i: int) -> Option<int> {
    if suffix_end(t, i, wb("Exception"@)) is Some {
        suffix_end(t, i, wb("Exception"@))
    } else if suffix_end(t, i, wb("Error"@)) is Some {
        suffix_end(t, i, wb("Error"@))
    } else if timeout_end(t, i) is Some {
        timeout_end(t, i)
    } else if match_at(t, wb("Connection timeout"@), i) {
        Some(i + wb("Connection timeout"@).len())
    } else if match_at(t, wb("500 Internal Server Error"@), i) {
        Some(i + wb("500 Internal Server Error"@).len())
    } else if match_at(t, wb("401 Unauthorized"@), i) {
        Some(i + wb("401 Unauthorized"@).len())
    } else if match_at(t, wb("503 Service Unavailable"@), i) {
        Some(i + wb("503 Service Unavailable"@).len())
    } else {
        None
    }
}

/// Start offset of the leftmost error signature, scanning from offset `i`.
pub open spec fn find_err(t: Seq<u8>, i: int) -> Option<int>
    decreases t.len() - i,
{
    if i < 0 || i >= t.len() {
        None
    } else if err_at(t, i) is Some {
        Some(i)
    } else {
        find_err(t, i + 1)
    }
}

/// The derived `Failed to <action>` label: from the leftmost occurrence of
/// `Failed to ` up to the next colon, or to the end of the line.
pub open spec fn failed_label(t: Seq<u8>) -> Option<Seq<char>> {
    match first_occ(t, wb("Failed to "@), 0) {
        Some(p) => {
            let from = p + wb("Failed to "@).len();
            let j = match first_occ(t, seq![58u8], from) {
                Some(q) => q,
                None => t.len() as int,
            };
            Some(decode_utf8(t.subrange(p, j)))
        },
        None => None,
    }
}

/// The classified error signature of a line: the leftmost match of the fixed
/// signature set, or the derived `Failed to <action>` label.
pub open spec fn error_type_of(t: Seq<u8>) -> Option<Seq<char>> {
    match find_err(t, 0) {
        Some(i) => Some(decode_utf8(t.subrange(i, err_at(t, i)->Some_0))),
        None => failed_label(t),
    }
}

/// Length of the letter run starting at offset `i`.
fn letter_run_at(t: &[u8], i: usize) -> (r: usize)
    requires
        i <= t@.len(),
    ensures
        r == letter_run(t@, i as int),
        i + r <= t@.len(),
{
    proof {
        lemma_letter_run(t@, i as int);
    }
    let n = t.len();
    let mut j = i;
    while j < n && letter_byte(t[j])
        invariant
            i <= j <= n,
            n == t@.len(),
            forall|x: int| i <= x < j ==> is_letter(#[trigger] t@[x]),
        decreases n - j,
    {
        j += 1;
    }
    assert(j - i == letter_run(t@, i as int)) by {
        if j - i < letter_run(t@, i as int) {
            assert(is_letter(t@[j as int]));
        }
        if letter_run(t@, i as int) < j - i {
            assert(!is_letter(t@[i + letter_run(t@, i as int)]));
        }
    }
    j - i
}

/// The greedy letters-then-word split at offset `i`, if any.
fn suffix_end_at(t: &[u8], i: usize, w: &Vec<u8>) -> (res: Option<usize>)
    requires
        i <= t@.len(),
    ensures
        match res {
            Some(e) => suffix_end(t@, i as int, w@) == Some(e as int) && i < e <= t@.len(),
            None => suffix_end(t@, i as int, w@) is None,
        },
{
    let n = t.len();
    let r = letter_run_at(t, i);
    if r < 1 {
        return None;
    }
    let wl = w.len();
    let mut k = r;
    loop
        invariant
            1 <= k <= r,
            i + r <= n,
            n == t@.len(),
            r == letter_run(t@, i as int),
            r >= 1,
            wl == w@.len(),
            best_k(t@, i as int, w@, r as int) == best_k(t@, i as int, w@, k as int),
        decreases k,
    {
        if wl <= n - (i + k) && match_exact_at(t, w.as_slice(), i + k) {
            return Some(i + k + wl);
        }
        proof {
            assert(!match_at(t@, w@, i + k));
        }
        if k == 1 {
            proof {
                assert(best_k(t@, i as int, w@, 0) is None);
            }
            return None;
        }
        k -= 1;
    }
}

/// The fixed byte strings of the error grammar.
struct ErrWords {
    exception: Vec<u8>,
    error: Vec<u8>,
    timeout: Vec<u8>,
    conn: Vec<u8>,
    h500: Vec<u8>,
    h401: Vec<u8>,
    h503: Vec<u8>,
}

impl ErrWords {
    spec fn wf(&self) -> bool {
        &&& self.exception@ == wb("Exception"@)
        &&& self.error@ == wb("Error"@)
        &&& self.timeout@ == wb("timeout"@)
        &&& self.conn@ == wb("Connection timeout"@)
        &&& self.h500@ == wb("500 Internal Server Error"@)
        &&& self.h401@ == wb("401 Unauthorized"@)
        &&& self.h503@ == wb("503 Service Unavailable"@)
    }

    fn new() -> (r: ErrWords)
        ensures
            r.wf(),
    {
        proof {
            reveal_strlit("Exception");
            reveal_strlit("Error");
            reveal_strlit("timeout");
            reveal_strlit("Connection timeout");
            reveal_strlit("500 Internal Server Error");
            reveal_strlit("401 Unauthorized");
            reveal_strlit("503 Service Unavailable");
        }
        ErrWords {
            exception: ascii_bytes("Exception"),
            error: ascii_bytes("Error"),
            timeout: ascii_bytes("timeout"),
            conn: ascii_bytes("Connection timeout"),
            h500: ascii_bytes("500 Internal Server Error"),
            h401: ascii_bytes("401 Unauthorized"),
            h503: ascii_bytes("503 Service Unavailable"),
        }
    }
}

/// Every byte of every error-grammar word is ASCII.
proof fn lemma_err_words_ascii()
    ensures
        forall|j: int| 0 <= j < wb("Exception"@).len() ==> #[trigger] wb("Exception"@)[j] < 0x80,
        forall|j: int| 0 <= j < wb("Error"@).len() ==> #[trigger] wb("Error"@)[j] < 0x80,
        forall|j: int| 0 <= j < wb("timeout"@).len() ==> #[trigger] wb("timeout"@)[j] < 0x80,
        forall|j: int|
            0 <= j < wb("Connection timeout"@).len() ==> #[trigger] wb("Connection timeout"@)[j]
                < 0x80,
        forall|j: int|
            0 <= j < wb("500 Internal Server Error"@).len() ==> #[trigger] wb(
                "500 Internal Server Error"@,
            )[j] < 0x80,
        forall|j: int|
            0 <= j < wb("401 Unauthorized"@).len() ==> #[trigger] wb("401 Unauthorized"@)[j]
                < 0x80,
        forall|j: int|
            0 <= j < wb("503 Service Unavailable"@).len() ==> #[trigger] wb(
                "503 Service Unavailable"@,
            )[j] < 0x80,
        wb("Exception"@).len() == 9,
        wb("Error"@).len() == 5,
        wb("timeout"@).len() == 7,
        wb("Connection timeout"@).len() == 18,
        wb("500 Internal Server Error"@).len() == 25,
        wb("401 Unauthorized"@).len() == 16,
        wb("503 Service Unavailable"@).len() == 23,
{
    reveal_strlit("Exception");
    reveal_strlit("Error");
    reveal_strlit("timeout");
    reveal_strlit("Connection timeout");
    reveal_strlit("500 Internal Server Error");
    reveal_strlit("401 Unauthorized");
    reveal_strlit("503 Service Unavailable");
}

/// Matches one plain word at offset `i` when it fits.
fn plain_at(t: &[u8], w: &Vec<u8>, i: usize) -> (r: bool)
    requires
        i <= t@.len(),
    ensures
        r == match_at(t@, w@, i as int),
{
    let n = t.len();
    if w.len() <= n - i {
        match_exact_at(t, w.as_slice(), i)
    } else {
        false
    }
}

/// End of the error signature recognised at offset `i`, if any.
fn err_end_at(t: &[u8], words: &ErrWords, i: usize) -> (r: Option<usize>)
    requires
        words.wf(),
        i < t@.len(),
    ensures
        match r {
            Some(e) => err_at(t@, i as int) == Some(e as int) && i < e <= t@.len(),
            None => err_at(t@, i as int) is None,
        },
{
    proof {
        lemma_err_words_ascii();
    }
    let n = t.len();
    if let Some(e) = suffix_end_at(t, i, &words.exception) {
        return Some(e);
    }
    if let Some(e) = suffix_end_at(t, i, &words.error) {
        return Some(e);
    }
    let r = letter_run_at(t, i);
    if r >= 1 {
        let m = ws_run_at(t, i + r);
        if m >= 1 {
            let q = i + r + m;
            if words.timeout.len() <= n - q && match_exact_at(t, words.timeout.as_slice(), q) {
                return Some(q + words.timeout.len());
            }
        }
    }
    if plain_at(t, &words.conn, i) {
        return Some(i + words.conn.len());
    }
    if plain_at(t, &words.h500, i) {
        return Some(i + words.h500.len());
    }
    if plain_at(t, &words.h401, i) {
        return Some(i + words.h401.len());
    }
    if plain_at(t, &words.h503, i) {
        return Some(i + words.h503.len());
    }
    None
}

pub proof fn lemma_best_k(t: Seq<u8>, i: int, w: Seq<u8>, k0: int)
    ensures
        match best_k(t, i, w, k0) {
            Some(k) => 1 <= k <= k0 && match_at(t, w, i + k),
            None => true,
        },
    decreases k0,
{
    if k0 >= 1 && !match_at(t, w, i + k0) {
        lemma_best_k(t, i, w, k0 - 1);
    }
}

/// A recognised error signature consists of ASCII bytes only.
proof fn lemma_err_range_ascii(t: Seq<u8>, i: int)
    requires
        0 <= i < t.len(),
        err_at(t, i) is Some,
    ensures
        i < err_at(t, i)->Some_0 <= t.len(),
        forall|j: int| i <= j < err_at(t, i)->Some_0 ==> #[trigger] t[j] < 0x80,
{
    lemma_err_words_ascii();
    lemma_letter_run(t, i);
    let r = letter_run(t, i);
    let e = err_at(t, i)->Some_0;
    if suffix_end(t, i, wb("Exception"@)) is Some {
        let w = wb("Exception"@);
        lemma_best_k(t, i, w, r);
        let k = best_k(t, i, w, r)->Some_0;
        assert forall|j: int| i <= j < e implies #[trigger] t[j] < 0x80 by {
            if j < i + k {
                assert(is_letter(t[j]));
            } else {
                assert(t.subrange(i + k, i + k + w.len() as int)[j - i - k] == t[j]);
                assert(t[j] == w[j - i - k]);
            }
        }
    } else if suffix_end(t, i, wb("Error"@)) is Some {
        let w = wb("Error"@);
        lemma_best_k(t, i, w, r);
        let k = best_k(t, i, w, r)->Some_0;
        assert forall|j: int| i <= j < e implies #[trigger] t[j] < 0x80 by {
            if j < i + k {
                assert(is_letter(t[j]));
            } else {
                assert(t.subrange(i + k, i + k + w.len() as int)[j - i - k] == t[j]);
                assert(t[j] == w[j - i - k]);
            }
        }
    } else if timeout_end(t, i) is Some {
        let w = wb("timeout"@);
        let m = ws_run(t, i + r);
        lemma_ws_run(t, i + r);
        assert forall|j: int| i <= j < e implies #[trigger] t[j] < 0x80 by {
            if j < i + r {
                assert(is_letter(t[j]));
            } else if j < i + r + m {
                assert(is_ws(t[j]));
            } else {
                assert(t.subrange(i + r + m, i + r + m + w.len() as int)[j - i - r - m] == t[j]);
                assert(t[j] == w[j - i - r - m]);
            }
        }
    } else if match_at(t, wb("Connection timeout"@), i) {
        let w = wb("Connection timeout"@);
        assert forall|j: int| i <= j < e implies #[trigger] t[j] < 0x80 by {
            assert(t.subrange(i, i + w.len() as int)[j - i] == t[j]);
            assert(t[j] == w[j - i]);
        }
    } else if match_at(t, wb("500 Internal Server Error"@), i) {
        let w = wb("500 Internal Server Error"@);
        assert forall|j: int| i <= j < e implies #[trigger] t[j] < 0x80 by {
            assert(t.subrange(i, i + w.len() as int)[j - i] == t[j]);
            assert(t[j] == w[j - i]);
        }
    } else if match_at(t, wb("401 Unauthorized"@), i) {
        let w = wb("401 Unauthorized"@);
        assert forall|j: int| i <= j < e implies #[trigger] t[j] < 0x80 by {
            assert(t.subrange(i, i + w.len() as int)[j - i] == t[j]);
            assert(t[j] == w[j - i]);
        }
    } else {
        let w = wb("503 Service Unavailable"@);
        assert forall|j: int| i <= j < e implies #[trigger] t[j] < 0x80 by {
            assert(t.subrange(i, i + w.len() as int)[j - i] == t[j]);
            assert(t[j] == w[j - i]);
        }
    }
}

/// Extracts the classified error signature of the line, if any.
pub fn extract_error_type(t: &[u8]) -> (r: Option<String>)
    requires
        valid_utf8(t@),
    ensures
        match r {
            Some(s) => error_type_of(t@) == Some(s@),
            None => error_type_of(t@) is None,
        },
{
    let words = ErrWords::new();
    let n = t.len();
    let mut i = n;
    let mut cur: Option<(usize, usize)> = None;
    while i > 0
        invariant
            0 <= i <= n,
            n == t@.len(),
            words.wf(),
            valid_utf8(t@),
            match cur {
                Some(p) => find_err(t@, i as int) == Some(p.0 as int) && err_at(t@, p.0 as int)
                    == Some(p.1 as int) && p.0 < p.1 <= n,
                None => find_err(t@, i as int) is None,
            },
        decreases i,
    {
        i -= 1;
        if let Some(e) = err_end_at(t, &words, i) {
            cur = Some((i, e));
        }
    }
    if let Some(p) = cur {
        let sub = vstd::slice::slice_subrange(t, p.0, p.1);
        proof {
            lemma_err_range_ascii(t@, p.0 as int);
            assert forall|j: int| 0 <= j < sub@.len() implies sub@[j] < 0x80 by {
                assert(sub@[j] == t@[j + p.0 as int]);
            }
            lemma_ascii_bytes_utf8(sub@);
        }
        match crate::text::utf8_str(sub) {
            Some(s) => Some(s.to_owned()),
            None => None,
        }
    } else {
        // no fixed signature: derive a `Failed to <action>` label
        proof {
            reveal_strlit("Failed to ");
        }
        let fw = ascii_bytes("Failed to ");
        match find_first(t, fw.as_slice(), 0) {
            Some(p) => {
                proof {
                    lemma_first_occ(t@, fw@, 0);
                    assert(match_at(t@, fw@, p as int));
                }
                let from = p + fw.len();
                let mut colon: Vec<u8> = Vec::new();
                colon.push(58);
                assert(colon@ =~= seq![58u8]);
                let j = match find_first(t, colon.as_slice(), from) {
                    Some(q) => {
                        proof {
                            lemma_first_occ(t@, colon@, from as int);
                            assert(match_at(t@, colon@, q as int));
                            assert(t@.subrange(q as int, q + 1 as int)[0] == t@[q as int]);
                            assert(t@[q as int] == 58);
                        }
                        q
                    },
                    None => n,
                };
                proof {
                    assert(t@.subrange(p as int, p + fw@.len() as int)[0] == t@[p as int]);
                    assert(t@[p as int] == fw@[0]);
                    assert(fw@[0] < 0x80);
                    if j < n {
                        assert(t@[j as int] == 58);
                    }
                    crate::text::lemma_mid_valid(t@, p as int, j as int);
                }
                let sub = vstd::slice::slice_subrange(t, p, j);
                match crate::text::utf8_str(sub) {
                    Some(s) => Some(s.to_owned()),
                    None => None,
                }
            },
            None => None,
        }
    }
}

// ---------------------------------------------------------------------------
// Message
// ---------------------------------------------------------------------------
/// Start offset of the display message: after the second occurrence of
/// ` - ` when present, else after the first, else the whole line.
pub open spec fn msg_start(t: Seq<u8>) -> int {
    let sep = wb(" - "@);
    match first_occ(t, sep, 0) {
        Some(p1) => match first_occ(t, sep, p1 + sep.len()) {
            Some(p2) => p2 + sep.len(),
            None => p1 + sep.len(),
        },
        None => 0,
    }
}

/// The display message of a line.
pub open spec fn message_of(t: Seq<u8>) -> Seq<char>
    recommends
        valid_utf8(t),
{
    decode_utf8(t.subrange(msg_start(t), t.len() as int))
}

/// Extracts the display message of the line.
pub fn extract_message(t: &[u8]) -> (r: Option<String>)
    requires
        valid_utf8(t@),
    ensures
        match r {
            Some(s) => s@ == message_of(t@),
            None => false,
        },
{
    proof {
        reveal_strlit(" - ");
    }
    let sep = ascii_bytes(" - ");
    let n = t.len();
    let start = match find_first(t, sep.as_slice(), 0) {
        Some(p1) => {
            proof {
                lemma_first_occ(t@, sep@, 0);
                assert(match_at(t@, sep@, p1 as int));
            }
            match find_first(t, sep.as_slice(), p1 + sep.len()) {
                Some(p2) => {
                    proof {
                        lemma_first_occ(t@, sep@, p1 + sep@.len());
                        assert(match_at(t@, sep@, p2 as int));
                    }
                    p2 + sep.len()
                },
                None => p1 + sep.len(),
            }
        },
        None => 0,
    };
    proof {
        if start > 0 {
            let sp = start - sep@.len();
            assert(match_at(t@, sep@, sp));
            assert(t@.subrange(sp, sp + sep@.len() as int)[sep@.len() - 1] == t@[start - 1]);
            assert(t@[start - 1] == sep@[sep@.len() - 1]);
            assert(sep@[sep@.len() - 1] < 0x80);
        }
        crate::text::lemma_mid_valid(t@, start as int, t@.len() as int);
    }
    let sub = vstd::slice::slice_subrange(t, start, n);
    match crate::text::utf8_str(sub) {
        Some(s) => Some(s.to_owned()),
        None => None,
    }
}

} // verus!
