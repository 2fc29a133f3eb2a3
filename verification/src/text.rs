//! Searching and measuring UTF-8 source text given as bytes.
use vstd::prelude::*;
use vstd::utf8::*;

verus! {

/// `\n` or `\r`.
pub open spec fn is_line_break(b: u8) -> bool {
    b == 10u8 || b == 13u8
}

/// Some byte in `s[lo..hi]` is a line break.
pub open spec fn has_line_break(s: Seq<u8>, lo: int, hi: int) -> bool {
    exists|j: int| lo <= j < hi && #[trigger] is_line_break(s[j])
}

/// First index `j` in `lo..s.len()` with `s[j] == x`.
pub open spec fn find_from<A>(s: Seq<A>, x: A, lo: int) -> Option<int>
    decreases s.len() - lo,
{
    if lo < 0 || lo >= s.len() {
        None
    } else if s[lo] == x {
        Some(lo)
    } else {
        find_from(s, x, lo + 1)
    }
}

/// Last index `j` in `0..hi` with `s[j] == x`.
pub open spec fn rfind_before<A>(s: Seq<A>, x: A, hi: int) -> Option<int>
    decreases hi,
{
    if hi <= 0 {
        None
    } else if s[hi - 1] == x {
        Some(hi - 1)
    } else {
        rfind_before(s, x, hi - 1)
    }
}

/// What `find_from` finds: the first match at or after `lo`.
pub proof fn lemma_find_from<A>(s: Seq<A>, x: A, lo: int)
    requires
        0 <= lo,
    ensures
        find_from(s, x, lo) matches Some(i) ==> lo <= i < s.len() && s[i] == x && forall|j: int|
            lo <= j < i ==> s[j] != x,
        find_from(s, x, lo) is None ==> forall|j: int| lo <= j < s.len() ==> s[j] != x,
    decreases s.len() - lo,
{
    if lo < s.len() && s[lo] != x {
        lemma_find_from(s, x, lo + 1);
    }
}

/// What `rfind_before` finds: the last match before `hi`.
pub proof fn lemma_rfind_before<A>(s: Seq<A>, x: A, hi: int)
    requires
        hi <= s.len(),
    ensures
        rfind_before(s, x, hi) matches Some(i) ==> 0 <= i < hi && s[i] == x && forall|j: int|
            i < j < hi ==> s[j] != x,
        rfind_before(s, x, hi) is None ==> forall|j: int| 0 <= j < hi ==> s[j] != x,
    decreases hi,
{
    if hi > 0 && s[hi - 1] != x {
        lemma_rfind_before(s, x, hi - 1);
    }
}

/// Number of indices `j` in `lo..hi` with `s[j] == x`.
pub open spec fn count_in(s: Seq<u8>, x: u8, lo: int, hi: int) -> nat
    decreases hi - lo,
{
    if hi <= lo {
        0
    } else {
        count_in(s, x, lo, hi - 1) + if s[hi - 1] == x { 1nat } else { 0nat }
    }
}

/// Some byte in `s[lo..hi]` equals `x`.
pub open spec fn has_byte(s: Seq<u8>, x: u8, lo: int, hi: int) -> bool {
    exists|j: int| lo <= j < hi && s[j] == x
}

/// Last index of `x` in `s[lo..hi]`.
pub open spec fn rfind_in<A>(s: Seq<A>, x: A, lo: int, hi: int) -> Option<int> {
    match rfind_before(s, x, hi) {
        Some(i) => if i >= lo {
            Some(i)
        } else {
            None
        },
        None => None,
    }
}

/// `needle` occurs in `s` at index `i`, inside `s[..hi]`.
pub open spec fn occurs_at(s: Seq<u8>, needle: Seq<u8>, i: int, hi: int) -> bool {
    &&& 0 <= i
    &&& i + needle.len() <= hi
    &&& hi <= s.len()
    &&& s.subrange(i, i + needle.len()) == needle
}

/// First index `i` in `lo..` at which `needle` occurs inside `s[..hi]`.
pub open spec fn find_sub_from(s: Seq<u8>, needle: Seq<u8>, lo: int, hi: int) -> Option<int>
    decreases hi + 1 - lo,
{
    if lo < 0 || lo + needle.len() > hi {
        None
    } else if occurs_at(s, needle, lo, hi) {
        Some(lo)
    } else {
        find_sub_from(s, needle, lo + 1, hi)
    }
}

/// `str::is_char_boundary` on the bytes of a UTF-8 string.
pub open spec fn is_char_boundary(s: Seq<u8>, i: int) -> bool {
    i == s.len() || (0 <= i < s.len() && (s[i] < 0x80u8 || s[i] >= 0xC0u8))
}

/// Length in bytes of the UTF-8 encoded white-space character that ends
/// `s[lo..hi]`, or 0. White space is Unicode's `White_Space` property, the
/// set that `char::is_whitespace` accepts.
pub open spec fn whitespace_suffix_len(s: Seq<u8>, lo: int, hi: int) -> int {
    if hi - lo >= 1 && (s[hi - 1] == 0x20u8 || (0x09u8 <= s[hi - 1] && s[hi - 1] <= 0x0Du8)) {
        1
    } else if hi - lo >= 2 && s[hi - 2] == 0xC2u8 && (s[hi - 1] == 0x85u8 || s[hi - 1] == 0xA0u8) {
        2
    } else if hi - lo >= 3 && ((s[hi - 3] == 0xE1u8 && s[hi - 2] == 0x9Au8 && s[hi - 1] == 0x80u8)
        || (s[hi - 3] == 0xE2u8 && s[hi - 2] == 0x80u8 && (s[hi - 1] <= 0x8Au8 && s[hi - 1] >= 0x80u8
        || s[hi - 1] == 0xA8u8 || s[hi - 1] == 0xA9u8 || s[hi - 1] == 0xAFu8))
        || (s[hi - 3] == 0xE2u8 && s[hi - 2] == 0x81u8 && s[hi - 1] == 0x9Fu8)
        || (s[hi - 3] == 0xE3u8 && s[hi - 2] == 0x80u8 && s[hi - 1] == 0x80u8)) {
        3
    } else {
        0
    }
}

/// End of `s[lo..hi]` once trailing white space is removed (`str::trim_end`).
pub open spec fn trimmed_end(s: Seq<u8>, lo: int, hi: int) -> int
    decreases hi - lo,
{
    if hi > lo && whitespace_suffix_len(s, lo, hi) > 0 {
        trimmed_end(s, lo, hi - whitespace_suffix_len(s, lo, hi))
    } else {
        hi
    }
}

pub proof fn lemma_trimmed_end_bounds(s: Seq<u8>, lo: int, hi: int)
    requires
        lo <= hi,
    ensures
        lo <= trimmed_end(s, lo, hi) <= hi,
    decreases hi - lo,
{
    if hi > lo && whitespace_suffix_len(s, lo, hi) > 0 {
        lemma_trimmed_end_bounds(s, lo, hi - whitespace_suffix_len(s, lo, hi));
    }
}

/// Whether `text[lo..hi]` holds a `\n` or `\r`.
pub fn contains_line_break(text: &[u8], lo: usize, hi: usize) -> (r: bool)
    requires
        lo <= hi <= text@.len(),
    ensures
        r == has_line_break(text@, lo as int, hi as int),
{
    let mut j = lo;
    while j < hi
        invariant
            lo <= j <= hi <= text@.len(),
            forall|k: int| lo <= k < j ==> !is_line_break(text@[k]),
        decreases hi - j,
    {
        if text[j] == 10u8 || text[j] == 13u8 {
            assert(is_line_break(text@[j as int]));
            return true;
        }
        j = j + 1;
    }
    false
}

/// First position of byte `x` in `text[lo..]`.
pub fn find_byte(text: &[u8], x: u8, lo: usize) -> (r: Option<usize>)
    requires
        lo <= text@.len(),
    ensures
        r matches Some(i) ==> find_from(text@, x, lo as int) == Some(i as int),
        r is None ==> find_from(text@, x, lo as int) is None,
{
    let mut j = lo;
    while j < text.len()
        invariant
            lo <= j <= text@.len(),
            find_from(text@, x, lo as int) == find_from(text@, x, j as int),
        decreases text@.len() - j,
    {
        if text[j] == x {
            return Some(j);
        }
        j = j + 1;
    }
    None
}

/// First position of character `x` in `text`.
pub fn find_char(text: &[char], x: char) -> (r: Option<usize>)
    ensures
        r matches Some(i) ==> find_from(text@, x, 0) == Some(i as int),
        r is None ==> find_from(text@, x, 0) is None,
{
    let mut j: usize = 0;
    while j < text.len()
        invariant
            j <= text@.len(),
            find_from(text@, x, 0) == find_from(text@, x, j as int),
        decreases text@.len() - j,
    {
        if text[j] == x {
            return Some(j);
        }
        j = j + 1;
    }
    None
}

/// Last position of byte `x` in `text[..hi]`.
pub fn rfind_byte(text: &[u8], x: u8, hi: usize) -> (r: Option<usize>)
    requires
        hi <= text@.len(),
    ensures
        r matches Some(i) ==> rfind_before(text@, x, hi as int) == Some(i as int),
        r is None ==> rfind_before(text@, x, hi as int) is None,
{
    let mut j = hi;
    while j > 0
        invariant
            j <= hi <= text@.len(),
            rfind_before(text@, x, hi as int) == rfind_before(text@, x, j as int),
        decreases j,
    {
        if text[j - 1] == x {
            return Some(j - 1);
        }
        j = j - 1;
    }
    None
}

/// Whether byte `x` occurs in `text[lo..hi]`.
pub fn contains_byte(text: &[u8], x: u8, lo: usize, hi: usize) -> (r: bool)
    requires
        lo <= hi <= text@.len(),
    ensures
        r == has_byte(text@, x, lo as int, hi as int),
{
    let mut j = lo;
    while j < hi
        invariant
            lo <= j <= hi <= text@.len(),
            forall|k: int| lo <= k < j ==> text@[k] != x,
        decreases hi - j,
    {
        if text[j] == x {
            return true;
        }
        j = j + 1;
    }
    false
}

/// Last position of byte `x` in `text[lo..hi]`.
pub fn rfind_byte_in(text: &[u8], x: u8, lo: usize, hi: usize) -> (r: Option<usize>)
    requires
        lo <= hi <= text@.len(),
    ensures
        r matches Some(i) ==> rfind_in(text@, x, lo as int, hi as int) == Some(i as int),
        r is None ==> rfind_in(text@, x, lo as int, hi as int) is None,
{
    match rfind_byte(text, x, hi) {
        Some(i) => if i >= lo {
            Some(i)
        } else {
            None
        },
        None => None,
    }
}

/// Number of bytes equal to `x` in `text[lo..hi]`.
pub fn count_byte(text: &[u8], x: u8, lo: usize, hi: usize) -> (r: usize)
    requires
        lo <= hi <= text@.len(),
    ensures
        r == count_in(text@, x, lo as int, hi as int),
{
    let mut j = lo;
    let mut n: usize = 0;
    while j < hi
        invariant
            lo <= j <= hi <= text@.len(),
            n == count_in(text@, x, lo as int, j as int),
            n <= j - lo,
        decreases hi - j,
    {
        if text[j] == x {
            n = n + 1;
        }
        j = j + 1;
    }
    n
}

/// First position at which `needle` occurs inside `text[lo..hi]`.
pub fn find_sub(text: &[u8], needle: &[u8], lo: usize, hi: usize) -> (r: Option<usize>)
    requires
        lo <= hi <= text@.len(),
    ensures
        r matches Some(i) ==> find_sub_from(text@, needle@, lo as int, hi as int) == Some(i as int),
        r is None ==> find_sub_from(text@, needle@, lo as int, hi as int) is None,
{
    if needle.len() > hi - lo {
        return None;
    }
    let last = hi - needle.len();
    let mut i = lo;
    while i <= last
        invariant
            lo <= i,
            last + needle@.len() == hi,
            hi <= text@.len(),
            find_sub_from(text@, needle@, lo as int, hi as int) == find_sub_from(
                text@,
                needle@,
                i as int,
                hi as int,
            ),
        decreases last + 1 - i,
    {
        let mut k: usize = 0;
        let mut same = true;
        while k < needle.len()
            invariant
                i <= last,
                last + needle@.len() == hi,
                hi <= text@.len(),
                k <= needle@.len(),
                same ==> forall|m: int| 0 <= m < k ==> text@[i + m] == needle@[m],
                !same ==> !occurs_at(text@, needle@, i as int, hi as int),
            decreases needle@.len() - k,
        {
            if text[i + k] != needle[k] {
                same = false;
                assert(text@.subrange(i as int, i + needle@.len())[k as int] != needle@[k as int]);
            }
            k = k + 1;
        }
        if same {
            assert(text@.subrange(i as int, i + needle@.len()) =~= needle@);
            return Some(i);
        }
        if i == last {
            return None;
        }
        i = i + 1;
    }
    None
}

/// Whether `i` is a character boundary of the UTF-8 bytes `text`.
pub fn char_boundary(text: &[u8], i: usize) -> (r: bool)
    ensures
        r == is_char_boundary(text@, i as int),
{
    if i == text.len() {
        true
    } else if i < text.len() {
        text[i] < 0x80u8 || text[i] >= 0xC0u8
    } else {
        false
    }
}

/// End of `text[lo..hi]` once trailing white space is removed.
pub fn trim_end_index(text: &[u8], lo: usize, hi: usize) -> (r: usize)
    requires
        lo <= hi <= text@.len(),
    ensures
        r == trimmed_end(text@, lo as int, hi as int),
        lo <= r <= hi,
{
    let mut h = hi;
    proof {
        lemma_trimmed_end_bounds(text@, lo as int, hi as int);
    }
    while h > lo
        invariant
            lo <= h <= hi <= text@.len(),
            trimmed_end(text@, lo as int, hi as int) == trimmed_end(text@, lo as int, h as int),
        decreases h - lo,
    {
        let b = text[h - 1];
        let k: usize = if b == 0x20u8 || (0x09u8 <= b && b <= 0x0Du8) {
            1
        } else if h - lo >= 2 && text[h - 2] == 0xC2u8 && (b == 0x85u8 || b == 0xA0u8) {
            2
        } else if h - lo >= 3 && ((text[h - 3] == 0xE1u8 && text[h - 2] == 0x9Au8 && b == 0x80u8)
            || (text[h - 3] == 0xE2u8 && text[h - 2] == 0x80u8 && (b <= 0x8Au8 && b >= 0x80u8
            || b == 0xA8u8 || b == 0xA9u8 || b == 0xAFu8))
            || (text[h - 3] == 0xE2u8 && text[h - 2] == 0x81u8 && b == 0x9Fu8)
            || (text[h - 3] == 0xE3u8 && text[h - 2] == 0x80u8 && b == 0x80u8)) {
            3
        } else {
            0
        };
        assert(k == whitespace_suffix_len(text@, lo as int, h as int));
        if k == 0 {
            return h;
        }
        h = h - k;
    }
    h
}

/// Calls `char::from_u32`, which std documents as giving the character whose
/// code is `v` where `v` is a Unicode scalar value (at most U+10FFFF and not a
/// surrogate, U+D800 to U+DFFF), and `None` for every other `v`.
#[verifier::external_body]
fn char_from_u32(v: u32) -> (r: Option<char>)
    ensures
        r == (if v <= 0x10FFFF && !(0xD800 <= v && v <= 0xDFFF) {
            Some(v as char)
        } else {
            None
        }),
{
    char::from_u32(v)
}

/// The character whose UTF-8 encoding starts `text[i..hi]`, with the length
/// of that encoding; `None` where `text[i..hi]` does not start with a
/// well-formed encoding of one scalar value (bad bit pattern, too few bytes,
/// an overlong form, a surrogate or a value past U+10FFFF).
pub fn decode_scalar(text: &[u8], i: usize, hi: usize) -> (r: Option<(char, usize)>)
    requires
        i < hi <= text@.len(),
    ensures
        match r {
            Some((c, n)) => {
                &&& valid_first_scalar(text@.subrange(i as int, hi as int))
                &&& c == decode_first_scalar(text@.subrange(i as int, hi as int)) as char
                &&& n == length_of_first_scalar(text@.subrange(i as int, hi as int))
                &&& 1 <= n <= hi - i
            },
            None => !valid_first_scalar(text@.subrange(i as int, hi as int)),
        },
{
    let ghost s = text@.subrange(i as int, hi as int);
    let b0 = text[i];
    let avail = hi - i;
    let cp: u32;
    let n: usize;
    if b0 <= 0x7Fu8 {
        cp = (b0 & 0x7Fu8) as u32;
        n = 1;
        assert(cp <= 0x7F) by (bit_vector)
            requires
                cp == (b0 & 0x7Fu8) as u32,
        ;
    } else if 0xC0u8 <= b0 && b0 <= 0xDFu8 {
        if avail < 2 || !(0x80u8 <= text[i + 1] && text[i + 1] <= 0xBFu8) {
            return None;
        }
        let b1 = text[i + 1];
        cp = (((b0 & 0x1Fu8) as u32) << 6u32) | ((b1 & 0x3Fu8) as u32);
        n = 2;
        assert(cp <= 0x7FF) by (bit_vector)
            requires
                cp == (((b0 & 0x1Fu8) as u32) << 6u32) | ((b1 & 0x3Fu8) as u32),
        ;
    } else if 0xE0u8 <= b0 && b0 <= 0xEFu8 {
        if avail < 3 || !(0x80u8 <= text[i + 1] && text[i + 1] <= 0xBFu8)
            || !(0x80u8 <= text[i + 2] && text[i + 2] <= 0xBFu8) {
            return None;
        }
        let b1 = text[i + 1];
        let b2 = text[i + 2];
        cp = (((b0 & 0x0Fu8) as u32) << 12u32) | (((b1 & 0x3Fu8) as u32) << 6u32) | ((b2
            & 0x3Fu8) as u32);
        n = 3;
        assert(cp <= 0xFFFF) by (bit_vector)
            requires
                cp == (((b0 & 0x0Fu8) as u32) << 12u32) | (((b1 & 0x3Fu8) as u32) << 6u32) | ((
                b2 & 0x3Fu8) as u32),
        ;
    } else if 0xF0u8 <= b0 && b0 <= 0xF7u8 {
        if avail < 4 || !(0x80u8 <= text[i + 1] && text[i + 1] <= 0xBFu8)
            || !(0x80u8 <= text[i + 2] && text[i + 2] <= 0xBFu8)
            || !(0x80u8 <= text[i + 3] && text[i + 3] <= 0xBFu8) {
            return None;
        }
        let b1 = text[i + 1];
        let b2 = text[i + 2];
        let b3 = text[i + 3];
        cp = (((b0 & 0x07u8) as u32) << 18u32) | (((b1 & 0x3Fu8) as u32) << 12u32) | (((b2
            & 0x3Fu8) as u32) << 6u32) | ((b3 & 0x3Fu8) as u32);
        n = 4;
    } else {
        return None;
    }
    assert(s[0] == b0);
    assert(cp == decode_first_codepoint(s));
    assert(n == length_of_first_codepoint(s));
    if (n == 2 && cp < 0x80) || (n == 3 && cp < 0x800) || (n == 4 && (cp < 0x10000 || cp
        > 0x10FFFF)) || (0xD800 <= cp && cp <= 0xDFFF) {
        return None;
    }
    match char_from_u32(cp) {
        Some(c) => Some((c, n)),
        None => None,
    }
}

} // verus!
