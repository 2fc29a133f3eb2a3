//! Display width of formatted text, in columns.
use vstd::prelude::*;
use vstd::utf8::*;

use crate::text::decode_scalar;

verus! {

/// The width that `unicode_width::UnicodeWidthChar::width` gives `c`.
pub uninterp spec fn unicode_char_width(c: char) -> Option<usize>;

/// Calls `unicode_width::UnicodeWidthChar::width` (unicode-width 0.2.3).
/// Its result is named `unicode_char_width(c)`; what the contract adds is
/// what `lookup::single_char_width` shows before its table lookup: printable
/// ASCII has width 1, the C0 and C1 control codes and DEL have none, and every
/// character from U+00A0 on has one. The table values are not stated.
#[verifier::external_body]
fn char_width(c: char) -> (w: Option<usize>)
    ensures
        w == unicode_char_width(c),
        0x20 <= (c as u32) && (c as u32) < 0x7F ==> w == Some(1usize),
        (c as u32) < 0x20 || (0x7F <= (c as u32) && (c as u32) < 0xA0) ==> w is None,
        (c as u32) >= 0xA0 ==> w is Some,
{
    unicode_width::UnicodeWidthChar::width(c)
}

/// Columns that one character of single-line text takes: a tab takes the
/// indent width, any other character its Unicode width, or 0 where it has none.
pub open spec fn char_columns(c: char, indent_width: u32) -> int {
    if c == '\t' {
        indent_width as int
    } else {
        match unicode_char_width(c) {
            Some(w) => (w as u32) as int,
            None => 0,
        }
    }
}

/// Sum of the columns of the characters of `s`.
pub open spec fn columns_sum(s: Seq<char>, indent_width: u32) -> int
    decreases s.len(),
{
    if s.len() == 0 {
        0
    } else {
        columns_sum(s.drop_last(), indent_width) + char_columns(s.last(), indent_width)
    }
}

/// Width of `s` on one line: none where `s` holds a line feed, or where the
/// width does not fit in `u32`.
pub open spec fn spec_text_width(s: Seq<char>, indent_width: u32) -> Option<u32> {
    if s.contains('\n') {
        None
    } else if columns_sum(s, indent_width) <= u32::MAX {
        Some(columns_sum(s, indent_width) as u32)
    } else {
        None
    }
}

pub proof fn lemma_columns_sum_nonneg(s: Seq<char>, indent_width: u32)
    ensures
        columns_sum(s, indent_width) >= 0,
    decreases s.len(),
{
    if s.len() > 0 {
        lemma_columns_sum_nonneg(s.drop_last(), indent_width);
    }
}

/// Widths add up over concatenation.
pub proof fn lemma_columns_sum_concat(a: Seq<char>, b: Seq<char>, indent_width: u32)
    ensures
        columns_sum(a + b, indent_width) == columns_sum(a, indent_width) + columns_sum(b, indent_width),
    decreases b.len(),
{
    if b.len() == 0 {
        assert(a + b =~= a);
    } else {
        lemma_columns_sum_concat(a, b.drop_last(), indent_width);
        assert((a + b).drop_last() =~= a + b.drop_last());
    }
}

/// A prefix is never wider than the whole text.
pub proof fn lemma_columns_sum_prefix(s: Seq<char>, k: int, indent_width: u32)
    requires
        0 <= k <= s.len(),
    ensures
        0 <= columns_sum(s.take(k), indent_width) <= columns_sum(s, indent_width),
{
    lemma_columns_sum_concat(s.take(k), s.skip(k), indent_width);
    assert(s.take(k) + s.skip(k) =~= s);
    lemma_columns_sum_nonneg(s.take(k), indent_width);
    lemma_columns_sum_nonneg(s.skip(k), indent_width);
}

/// When the whole text has a width, so has every piece of it, and the widths
/// of the two parts of a split add up to it.
pub proof fn lemma_text_width_split(s: Seq<char>, k: int, indent_width: u32)
    requires
        0 <= k <= s.len(),
        spec_text_width(s, indent_width) is Some,
    ensures
        spec_text_width(s.take(k), indent_width) is Some,
        spec_text_width(s.skip(k), indent_width) is Some,
        spec_text_width(s, indent_width).unwrap() == spec_text_width(s.take(k), indent_width).unwrap()
            + spec_text_width(s.skip(k), indent_width).unwrap(),
{
    lemma_columns_sum_concat(s.take(k), s.skip(k), indent_width);
    assert(s.take(k) + s.skip(k) =~= s);
    lemma_columns_sum_nonneg(s.take(k), indent_width);
    lemma_columns_sum_nonneg(s.skip(k), indent_width);
    if s.take(k).contains('\n') {
        let j = choose|j: int| 0 <= j < s.take(k).len() && s.take(k)[j] == '\n';
        assert(s[j] == '\n');
    }
    if s.skip(k).contains('\n') {
        let j = choose|j: int| 0 <= j < s.skip(k).len() && s.skip(k)[j] == '\n';
        assert(s[k + j] == '\n');
    }
}

/// Every character is printable ASCII (space to `~`): no tab, no line feed.
pub open spec fn is_printable_ascii(s: Seq<char>) -> bool {
    forall|i: int| 0 <= i < s.len() ==> 0x20 <= (#[trigger] s[i] as u32) && (s[i] as u32) < 0x7F
}

/// Columns that `c` takes (`char_columns`).
fn columns_of(c: char, indent_width: u32) -> (w: u32)
    ensures
        w == char_columns(c, indent_width),
        0x20 <= (c as u32) && (c as u32) < 0x7F ==> w == 1,
{
    if c == '\t' {
        indent_width
    } else {
        match char_width(c) {
            Some(w) => w as u32,
            None => 0,
        }
    }
}

/// Width of `text` on one line (`TextWidth::from_text`): `None` where it
/// holds a line feed, or where its width does not fit in `u32`. Printable
/// ASCII text is as wide as it is long.
pub fn text_width(text: &[char], indent_width: u32) -> (r: Option<u32>)
    ensures
        r == spec_text_width(text@, indent_width),
        is_printable_ascii(text@) && text@.len() <= u32::MAX ==> r == Some(text@.len() as u32),
{
    let ghost ascii = is_printable_ascii(text@);
    let mut total: u32 = 0;
    let mut i: usize = 0;
    while i < text.len()
        invariant
            i <= text@.len(),
            ascii == is_printable_ascii(text@),
            ascii && text@.len() <= u32::MAX ==> total == i,
            total == columns_sum(text@.take(i as int), indent_width),
            !text@.take(i as int).contains('\n'),
        decreases text@.len() - i,
    {
        let c = text[i];
        assert(ascii ==> 0x20 <= (text@[i as int] as u32) && (text@[i as int] as u32) < 0x7F);
        if c == '\n' {
            assert(text@.contains('\n')) by {
                assert(text@[i as int] == '\n');
            }
            return None;
        }
        let w = columns_of(c, indent_width);
        assert(ascii ==> w == 1);
        assert(text@.take(i + 1).drop_last() =~= text@.take(i as int));
        assert(!text@.take(i + 1).contains('\n')) by {
            let t = text@.take(i + 1);
            if t.contains('\n') {
                let j = choose|j: int| 0 <= j < t.len() && t[j] == '\n';
                if j < i {
                    assert(text@.take(i as int)[j] == '\n');
                }
            }
        }
        match total.checked_add(w) {
            Some(t) => {
                total = t;
            },
            None => {
                proof {
                    lemma_columns_sum_prefix(text@, i + 1, indent_width);
                }
                return None;
            },
        }
        i = i + 1;
    }
    assert(text@.take(i as int) =~= text@);
    Some(total)
}

/// Columns of UTF-8 encoded text: each well-formed encoding of a character
/// takes that character's columns; a byte that starts none takes none.
pub open spec fn utf8_columns(bytes: Seq<u8>, indent_width: u32) -> int
    decreases bytes.len(),
{
    if bytes.len() == 0 {
        0
    } else if valid_first_scalar(bytes) {
        char_columns(decode_first_scalar(bytes) as char, indent_width) + utf8_columns(
            pop_first_scalar(bytes),
            indent_width,
        )
    } else {
        utf8_columns(bytes.drop_first(), indent_width)
    }
}

pub proof fn lemma_utf8_columns_nonneg(bytes: Seq<u8>, indent_width: u32)
    ensures
        utf8_columns(bytes, indent_width) >= 0,
    decreases bytes.len(),
{
    if bytes.len() > 0 {
        if valid_first_scalar(bytes) {
            lemma_utf8_columns_nonneg(pop_first_scalar(bytes), indent_width);
        } else {
            lemma_utf8_columns_nonneg(bytes.drop_first(), indent_width);
        }
    }
}

/// On well-formed UTF-8, the columns of the bytes are the columns of the
/// characters they encode.
pub proof fn lemma_utf8_columns_decode(bytes: Seq<u8>, indent_width: u32)
    requires
        valid_utf8(bytes),
    ensures
        utf8_columns(bytes, indent_width) == columns_sum(decode_utf8(bytes), indent_width),
    decreases bytes.len(),
{
    if bytes.len() == 0 {
        assert(decode_utf8(bytes) =~= Seq::<char>::empty());
    } else {
        let c = decode_first_scalar(bytes) as char;
        let rest = pop_first_scalar(bytes);
        lemma_utf8_columns_decode(rest, indent_width);
        assert(decode_utf8(bytes) == seq![c] + decode_utf8(rest));
        lemma_columns_sum_concat(seq![c], decode_utf8(rest), indent_width);
        assert(seq![c].drop_last() =~= Seq::<char>::empty());
        assert(columns_sum(Seq::<char>::empty(), indent_width) == 0);
        assert(seq![c].last() == c);
    }
}

/// Whether the columns of `text[lo..hi]`, read as UTF-8, exceed `limit`.
pub fn columns_exceed(text: &[u8], lo: usize, hi: usize, limit: u32, indent_width: u32) -> (r: bool)
    requires
        lo <= hi <= text@.len(),
    ensures
        r == (utf8_columns(text@.subrange(lo as int, hi as int), indent_width) > limit),
{
    let mut total: u64 = 0;
    let mut i = lo;
    while i < hi
        invariant
            lo <= i <= hi <= text@.len(),
            total <= limit,
            total + utf8_columns(text@.subrange(i as int, hi as int), indent_width) == utf8_columns(
                text@.subrange(lo as int, hi as int),
                indent_width,
            ),
        decreases hi - i,
    {
        let ghost rest = text@.subrange(i as int, hi as int);
        match decode_scalar(text, i, hi) {
            Some((c, n)) => {
                let w = columns_of(c, indent_width);
                assert(pop_first_scalar(rest) =~= text@.subrange(i + n, hi as int));
                total = total + w as u64;
                i = i + n;
            },
            None => {
                assert(rest.drop_first() =~= text@.subrange(i + 1, hi as int));
                i = i + 1;
            },
        }
        if total > limit as u64 {
            proof {
                lemma_utf8_columns_nonneg(text@.subrange(i as int, hi as int), indent_width);
            }
            return true;
        }
    }
    assert(text@.subrange(i as int, hi as int).len() == 0);
    false
}

} // verus!
