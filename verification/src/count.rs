//! Line, word, byte and character counts of one input text, and the
//! fixed-width column rendering of a count.

use vstd::prelude::*;

use crate::numeral::dec_digits;
use crate::numeral::dec_string;
use crate::numeral::padded;
use crate::numeral::spaces;

verus! {

use vstd::string::StrSliceExecFns;
use vstd::string::StringExecFns;
use vstd::utf8::encode_utf8;
use vstd::utf8::encode_scalar;

/// Counts of one input text.
#[derive(Debug, PartialEq, Eq, Structural)]
pub struct FileInfo {
    pub num_lines: usize,
    pub num_words: usize,
    pub num_bytes: usize,
    pub num_chars: usize,
}

/// What `char::is_whitespace` yields: the Unicode White_Space property, a
/// function of the character alone.
pub uninterp spec fn is_unicode_space(c: char) -> bool;

/// Relies on char::is_whitespace: whether the character has the Unicode
/// White_Space property.
#[verifier::external_body]
fn char_is_space(c: char) -> (r: bool)
    ensures
        r == is_unicode_space(c),
{
    c.is_whitespace()
}

/// The number of newline characters in `s`.
pub open spec fn newline_count(s: Seq<char>) -> nat
    decreases s.len(),
{
    if s.len() == 0 {
        0
    } else {
        (if s[0] == '\n' {
            1nat
        } else {
            0nat
        }) + newline_count(s.drop_first())
    }
}

/// The number of lines of `s`, counted the way a line-by-line reader hands
/// them out: one per newline, plus one final unterminated chunk if the text
/// ends without a newline.
pub open spec fn line_count(s: Seq<char>) -> nat {
    newline_count(s) + (if s.len() > 0 && s.last() != '\n' {
        1nat
    } else {
        0nat
    })
}

/// The number of maximal whitespace-separated words of `s`, continuing from a
/// position where a word is already open iff `in_word`.
pub open spec fn word_count_from(s: Seq<char>, in_word: bool) -> nat
    decreases s.len(),
{
    if s.len() == 0 {
        0
    } else {
        (if !is_unicode_space(s[0]) && !in_word {
            1nat
        } else {
            0nat
        }) + word_count_from(s.drop_first(), !is_unicode_space(s[0]))
    }
}

/// The number of maximal whitespace-separated words of `s`.
pub open spec fn word_count(s: Seq<char>) -> nat {
    word_count_from(s, false)
}

/// A text never holds more newlines than characters, and a text that does not
/// end in a newline holds strictly fewer.
proof fn lemma_newline_count_le(s: Seq<char>)
    ensures
        newline_count(s) <= s.len(),
        s.len() > 0 && s.last() != '\n' ==> newline_count(s) < s.len(),
    decreases s.len(),
{
    if s.len() > 0 {
        lemma_newline_count_le(s.drop_first());
        if s.len() > 1 {
            assert(s.drop_first().last() == s.last());
        }
    }
}

/// Each character takes at least one byte of UTF-8.
proof fn lemma_encode_utf8_len_ge(s: Seq<char>)
    ensures
        encode_utf8(s).len() >= s.len(),
    decreases s.len(),
{
    if s.len() > 0 {
        lemma_encode_utf8_len_ge(s.drop_first());
        assert(encode_scalar(s[0] as u32).len() >= 1);
    }
}

/// Count the lines, words, bytes and characters of one text, read as a
/// line-by-line reader would: lines end after each newline, with a final
/// unterminated chunk counting as a line; words are maximal runs of
/// non-whitespace characters; bytes are those of the UTF-8 form.
pub fn count(text: &str) -> (info: FileInfo)
    requires
        encode_utf8(text@).len() <= usize::MAX,
    ensures
        info.num_lines as nat == line_count(text@),
        info.num_words as nat == word_count(text@),
        info.num_bytes as nat == encode_utf8(text@).len(),
        info.num_chars as nat == text@.len(),
{
    let num_bytes = text.len();
    let num_chars = text.unicode_len();
    let mut newlines: usize = 0;
    let mut words: usize = 0;
    let mut in_word = false;
    let mut i: usize = 0;
    proof {
        assert(text@.skip(0) =~= text@);
    }
    while i < num_chars
        invariant
            0 <= i <= num_chars,
            num_chars == text@.len(),
            newlines <= i,
            words <= i,
            newline_count(text@) == newlines + newline_count(text@.skip(i as int)),
            word_count(text@) == words + word_count_from(text@.skip(i as int), in_word),
        decreases num_chars - i,
    {
        let c = text.get_char(i);
        proof {
            assert(text@.skip(i as int)[0] == text@[i as int]);
            assert(text@.skip(i as int).drop_first() =~= text@.skip(i as int + 1));
        }
        if c == '\n' {
            newlines = newlines + 1;
        }
        if char_is_space(c) {
            in_word = false;
        } else {
            if !in_word {
                words = words + 1;
            }
            in_word = true;
        }
        i = i + 1;
    }
    proof {
        assert(text@.skip(num_chars as int) =~= Seq::<char>::empty());
        lemma_newline_count_le(text@);
    }
    let num_lines = if num_chars > 0 && text.get_char(num_chars - 1) == '\n' {
        newlines
    } else if num_chars > 0 {
        newlines + 1
    } else {
        newlines
    };
    FileInfo { num_lines, num_words: words, num_bytes, num_chars }
}

/// The column form of one count: the decimal value right-aligned with spaces
/// to a width of eight when the count is shown, the empty string when it is
/// not.
pub fn format_field(value: usize, show: bool) -> (r: String)
    ensures
        show ==> r@ == padded(dec_digits(value as nat), 8),
        !show ==> r@ == Seq::<char>::empty(),
{
    if !show {
        return String::new();
    }
    let digits = dec_string(value);
    let dlen = digits.as_str().unicode_len();
    if dlen >= 8 {
        return digits;
    }
    let mut out = String::new();
    let mut j = dlen;
    proof {
        reveal_strlit(" ");
        assert(out@ =~= spaces(0));
    }
    while j < 8
        invariant
            dlen <= j <= 8,
            dlen == dec_digits(value as nat).len(),
            out@ == spaces((j - dlen) as nat),
        decreases 8 - j,
    {
        out.append(" ");
        proof {
            reveal_strlit(" ");
            assert(out@ =~= spaces((j + 1 - dlen) as nat));
        }
        j = j + 1;
    }
    out.append(digits.as_str());
    proof {
        assert(out@ =~= padded(dec_digits(value as nat), 8));
    }
    out
}

} // verus!
