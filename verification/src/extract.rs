//! The extractors: apply a parsed position list to one input unit — a line of
//! characters, a line of bytes, or a delimited record — and produce the
//! selected subsequence, in position-list order. Positions past the end of
//! the unit contribute nothing; extraction never fails.

use vstd::prelude::*;

use crate::position::PosRange;
use crate::position::clipped_width;
use crate::position::select_all;
use crate::position::select_range;

verus! {

use vstd::string::StrSliceExecFns;
use vstd::string::StringExecFns;
use vstd::string::StringSliceAdditionalSpecFns;
use vstd::utf8::decode_utf8;
use vstd::utf8::encode_utf8;
use vstd::utf8::valid_utf8;

/// Which positions a run extracts, over one position list: the fields of a
/// record, the raw bytes of a line, or its Unicode scalar values.
#[derive(Debug)]
pub enum Extract {
    Fields(Vec<PosRange>),
    Bytes(Vec<PosRange>),
    Chars(Vec<PosRange>),
}

/// Unfolding one step of `select_all` at the end of a position list.
proof fn lemma_select_all_take_step<T>(s: Seq<T>, pos: Seq<PosRange>, k: int)
    requires
        0 <= k < pos.len(),
    ensures
        select_all(s, pos.take(k + 1)) == select_all(s, pos.take(k)) + select_range(s, pos[k]),
{
    assert(pos.take(k + 1).drop_last() =~= pos.take(k));
    assert(pos.take(k + 1).last() == pos[k]);
}

/// The characters of `line` selected by `char_pos`, concatenated in
/// position-list order. Indexing is over Unicode scalar values, not bytes;
/// positions at or past the character length of the line are dropped.
pub fn extract_chars(line: &str, char_pos: &[PosRange]) -> (r: String)
    ensures
        r@ == select_all(line@, char_pos@),
{
    let n = line.unicode_len();
    let mut result = String::new();
    let mut k: usize = 0;
    proof {
        assert(char_pos@.take(0) =~= Seq::<PosRange>::empty());
    }
    while k < char_pos.len()
        invariant
            0 <= k <= char_pos@.len(),
            n == line@.len(),
            result@ == select_all(line@, char_pos@.take(k as int)),
        decreases char_pos@.len() - k,
    {
        let rg = char_pos[k];
        let hi = if rg.end <= n {
            rg.end
        } else {
            n
        };
        if rg.start < hi {
            let mut i = rg.start;
            while i < hi
                invariant
                    rg.start <= i <= hi <= n,
                    n == line@.len(),
                    hi == clipped_width(line@.len(), rg) + rg.start,
                    result@ == select_all(line@, char_pos@.take(k as int)) + Seq::new(
                        (i - rg.start) as nat,
                        |j: int| line@[rg.start + j],
                    ),
                decreases hi - i,
            {
                result.append(line.substring_char(i, i + 1));
                proof {
                    assert(Seq::new((i + 1 - rg.start) as nat, |j: int| line@[rg.start + j])
                        =~= Seq::new((i - rg.start) as nat, |j: int| line@[rg.start + j])
                        + line@.subrange(i as int, i as int + 1));
                }
                i = i + 1;
            }
            proof {
                assert(select_range(line@, rg) =~= Seq::new(
                    (hi - rg.start) as nat,
                    |j: int| line@[rg.start + j],
                ));
            }
        } else {
            proof {
                assert(select_range(line@, rg) =~= Seq::<char>::empty());
                assert(result@ =~= select_all(line@, char_pos@.take(k as int)) + select_range(
                    line@,
                    rg,
                ));
            }
        }
        proof {
            lemma_select_all_take_step(line@, char_pos@, k as int);
        }
        k = k + 1;
    }
    proof {
        assert(char_pos@.take(char_pos@.len() as int) =~= char_pos@);
    }
    result
}

/// The elements of `v` selected by `pos`, concatenated in position-list
/// order.
fn select_vec<T: Copy>(v: &Vec<T>, pos: &[PosRange]) -> (r: Vec<T>)
    ensures
        r@ == select_all(v@, pos@),
{
    let n = v.len();
    let mut result: Vec<T> = Vec::new();
    let mut k: usize = 0;
    proof {
        assert(pos@.take(0) =~= Seq::<PosRange>::empty());
    }
    while k < pos.len()
        invariant
            0 <= k <= pos@.len(),
            n == v@.len(),
            result@ == select_all(v@, pos@.take(k as int)),
        decreases pos@.len() - k,
    {
        let rg = pos[k];
        let hi = if rg.end <= n {
            rg.end
        } else {
            n
        };
        if rg.start < hi {
            let mut i = rg.start;
            while i < hi
                invariant
                    rg.start <= i <= hi <= n,
                    n == v@.len(),
                    hi == clipped_width(v@.len(), rg) + rg.start,
                    result@ == select_all(v@, pos@.take(k as int)) + Seq::new(
                        (i - rg.start) as nat,
                        |j: int| v@[rg.start + j],
                    ),
                decreases hi - i,
            {
                result.push(v[i]);
                proof {
                    assert(Seq::new((i + 1 - rg.start) as nat, |j: int| v@[rg.start + j]) =~= Seq::new(
                        (i - rg.start) as nat,
                        |j: int| v@[rg.start + j],
                    ).push(v@[i as int]));
                }
                i = i + 1;
            }
            proof {
                assert(select_range(v@, rg) =~= Seq::new(
                    (hi - rg.start) as nat,
                    |j: int| v@[rg.start + j],
                ));
            }
        } else {
            proof {
                assert(select_range(v@, rg) =~= Seq::<T>::empty());
                assert(result@ =~= select_all(v@, pos@.take(k as int)) + select_range(v@, rg));
            }
        }
        proof {
            lemma_select_all_take_step(v@, pos@, k as int);
        }
        k = k + 1;
    }
    proof {
        assert(pos@.take(pos@.len() as int) =~= pos@);
    }
    result
}

/// What `String::from_utf8_lossy` yields on arbitrary bytes: a function of
/// the bytes alone. Invalid sequences become replacement characters; only the
/// valid case is pinned down here, through vstd's UTF-8 model.
pub uninterp spec fn lossy_decode(bytes: Seq<u8>) -> Seq<char>;

/// Relies on String::from_utf8_lossy: the result depends on the bytes alone,
/// and bytes that are valid UTF-8 decode to exactly their characters.
#[verifier::external_body]
fn from_utf8_lossy(bytes: &Vec<u8>) -> (r: String)
    ensures
        r@ == lossy_decode(bytes@),
        valid_utf8(bytes@) ==> r@ == decode_utf8(bytes@),
{
    String::from_utf8_lossy(bytes.as_slice()).into_owned()
}

/// The bytes of the UTF-8 form of `line` selected by `byte_pos`, concatenated
/// across all ranges in position-list order, then decoded once, lossily:
/// a multi-byte character split across ranges but reassembled by their
/// concatenation decodes intact, and each invalid sequence becomes one
/// replacement character. Positions at or past the byte length are dropped.
pub fn extract_bytes(line: &str, byte_pos: &[PosRange]) -> (r: String)
    ensures
        r@ == lossy_decode(select_all(encode_utf8(line@), byte_pos@)),
        valid_utf8(select_all(encode_utf8(line@), byte_pos@)) ==> r@ == decode_utf8(
            select_all(encode_utf8(line@), byte_pos@),
        ),
{
    let bytes = line.as_bytes_vec();
    assert(bytes@ == line.spec_bytes());
    let selected = select_vec(&bytes, byte_pos);
    from_utf8_lossy(&selected)
}

} // verus!
