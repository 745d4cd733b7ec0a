//! The selector parser: a comma-separated list of tokens, each a bare 1-based
//! position `N` or a range `N-M`, turned into an ordered list of zero-based
//! half-open ranges. The grammar and every validation rule are stated as spec
//! functions; `parse_pos` is proved to implement them exactly.

use vstd::prelude::*;

use crate::errors::ParseError;
use crate::errors::SpecParseError;
use crate::numeral::all_digits;
use crate::numeral::digits_val;
use crate::numeral::is_digit;
use crate::numeral::lemma_digits_val_take_le;
use crate::numeral::lemma_digits_val_take_step;
use crate::position::PosRange;

verus! {

use vstd::string::StrSliceExecFns;
use vstd::string::StringExecFns;

/// A token that denotes a single 1-based position: a non-empty run of digits
/// whose value is at least one and representable. Leading zeros are accepted
/// and normalize away; a leading `+` is not a digit and so is rejected.
pub open spec fn valid_index_token(t: Seq<char>) -> bool {
    &&& t.len() > 0
    &&& all_digits(t)
    &&& 1 <= digits_val(t) <= usize::MAX
}

/// The zero-based position a valid index token denotes.
pub open spec fn index_of_token(t: Seq<char>) -> nat {
    (digits_val(t) - 1) as nat
}

/// `t` splits as `digits '-' digits` with the dash at position `k`.
pub open spec fn range_split_at(t: Seq<char>, k: int) -> bool {
    &&& 1 <= k && k + 1 < t.len()
    &&& t[k] == '-'
    &&& all_digits(t.take(k))
    &&& all_digits(t.skip(k + 1))
}

/// `t` has the shape `digits '-' digits` (both runs non-empty).
pub open spec fn is_range_token(t: Seq<char>) -> bool {
    exists|k: int| range_split_at(t, k)
}

/// The position of the dash of a range token.
pub open spec fn dash_pos(t: Seq<char>) -> int {
    choose|k: int| range_split_at(t, k)
}

/// A range token splits at exactly one position: a digit run cannot contain
/// the dash.
pub proof fn lemma_range_split_unique(t: Seq<char>, k1: int, k2: int)
    requires
        range_split_at(t, k1),
        range_split_at(t, k2),
    ensures
        k1 == k2,
{
    if k1 < k2 {
        assert(t.take(k2)[k1] == t[k1]);
        assert(is_digit(t[k1]));
        assert(!is_digit('-'));
    }
    if k2 < k1 {
        assert(t.take(k1)[k2] == t[k2]);
        assert(is_digit(t[k2]));
        assert(!is_digit('-'));
    }
}

/// What one token yields: a single-position range, a validated `N-M` range,
/// or the error the grammar assigns to it. A bare token that is not a valid
/// position and does not have the range shape is illegal as a whole; within a
/// range shape, each side is validated on its own and named in the error.
pub open spec fn spec_parse_token(t: Seq<char>) -> Result<PosRange, SpecParseError> {
    if valid_index_token(t) {
        Ok(PosRange { start: index_of_token(t) as usize, end: digits_val(t) as usize })
    } else if is_range_token(t) {
        let k = dash_pos(t);
        let left = t.take(k);
        let right = t.skip(k + 1);
        if !(1 <= digits_val(left) <= usize::MAX) {
            Err(SpecParseError::IllegalListValue(left))
        } else if !(1 <= digits_val(right) <= usize::MAX) {
            Err(SpecParseError::IllegalListValue(right))
        } else if digits_val(left) >= digits_val(right) {
            Err(SpecParseError::InvalidRange(digits_val(left), digits_val(right)))
        } else {
            Ok(
                PosRange {
                    start: (digits_val(left) - 1) as usize,
                    end: digits_val(right) as usize,
                },
            )
        }
    } else {
        Err(SpecParseError::IllegalListValue(t))
    }
}

/// A token the grammar accepts always yields a well-formed (non-empty) range.
pub proof fn lemma_parse_token_wf(t: Seq<char>)
    ensures
        spec_parse_token(t) matches Ok(p) ==> p.wf(),
{
}

/// The position of the first comma of `s`, or `s.len()` if there is none.
pub open spec fn first_comma(s: Seq<char>) -> int
    decreases s.len(),
{
    if s.len() == 0 {
        0
    } else if s[0] == ',' {
        0
    } else {
        1 + first_comma(s.drop_first())
    }
}

/// The first comma is where a scan says it is.
pub proof fn lemma_first_comma_is(s: Seq<char>, k: int)
    requires
        0 <= k <= s.len(),
        forall|i: int| 0 <= i < k ==> s[i] != ',',
        k < s.len() ==> s[k] == ',',
    ensures
        first_comma(s) == k,
    decreases s.len(),
{
    if s.len() == 0 {
    } else if s[0] == ',' {
        assert(k == 0);
    } else {
        assert(k >= 1);
        assert forall|i: int| 0 <= i < k - 1 implies s.drop_first()[i] != ',' by {
            assert(s.drop_first()[i] == s[i + 1]);
        }
        if k - 1 < s.drop_first().len() {
            assert(s.drop_first()[k - 1] == s[k]);
        }
        lemma_first_comma_is(s.drop_first(), k - 1);
    }
}

/// The comma-separated tokens of a selector, in order. Splitting keeps empty
/// fragments: `"1,"` yields the tokens `"1"` and `""`.
pub open spec fn split_tokens(s: Seq<char>) -> Seq<Seq<char>>
    decreases s.len(),
{
    let k = first_comma(s);
    if 0 <= k && k < s.len() {
        seq![s.take(k)] + split_tokens(s.skip(k + 1))
    } else {
        seq![s]
    }
}

/// The tokens of a selector, each parsed in order; the first failing token
/// decides the error, exactly as a left-to-right scan reports it.
pub open spec fn spec_parse_tokens(ts: Seq<Seq<char>>) -> Result<Seq<PosRange>, SpecParseError>
    decreases ts.len(),
{
    if ts.len() == 0 {
        Ok(Seq::empty())
    } else {
        match spec_parse_token(ts[0]) {
            Ok(p) => match spec_parse_tokens(ts.drop_first()) {
                Ok(rest) => Ok(seq![p] + rest),
                Err(e) => Err(e),
            },
            Err(e) => Err(e),
        }
    }
}

/// What parsing a whole selector yields: the empty selector is rejected
/// outright; otherwise the tokens are parsed left to right.
pub open spec fn spec_parse_pos(s: Seq<char>) -> Result<Seq<PosRange>, SpecParseError> {
    if s.len() == 0 {
        Err(SpecParseError::EmptySelector)
    } else {
        spec_parse_tokens(split_tokens(s))
    }
}

/// If the first `j` tokens parse and token `j` fails with `e`, the token list
/// fails with `e`.
pub proof fn lemma_parse_tokens_err(ts: Seq<Seq<char>>, j: int, e: SpecParseError)
    requires
        0 <= j < ts.len(),
        forall|i: int| 0 <= i < j ==> spec_parse_token(#[trigger] ts[i]) is Ok,
        spec_parse_token(ts[j]) == Err::<PosRange, SpecParseError>(e),
    ensures
        spec_parse_tokens(ts) == Err::<Seq<PosRange>, SpecParseError>(e),
    decreases j,
{
    if j == 0 {
    } else {
        assert(spec_parse_token(ts[0]) is Ok);
        assert forall|i: int| 0 <= i < j - 1 implies spec_parse_token(
            #[trigger] ts.drop_first()[i],
        ) is Ok by {
            assert(ts.drop_first()[i] == ts[i + 1]);
        }
        assert(ts.drop_first()[j - 1] == ts[j]);
        lemma_parse_tokens_err(ts.drop_first(), j - 1, e);
    }
}

/// If every token parses to the matching element of `ps`, the token list
/// parses to `ps`.
pub proof fn lemma_parse_tokens_ok(ts: Seq<Seq<char>>, ps: Seq<PosRange>)
    requires
        ps.len() == ts.len(),
        forall|i: int| 0 <= i < ts.len() ==> spec_parse_token(#[trigger] ts[i])
            == Ok::<PosRange, SpecParseError>(ps[i]),
    ensures
        spec_parse_tokens(ts) == Ok::<Seq<PosRange>, SpecParseError>(ps),
    decreases ts.len(),
{
    if ts.len() == 0 {
        assert(ps =~= Seq::<PosRange>::empty());
    } else {
        assert forall|i: int| 0 <= i < ts.drop_first().len() implies spec_parse_token(
            #[trigger] ts.drop_first()[i],
        ) == Ok::<PosRange, SpecParseError>(ps.drop_first()[i]) by {
            assert(ts.drop_first()[i] == ts[i + 1]);
            assert(ps.drop_first()[i] == ps[i + 1]);
        }
        lemma_parse_tokens_ok(ts.drop_first(), ps.drop_first());
        assert(ps =~= seq![ps[0]] + ps.drop_first());
    }
}

/// Parse one token as a single 1-based position and return it zero-based.
/// Anything that is not a non-empty digit run with a representable, non-zero
/// value — an explicit `+`, a zero, a stray character, an overflow — is
/// rejected, echoing the token verbatim.
pub fn parse_index(input: &str) -> (r: Result<usize, ParseError>)
    ensures
        match r {
            Ok(n) => valid_index_token(input@) && n as nat == index_of_token(input@),
            Err(e) => !valid_index_token(input@) && e@ == SpecParseError::IllegalListValue(
                input@,
            ),
        },
{
    let n = input.unicode_len();
    if n == 0 {
        return Err(ParseError::IllegalListValue(String::from_str(input)));
    }
    let mut val: usize = 0;
    let mut i: usize = 0;
    while i < n
        invariant
            0 <= i <= n,
            n == input@.len(),
            all_digits(input@.take(i as int)),
            val as nat == digits_val(input@.take(i as int)),
        decreases n - i,
    {
        let c = input.get_char(i);
        let u = c as u32;
        if u < 48 || u > 57 {
            assert(!is_digit(input@[i as int]));
            return Err(ParseError::IllegalListValue(String::from_str(input)));
        }
        let d = (u - 48) as usize;
        proof {
            lemma_digits_val_take_step(input@, i as int);
        }
        let v10 = match val.checked_mul(10) {
            Some(v) => v,
            None => {
                proof {
                    lemma_digits_val_take_le(input@, i as int + 1);
                }
                return Err(ParseError::IllegalListValue(String::from_str(input)));
            },
        };
        val = match v10.checked_add(d) {
            Some(v) => v,
            None => {
                proof {
                    lemma_digits_val_take_le(input@, i as int + 1);
                }
                return Err(ParseError::IllegalListValue(String::from_str(input)));
            },
        };
        proof {
            assert(all_digits(input@.take(i as int + 1))) by {
                assert forall|j: int| 0 <= j < i as int + 1 implies is_digit(
                    #[trigger] input@.take(i as int + 1)[j],
                ) by {
                    if j < i as int {
                        assert(input@.take(i as int)[j] == input@.take(i as int + 1)[j]);
                    }
                }
            }
        }
        i = i + 1;
    }
    proof {
        assert(input@.take(n as int) =~= input@);
    }
    if val == 0 {
        return Err(ParseError::IllegalListValue(String::from_str(input)));
    }
    Ok(val - 1)
}

/// Only the first dash of a token can split it as a range.
proof fn lemma_only_split_candidate(t: Seq<char>, k: int)
    requires
        0 <= k <= t.len(),
        forall|i: int| 0 <= i < k ==> t[i] != '-',
        k < t.len() ==> t[k] == '-',
    ensures
        forall|j: int| range_split_at(t, j) ==> j == k,
{
    assert forall|j: int| range_split_at(t, j) implies j == k by {
        assert(t[j] == '-');
        if j > k {
            assert(t.take(j)[k] == t[k]);
            assert(is_digit(t[k]));
        }
    }
}

/// Whether `t[from..to]` consists of digits only.
fn all_digits_between(t: &str, from: usize, to: usize) -> (r: bool)
    requires
        from <= to <= t@.len(),
    ensures
        r == all_digits(t@.subrange(from as int, to as int)),
{
    let mut i = from;
    while i < to
        invariant
            from <= i <= to <= t@.len(),
            forall|j: int| from <= j < i ==> is_digit(#[trigger] t@[j]),
        decreases to - i,
    {
        let c = t.get_char(i);
        let u = c as u32;
        if u < 48 || u > 57 {
            assert(t@.subrange(from as int, to as int)[i - from] == t@[i as int]);
            return false;
        }
        i = i + 1;
    }
    proof {
        assert forall|j: int| 0 <= j < to - from implies is_digit(
            #[trigger] t@.subrange(from as int, to as int)[j],
        ) by {
            assert(t@.subrange(from as int, to as int)[j] == t@[from + j]);
        }
    }
    true
}

/// Parse one comma-separated token: a bare 1-based position or a range
/// `N-M`, as `spec_parse_token` lays it out.
fn parse_token(t: &str) -> (r: Result<PosRange, ParseError>)
    ensures
        match r {
            Ok(p) => spec_parse_token(t@) == Ok::<PosRange, SpecParseError>(p),
            Err(e) => spec_parse_token(t@) == Err::<PosRange, SpecParseError>(e@),
        },
{
    let first_err = match parse_index(t) {
        Ok(n) => {
            assert(n < usize::MAX);
            return Ok(PosRange { start: n, end: n + 1 });
        },
        Err(e) => e,
    };
    // not a bare position; look for the range shape around the first dash
    let len = t.unicode_len();
    let mut k: usize = 0;
    let mut found = false;
    while !found && k < len
        invariant
            0 <= k <= len,
            len == t@.len(),
            forall|i: int| 0 <= i < k ==> t@[i] != '-',
            found ==> k < len && t@[k as int] == '-',
        decreases len - k, (if found { 0int } else { 1int }),
    {
        if t.get_char(k) == '-' {
            found = true;
        } else {
            k = k + 1;
        }
    }
    proof {
        if found {
            lemma_only_split_candidate(t@, k as int);
        } else {
            lemma_only_split_candidate(t@, len as int);
        }
    }
    if !found || k == 0 || k + 1 >= len {
        // no dash, a dash first, or a dash last: not a range token
        proof {
            if is_range_token(t@) {
                let j = choose|j: int| range_split_at(t@, j);
                assert(false);
            }
        }
        return Err(first_err);
    }
    let left_digits = all_digits_between(t, 0, k);
    let right_digits = all_digits_between(t, k + 1, len);
    proof {
        assert(t@.subrange(0, k as int) =~= t@.take(k as int));
        assert(t@.subrange(k as int + 1, len as int) =~= t@.skip(k as int + 1));
    }
    if !left_digits || !right_digits {
        // a side is not a digit run: not a range token either
        proof {
            if is_range_token(t@) {
                let j = choose|j: int| range_split_at(t@, j);
                assert(j == k as int);
                assert(false);
            }
        }
        return Err(first_err);
    }
    proof {
        assert(range_split_at(t@, k as int));
        assert(range_split_at(t@, dash_pos(t@)));
        lemma_range_split_unique(t@, dash_pos(t@), k as int);
    }
    let left = t.substring_char(0, k);
    let right = t.substring_char(k + 1, len);
    proof {
        assert(left@ =~= t@.take(k as int));
        assert(right@ =~= t@.skip(k as int + 1));
    }
    let n1 = match parse_index(left) {
        Ok(n) => n,
        Err(e) => {
            return Err(e);
        },
    };
    let n2 = match parse_index(right) {
        Ok(n) => n,
        Err(e) => {
            return Err(e);
        },
    };
    if n1 >= n2 {
        return Err(ParseError::InvalidRange(n1 + 1, n2 + 1));
    }
    Ok(PosRange { start: n1, end: n2 + 1 })
}

/// Parse a whole selector: comma-separated tokens, translated left to right
/// into an ordered position list. The empty selector is rejected; on success
/// the list is non-empty, every range is non-empty, and token order is kept
/// verbatim — nothing is sorted, merged or deduplicated.
pub fn parse_pos(selector: &str) -> (r: Result<Vec<PosRange>, ParseError>)
    ensures
        match r {
            Ok(v) => {
                &&& spec_parse_pos(selector@) == Ok::<Seq<PosRange>, SpecParseError>(v@)
                &&& v@.len() > 0
                &&& forall|i: int| 0 <= i < v@.len() ==> (#[trigger] v@[i]).wf()
            },
            Err(e) => spec_parse_pos(selector@) == Err::<Seq<PosRange>, SpecParseError>(e@),
        },
{
    let n = selector.unicode_len();
    if n == 0 {
        return Err(ParseError::EmptySelector);
    }
    let ghost toks = split_tokens(selector@);
    let ghost mut done: Seq<Seq<char>> = Seq::empty();
    let mut result: Vec<PosRange> = Vec::new();
    let mut a: usize = 0;
    proof {
        assert(selector@.skip(0) =~= selector@);
    }
    loop
        invariant
            n == selector@.len(),
            0 < n,
            0 <= a <= n,
            toks == split_tokens(selector@),
            toks =~= done + split_tokens(selector@.skip(a as int)),
            result@.len() == done.len(),
            forall|i: int| 0 <= i < done.len() ==> spec_parse_token(#[trigger] done[i])
                == Ok::<PosRange, SpecParseError>(result@[i]),
            forall|i: int| 0 <= i < result@.len() ==> (#[trigger] result@[i]).wf(),
        decreases n - a,
    {
        // the current token runs to the next comma or to the end
        let mut b = a;
        while b < n && selector.get_char(b) != ','
            invariant
                a <= b <= n,
                n == selector@.len(),
                forall|i: int| a <= i < b ==> selector@[i] != ',',
            decreases n - b,
        {
            b = b + 1;
        }
        proof {
            let suf = selector@.skip(a as int);
            assert forall|i: int| 0 <= i < b - a implies suf[i] != ',' by {
                assert(suf[i] == selector@[a + i]);
            }
            if b < n {
                assert(suf[b - a] == selector@[b as int]);
            }
            lemma_first_comma_is(suf, b - a);
        }
        let token = selector.substring_char(a, b);
        proof {
            let suf = selector@.skip(a as int);
            assert(token@ =~= suf.take(b - a));
            if b < n {
                assert(split_tokens(suf) == seq![suf.take(b - a)] + split_tokens(
                    suf.skip(b - a + 1),
                ));
                assert(suf.skip(b - a + 1) =~= selector@.skip(b as int + 1));
            } else {
                assert(suf.take(b - a) =~= suf);
                assert(split_tokens(suf) == seq![suf]);
            }
            assert(toks[done.len() as int] == token@);
        }
        match parse_token(token) {
            Err(e) => {
                proof {
                    lemma_parse_tokens_err(toks, done.len() as int, e@);
                }
                return Err(e);
            },
            Ok(p) => {
                proof {
                    lemma_parse_token_wf(token@);
                }
                result.push(p);
                proof {
                    done = done.push(token@);
                }
                if b == n {
                    proof {
                        assert(toks =~= done);
                        lemma_parse_tokens_ok(toks, result@);
                    }
                    return Ok(result);
                }
                a = b + 1;
            },
        }
    }
}

} // verus!
