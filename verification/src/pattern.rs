//! Compiling a signature string — whitespace-separated two-digit hex
//! tokens and `?` wildcards — into a sequence of pattern elements.
//! A malformed token or an empty signature is rejected outright.

use vstd::prelude::*;
use crate::hexstr::{byte_of_hex_pair, hex_char_val, hex_val, is_hex_char};

verus! {

/// One element of a compiled signature pattern.
#[derive(Clone, Copy, PartialEq, Eq, Structural, Debug)]
pub enum PatElem {
    /// Matches exactly this byte.
    Exact(u8),
    /// Matches any byte.
    Wildcard,
}

/// Failure of signature compilation: the signature string is empty or
/// holds a token that is neither `?` nor two hex digits.
#[derive(Clone, Copy, PartialEq, Eq, Structural, Debug)]
pub enum ScanError {
    MalformedSignature,
}

/// ASCII whitespace, as token separator.
pub open spec fn is_space_char(c: char) -> bool {
    c == ' ' || c == '\t' || c == '\r' || c == '\n'
}

/// Length of the leading run of non-space characters.
pub open spec fn token_len(s: Seq<char>) -> nat
    decreases s.len(),
{
    if s.len() == 0 || is_space_char(s[0]) {
        0
    } else {
        1 + token_len(s.drop_first())
    }
}

proof fn lemma_token_len_le(s: Seq<char>)
    ensures
        token_len(s) <= s.len(),
    decreases s.len(),
{
    if s.len() > 0 && !is_space_char(s[0]) {
        lemma_token_len_le(s.drop_first());
    }
}

/// The whitespace-separated tokens of s, in order.
pub open spec fn tokens_of(s: Seq<char>) -> Seq<Seq<char>>
    decreases s.len(),
    via tokens_of_decreases
{
    if s.len() == 0 {
        Seq::empty()
    } else if is_space_char(s[0]) {
        tokens_of(s.drop_first())
    } else {
        seq![s.take(token_len(s) as int)] + tokens_of(s.skip(token_len(s) as int))
    }
}

#[via_fn]
proof fn tokens_of_decreases(s: Seq<char>) {
    if s.len() > 0 && !is_space_char(s[0]) {
        assert(token_len(s) >= 1);
        lemma_token_len_le(s);
    }
}

/// The pattern element denoted by one token, if any: `?` is a wildcard,
/// two hex digits are an exact byte, anything else is malformed.
pub open spec fn elem_of_token(t: Seq<char>) -> Option<PatElem> {
    if t.len() == 1 && t[0] == '?' {
        Some(PatElem::Wildcard)
    } else if t.len() == 2 && is_hex_char(t[0]) && is_hex_char(t[1]) {
        Some(PatElem::Exact(byte_of_hex_pair(t[0], t[1]) as u8))
    } else {
        None
    }
}

/// The compiled pattern denoted by a signature string: None if the
/// string holds no token at all or any token is malformed.
pub open spec fn parse_spec(s: Seq<char>) -> Option<Seq<PatElem>> {
    let ts = tokens_of(s);
    if ts.len() == 0 || (exists|k: int| 0 <= k < ts.len() && elem_of_token(ts[k]) is None) {
        None
    } else {
        Some(Seq::new(ts.len(), |k: int| elem_of_token(ts[k]).unwrap()))
    }
}

proof fn lemma_tokens_of_space(s: Seq<char>, i: int)
    requires
        0 <= i < s.len(),
        is_space_char(s[i]),
    ensures
        tokens_of(s.skip(i)) == tokens_of(s.skip(i + 1)),
{
    assert(s.skip(i).drop_first() =~= s.skip(i + 1));
    assert(s.skip(i)[0] == s[i]);
}

proof fn lemma_token_len_run(s: Seq<char>, i: int, j: int)
    requires
        0 <= i <= j <= s.len(),
        forall|m: int| i <= m < j ==> !is_space_char(#[trigger] s[m]),
        j == s.len() || is_space_char(s[j]),
    ensures
        token_len(s.skip(i)) == j - i,
    decreases j - i,
{
    if i == j {
        if i < s.len() {
            assert(s.skip(i)[0] == s[i]);
        }
    } else {
        assert(s.skip(i)[0] == s[i]);
        assert(s.skip(i).drop_first() =~= s.skip(i + 1));
        lemma_token_len_run(s, i + 1, j);
    }
}

proof fn lemma_tokens_of_token(s: Seq<char>, i: int, j: int)
    requires
        0 <= i < j <= s.len(),
        forall|m: int| i <= m < j ==> !is_space_char(#[trigger] s[m]),
        j == s.len() || is_space_char(s[j]),
    ensures
        tokens_of(s.skip(i)) == seq![s.subrange(i, j)] + tokens_of(s.skip(j)),
{
    lemma_token_len_run(s, i, j);
    let r = s.skip(i);
    assert(r[0] == s[i]);
    assert(!is_space_char(r[0]));
    assert(tokens_of(r) == seq![r.take(token_len(r) as int)] + tokens_of(
        r.skip(token_len(r) as int),
    ));
    assert(r.take(j - i) =~= s.subrange(i, j));
    assert(r.skip(j - i) =~= s.skip(j));
}

/// Compile a signature string into a pattern.  Fails if the string has
/// no token or any token is neither `?` nor two hex digits.
pub fn parse_pattern(pattern: &str) -> (r: Result<Vec<PatElem>, ScanError>)
    ensures
        r is Ok <==> parse_spec(pattern@) is Some,
        r matches Ok(v) ==> Some(v@) == parse_spec(pattern@),
{
    let ghost s = pattern@;
    let n = pattern.unicode_len();
    let mut elems: Vec<PatElem> = Vec::new();
    let ghost mut seen: Seq<Seq<char>> = Seq::empty();
    let mut i: usize = 0;
    proof {
        assert(s.skip(0) =~= s);
    }
    while i < n
        invariant
            s == pattern@,
            n == s.len(),
            i <= n,
            tokens_of(s) == seen + tokens_of(s.skip(i as int)),
            elems@.len() == seen.len(),
            forall|k: int| 0 <= k < seen.len() ==> elem_of_token(#[trigger] seen[k]) == Some(
                elems@[k],
            ),
        decreases n - i,
    {
        let c = pattern.get_char(i);
        if c == ' ' || c == '\t' || c == '\r' || c == '\n' {
            proof {
                lemma_tokens_of_space(s, i as int);
            }
            i = i + 1;
        } else {
            // scan to the end of the token
            let start = i;
            let mut j: usize = i;
            let mut j_done: bool = false;
            while j < n && !j_done
                invariant
                    s == pattern@,
                    n == s.len(),
                    start <= j <= n,
                    forall|m: int| start <= m < j ==> !is_space_char(#[trigger] s[m]),
                    j_done ==> j < n && is_space_char(s[j as int]),
                decreases n - j + (if j_done { 0int } else { 1int }),
            {
                let cj = pattern.get_char(j);
                if cj == ' ' || cj == '\t' || cj == '\r' || cj == '\n' {
                    j_done = true;
                } else {
                    j = j + 1;
                }
            }
            proof {
                lemma_tokens_of_token(s, start as int, j as int);
            }
            let ghost tok = s.subrange(start as int, j as int);
            // classify the token
            let tlen = j - start;
            let elem: Option<PatElem> = if tlen == 1 && pattern.get_char(start) == '?' {
                Some(PatElem::Wildcard)
            } else if tlen == 2 {
                let h = hex_char_val(pattern.get_char(start));
                let l = hex_char_val(pattern.get_char(start + 1));
                match (h, l) {
                    (Some(hv), Some(lv)) => Some(PatElem::Exact(hv * 16 + lv)),
                    _ => None,
                }
            } else {
                None
            };
            proof {
                assert(tok.len() == j - start);
                assert(forall|m: int| 0 <= m < tok.len() ==> tok[m] == s[start + m]);
            }
            match elem {
                Some(e) => {
                    proof {
                        assert(elem_of_token(tok) == Some(e));
                    }
                    elems.push(e);
                    proof {
                        seen = seen.push(tok);
                        assert(tokens_of(s) == seen + tokens_of(s.skip(j as int)));
                    }
                    i = j;
                },
                None => {
                    proof {
                        assert(elem_of_token(tok) is None);
                        let ts = tokens_of(s);
                        assert(ts[seen.len() as int] == tok);
                        assert(elem_of_token(ts[seen.len() as int]) is None);
                        assert(parse_spec(s) is None);
                    }
                    return Err(ScanError::MalformedSignature);
                },
            }
        }
    }
    proof {
        assert(s.skip(n as int) =~= Seq::<char>::empty());
        assert(tokens_of(s.skip(n as int)) =~= Seq::<Seq<char>>::empty());
        assert(tokens_of(s) =~= seen);
    }
    if elems.len() == 0 {
        proof {
            assert(parse_spec(s) is None);
        }
        Err(ScanError::MalformedSignature)
    } else {
        proof {
            let ts = tokens_of(s);
            assert(forall|k: int| 0 <= k < ts.len() ==> elem_of_token(#[trigger] ts[k])
                == Some(elems@[k]));
            assert(parse_spec(s) matches Some(ps) && ps =~= elems@);
        }
        Ok(elems)
    }
}

} // verus!
