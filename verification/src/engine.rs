//! The scan-and-score pipeline: slide every compiled signature over the
//! buffer, extract the candidate key at each match from the signature's
//! extraction windows, score it, drop known false positives and keys
//! under the entropy threshold, and report the rest sorted by entropy.

use vstd::prelude::*;
use vstd::slice::slice_subrange;
use crate::entropy::{calculate_entropy, entropy_of};
use crate::hexstr::{bytes_to_hex, hex_of, lemma_hex_of_len};
use crate::pattern::{parse_pattern, parse_spec, PatElem, ScanError};
use crate::results::{results_view, sort_by_entropy, sorted_desc, KeyResult, KeyResultView};
use crate::scan::{matches_at, pattern_matches_at};

verus! {

/// Extraction failure at one match: a window reaches past the buffer.
#[derive(Clone, Copy, PartialEq, Eq, Structural, Debug)]
pub enum ExtractError {
    OutOfBounds,
}

/// One signature of the scan table: a signature string (see
/// parse_pattern for its grammar) and the extraction windows, each the
/// start, relative to a match offset, of a four-byte group of the key.
#[derive(Clone, Debug)]
pub struct Signature {
    pub pattern: String,
    pub windows: Vec<usize>,
}

/// Whether the signature string compiles.
pub open spec fn sig_ok(sig: Signature) -> bool {
    parse_spec(sig.pattern@) is Some
}

pub open spec fn sig_elems(sig: Signature) -> Seq<PatElem> {
    parse_spec(sig.pattern@).unwrap()
}

pub open spec fn all_sigs_ok(sigs: Seq<Signature>) -> bool {
    forall|k: int| 0 <= k < sigs.len() ==> sig_ok(#[trigger] sigs[k])
}

/// Every extraction window read at this offset stays inside the buffer.
pub open spec fn windows_in_bounds(data: Seq<u8>, windows: Seq<usize>, off: int) -> bool {
    forall|w: int| 0 <= w < windows.len() ==> off + #[trigger] windows[w] + 4 <= data.len()
}

/// The candidate key at a match offset: the four bytes of each window,
/// hex encoded, concatenated in window order.
pub open spec fn key_at(data: Seq<u8>, windows: Seq<usize>, off: int) -> Seq<char>
    decreases windows.len(),
{
    if windows.len() == 0 {
        Seq::empty()
    } else {
        key_at(data, windows.drop_last(), off) + hex_of(
            data.subrange(off + windows.last(), off + windows.last() + 4),
        )
    }
}

pub proof fn lemma_key_at_len(data: Seq<u8>, windows: Seq<usize>, off: int)
    requires
        windows_in_bounds(data, windows, off),
        0 <= off,
    ensures
        key_at(data, windows, off).len() == 8 * windows.len(),
    decreases windows.len(),
{
    if windows.len() > 0 {
        assert(windows.drop_last().len() == windows.len() - 1);
        lemma_key_at_len(data, windows.drop_last(), off);
        lemma_hex_of_len(data.subrange(off + windows.last(), off + windows.last() + 4));
    }
}

/// The views of the false-positive list entries.
pub open spec fn fps_view(fps: Seq<String>) -> Seq<Seq<char>> {
    fps.map_values(|s: String| s@)
}

/// Whether an extracted key is kept: entropy at or above the threshold
/// and not a known false positive.
pub open spec fn key_accepted(key: Seq<char>, fps: Seq<Seq<char>>, min_entropy: u64) -> bool {
    entropy_of(key) >= min_entropy && !fps.contains(key)
}

/// What one offset contributes to one signature's results: one accepted
/// candidate, or nothing (no match there, a window out of bounds — that
/// match is skipped — or a rejected key).
pub open spec fn cand_at(
    data: Seq<u8>,
    elems: Seq<PatElem>,
    windows: Seq<usize>,
    fps: Seq<Seq<char>>,
    min_entropy: u64,
    off: int,
) -> Seq<KeyResultView> {
    if matches_at(data, elems, off) && windows_in_bounds(data, windows, off) && key_accepted(
        key_at(data, windows, off),
        fps,
        min_entropy,
    ) {
        seq![
            KeyResultView {
                key: key_at(data, windows, off),
                entropy: entropy_of(key_at(data, windows, off)) as u64,
            },
        ]
    } else {
        Seq::empty()
    }
}

/// One signature's accepted candidates over all offsets below hi, in
/// offset order.
pub open spec fn sig_cands_upto(
    data: Seq<u8>,
    elems: Seq<PatElem>,
    windows: Seq<usize>,
    fps: Seq<Seq<char>>,
    min_entropy: u64,
    hi: int,
) -> Seq<KeyResultView>
    decreases hi,
{
    if hi <= 0 {
        Seq::empty()
    } else {
        sig_cands_upto(data, elems, windows, fps, min_entropy, hi - 1) + cand_at(
            data,
            elems,
            windows,
            fps,
            min_entropy,
            hi - 1,
        )
    }
}

/// One signature's accepted candidates.
pub open spec fn sig_cands(
    data: Seq<u8>,
    sig: Signature,
    fps: Seq<Seq<char>>,
    min_entropy: u64,
) -> Seq<KeyResultView> {
    sig_cands_upto(
        data,
        sig_elems(sig),
        sig.windows@,
        fps,
        min_entropy,
        data.len() - sig_elems(sig).len() + 1,
    )
}

/// The accepted candidates of the first s signatures, in signature
/// order, offsets ascending within each signature.
pub open spec fn all_cands_upto(
    data: Seq<u8>,
    sigs: Seq<Signature>,
    fps: Seq<Seq<char>>,
    min_entropy: u64,
    s: int,
) -> Seq<KeyResultView>
    decreases s,
{
    if s <= 0 {
        Seq::empty()
    } else {
        all_cands_upto(data, sigs, fps, min_entropy, s - 1) + sig_cands(
            data,
            sigs[s - 1],
            fps,
            min_entropy,
        )
    }
}

/// Every accepted candidate of every signature.
pub open spec fn all_candidates(
    data: Seq<u8>,
    sigs: Seq<Signature>,
    fps: Seq<Seq<char>>,
    min_entropy: u64,
) -> Seq<KeyResultView> {
    all_cands_upto(data, sigs, fps, min_entropy, sigs.len() as int)
}

/// Whether the key string stands in the false-positive list.
pub fn key_is_false_positive(key: &String, false_positives: &Vec<String>) -> (r: bool)
    ensures
        r == fps_view(false_positives@).contains(key@),
{
    let ghost fv = fps_view(false_positives@);
    let n = false_positives.len();
    let mut t: usize = 0;
    while t < n
        invariant
            fv == fps_view(false_positives@),
            n == false_positives@.len(),
            t <= n,
            forall|u: int| 0 <= u < t ==> fv[u] != key@,
        decreases n - t,
    {
        let hit = false_positives[t].eq(key);
        proof {
            assert(fv[t as int] == false_positives@[t as int]@);
        }
        if hit {
            proof {
                assert(fv[t as int] == key@);
            }
            return true;
        }
        t = t + 1;
    }
    proof {
        assert(forall|u: int| 0 <= u < fv.len() ==> fv[u] != key@);
    }
    false
}

/// Extract the candidate key for a match at the given offset: the four
/// bytes of each window, upper-case hex encoded, in window order.
/// Fails, without reading anything, if any window leaves the buffer.
pub fn extract_key_at(data: &[u8], windows: &Vec<usize>, off: usize) -> (r: Result<
    String,
    ExtractError,
>)
    ensures
        r is Ok <==> windows_in_bounds(data@, windows@, off as int),
        r matches Ok(s) ==> s@ == key_at(data@, windows@, off as int),
{
    let len = data.len();
    let wcount = windows.len();
    let mut w: usize = 0;
    while w < wcount
        invariant
            len == data@.len(),
            wcount == windows@.len(),
            w <= wcount,
            forall|u: int| 0 <= u < w ==> off + #[trigger] windows@[u] + 4 <= len,
        decreases wcount - w,
    {
        let st = windows[w];
        let ok = st <= len && off <= len - st && len - st - off >= 4;
        if !ok {
            proof {
                assert(off + windows@[w as int] + 4 > len);
            }
            return Err(ExtractError::OutOfBounds);
        }
        w = w + 1;
    }
    let mut key = String::new();
    let mut w2: usize = 0;
    proof {
        assert(windows@.take(0) =~= Seq::<usize>::empty());
    }
    while w2 < wcount
        invariant
            len == data@.len(),
            wcount == windows@.len(),
            w2 <= wcount,
            windows_in_bounds(data@, windows@, off as int),
            key@ =~= key_at(data@, windows@.take(w2 as int), off as int),
        decreases wcount - w2,
    {
        let st = windows[w2];
        let chunk = slice_subrange(data, off + st, off + st + 4);
        let hx = bytes_to_hex(chunk);
        key.append(hx.as_str());
        proof {
            let pre = windows@.take(w2 as int);
            let post = windows@.take(w2 + 1);
            assert(post.drop_last() =~= pre);
            assert(post.last() == windows@[w2 as int]);
        }
        w2 = w2 + 1;
    }
    proof {
        assert(windows@.take(wcount as int) =~= windows@);
    }
    Ok(key)
}

/// Scan the buffer with every signature and return the accepted
/// candidate keys, sorted by entropy, highest first.  Fails if and
/// only if some signature
/// string does not compile; a match whose windows leave the buffer is
/// skipped, and no accepted key at all is an empty report, not an
/// error.  min_entropy is in ENTROPY_SCALE units per bit.
pub fn extract_keys(
    data: &[u8],
    signatures: &Vec<Signature>,
    false_positives: &Vec<String>,
    min_entropy: u64,
) -> (r: Result<Vec<KeyResult>, ScanError>)
    requires
        forall|k: int|
            0 <= k < signatures@.len() ==> (#[trigger] signatures@[k].windows)@.len()
                < 0x8000000,
    ensures
        r is Ok <==> all_sigs_ok(signatures@),
        r matches Ok(v) ==> sorted_desc(results_view(v@)) && results_view(v@).to_multiset()
            == all_candidates(
            data@,
            signatures@,
            fps_view(false_positives@),
            min_entropy,
        ).to_multiset(),
{
    let ghost dv = data@;
    let ghost sv = signatures@;
    let ghost fv = fps_view(false_positives@);
    let n = data.len();
    let scount = signatures.len();
    let mut collected: Vec<KeyResult> = Vec::new();
    let mut si: usize = 0;
    proof {
        assert(results_view(collected@) =~= all_cands_upto(dv, sv, fv, min_entropy, 0));
    }
    while si < scount
        invariant
            dv == data@,
            sv == signatures@,
            fv == fps_view(false_positives@),
            n == dv.len(),
            scount == sv.len(),
            si <= scount,
            forall|k: int|
                0 <= k < sv.len() ==> (#[trigger] sv[k].windows)@.len() < 0x8000000,
            forall|k: int| 0 <= k < si ==> sig_ok(#[trigger] sv[k]),
            results_view(collected@) =~= all_cands_upto(dv, sv, fv, min_entropy, si as int),
        decreases scount - si,
    {
        let sig = &signatures[si];
        proof {
            assert(*sig == sv[si as int]);
        }
        let pat = match parse_pattern(sig.pattern.as_str()) {
            Ok(p) => p,
            Err(e) => {
                proof {
                    assert(!sig_ok(sv[si as int]));
                }
                return Err(e);
            },
        };
        let ghost elems = sig_elems(sv[si as int]);
        proof {
            assert(pat@ == elems);
            assert(parse_spec(sig.pattern@) matches Some(ps) && ps.len() >= 1);
        }
        let m = pat.len();
        let hi: usize = if m > n {
            0
        } else {
            n - m + 1
        };
        proof {
            if m > n {
                assert(sig_cands_upto(dv, elems, sv[si as int].windows@, fv, min_entropy,
                    dv.len() - elems.len() + 1) =~= Seq::<KeyResultView>::empty());
            }
        }
        let mut off: usize = 0;
        while off < hi
            invariant
                dv == data@,
                sv == signatures@,
                fv == fps_view(false_positives@),
                n == dv.len(),
                scount == sv.len(),
                si < scount,
                sv[si as int].windows@.len() < 0x8000000,
                *sig == sv[si as int],
                elems == sig_elems(sv[si as int]),
                pat@ == elems,
                m == elems.len(),
                1 <= m,
                hi == (if m > n { 0int } else { n - m + 1 }),
                off <= hi,
                results_view(collected@) =~= all_cands_upto(dv, sv, fv, min_entropy,
                    si as int) + sig_cands_upto(dv, elems, sv[si as int].windows@, fv,
                    min_entropy, off as int),
            decreases hi - off,
        {
            let ghost wins = sv[si as int].windows@;
            let ghost pre_seq = results_view(collected@);
            let matched = pattern_matches_at(data, pat.as_slice(), off);
            if matched {
                match extract_key_at(data, &sig.windows, off) {
                    Ok(key) => {
                        proof {
                            assert(key@ == key_at(dv, wins, off as int));
                            lemma_key_at_len(dv, wins, off as int);
                        }
                        let e = calculate_entropy(key.as_str());
                        let is_fp = key_is_false_positive(&key, false_positives);
                        if e >= min_entropy && !is_fp {
                            let ghost prev = collected@;
                            let ghost kv = KeyResultView { key: key@, entropy: e };
                            proof {
                                assert(key_accepted(key@, fv, min_entropy));
                                assert(kv == KeyResultView {
                                    key: key_at(dv, wins, off as int),
                                    entropy: entropy_of(key_at(dv, wins, off as int)) as u64,
                                });
                                assert(cand_at(dv, elems, wins, fv, min_entropy, off as int)
                                    =~= seq![kv]);
                            }
                            collected.push(KeyResult { key, entropy: e });
                            proof {
                                assert(collected@.last()@ == kv);
                                assert(results_view(collected@) =~= results_view(prev)
                                    .push(kv));
                                assert(results_view(collected@) =~= pre_seq + cand_at(
                                    dv, elems, wins, fv, min_entropy, off as int));
                            }
                        } else {
                            proof {
                                assert(!key_accepted(key_at(dv, wins, off as int), fv,
                                    min_entropy));
                                assert(cand_at(dv, elems, wins, fv, min_entropy, off as int)
                                    =~= Seq::<KeyResultView>::empty());
                                assert(results_view(collected@) =~= pre_seq + cand_at(
                                    dv, elems, wins, fv, min_entropy, off as int));
                            }
                        }
                    },
                    Err(_) => {
                        proof {
                            assert(!windows_in_bounds(dv, wins, off as int));
                            assert(cand_at(dv, elems, wins, fv, min_entropy, off as int)
                                =~= Seq::<KeyResultView>::empty());
                            assert(results_view(collected@) =~= pre_seq + cand_at(dv,
                                elems, wins, fv, min_entropy, off as int));
                        }
                    },
                }
            } else {
                proof {
                    assert(cand_at(dv, elems, wins, fv, min_entropy, off as int)
                        =~= Seq::<KeyResultView>::empty());
                    assert(results_view(collected@) =~= pre_seq + cand_at(dv, elems,
                        wins, fv, min_entropy, off as int));
                }
            }
            proof {
                assert(sig_cands_upto(dv, elems, wins, fv, min_entropy, off + 1)
                    =~= sig_cands_upto(dv, elems, wins, fv, min_entropy, off as int)
                    + cand_at(dv, elems, wins, fv, min_entropy, off as int));
            }
            off = off + 1;
        }
        proof {
            if m > n {
                assert(sig_cands_upto(dv, elems, sv[si as int].windows@, fv, min_entropy,
                    0) =~= Seq::<KeyResultView>::empty());
            } else {
                assert(hi as int == dv.len() - elems.len() + 1);
            }
            assert(sig_cands(dv, sv[si as int], fv, min_entropy) =~= sig_cands_upto(dv,
                elems, sv[si as int].windows@, fv, min_entropy, hi as int));
            assert(all_cands_upto(dv, sv, fv, min_entropy, si + 1) =~= all_cands_upto(
                dv, sv, fv, min_entropy, si as int) + sig_cands(dv, sv[si as int], fv,
                min_entropy));
        }
        si = si + 1;
    }
    proof {
        assert(all_sigs_ok(sv));
        assert(results_view(collected@) =~= all_candidates(dv, sv, fv, min_entropy));
    }
    let sorted = sort_by_entropy(collected);
    Ok(sorted)
}

} // verus!
