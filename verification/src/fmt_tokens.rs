//! Quote-aware tokens and inline `;` comments of netlist text, as byte
//! windows of the buffer.
use vstd::prelude::*;
use vstd::utf8::*;

use crate::text::{
    lemma_rskip_ws, lemma_ws_boundary, rskip_ws, rskip_ws_exec, span_within, ws_len, ws_len_at,
};

verus! {

/// A single or double quote.
pub open spec fn is_quote(c: u8) -> bool {
    c == 39u8 || c == 34u8
}

/// Whitespace-separated tokens of `[i, hi)` where whitespace inside quotes
/// does not separate; the quote characters stay in their token. `cur` is the
/// start of the token being read, `q` the quote that is open.
pub open spec fn qtokens_from(b: Seq<u8>, i: int, hi: int, cur: Option<int>, q: Option<u8>) -> Seq<
    (int, int),
>
    decreases hi - i,
{
    if i >= hi {
        match cur {
            Some(s) => seq![(s, hi)],
            None => seq![],
        }
    } else {
        match q {
            Some(c) => qtokens_from(
                b,
                i + 1,
                hi,
                cur,
                if b[i] == c {
                    None
                } else {
                    q
                },
            ),
            None => if ws_len(b, i, hi) > 0 {
                let rest = qtokens_from(b, i + ws_len(b, i, hi), hi, None, None);
                match cur {
                    Some(s) => seq![(s, i)] + rest,
                    None => rest,
                }
            } else {
                qtokens_from(
                    b,
                    i + 1,
                    hi,
                    if cur is Some {
                        cur
                    } else {
                        Some(i)
                    },
                    if is_quote(b[i]) {
                        Some(b[i])
                    } else {
                        None
                    },
                )
            },
        }
    }
}

/// The quote-aware tokens of the window `[lo, hi)`.
pub open spec fn qtokens(b: Seq<u8>, lo: int, hi: int) -> Seq<(int, int)> {
    qtokens_from(b, lo, hi, None, None)
}

/// Every token is a non-empty window inside the scanned range; with valid
/// UTF-8, tokens start and end on character boundaries.
pub proof fn lemma_qtokens_from(b: Seq<u8>, i: int, hi: int, cur: Option<int>, q: Option<u8>)
    requires
        0 <= i <= hi <= b.len(),
        cur matches Some(s) ==> 0 <= s < i,
        q is Some ==> cur is Some,
    ensures
        forall|k: int|
            0 <= k < qtokens_from(b, i, hi, cur, q).len() ==> span_within(
                #[trigger] qtokens_from(b, i, hi, cur, q)[k],
                match cur {
                    Some(s) => s,
                    None => i,
                },
                hi,
            ),
        valid_utf8(b) && is_char_boundary(b, hi) && (cur is None ==> is_char_boundary(b, i)) && (
        cur matches Some(s) ==> is_char_boundary(b, s)) ==> forall|k: int|
            0 <= k < qtokens_from(b, i, hi, cur, q).len() ==> is_char_boundary(
                b,
                (#[trigger] qtokens_from(b, i, hi, cur, q)[k]).0,
            ) && is_char_boundary(b, qtokens_from(b, i, hi, cur, q)[k].1),
    decreases hi - i,
{
    let lo = match cur {
        Some(s) => s,
        None => i,
    };
    let all = qtokens_from(b, i, hi, cur, q);
    if i >= hi {
    } else {
        match q {
            Some(c) => {
                let q2 = if b[i] == c {
                    None
                } else {
                    q
                };
                lemma_qtokens_from(b, i + 1, hi, cur, q2);
                assert(all == qtokens_from(b, i + 1, hi, cur, q2));
            },
            None => {
                if ws_len(b, i, hi) > 0 {
                    let n = ws_len(b, i, hi);
                    let rest = qtokens_from(b, i + n, hi, None, None);
                    lemma_qtokens_from(b, i + n, hi, None, None);
                    if valid_utf8(b) {
                        lemma_ws_boundary(b, i, hi);
                    }
                    if let Some(s) = cur {
                        assert(all == seq![(s, i)] + rest);
                        assert forall|k: int| 0 <= k < all.len() implies span_within(
                            #[trigger] all[k],
                            lo,
                            hi,
                        ) by {
                            if k > 0 {
                                assert(all[k] == rest[k - 1]);
                            }
                        }
                        if valid_utf8(b) && is_char_boundary(b, hi) && is_char_boundary(b, s) {
                            assert forall|k: int| 0 <= k < all.len() implies is_char_boundary(
                                b,
                                (#[trigger] all[k]).0,
                            ) && is_char_boundary(b, all[k].1) by {
                                if k > 0 {
                                    assert(all[k] == rest[k - 1]);
                                }
                            }
                        }
                    } else {
                        assert(all == rest);
                        assert forall|k: int| 0 <= k < all.len() implies span_within(
                            #[trigger] all[k],
                            lo,
                            hi,
                        ) by {
                            assert(all[k] == rest[k]);
                        }
                    }
                } else {
                    let c2 = if cur is Some {
                        cur
                    } else {
                        Some(i)
                    };
                    let q2 = if is_quote(b[i]) {
                        Some(b[i])
                    } else {
                        None
                    };
                    lemma_qtokens_from(b, i + 1, hi, c2, q2);
                    assert(all == qtokens_from(b, i + 1, hi, c2, q2));
                }
            },
        }
    }
}

/// The quote-aware tokens of `[lo, hi)`, as byte windows.
pub fn qsplit(b: &[u8], lo: usize, hi: usize) -> (r: Vec<(usize, usize)>)
    requires
        lo <= hi <= b@.len(),
    ensures
        r@.len() == qtokens(b@, lo as int, hi as int).len(),
        forall|k: int|
            0 <= k < r@.len() ==> (#[trigger] r@[k]).0 == qtokens(b@, lo as int, hi as int)[k].0
                && r@[k].1 == qtokens(b@, lo as int, hi as int)[k].1,
        forall|k: int| 0 <= k < r@.len() ==> lo <= (#[trigger] r@[k]).0 < r@[k].1 <= hi,
{
    let mut out: Vec<(usize, usize)> = Vec::new();
    let mut i = lo;
    let mut cur: Option<usize> = None;
    let mut q: Option<u8> = None;
    let ghost total = qtokens(b@, lo as int, hi as int);
    while i < hi
        invariant
            lo <= i <= hi <= b@.len(),
            cur matches Some(s) ==> lo <= s < i,
            q is Some ==> cur is Some,
            ({
                let ov = out@.map_values(|t: (usize, usize)| (t.0 as int, t.1 as int));
                let gc = match cur {
                    Some(s) => Some(s as int),
                    None => None,
                };
                ov + qtokens_from(b@, i as int, hi as int, gc, q) == total
            }),
            forall|k: int| 0 <= k < out@.len() ==> lo <= (#[trigger] out@[k]).0 < out@[k].1 <= i,
        decreases hi - i,
    {
        let ghost ov = out@.map_values(|t: (usize, usize)| (t.0 as int, t.1 as int));
        match q {
            Some(c) => {
                if b[i] == c {
                    q = None;
                }
                i = i + 1;
            },
            None => {
                let n = ws_len_at(b, i, hi);
                if n > 0 {
                    if let Some(s) = cur {
                        out.push((s, i));
                        assert(out@.map_values(|t: (usize, usize)| (t.0 as int, t.1 as int))
                            =~= ov.push((s as int, i as int)));
                    }
                    cur = None;
                    i = i + n;
                } else {
                    if cur.is_none() {
                        cur = Some(i);
                    }
                    if b[i] == 39 || b[i] == 34 {
                        q = Some(b[i]);
                    }
                    i = i + 1;
                }
            },
        }
    }
    let ghost ov = out@.map_values(|t: (usize, usize)| (t.0 as int, t.1 as int));
    if let Some(s) = cur {
        out.push((s, hi));
        assert(out@.map_values(|t: (usize, usize)| (t.0 as int, t.1 as int)) =~= ov.push(
            (s as int, hi as int),
        ));
    } else {
        assert(ov + seq![] =~= ov);
    }
    proof {
        let ov2 = out@.map_values(|t: (usize, usize)| (t.0 as int, t.1 as int));
        assert(ov2 =~= total);
        assert forall|k: int| 0 <= k < out@.len() implies (#[trigger] out@[k]).0 == total[k].0
            && out@[k].1 == total[k].1 by {
            assert(ov2[k] == total[k]);
        }
    }
    out
}

/// Position of the first `;` outside quotes in `[i, hi)`, or `hi`; `q` is
/// the quote that is open.
pub open spec fn comment_pos(b: Seq<u8>, i: int, hi: int, q: Option<u8>) -> int
    decreases hi - i,
{
    if i >= hi {
        hi
    } else {
        match q {
            Some(c) => comment_pos(
                b,
                i + 1,
                hi,
                if b[i] == c {
                    None
                } else {
                    q
                },
            ),
            None => if is_quote(b[i]) {
                comment_pos(b, i + 1, hi, Some(b[i]))
            } else if b[i] == 59u8 {
                i
            } else {
                comment_pos(b, i + 1, hi, None)
            },
        }
    }
}

pub proof fn lemma_comment_pos(b: Seq<u8>, i: int, hi: int, q: Option<u8>)
    requires
        i <= hi,
    ensures
        i <= comment_pos(b, i, hi, q) <= hi,
        comment_pos(b, i, hi, q) < hi ==> b[comment_pos(b, i, hi, q)] == 59u8,
    decreases hi - i,
{
    if i < hi {
        match q {
            Some(c) => {
                lemma_comment_pos(b, i + 1, hi, if b[i] == c { None } else { q });
            },
            None => {
                if is_quote(b[i]) {
                    lemma_comment_pos(b, i + 1, hi, Some(b[i]));
                } else if b[i] != 59u8 {
                    lemma_comment_pos(b, i + 1, hi, None);
                }
            },
        }
    }
}

/// A line split at its first `;` outside quotes: the code before it and the
/// comment from it, each with trailing whitespace removed; without such a
/// `;`, the whole line (trimmed at the end) and no comment.
pub open spec fn split_comment_spec(b: Seq<u8>, lo: int, hi: int) -> ((int, int), Option<(int, int)>) {
    let p = comment_pos(b, lo, hi, None);
    if p < hi {
        ((lo, rskip_ws(b, lo, p)), Some((p, rskip_ws(b, p, hi))))
    } else {
        ((lo, rskip_ws(b, lo, hi)), None)
    }
}

/// Split a trailing `; …` inline comment off the line `[lo, hi)`. `$` is not a
/// comment delimiter here, so HSPICE `$param` tokens stay intact.
pub fn split_inline_comment(b: &[u8], lo: usize, hi: usize) -> (r: (
    (usize, usize),
    Option<(usize, usize)>,
))
    requires
        lo <= hi <= b@.len(),
    ensures
        ({
            let s = split_comment_spec(b@, lo as int, hi as int);
            &&& r.0.0 == s.0.0 && r.0.1 == s.0.1
            &&& match (r.1, s.1) {
                (Some(x), Some(y)) => x.0 == y.0 && x.1 == y.1,
                (None, None) => true,
                _ => false,
            }
        }),
        lo <= r.0.0 <= r.0.1 <= hi,
        r.1 matches Some(c) ==> r.0.1 <= c.0 <= c.1 <= hi,
{
    let mut i = lo;
    let mut q: Option<u8> = None;
    proof {
        lemma_comment_pos(b@, lo as int, hi as int, None);
    }
    while i < hi
        invariant
            lo <= i <= hi <= b@.len(),
            comment_pos(b@, i as int, hi as int, q) == comment_pos(b@, lo as int, hi as int, None),
        decreases hi - i,
    {
        match q {
            Some(c) => {
                if b[i] == c {
                    q = None;
                }
                i = i + 1;
            },
            None => {
                if b[i] == 39 || b[i] == 34 {
                    q = Some(b[i]);
                    i = i + 1;
                } else if b[i] == 59 {
                    let ce = rskip_ws_exec(b, lo, i);
                    let te = rskip_ws_exec(b, i, hi);
                    proof {
                        lemma_rskip_ws(b@, lo as int, i as int);
                        lemma_rskip_ws(b@, i as int, hi as int);
                    }
                    return ((lo, ce), Some((i, te)));
                } else {
                    i = i + 1;
                }
            },
        }
    }
    let e = rskip_ws_exec(b, lo, hi);
    ((lo, e), None)
}

} // verus!
