//! Reading back what the formatter writes: the lines it writes for a
//! statement group into a statement with the same tokens and comment, so
//! formatting the output again changes nothing.
use vstd::prelude::*;

use crate::fmt_emit::{char_count, cont_head, emit_fold, emit_spec, emit_step, opens_quote, pad_to, spaces, strides_of, trim_end, EmitSt};
use crate::fmt_tokens::{comment_pos, is_quote, qtokens, qtokens_from, split_comment_spec};
use crate::format::{
    block_lines, block_widths, case_word, width_at, code_comment, code_tokens, comment_bytes, cont_tokens,
    tokenize_directive_spec,
    data_value_at, group_lines, group_step, last_comment, stmt_tokens,
    is_instance_code, join_dot, join_lines, payload, physical_kind, render_from, run_end, segments, tok_bytes, tokenize_spec, without_cr,
    FormatOptions, KeywordCase, PhysicalKind, StmtV,
};
use crate::text::{is_ascii_ws, is_ws2, is_ws3, rskip_ws, skip_ws, trim_win, ws_len, ws_len_back};

verus! {

/// The quote left open after reading the first `k` bytes of `t`.
pub open spec fn qopen(t: Seq<u8>, k: int) -> Option<u8>
    decreases k,
{
    if k <= 0 {
        None
    } else {
        match qopen(t, k - 1) {
            Some(o) => if t[k - 1] == o {
                None
            } else {
                Some(o)
            },
            None => if is_quote(t[k - 1]) {
                Some(t[k - 1])
            } else {
                None
            },
        }
    }
}

/// A token as the formatter lays it out: non-empty text of one line in
/// which whitespace and `;` stand only inside quotes, and every quote is
/// closed.
pub open spec fn word(t: Seq<u8>) -> bool {
    &&& t.len() > 0
    &&& forall|i: int| 0 <= i < t.len() ==> #[trigger] t[i] != 10u8
    &&& forall|i: int|
        0 <= i < t.len() && (#[trigger] qopen(t, i)) is None ==> ws_len(t, i, t.len() as int) == 0 && t[i]
            != 59u8
    &&& qopen(t, t.len() as int) is None
}

/// Whether whitespace starts at `i` does not change when the window ends
/// at `m` instead, before an ASCII byte.
pub proof fn lemma_ws_len_ext(b: Seq<u8>, i: int, m: int, z: int)
    requires
        0 <= i < m <= z <= b.len(),
        m < z ==> b[m] < 128u8,
    ensures
        ws_len(b, i, z) == ws_len(b, i, m),
{
}

/// Whether whitespace ends at `j` does not change when the window starts
/// at `m` instead, after an ASCII byte.
pub proof fn lemma_ws_back_ext(b: Seq<u8>, lo: int, m: int, j: int)
    requires
        0 <= lo <= m < j <= b.len(),
        m > lo ==> b[m - 1] < 128u8,
    ensures
        ws_len_back(b, lo, j) == ws_len_back(b, m, j),
{
}

/// Whitespace found in a shorter window is found in a longer one.
pub proof fn lemma_ws_len_shrink(b: Seq<u8>, i: int, m: int, z: int)
    requires
        0 <= i < m <= z <= b.len(),
        ws_len(b, i, z) == 0,
    ensures
        ws_len(b, i, m) == 0,
{
}

/// An open quote is a quote character.
pub proof fn lemma_qopen_quote(t: Seq<u8>, k: int)
    ensures
        qopen(t, k) matches Some(o) ==> is_quote(o),
    decreases k,
{
    if k > 0 {
        lemma_qopen_quote(t, k - 1);
    }
}

/// Reading from the second byte, after a first byte that opens no quote.
pub proof fn lemma_qopen_shift(t: Seq<u8>, k: int)
    requires
        t.len() >= 1,
        !is_quote(t[0]),
        0 <= k <= t.len() - 1,
    ensures
        qopen(t.subrange(1, t.len() as int), k) == qopen(t, k + 1),
    decreases k,
{
    let u = t.subrange(1, t.len() as int);
    if k == 0 {
        assert(qopen(t, 0) is None);
    } else {
        lemma_qopen_shift(t, k - 1);
        assert(u[k - 1] == t[k]);
    }
}

/// A word without its first byte, when that byte is no quote, is a word.
pub proof fn lemma_word_tail(t: Seq<u8>)
    requires
        word(t),
        t.len() >= 2,
        !is_quote(t[0]),
    ensures
        word(t.subrange(1, t.len() as int)),
{
    let u = t.subrange(1, t.len() as int);
    assert forall|i: int| 0 <= i < u.len() implies #[trigger] u[i] != 10u8 by {
        assert(u[i] == t[i + 1]);
    }
    assert forall|i: int| 0 <= i < u.len() && (#[trigger] qopen(u, i)) is None implies ws_len(u, i, u.len() as int) == 0
        && u[i] != 59u8 by {
        lemma_qopen_shift(t, i);
        assert(u[i] == t[i + 1]);
        assert(qopen(t, i + 1) is None);
        lemma_ws_len_local(t, 1, t.len() as int, u, i);
    }
    lemma_qopen_shift(t, u.len() as int);
}

/// A token as read without its first byte, when that byte is no quote, is
/// a token as read.
pub proof fn lemma_oword_tail(t: Seq<u8>)
    requires
        oword(t),
        t.len() >= 2,
        !is_quote(t[0]),
    ensures
        oword(t.subrange(1, t.len() as int)),
{
    let u = t.subrange(1, t.len() as int);
    assert forall|i: int| 0 <= i < u.len() implies #[trigger] u[i] != 10u8 by {
        assert(u[i] == t[i + 1]);
    }
    assert forall|i: int| 0 <= i < u.len() && (#[trigger] qopen(u, i)) is None implies ws_len(u, i, u.len() as int) == 0
        && u[i] != 59u8 by {
        lemma_qopen_shift(t, i);
        assert(u[i] == t[i + 1]);
        assert(qopen(t, i + 1) is None);
        lemma_ws_len_local(t, 1, t.len() as int, u, i);
    }
    lemma_ws_len_back_local(t, 1, t.len() as int, u);
    assert(ws_len_back(t, 1, t.len() as int) == 0);
}

/// A word neither starts nor ends with whitespace, and does not start with
/// `;`.
pub proof fn lemma_word_ends(t: Seq<u8>)
    requires
        word(t),
    ensures
        ws_len(t, 0, t.len() as int) == 0,
        t[0] != 59u8,
        !is_ascii_ws(t[0]),
        ws_len_back(t, 0, t.len() as int) == 0,
        !is_ascii_ws(t[t.len() - 1]),
{
    let n = t.len() as int;
    assert(qopen(t, 0) is None);
    lemma_qopen_quote(t, n - 1);
    if n >= 2 {
        lemma_qopen_quote(t, n - 2);
    }
    if n >= 3 {
        lemma_qopen_quote(t, n - 3);
    }
    if ws_len_back(t, 0, n) > 0 {
        if is_ascii_ws(t[n - 1]) {
            if qopen(t, n - 1) is None {
                assert(ws_len(t, n - 1, n) == 1);
            } else {
                assert(t[n - 1] == qopen(t, n - 1)->0);
            }
        } else if n >= 2 && is_ws2(t[n - 2], t[n - 1]) {
            if qopen(t, n - 2) is None {
                assert(ws_len(t, n - 2, n) == 2);
            } else {
                assert(qopen(t, n - 1) == qopen(t, n - 2));
                assert(qopen(t, n) == qopen(t, n - 1));
            }
        } else {
            assert(n >= 3 && is_ws3(t[n - 3], t[n - 2], t[n - 1]));
            if qopen(t, n - 3) is None {
                assert(ws_len(t, n - 3, n) == 3);
            } else {
                assert(qopen(t, n - 2) == qopen(t, n - 3));
                assert(qopen(t, n - 1) == qopen(t, n - 2));
                assert(qopen(t, n) == qopen(t, n - 1));
            }
        }
    }
}

/// A token as read, which may leave its last quote open: non-empty text of
/// one line in which whitespace and `;` stand only inside quotes, ending in
/// a byte that is not whitespace.
pub open spec fn oword(t: Seq<u8>) -> bool {
    &&& t.len() > 0
    &&& forall|i: int| 0 <= i < t.len() ==> #[trigger] t[i] != 10u8
    &&& forall|i: int|
        0 <= i < t.len() && (#[trigger] qopen(t, i)) is None ==> ws_len(t, i, t.len() as int) == 0 && t[i]
            != 59u8
    &&& ws_len_back(t, 0, t.len() as int) == 0
}

/// The tokens of a statement: each one as read.
pub open spec fn owords(x: Seq<Seq<u8>>) -> bool {
    forall|i: int| 0 <= i < x.len() ==> oword(#[trigger] x[i])
}

/// The tokens of one written line: each one as read, and all but the last
/// closing the quotes they open.
pub open spec fn words(x: Seq<Seq<u8>>) -> bool {
    &&& owords(x)
    &&& forall|i: int| 0 <= i < x.len() - 1 ==> word(#[trigger] x[i])
}

/// A word is a token as read.
pub proof fn lemma_word_oword(t: Seq<u8>)
    requires
        word(t),
    ensures
        oword(t),
{
    lemma_word_ends(t);
}

/// A token as read neither starts nor ends with whitespace, and does not
/// start with `;`.
pub proof fn lemma_oword_ends(t: Seq<u8>)
    requires
        oword(t),
    ensures
        ws_len(t, 0, t.len() as int) == 0,
        t[0] != 59u8,
        !is_ascii_ws(t[0]),
        !is_ascii_ws(t[t.len() - 1]),
{
    assert(qopen(t, 0) is None);
}

/// The tokens of a written line after its first: those of a line too.
pub proof fn lemma_words_tail(x: Seq<Seq<u8>>)
    requires
        words(x),
        x.len() > 1,
    ensures
        words(x.drop_first()),
        word(x[0]),
        oword(x[0]),
{
    assert forall|i: int| 0 <= i < x.drop_first().len() implies oword(#[trigger] x.drop_first()[i]) by {
        assert(x.drop_first()[i] == x[i + 1]);
    }
    assert forall|i: int| 0 <= i < x.drop_first().len() - 1 implies word(#[trigger] x.drop_first()[i]) by {
        assert(x.drop_first()[i] == x[i + 1]);
    }
}

/// `s` is the words `x` with runs of at least one space between them.
pub open spec fn spaced(s: Seq<u8>, x: Seq<Seq<u8>>) -> bool
    decreases x.len(),
{
    if x.len() == 0 {
        s.len() == 0
    } else if x.len() == 1 {
        s == x[0]
    } else {
        exists|g: int|
            #![trigger s.subrange(x[0].len() + g, s.len() as int)]
            1 <= g && x[0].len() + g <= s.len() && s.subrange(0, x[0].len() as int) == x[0] && (
            forall|k: int| x[0].len() <= k < x[0].len() + g ==> s[k] == 32u8) && spaced(
                s.subrange(x[0].len() + g, s.len() as int),
                x.drop_first(),
            )
    }
}

/// On ASCII text, only ASCII whitespace starts whitespace.
pub proof fn lemma_ws_len_ascii(b: Seq<u8>, i: int, hi: int)
    requires
        0 <= i < hi <= b.len(),
        b[i] < 128u8,
    ensures
        ws_len(b, i, hi) == if is_ascii_ws(b[i]) {
            1int
        } else {
            0int
        },
{
}

/// On ASCII text, only ASCII whitespace ends whitespace.
pub proof fn lemma_ws_len_back_ascii(b: Seq<u8>, lo: int, j: int)
    requires
        0 <= lo < j <= b.len(),
        b[j - 1] < 128u8,
    ensures
        ws_len_back(b, lo, j) == if is_ascii_ws(b[j - 1]) {
            1int
        } else {
            0int
        },
{
}

/// Scanning the rest of a word keeps the token open.
proof fn lemma_word_scan(b: Seq<u8>, a: int, n: int, k: int, z: int)
    requires
        0 <= a,
        1 <= k <= n,
        a + n <= z <= b.len(),
        oword(b.subrange(a, a + n)),
        a + n < z ==> b[a + n] < 128u8,
    ensures
        qtokens_from(b, a + k, z, Some(a), qopen(b.subrange(a, a + n), k)) == qtokens_from(
            b,
            a + n,
            z,
            Some(a),
            qopen(b.subrange(a, a + n), n),
        ),
    decreases n - k,
{
    let w = b.subrange(a, a + n);
    if k < n {
        assert(w[k] == b[a + k]);
        if qopen(w, k) is None {
            lemma_ws_len_ext(b, a + k, a + n, z);
            lemma_ws_len_local(b, a, a + n, w, k);
        }
        lemma_word_scan(b, a, n, k + 1, z);
    }
}

/// Spaces between tokens are skipped.
proof fn lemma_space_scan(b: Seq<u8>, p: int, q: int, z: int)
    requires
        0 <= p <= q <= z <= b.len(),
        forall|k: int| p <= k < q ==> b[k] == 32u8,
    ensures
        qtokens_from(b, p, z, None, None) == qtokens_from(b, q, z, None, None),
    decreases q - p,
{
    if p < q {
        lemma_ws_len_ascii(b, p, z);
        lemma_space_scan(b, p + 1, q, z);
    }
}

/// The words of a spaced line are its tokens.
pub proof fn lemma_tokens_of_spaced(b: Seq<u8>, a: int, z: int, x: Seq<Seq<u8>>)
    requires
        0 <= a <= z <= b.len(),
        spaced(b.subrange(a, z), x),
        words(x),
    ensures
        tok_bytes(b, qtokens_from(b, a, z, None, None)) == x,
    decreases x.len(),
{
    let s = b.subrange(a, z);
    if x.len() == 0 {
    } else {
        let n = x[0].len() as int;
        assert(oword(x[0]));
        if x.len() > 1 {
            lemma_words_tail(x);
        }
        if x.len() == 1 {
            assert(s == x[0]);
            assert(b.subrange(a, a + n) =~= x[0]);
            assert(a + n == z);
        } else {
            let g = choose|g: int|
                #![trigger s.subrange(x[0].len() + g, s.len() as int)]
                1 <= g && x[0].len() + g <= s.len() && s.subrange(0, x[0].len() as int) == x[0] && (
                forall|k: int| x[0].len() <= k < x[0].len() + g ==> s[k] == 32u8) && spaced(
                    s.subrange(x[0].len() + g, s.len() as int),
                    x.drop_first(),
                );
            assert(b.subrange(a, a + n) =~= x[0]);
            assert(b[a + n] == 32u8) by {
                assert(s[n] == b[a + n]);
            }
            assert(b.subrange(a + n + g, z) =~= s.subrange(n + g, s.len() as int));
            assert forall|k: int| a + n <= k < a + n + g implies b[k] == 32u8 by {
                assert(s[k - a] == b[k]);
            }
            lemma_tokens_of_spaced(b, a + n + g, z, x.drop_first());
        }
        // first token
        assert(b[a] == x[0][0]);
        lemma_oword_ends(x[0]);
        assert(b.subrange(a, a + n) =~= x[0]);
        lemma_ws_len_ext(b, a, a + n, z);
        lemma_ws_len_local(b, a, a + n, x[0], 0);
        assert(qopen(x[0], 0) is None);
        assert(qopen(x[0], 1) == if is_quote(b[a]) {
            Some(b[a])
        } else {
            None::<u8>
        });
        assert(qtokens_from(b, a, z, None, None) == qtokens_from(b, a + 1, z, Some(a), qopen(x[0], 1)));
        lemma_word_scan(b, a, n, 1, z);
        assert(qtokens_from(b, a, z, None, None) == qtokens_from(b, a + n, z, Some(a), qopen(x[0], n)));
        if x.len() == 1 {
            assert(a + n == z);
            assert(qtokens_from(b, a + n, z, Some(a), qopen(x[0], n)) == seq![(a, z)]);
            assert(tok_bytes(b, seq![(a, z)]) =~= seq![b.subrange(a, z)]);
            assert(seq![b.subrange(a, z)] =~= x);
        } else {
            let g = choose|g: int|
                #![trigger s.subrange(x[0].len() + g, s.len() as int)]
                1 <= g && x[0].len() + g <= s.len() && s.subrange(0, x[0].len() as int) == x[0] && (
                forall|k: int| x[0].len() <= k < x[0].len() + g ==> s[k] == 32u8) && spaced(
                    s.subrange(x[0].len() + g, s.len() as int),
                    x.drop_first(),
                );
            assert(s[n] == b[a + n]);
            assert(b[a + n] == 32u8);
            assert(qopen(x[0], n) is None);
            lemma_ws_len_ascii(b, a + n, z);
            assert(qtokens_from(b, a + n, z, Some(a), None) == seq![(a, a + n)] + qtokens_from(
                b,
                a + n + 1,
                z,
                None,
                None,
            ));
            lemma_space_scan(b, a + n + 1, a + n + g, z);
            assert forall|k: int| a + n + 1 <= k < a + n + g implies b[k] == 32u8 by {
                assert(s[k - a] == b[k]);
            }
            let rest = qtokens_from(b, a + n + g, z, None, None);
            assert(qtokens_from(b, a, z, None, None) == seq![(a, a + n)] + rest);
            assert(tok_bytes(b, seq![(a, a + n)] + rest) =~= seq![b.subrange(a, a + n)] + tok_bytes(
                b,
                rest,
            ));
            assert(seq![x[0]] + x.drop_first() =~= x);
        }
    }
}

/// What a spaced line is made of: bytes of one line; it starts with its
/// first word and ends with its last, neither at whitespace.
pub proof fn lemma_spaced_bytes(s: Seq<u8>, x: Seq<Seq<u8>>)
    requires
        spaced(s, x),
        words(x),
        x.len() > 0,
    ensures
        s.len() > 0,
        forall|k: int| 0 <= k < s.len() ==> #[trigger] s[k] != 10u8,
        s[0] == x[0][0],
        !is_ascii_ws(s[0]),
        ws_len(s, 0, s.len() as int) == 0,
        ws_len_back(s, 0, s.len() as int) == 0,
        !is_ascii_ws(s[s.len() - 1]),
        s[s.len() - 1] != 32u8,
    decreases x.len(),
{
    assert(oword(x[0]));
    lemma_oword_ends(x[0]);
    if x.len() == 1 {
        assert(s == x[0]);
    } else {
        let g = choose|g: int|
            #![trigger s.subrange(x[0].len() + g, s.len() as int)]
            1 <= g && x[0].len() + g <= s.len() && s.subrange(0, x[0].len() as int) == x[0] && (
            forall|k: int| x[0].len() <= k < x[0].len() + g ==> s[k] == 32u8) && spaced(
                s.subrange(x[0].len() + g, s.len() as int),
                x.drop_first(),
            );
        let n = x[0].len() as int;
        let r = s.subrange(n + g, s.len() as int);
        lemma_words_tail(x);
        lemma_word_ends(x[0]);
        lemma_spaced_bytes(r, x.drop_first());
        assert(s[0] == s.subrange(0, n)[0]);
        assert forall|k: int| 0 <= k < s.len() implies #[trigger] s[k] != 10u8 by {
            if k < n {
                assert(s[k] == x[0][k]);
            } else if k >= n + g {
                assert(s[k] == r[k - n - g]);
            }
        }
        assert(s[s.len() - 1] == r[r.len() - 1]);
        assert(s[n] == 32u8);
        lemma_ws_len_ext(s, 0, n, s.len() as int);
        lemma_ws_len_local(s, 0, n, x[0], 0);
        assert(s[n + g - 1] == 32u8);
        lemma_ws_back_ext(s, 0, n + g, s.len() as int);
        lemma_ws_len_back_local(s, n + g, s.len() as int, r);
    }
}

/// Reading a word for a comment: the quotes it opens it closes, and it holds
/// no `;` outside them.
proof fn lemma_comment_scan_word(b: Seq<u8>, a: int, n: int, k: int, hi: int)
    requires
        0 <= a,
        0 <= k <= n,
        a + n <= hi <= b.len(),
        oword(b.subrange(a, a + n)),
    ensures
        comment_pos(b, a + k, hi, qopen(b.subrange(a, a + n), k)) == comment_pos(
            b,
            a + n,
            hi,
            qopen(b.subrange(a, a + n), n),
        ),
    decreases n - k,
{
    let w = b.subrange(a, a + n);
    if k < n {
        assert(w[k] == b[a + k]);
        if qopen(w, k) is None {
            assert(w[k] != 59u8);
        }
        lemma_comment_scan_word(b, a, n, k + 1, hi);
    }
}

/// Spaces hold no comment.
proof fn lemma_comment_scan_spaces(b: Seq<u8>, p: int, q: int, hi: int)
    requires
        0 <= p <= q <= hi <= b.len(),
        forall|k: int| p <= k < q ==> b[k] == 32u8,
    ensures
        comment_pos(b, p, hi, None) == comment_pos(b, q, hi, None),
    decreases q - p,
{
    if p < q {
        lemma_comment_scan_spaces(b, p + 1, q, hi);
    }
}

/// A spaced line holds no comment, and leaves no quote open.
pub proof fn lemma_comment_scan_spaced(b: Seq<u8>, a: int, x: Seq<Seq<u8>>, e: int, hi: int)
    requires
        0 <= a <= e <= hi <= b.len(),
        spaced(b.subrange(a, e), x),
        words(x),
        x.len() > 0 && qopen(x.last(), x.last().len() as int) is Some ==> e == hi,
    ensures
        comment_pos(b, a, hi, None) == comment_pos(b, e, hi, None),
    decreases x.len(),
{
    let s = b.subrange(a, e);
    if x.len() > 0 {
        let n = x[0].len() as int;
        assert(oword(x[0]));
        if x.len() == 1 {
            assert(s == x[0]);
            assert(b.subrange(a, a + n) =~= x[0]);
            lemma_comment_scan_word(b, a, n, 0, hi);
            assert(x.last() == x[0]);
        } else {
            lemma_words_tail(x);
            assert(x.drop_first().last() == x.last());
            let g = choose|g: int|
                #![trigger s.subrange(x[0].len() + g, s.len() as int)]
                1 <= g && x[0].len() + g <= s.len() && s.subrange(0, x[0].len() as int) == x[0] && (
                forall|k: int| x[0].len() <= k < x[0].len() + g ==> s[k] == 32u8) && spaced(
                    s.subrange(x[0].len() + g, s.len() as int),
                    x.drop_first(),
                );
            assert(b.subrange(a, a + n) =~= x[0]);
            lemma_comment_scan_word(b, a, n, 0, hi);
            assert forall|k: int| a + n <= k < a + n + g implies b[k] == 32u8 by {
                assert(s[k - a] == b[k]);
            }
            lemma_comment_scan_spaces(b, a + n, a + n + g, hi);
            assert(b.subrange(a + n + g, e) =~= s.subrange(n + g, s.len() as int));
            lemma_comment_scan_spaced(b, a + n + g, x.drop_first(), e, hi);
        }
    }
}

/// Appending spaces and a word to a spaced line.
pub proof fn lemma_spaced_push(s: Seq<u8>, x: Seq<Seq<u8>>, g: int, t: Seq<u8>)
    requires
        spaced(s, x),
        x.len() > 0,
        g >= 1,
    ensures
        spaced(s + crate::fmt_emit::spaces(g) + t, x.push(t)),
    decreases x.len(),
{
    let sp = crate::fmt_emit::spaces(g);
    let r = s + sp + t;
    let y = x.push(t);
    let n = x[0].len() as int;
    assert(y.drop_first() =~= x.drop_first().push(t));
    assert(y[0] == x[0]);
    if x.len() == 1 {
        assert(s == x[0]);
        assert(r.subrange(0, n) =~= x[0]);
        assert(r.subrange(n + g, r.len() as int) =~= t);
        assert(y.drop_first() =~= seq![t]);
        assert(spaced(t, seq![t]));
        assert(forall|k: int| n <= k < n + g ==> r[k] == 32u8);
        assert(spaced(r.subrange(y[0].len() + g, r.len() as int), y.drop_first()));
    } else {
        let h = choose|h: int|
            #![trigger s.subrange(x[0].len() + h, s.len() as int)]
            1 <= h && x[0].len() + h <= s.len() && s.subrange(0, x[0].len() as int) == x[0] && (
            forall|k: int| x[0].len() <= k < x[0].len() + h ==> s[k] == 32u8) && spaced(
                s.subrange(x[0].len() + h, s.len() as int),
                x.drop_first(),
            );
        let rest = s.subrange(n + h, s.len() as int);
        lemma_spaced_push(rest, x.drop_first(), g, t);
        assert(r.subrange(n + h, r.len() as int) =~= rest + sp + t);
        assert(r.subrange(0, n) =~= x[0]);
        assert(forall|k: int| n <= k < n + h ==> r[k] == s[k]);
        assert(spaced(r.subrange(y[0].len() + h, r.len() as int), y.drop_first()));
    }
}

proof fn lemma_skip_spaces(b: Seq<u8>, a: int, q: int, z: int)
    requires
        0 <= a <= q <= z <= b.len(),
        forall|k: int| a <= k < q ==> b[k] == 32u8,
        q < z ==> ws_len(b, q, z) == 0,
    ensures
        skip_ws(b, a, z) == q,
    decreases q - a,
{
    if a < q {
        lemma_ws_len_ascii(b, a, z);
        lemma_skip_spaces(b, a + 1, q, z);
    }
}

proof fn lemma_rskip_spaces(b: Seq<u8>, lo: int, m: int, j: int)
    requires
        0 <= lo < m <= j <= b.len(),
        forall|k: int| m <= k < j ==> b[k] == 32u8,
        ws_len_back(b, lo, m) == 0,
    ensures
        rskip_ws(b, lo, j) == m,
    decreases j - m,
{
    if m < j {
        lemma_ws_len_back_ascii(b, lo, j);
        lemma_rskip_spaces(b, lo, m, j - 1);
    }
}

/// A written line starts with its first word.
proof fn lemma_written_start(b: Seq<u8>, a: int, z: int, j: Seq<u8>, x: Seq<Seq<u8>>, c: Option<Seq<u8>>)
    requires
        0 <= a <= z <= b.len(),
        b.subrange(a, z) == with_comment(j, c),
        spaced(j, x),
        words(x),
        x.len() > 0,
    ensures
        a < z,
        ws_len(b, a, z) == 0,
{
    lemma_spaced_bytes(j, x);
    lemma_with_comment_prefix(j, c);
    let w = with_comment(j, c);
    let n = j.len() as int;
    assert(w.len() == z - a);
    if c is Some {
        assert(b[a + n] == w[n]);
    }
    assert(b.subrange(a, a + n) =~= j) by {
        assert forall|k: int| 0 <= k < n implies #[trigger] b.subrange(a, a + n)[k] == j[k] by {
            assert(b[a + k] == w[k]);
        }
    }
    lemma_ws_len_ext(b, a, a + n, z);
    lemma_ws_len_local(b, a, a + n, j, 0);
}

/// A `+` lead and indent before a spaced line end nowhere in whitespace.
proof fn lemma_lead_back(indent: int, j: Seq<u8>)
    requires
        indent >= 0,
        j.len() > 0,
        ws_len_back(j, 0, j.len() as int) == 0,
    ensures
        ws_len_back(seq![43u8] + spaces(indent) + j, 0, 1 + indent + j.len()) == 0,
{
    let h = seq![43u8] + spaces(indent);
    let u = h + j;
    assert(u.len() == 1 + indent + j.len());
    assert(u[h.len() - 1] < 128u8) by {
        if indent > 0 {
            assert(u[h.len() - 1] == spaces(indent)[indent - 1]);
        }
    }
    lemma_ws_back_ext(u, 0, h.len() as int, u.len() as int);
    assert(u.subrange(h.len() as int, u.len() as int) =~= j);
    lemma_ws_len_back_local(u, h.len() as int, u.len() as int, j);
}

/// A comment as the formatter keeps it: `;` first, no newline, and no
/// whitespace character at the end.
pub open spec fn kept_comment(c: Seq<u8>) -> bool {
    &&& c.len() > 0
    &&& c[0] == 59u8
    &&& forall|k: int| 0 <= k < c.len() ==> #[trigger] c[k] != 10u8
    &&& ws_len_back(c, 0, c.len() as int) == 0
}

/// Whether whitespace ends at the end of a window depends on the window's
/// bytes alone.
pub proof fn lemma_ws_len_back_local(b: Seq<u8>, lo: int, j: int, c: Seq<u8>)
    requires
        0 <= lo <= j <= b.len(),
        b.subrange(lo, j) == c,
    ensures
        ws_len_back(b, lo, j) == ws_len_back(c, 0, c.len() as int),
{
    let n = j - lo;
    assert(c.len() == n);
    if n >= 1 {
        assert(b[j - 1] == c[n - 1]);
    }
    if n >= 2 {
        assert(b[j - 2] == c[n - 2]);
    }
    if n >= 3 {
        assert(b[j - 3] == c[n - 3]);
    }
}

/// Whether whitespace starts at a place in a window depends on the window's
/// bytes alone.
pub proof fn lemma_ws_len_local(b: Seq<u8>, a: int, z: int, c: Seq<u8>, i: int)
    requires
        0 <= a <= z <= b.len(),
        b.subrange(a, z) == c,
        0 <= i <= c.len(),
    ensures
        ws_len(b, a + i, z) == ws_len(c, i, c.len() as int),
{
    if i < c.len() {
        assert(b[a + i] == c[i]);
        if i + 1 < c.len() {
            assert(b[a + i + 1] == c[i + 1]);
        }
        if i + 2 < c.len() {
            assert(b[a + i + 2] == c[i + 2]);
        }
    }
}

/// Skipping whitespace in a window depends on the window's bytes alone.
pub proof fn lemma_skip_local(b: Seq<u8>, a: int, z: int, c: Seq<u8>, i: int)
    requires
        0 <= a <= z <= b.len(),
        b.subrange(a, z) == c,
        0 <= i <= c.len(),
    ensures
        skip_ws(b, a + i, z) == a + skip_ws(c, i, c.len() as int),
    decreases c.len() - i,
{
    lemma_ws_len_local(b, a, z, c, i);
    if i < c.len() && ws_len(c, i, c.len() as int) > 0 {
        let l = ws_len(c, i, c.len() as int);
        assert(i + l <= c.len());
        lemma_skip_local(b, a, z, c, i + l);
    }
}

/// The kind of a line depends on the line's bytes alone.
pub proof fn lemma_kind_local(b: Seq<u8>, w: (int, int), c: Seq<u8>)
    requires
        0 <= w.0 <= w.1 <= b.len(),
        b.subrange(w.0, w.1) == c,
    ensures
        physical_kind(b, w) == physical_kind(c, (0, c.len() as int)),
{
    lemma_skip_local(b, w.0, w.1, c, 0);
    let t = skip_ws(c, 0, c.len() as int);
    crate::text::lemma_skip_ws(c, 0, c.len() as int);
    if t < c.len() {
        assert(b[w.0 + t] == c[t]);
        if t + 1 < c.len() {
            assert(b[w.0 + t + 1] == c[t + 1]);
        }
    }
}

/// The bytes of the code part of a written line: the words, then two spaces
/// and the comment if there is one.
pub open spec fn with_comment(j: Seq<u8>, c: Option<Seq<u8>>) -> Seq<u8> {
    match c {
        Some(t) => j + seq![32u8, 32u8] + t,
        None => j,
    }
}

proof fn lemma_with_comment_prefix(j: Seq<u8>, c: Option<Seq<u8>>)
    ensures
        with_comment(j, c).len() >= j.len(),
        forall|k: int| 0 <= k < j.len() ==> #[trigger] with_comment(j, c)[k] == j[k],
        c matches Some(t) ==> with_comment(j, c).len() == j.len() + 2 + t.len() && with_comment(j, c)[j.len() as int] == 32u8
            && with_comment(j, c)[j.len() as int + 1] == 32u8 && forall|k: int| 0 <= k < t.len() ==> #[trigger] with_comment(j, c)[j.len() as int + 2 + k] == t[k],
        c is None ==> with_comment(j, c) == j,
{
}

/// A written line splits back into its words and its comment.
pub proof fn lemma_split_written(b: Seq<u8>, a: int, z: int, j: Seq<u8>, x: Seq<Seq<u8>>, c: Option<Seq<u8>>)
    requires
        0 <= a <= z <= b.len(),
        b.subrange(a, z) == with_comment(j, c),
        spaced(j, x),
        words(x),
        x.len() > 0,
        c matches Some(t) ==> kept_comment(t),
        c is Some ==> qopen(x.last(), x.last().len() as int) is None,
    ensures
        split_comment_spec(b, a, z).0 == (a, a + j.len()),
        split_comment_spec(b, a, z).1 == match c {
            Some(t) => Some((a + j.len() + 2, z)),
            None => None::<(int, int)>,
        },
        tokenize_spec(b, (a, a + j.len())) == x,
{
    lemma_spaced_bytes(j, x);
    lemma_with_comment_prefix(j, c);
    let n = j.len() as int;
    let w = with_comment(j, c);
    assert(w.len() == z - a);
    assert(b.subrange(a, a + n) =~= j) by {
        assert forall|k: int| 0 <= k < n implies #[trigger] b.subrange(a, a + n)[k] == j[k] by {
            assert(w[k] == j[k]);
            assert(b[a + k] == w[k]);
        }
    }
    lemma_comment_scan_spaced(b, a, x, a + n, z);
    assert(b[a] == j[0]) by {
        assert(w[0] == j[0]);
    }
    assert(b[a + n - 1] == j[n - 1]) by {
        assert(w[n - 1] == j[n - 1]);
    }
    match c {
        Some(t) => {
            assert forall|k: int| a + n <= k < a + n + 2 implies b[k] == 32u8 by {
                assert(b[k] == w[k - a]);
            }
            assert(b[a + n + 2] == 59u8) by {
                assert(b[a + n + 2] == w[n + 2]);
            }
            assert(comment_pos(b, a + n + 2, z, None) == a + n + 2);
            assert(comment_pos(b, a + n + 1, z, None) == a + n + 2);
            assert(comment_pos(b, a + n, z, None) == a + n + 2);
            lemma_ws_len_back_local(b, a, a + n, j);
            lemma_rskip_spaces(b, a, a + n, a + n + 2);
            assert(b.subrange(a + n + 2, z) =~= t) by {
                assert forall|k: int| 0 <= k < t.len() implies #[trigger] b.subrange(a + n + 2, z)[k] == t[k] by {
                    assert(b[a + n + 2 + k] == w[n + 2 + k]);
                }
            }
            lemma_ws_len_back_local(b, a + n + 2, z, t);
        },
        None => {
            assert(a + n == z);
        },
    }
    lemma_ws_len_local(b, a, a + n, j, 0);
    lemma_ws_len_back_local(b, a, a + n, j);
    assert(skip_ws(b, a, a + n) == a);
    assert(rskip_ws(b, a, a + n) == a + n);
    assert(b.subrange(a, a + n) =~= j);
    lemma_tokens_of_spaced(b, a, a + n, x);
}

/// A line led by a word has the kind that the word alone has.
pub proof fn lemma_kind_head(b: Seq<u8>, a: int, z: int, j: Seq<u8>, x: Seq<Seq<u8>>, c: Option<Seq<u8>>)
    requires
        0 <= a <= z <= b.len(),
        b.subrange(a, z) == with_comment(j, c),
        spaced(j, x),
        words(x),
        x.len() > 0,
    ensures
        physical_kind(b, (a, z)) == physical_kind(x[0], (0, x[0].len() as int)),
{
    lemma_spaced_bytes(j, x);
    lemma_with_comment_prefix(j, c);
    let w = with_comment(j, c);
    assert(w.len() == z - a);
    let t0 = x[0];
    assert(oword(t0));
    assert(b[a] == w[0] && w[0] == j[0]);
    lemma_written_start(b, a, z, j, x, c);
    lemma_oword_ends(t0);
    lemma_skip_spaces(b, a, a, z);
    lemma_skip_spaces(t0, 0, 0, t0.len() as int);
    if t0.len() >= 2 {
        // the second byte of the line is the word's second byte
        if x.len() == 1 {
            assert(j == t0);
        } else {
            let g = choose|g: int|
                #![trigger j.subrange(x[0].len() + g, j.len() as int)]
                1 <= g && x[0].len() + g <= j.len() && j.subrange(0, x[0].len() as int) == x[0] && (
                forall|k: int| x[0].len() <= k < x[0].len() + g ==> j[k] == 32u8) && spaced(
                    j.subrange(x[0].len() + g, j.len() as int),
                    x.drop_first(),
                );
            assert(j[1] == j.subrange(0, t0.len() as int)[1]);
        }
        assert(b[a + 1] == w[1] && w[1] == j[1]);
        assert(data_value_at(b, a, z) == data_value_at(t0, 0, t0.len() as int));
    } else {
        // a one-byte word is followed by a space or ends the line
        if a + 1 < z {
            assert(b[a + 1] == w[1]);
            if x.len() == 1 {
                assert(j == t0);
                assert(j.len() == 1);
                match c {
                    Some(t) => assert(w[1] == 32u8),
                    None => {},
                }
            } else {
                let g = choose|g: int|
                    #![trigger j.subrange(x[0].len() + g, j.len() as int)]
                    1 <= g && x[0].len() + g <= j.len() && j.subrange(0, x[0].len() as int) == x[0]
                        && (forall|k: int| x[0].len() <= k < x[0].len() + g ==> j[k] == 32u8)
                        && spaced(j.subrange(x[0].len() + g, j.len() as int), x.drop_first());
                assert(j[1] == 32u8);
                assert(w[1] == j[1]);
            }
        }
        assert(data_value_at(b, a, z) == data_value_at(t0, 0, t0.len() as int));
    }
}

/// A `+` line is a continuation.
pub proof fn lemma_kind_plus(b: Seq<u8>, a: int, z: int)
    requires
        0 <= a < z <= b.len(),
        b[a] == 43u8,
    ensures
        physical_kind(b, (a, z)) == PhysicalKind::Continuation,
{
    lemma_ws_len_ascii(b, a, z);
    lemma_skip_spaces(b, a, a, z);
}

/// The payload of a written continuation line starts after `+` and the
/// indent.
pub proof fn lemma_payload_cont(b: Seq<u8>, a: int, z: int, indent: int, rest: Seq<u8>)
    requires
        0 <= a <= z <= b.len(),
        indent >= 0,
        b.subrange(a, z) == seq![43u8] + crate::fmt_emit::spaces(indent) + rest,
        rest.len() > 0,
        ws_len(b, a + 1 + indent, z) == 0,
    ensures
        payload(b, (a, z)) == (a + 1 + indent, z),
{
    let w = seq![43u8] + crate::fmt_emit::spaces(indent) + rest;
    assert(w.len() == z - a);
    assert(b[a] == w[0]);
    lemma_ws_len_ascii(b, a, z);
    lemma_skip_spaces(b, a, a, z);
    assert forall|k: int| a + 1 <= k < a + 1 + indent implies b[k] == 32u8 by {
        assert(b[k] == w[k - a]);
    }
    assert(b[a + 1 + indent] == w[1 + indent]);
    lemma_skip_spaces(b, a + 1, a + 1 + indent, z);
}

/// The payload of a written orphan line: after its leading `+` word and the
/// spaces that follow it.
pub proof fn lemma_payload_lead(b: Seq<u8>, a: int, z: int, g: int, rest: Seq<u8>)
    requires
        0 <= a <= z <= b.len(),
        g >= 0,
        b.subrange(a, z) == seq![43u8] + crate::fmt_emit::spaces(g) + rest,
        a + 1 + g < z ==> ws_len(b, a + 1 + g, z) == 0,
    ensures
        payload(b, (a, z)) == (a + 1 + g, z),
{
    let w = seq![43u8] + crate::fmt_emit::spaces(g) + rest;
    assert(w.len() == z - a);
    assert(b[a] == w[0]);
    lemma_ws_len_ascii(b, a, z);
    lemma_skip_spaces(b, a, a, z);
    assert forall|k: int| a + 1 <= k < a + 1 + g implies b[k] == 32u8 by {
        assert(b[k] == w[k - a]);
    }
    if a + 1 + g < z {
        assert(b[a + 1 + g] == w[1 + g]);
    }
    lemma_skip_spaces(b, a + 1, a + 1 + g, z);
}

/// A window holding only a comment splits into no code and that comment.
pub proof fn lemma_split_comment_only(b: Seq<u8>, a: int, z: int, c: Option<Seq<u8>>)
    requires
        0 <= a <= z <= b.len(),
        b.subrange(a, z) == match c {
            Some(t) => t,
            None => Seq::<u8>::empty(),
        },
        c matches Some(t) ==> kept_comment(t),
    ensures
        split_comment_spec(b, a, z).0 == (a, a),
        split_comment_spec(b, a, z).1 == match c {
            Some(t) => Some((a, z)),
            None => None::<(int, int)>,
        },
        tokenize_spec(b, (a, a)) == Seq::<Seq<u8>>::empty(),
{
    match c {
        Some(t) => {
            assert(t.len() == z - a);
            assert(b[a] == b.subrange(a, z)[0]);
            assert(b[a] == t[0]);
            assert(comment_pos(b, a, z, None) == a);
            lemma_ws_len_back_local(b, a, z, t);
        },
        None => {
            assert(b.subrange(a, z).len() == 0);
            assert(a == z);
            assert(comment_pos(b, a, z, None) == a);
        },
    }
    assert(tok_bytes(b, qtokens(b, a, a)) =~= Seq::<Seq<u8>>::empty());
}

/// The groups of tokens, one after the other.
pub open spec fn flat(gs: Seq<Seq<Seq<u8>>>) -> Seq<Seq<u8>>
    decreases gs.len(),
{
    if gs.len() == 0 {
        seq![]
    } else {
        flat(gs.drop_last()) + gs.last()
    }
}

/// What starts the `k`-th written line of a statement: nothing on the
/// first, `+` and the indent on the others.
pub open spec fn lead(k: int, indent: int) -> Seq<u8> {
    if k == 0 {
        seq![]
    } else {
        seq![43u8] + spaces(indent)
    }
}

pub open spec fn tail_len(c: Option<Seq<u8>>) -> int {
    match c {
        Some(t) => 2 + t.len() as int,
        None => 0,
    }
}

/// The words part of a written line.
pub open spec fn words_part(line: Seq<u8>, k: int, indent: int, c: Option<Seq<u8>>) -> Seq<u8> {
    line.subrange(lead(k, indent).len() as int, line.len() - tail_len(c))
}

/// `line` is the `k`-th line written for a statement: its lead, the words
/// `x` spaced, and the comment `c` if given.
pub open spec fn written_line(line: Seq<u8>, k: int, indent: int, c: Option<Seq<u8>>, x: Seq<Seq<u8>>) -> bool {
    &&& line.len() >= lead(k, indent).len() + tail_len(c)
    &&& spaced(words_part(line, k, indent, c), x)
    &&& line == lead(k, indent) + with_comment(words_part(line, k, indent, c), c)
}

/// Spaces a token is padded with at column `col`.
pub open spec fn pad_amount(strides: Option<Seq<int>>, col: int, t: Seq<u8>) -> int {
    match strides {
        Some(sd) => {
            let w = if 0 <= col < sd.len() {
                sd[col]
            } else {
                t.len() as int
            };
            if char_count(t) < w {
                w - char_count(t)
            } else {
                0
            }
        },
        None => 0,
    }
}

/// A byte string has at most as many characters as bytes.
proof fn lemma_char_count_le(t: Seq<u8>)
    ensures
        0 <= char_count(t) <= t.len(),
    decreases t.len(),
{
    if t.len() > 0 {
        lemma_char_count_le(t.drop_last());
    }
}

/// Trailing spaces after text that ends in a non-blank byte are what
/// `trim_end` removes.
proof fn lemma_trim_end_spaces(s: Seq<u8>, r: int)
    requires
        s.len() > 0,
        ws_len_back(s, 0, s.len() as int) == 0,
        r >= 0,
    ensures
        trim_end(s + spaces(r)) == s,
{
    let b = s + spaces(r);
    assert forall|k: int| s.len() <= k < b.len() implies b[k] == 32u8 by {}
    assert(b.subrange(0, s.len() as int) =~= s);
    lemma_ws_len_back_local(b, 0, s.len() as int, s);
    lemma_rskip_spaces(b, 0, s.len() as int, b.len() as int);
}

proof fn lemma_flat_push_last(gs: Seq<Seq<Seq<u8>>>, t: Seq<u8>)
    requires
        gs.len() > 0,
    ensures
        flat(gs.update(gs.len() - 1, gs.last().push(t))) == flat(gs).push(t),
{
    let hs = gs.update(gs.len() - 1, gs.last().push(t));
    assert(hs.drop_last() =~= gs.drop_last());
    assert(flat(gs).push(t) =~= flat(gs.drop_last()) + gs.last().push(t));
}

/// The layout invariant of the emitter after the words `ts`, split into the
/// groups `gs`.
pub open spec fn emit_inv(st: EmitSt, ts: Seq<Seq<u8>>, gs: Seq<Seq<Seq<u8>>>, strides: Option<Seq<int>>, indent: int) -> bool {
    &&& ts.len() >= 1
    &&& gs.len() == st.lines.len() + 1
    &&& flat(gs) == ts
    &&& forall|k: int| 0 <= k < gs.len() ==> (#[trigger] gs[k]).len() > 0 && words(gs[k])
    &&& st.after_open == opens_quote(ts.last())
    &&& st.on_cont <==> st.lines.len() > 0
    &&& forall|k: int| 0 <= k < st.lines.len() ==> written_line(#[trigger] st.lines[k], k, indent, None, gs[k])
    &&& !st.on_cont ==> st.col == ts.len() && spaced(trim_end(st.current), gs[0]) && st.current == trim_end(
        st.current,
    ) + spaces(pad_amount(strides, ts.len() - 1, ts.last())) && trim_end(st.current).len() > 0
    &&& st.on_cont ==> written_line(st.current, 1, indent, None, gs.last())
}

proof fn lemma_words_one(tok: Seq<u8>)
    requires
        oword(tok),
    ensures
        words(seq![tok]),
        spaced(tok, seq![tok]),
{
    assert forall|i: int| 0 <= i < seq![tok].len() implies oword(#[trigger] seq![tok][i]) by {
        assert(seq![tok][i] == tok);
    }
}

/// A closed token as read is a word.
proof fn lemma_closed_word(t: Seq<u8>)
    requires
        oword(t),
        !opens_quote(t),
    ensures
        word(t),
{
}

/// A written line's tokens with one more after its last, which closes its
/// quotes.
proof fn lemma_words_push(x: Seq<Seq<u8>>, tok: Seq<u8>)
    requires
        words(x),
        x.len() > 0,
        !opens_quote(x.last()),
        oword(tok),
    ensures
        words(x.push(tok)),
{
    let y = x.push(tok);
    lemma_closed_word(x.last());
    assert forall|i: int| 0 <= i < y.len() implies oword(#[trigger] y[i]) by {
        if i < x.len() {
            assert(y[i] == x[i]);
        }
    }
    assert forall|i: int| 0 <= i < y.len() - 1 implies word(#[trigger] y[i]) by {
        assert(y[i] == x[i]);
        if i == x.len() - 1 {
            assert(x[i] == x.last());
        }
    }
}

/// The last token of groups whose last group is not empty.
proof fn lemma_flat_last(gs: Seq<Seq<Seq<u8>>>)
    requires
        gs.len() > 0,
        gs.last().len() > 0,
    ensures
        flat(gs).len() > 0,
        flat(gs).last() == gs.last().last(),
{
    assert(flat(gs) == flat(gs.drop_last()) + gs.last());
}

proof fn lemma_emit_first(tok: Seq<u8>, strides: Option<Seq<int>>, indent: int, mw: int) -> (gs: Seq<Seq<Seq<u8>>>)
    requires
        oword(tok),
        indent >= 0,
    ensures
        emit_inv(emit_fold(seq![tok], strides, spaces(indent), mw), seq![tok], gs, strides, indent),
{
    let ts = seq![tok];
    let ind = spaces(indent);
    let st0 = EmitSt { lines: seq![], current: seq![], col: 0, on_cont: false, after_open: false };
    assert(ts.last() == tok);
    assert(ts.drop_last() =~= Seq::<Seq<u8>>::empty());
    assert(emit_fold(ts.drop_last(), strides, ind, mw) == st0);
    let st = emit_fold(ts, strides, ind, mw);
    let r = pad_amount(strides, 0, tok);
    assert(st.current =~= tok + spaces(r));
    lemma_words_one(tok);
    lemma_spaced_bytes(tok, seq![tok]);
    lemma_trim_end_spaces(tok, r);
    let gs = seq![seq![tok]];
    assert(flat(gs) =~= ts) by {
        assert(gs.drop_last() =~= Seq::<Seq<Seq<u8>>>::empty());
        assert(flat(gs.drop_last()) == Seq::<Seq<u8>>::empty());
        assert(gs.last() == seq![tok]);
    }
    gs
}

/// One more word on a `+` line, or a new `+` line for it.
#[verifier::rlimit(60)]
proof fn lemma_emit_step_cont(
    sp: EmitSt,
    tp: Seq<Seq<u8>>,
    gp: Seq<Seq<Seq<u8>>>,
    tok: Seq<u8>,
    strides: Option<Seq<int>>,
    indent: int,
    mw: int,
) -> (gs: Seq<Seq<Seq<u8>>>)
    requires
        emit_inv(sp, tp, gp, strides, indent),
        sp.on_cont,
        oword(tok),
        indent >= 0,
    ensures
        emit_inv(emit_step(sp, tok, strides, spaces(indent), mw), tp.push(tok), gs, strides, indent),
{
    let ind = spaces(indent);
    let h = seq![43u8] + ind;
    let ts = tp.push(tok);
    let st = emit_step(sp, tok, strides, ind, mw);
    lemma_words_one(tok);
    lemma_spaced_bytes(tok, seq![tok]);
    lemma_trim_end_spaces(tok, 0);
    assert(tok + spaces(0) =~= tok);
    let j = words_part(sp.current, 1, indent, None);
    assert(words(gp[gp.len() - 1]));
    lemma_spaced_bytes(j, gp.last());
    assert(sp.current =~= h + j);
    lemma_lead_back(indent, j);
    lemma_trim_end_spaces(h + j, 0);
    assert(h + j + spaces(0) =~= h + j);
    assert(trim_end(sp.current) == h + j);
    let candidate = trim_end(sp.current) + seq![32u8] + trim_end(tok);
    assert(ts.last() == tok);
    if char_count(candidate) > mw || sp.after_open {
        let gs = gp.push(seq![tok]);
        assert forall|k: int| 0 <= k < gs.len() implies (#[trigger] gs[k]).len() > 0 && words(gs[k]) by {
            if k < gp.len() {
                assert(gs[k] == gp[k]);
            }
        }
        assert(flat(gs) =~= ts) by {
            assert(gs.drop_last() =~= gp);
        }
        let k = sp.lines.len() as int;
        assert(st.lines == sp.lines.push(sp.current));
        assert(words_part(sp.current, k, indent, None) =~= j);
        assert(written_line(sp.current, k, indent, None, gp[k]));
        assert forall|i: int| 0 <= i < st.lines.len() implies written_line(#[trigger] st.lines[i], i, indent, None, gs[i]) by {
            if i < sp.lines.len() {
                assert(st.lines[i] == sp.lines[i]);
                assert(gs[i] == gp[i]);
            }
        }
        assert(st.current =~= lead(1, indent) + with_comment(tok, None));
        assert(words_part(st.current, 1, indent, None) =~= tok);
        gs
    } else {
        let gs = gp.update(gp.len() - 1, gp.last().push(tok));
        lemma_flat_push_last(gp, tok);
        lemma_flat_last(gp);
        lemma_words_push(gp.last(), tok);
        assert forall|k: int| 0 <= k < gs.len() implies (#[trigger] gs[k]).len() > 0 && words(gs[k]) by {
            if k < gp.len() - 1 {
                assert(gs[k] == gp[k]);
            }
        }
        assert forall|k: int| 0 <= k < st.lines.len() implies written_line(#[trigger] st.lines[k], k, indent, None, gs[k]) by {
            assert(gs[k] == gp[k]);
        }
        assert(candidate =~= h + (j + spaces(1) + tok));
        lemma_spaced_push(j, gp.last(), 1, tok);
        assert(words_part(candidate, 1, indent, None) =~= j + spaces(1) + tok);
        gs
    }
}

/// One more word on the first line, or the first `+` line for it.
#[verifier::rlimit(30)]
proof fn lemma_emit_step_first(
    sp: EmitSt,
    tp: Seq<Seq<u8>>,
    gp: Seq<Seq<Seq<u8>>>,
    tok: Seq<u8>,
    strides: Option<Seq<int>>,
    indent: int,
    mw: int,
) -> (gs: Seq<Seq<Seq<u8>>>)
    requires
        emit_inv(sp, tp, gp, strides, indent),
        !sp.on_cont,
        oword(tok),
        indent >= 0,
        strides matches Some(sd) ==> tp.len() - 1 < sd.len() && sd[tp.len() - 1] > tp.last().len(),
    ensures
        emit_inv(emit_step(sp, tok, strides, spaces(indent), mw), tp.push(tok), gs, strides, indent),
{
    let ind = spaces(indent);
    let h = seq![43u8] + ind;
    let ts = tp.push(tok);
    let st = emit_step(sp, tok, strides, ind, mw);
    lemma_words_one(tok);
    lemma_spaced_bytes(tok, seq![tok]);
    lemma_trim_end_spaces(tok, 0);
    assert(tok + spaces(0) =~= tok);
    let j = trim_end(sp.current);
    assert(gp.len() == 1);
    assert(words(gp[0]));
    lemma_spaced_bytes(j, gp[0]);
    let r1 = pad_amount(strides, tp.len() - 1, tp.last());
    let r2 = pad_amount(strides, ts.len() - 1, tok);
    assert(ts.last() == tok);
    let piece = match strides {
        Some(sd) => pad_to(tok, if 0 <= sp.col < sd.len() { sd[sp.col] } else { tok.len() as int }),
        None => tok,
    };
    assert(piece =~= tok + spaces(r2));
    lemma_trim_end_spaces(tok, r2);
    let candidate = if strides is None {
        trim_end(sp.current) + seq![32u8] + trim_end(piece)
    } else {
        sp.current + piece
    };
    assert(ts.last() == tok);
    if char_count(candidate) > mw || sp.after_open {
        let gs = gp.push(seq![tok]);
        assert forall|k: int| 0 <= k < gs.len() implies (#[trigger] gs[k]).len() > 0 && words(gs[k]) by {
            if k < gp.len() {
                assert(gs[k] == gp[k]);
            }
        }
        assert(flat(gs) =~= ts) by {
            assert(gs.drop_last() =~= gp);
        }
        assert(st.lines == sp.lines.push(j));
        assert(words_part(j, 0, indent, None) =~= j);
        assert(written_line(j, 0, indent, None, gp[0]));
        assert forall|i: int| 0 <= i < st.lines.len() implies written_line(#[trigger] st.lines[i], i, indent, None, gs[i]) by {
            assert(i == 0);
            assert(gs[0] == gp[0]);
        }
        assert(st.current =~= lead(1, indent) + with_comment(tok, None));
        assert(words_part(st.current, 1, indent, None) =~= tok);
        gs
    } else {
        let gs = gp.update(0, gp[0].push(tok));
        lemma_flat_push_last(gp, tok);
        assert(gs[0] == gp[0].push(tok));
        lemma_flat_last(gp);
        assert(gp.last() == gp[0]);
        lemma_words_push(gp[0], tok);
        match strides {
            Some(sd) => {
                lemma_char_count_le(tp.last());
                assert(r1 >= 1);
                assert(sp.current == j + spaces(r1));
                assert(candidate =~= j + spaces(r1) + tok + spaces(r2));
                lemma_spaced_push(j, gp[0], r1, tok);
                lemma_spaced_bytes(j + spaces(r1) + tok, gp[0].push(tok));
                lemma_trim_end_spaces(j + spaces(r1) + tok, r2);
            },
            None => {
                assert(r1 == 0);
                assert(sp.current =~= j + spaces(0));
                assert(j + spaces(0) =~= j);
                assert(candidate =~= j + spaces(1) + tok);
                lemma_spaced_push(j, gp[0], 1, tok);
                lemma_spaced_bytes(j + spaces(1) + tok, gp[0].push(tok));
                lemma_trim_end_spaces(j + spaces(1) + tok, 0);
                assert(j + spaces(1) + tok + spaces(0) =~= j + spaces(1) + tok);
            },
        }
        gs
    }
}

/// The words of a statement laid out by the emitter: groups of words, the
/// first group on the first line, each other group on a `+` line.
proof fn lemma_emit_fold(ts: Seq<Seq<u8>>, strides: Option<Seq<int>>, indent: int, mw: int) -> (gs: Seq<Seq<Seq<u8>>>)
    requires
        ts.len() >= 1,
        owords(ts),
        indent >= 0,
        strides matches Some(sd) ==> forall|c: int|
            0 <= c < ts.len() - 1 ==> c < sd.len() && sd[c] > (#[trigger] ts[c]).len(),
    ensures
        emit_inv(emit_fold(ts, strides, spaces(indent), mw), ts, gs, strides, indent),
    decreases ts.len(),
{
    let tok = ts.last();
    assert(oword(tok));
    if ts.len() == 1 {
        assert(ts =~= seq![tok]);
        lemma_emit_first(tok, strides, indent, mw)
    } else {
        let tp = ts.drop_last();
        assert forall|i: int| 0 <= i < tp.len() implies oword(#[trigger] tp[i]) by {
            assert(tp[i] == ts[i]);
        }
        if strides is Some {
            assert forall|c: int| 0 <= c < tp.len() - 1 implies c < strides->0.len() && strides->0[c] > (#[trigger] tp[c]).len() by {
                assert(tp[c] == ts[c]);
            }
            assert(tp.last() == ts[tp.len() - 1]);
        }
        let gp = lemma_emit_fold(tp, strides, indent, mw);
        let sp = emit_fold(tp, strides, spaces(indent), mw);
        assert(ts =~= tp.push(tok));
        if sp.on_cont {
            lemma_emit_step_cont(sp, tp, gp, tok, strides, indent, mw)
        } else {
            lemma_emit_step_first(sp, tp, gp, tok, strides, indent, mw)
        }
    }
}

/// The lines written for a statement's words and comment: one line per
/// group of words, the first without lead, the others as `+` lines, the
/// comment after the last, or on a `+` line of its own (an empty group) when
/// the last word leaves a quote open.
pub open spec fn written_lines(ls: Seq<Seq<u8>>, gs: Seq<Seq<Seq<u8>>>, indent: int, c: Option<Seq<u8>>) -> bool {
    &&& ls.len() == gs.len()
    &&& gs.len() >= 1
    &&& forall|k: int|
        0 <= k < gs.len() ==> ((#[trigger] gs[k]).len() > 0 || (k == gs.len() - 1 && k > 0 && c is Some))
            && words(gs[k])
    &&& c is Some && gs.last().len() > 0 ==> !opens_quote(gs.last().last())
    &&& forall|k: int|
        0 <= k < ls.len() ==> written_line(
            #[trigger] ls[k],
            k,
            indent,
            if k == ls.len() - 1 {
                c
            } else {
                None
            },
            gs[k],
        )
}

/// Written lines, one more at the end.
proof fn lemma_lines_push(lines: Seq<Seq<u8>>, last: Seq<u8>, gs: Seq<Seq<Seq<u8>>>, indent: int, c: Option<Seq<u8>>)
    requires
        gs.len() == lines.len() + 1,
        forall|k: int| 0 <= k < lines.len() ==> written_line(#[trigger] lines[k], k, indent, None, gs[k]),
        written_line(last, lines.len() as int, indent, c, gs.last()),
        forall|k: int|
            0 <= k < gs.len() ==> ((#[trigger] gs[k]).len() > 0 || (k == gs.len() - 1 && k > 0 && c is Some))
                && words(gs[k]),
        c is Some && gs.last().len() > 0 ==> !opens_quote(gs.last().last()),
    ensures
        written_lines(lines.push(last), gs, indent, c),
{
    let out = lines.push(last);
    assert forall|k: int|
        0 <= k < out.len() implies written_line(
            #[trigger] out[k],
            k,
            indent,
            if k == out.len() - 1 {
                c
            } else {
                None
            },
            gs[k],
        ) by {
        if k < lines.len() {
            assert(out[k] == lines[k]);
        } else {
            assert(out[k] == last);
        }
    }
}

/// What the emitter writes for non-empty words.
#[verifier::rlimit(80)]
#[verifier::spinoff_prover]
pub proof fn lemma_emit_spec(
    ts: Seq<Seq<u8>>,
    c: Option<Seq<u8>>,
    widths: Option<Seq<int>>,
    indent: int,
    mlw: int,
) -> (gs: Seq<Seq<Seq<u8>>>)
    requires
        ts.len() >= 1,
        owords(ts),
        indent >= 0,
        widths matches Some(w) ==> ts.len() <= w.len() && forall|k: int|
            0 <= k < ts.len() ==> w[k] >= (#[trigger] ts[k]).len(),
    ensures
        flat(gs) == ts,
        written_lines(emit_spec(ts, c, widths, indent, mlw), gs, indent, c),
{
    let mw = if mlw >= 20 {
        mlw
    } else {
        20
    };
    let strides = match widths {
        Some(w) => Some(strides_of(w)),
        None => None,
    };
    if widths is Some {
        let w = widths->0;
        assert forall|k: int| 0 <= k < ts.len() - 1 implies k < strides->0.len() && strides->0[k] > (#[trigger] ts[k]).len() by {
            assert(strides->0[k] == w[k] + 1);
        }
    }
    let gs = lemma_emit_fold(ts, strides, indent, mw);
    let st = emit_fold(ts, strides, spaces(indent), mw);
    let out = emit_spec(ts, c, widths, indent, mlw);
    let n = st.lines.len() as int;
    let j = if st.on_cont {
        words_part(st.current, 1, indent, None)
    } else {
        trim_end(st.current)
    };
    if st.on_cont {
        let h = seq![43u8] + spaces(indent);
        assert(st.current =~= h + j);
        assert(words(gs[gs.len() - 1]));
        lemma_spaced_bytes(j, gs.last());
        lemma_lead_back(indent, j);
        lemma_trim_end_spaces(h + j, 0);
        assert(h + j + spaces(0) =~= h + j);
    }
    assert(st.current.len() > 0);
    lemma_flat_last(gs);
    let plain = lead(n, indent) + with_comment(j, None);
    assert(trim_end(st.current) =~= plain);
    assert(words_part(plain, n, indent, None) =~= j);
    if c is Some && st.after_open {
        let t = c->0;
        let cl = cont_head(spaces(indent)) + seq![32u8, 32u8] + t;
        let e = Seq::<u8>::empty();
        let gs2 = gs.push(Seq::<Seq<u8>>::empty());
        lemma_lines_push(st.lines, plain, gs, indent, None);
        assert(out == st.lines.push(plain).push(cl));
        assert(cl =~= lead(n + 1, indent) + with_comment(e, c));
        assert(words_part(cl, n + 1, indent, c) =~= e);
        assert(flat(gs2) =~= flat(gs)) by {
            assert(gs2.drop_last() =~= gs);
        }
        assert(words(Seq::<Seq<u8>>::empty()));
        assert forall|k: int| 0 <= k < gs2.len() implies ((#[trigger] gs2[k]).len() > 0 || (k == gs2.len() - 1
            && k > 0 && c is Some)) && words(gs2[k]) by {
            if k < gs.len() {
                assert(gs2[k] == gs[k]);
            }
        }
        let l1 = st.lines.push(plain);
        assert forall|k: int| 0 <= k < l1.len() implies written_line(#[trigger] l1[k], k, indent, None, gs2[k]) by {
            assert(gs2[k] == gs[k]);
            assert(written_lines(l1, gs, indent, None));
        }
        lemma_lines_push(l1, cl, gs2, indent, c);
        gs2
    } else {
        let last = lead(n, indent) + with_comment(j, c);
        assert(out == st.lines.push(last)) by {
            match c {
                Some(t) => {
                    assert(trim_end(st.current) + seq![32u8, 32u8] + t =~= last);
                },
                None => {
                    assert(trim_end(st.current) =~= last);
                },
            }
        }
        lemma_with_comment_prefix(j, c);
        assert(words_part(last, n, indent, c) =~= j);
        lemma_lines_push(st.lines, last, gs, indent, c);
        gs
    }
}

/// A line as the formatter writes it: no newline in it, and no carriage
/// return at its end.
pub open spec fn clean_line(l: Seq<u8>) -> bool {
    &&& forall|k: int| 0 <= k < l.len() ==> #[trigger] l[k] != 10u8
    &&& l.len() > 0 ==> l[l.len() - 1] != 13u8
}

/// A newline as the formatter writes it.
pub open spec fn newline(nl: Seq<u8>) -> bool {
    nl == seq![10u8] || nl == seq![13u8, 10u8]
}

/// The windows of the lines `ls` joined by `nl`, the first starting at `p`.
pub open spec fn line_windows(ls: Seq<Seq<u8>>, nl: Seq<u8>, p: int) -> Seq<(int, int)>
    decreases ls.len(),
{
    if ls.len() == 0 {
        seq![]
    } else {
        seq![(p, p + ls[0].len())] + line_windows(ls.drop_first(), nl, p + ls[0].len() + nl.len())
    }
}

pub proof fn lemma_join_front(ls: Seq<Seq<u8>>, nl: Seq<u8>)
    requires
        ls.len() >= 2,
    ensures
        join_lines(ls, nl) == ls[0] + nl + join_lines(ls.drop_first(), nl),
    decreases ls.len(),
{
    let d = ls.drop_first();
    if ls.len() > 2 {
        lemma_join_front(ls.drop_last(), nl);
        assert(ls.drop_last().drop_first() =~= d.drop_last());
        assert(d.last() == ls.last());
        assert(ls.drop_last()[0] == ls[0]);
        assert(join_lines(d, nl) == join_lines(d.drop_last(), nl) + nl + d.last());
        assert(join_lines(ls, nl) == join_lines(ls.drop_last(), nl) + nl + ls.last());
        assert(join_lines(ls, nl) =~= ls[0] + nl + join_lines(d, nl));
    } else {
        assert(d.len() == 1);
        assert(ls.drop_last().len() == 1);
        assert(join_lines(ls.drop_last(), nl) == ls.drop_last()[0]);
        assert(ls.drop_last()[0] == ls[0]);
        assert(join_lines(d, nl) == d[0]);
        assert(d[0] == ls.last());
    }
}

proof fn lemma_seg_scan(t: Seq<u8>, s: int, i: int, e: int)
    requires
        0 <= s <= i <= e <= t.len(),
        forall|k: int| i <= k < e ==> t[k] != 10u8,
    ensures
        segments(t, s, i) == segments(t, s, e),
    decreases e - i,
{
    if i < e {
        lemma_seg_scan(t, s, i + 1, e);
    }
}

/// The physical lines of joined clean lines are the lines.
pub proof fn lemma_segments_of_join(t: Seq<u8>, p: int, ls: Seq<Seq<u8>>, nl: Seq<u8>, tail: Seq<u8>)
    requires
        ls.len() >= 1,
        forall|k: int| 0 <= k < ls.len() ==> clean_line(#[trigger] ls[k]),
        newline(nl),
        tail == nl || tail.len() == 0,
        0 <= p,
        p + (join_lines(ls, nl) + tail).len() == t.len(),
        t.subrange(p, t.len() as int) == join_lines(ls, nl) + tail,
    ensures
        segments(t, p, p) == line_windows(ls, nl, p) + if tail.len() > 0 {
            seq![(t.len() as int, t.len() as int)]
        } else {
            Seq::<(int, int)>::empty()
        },
    decreases ls.len(),
{
    let l0 = ls[0];
    let e = p + l0.len();
    assert(clean_line(l0));
    let rest = t.subrange(p, t.len() as int);
    if ls.len() >= 2 {
        lemma_join_front(ls, nl);
    }
    assert(rest.subrange(0, l0.len() as int) == l0) by {
        if ls.len() >= 2 {
            assert(rest =~= l0 + (nl + join_lines(ls.drop_first(), nl) + tail));
        } else {
            assert(join_lines(ls, nl) == l0);
        }
    }
    assert forall|k: int| p <= k < e implies t[k] != 10u8 by {
        assert(t[k] == rest[k - p]);
        assert(rest[k - p] == l0[k - p]);
    }
    lemma_seg_scan(t, p, p, e);
    if ls.len() == 1 && tail.len() == 0 {
        assert(e == t.len());
        if e > p {
            assert(t[e - 1] == l0[l0.len() - 1]);
        }
        assert(segments(t, p, e) == seq![(p, without_cr(t, p, e))]);
        assert(line_windows(ls, nl, p) =~= seq![(p, e)] + line_windows(ls.drop_first(), nl, e + nl.len()));
        assert(line_windows(ls.drop_first(), nl, e + nl.len()) =~= Seq::<(int, int)>::empty());
    } else {
        // a newline follows the line
        let after = if ls.len() >= 2 {
            join_lines(ls.drop_first(), nl) + tail
        } else {
            Seq::<u8>::empty()
        };
        assert(rest =~= l0 + nl + after) by {
            if ls.len() >= 2 {
                assert(join_lines(ls, nl) + tail =~= l0 + nl + (join_lines(ls.drop_first(), nl) + tail));
            } else {
                assert(join_lines(ls, nl) == l0);
            }
        }
        let q = e + nl.len();
        if nl == seq![10u8] {
            assert(t[e] == rest[l0.len() as int]);
            assert(t[e] == 10u8);
            if e > p {
                assert(t[e - 1] == l0[l0.len() - 1]);
            }
            assert(segments(t, p, e) == seq![(p, without_cr(t, p, e))] + segments(t, e + 1, e + 1));
        } else {
            assert(t[e] == rest[l0.len() as int]);
            assert(t[e] == 13u8);
            assert(t[e + 1] == rest[l0.len() as int + 1]);
            assert(t[e + 1] == 10u8);
            assert(segments(t, p, e) == segments(t, p, e + 1));
            assert(segments(t, p, e + 1) == seq![(p, without_cr(t, p, e + 1))] + segments(t, e + 2, e + 2));
        }
        assert(line_windows(ls, nl, p) == seq![(p, e)] + line_windows(ls.drop_first(), nl, q));
        if ls.len() >= 2 {
            assert(t.subrange(q, t.len() as int) =~= rest.subrange(q - p, rest.len() as int));
            assert(rest.subrange(q - p, rest.len() as int) =~= after);
            assert(t.subrange(q, t.len() as int) =~= join_lines(ls.drop_first(), nl) + tail);
            assert forall|k: int| 0 <= k < ls.drop_first().len() implies clean_line(#[trigger] ls.drop_first()[k]) by {
                assert(ls.drop_first()[k] == ls[k + 1]);
            }
            lemma_segments_of_join(t, q, ls.drop_first(), nl, tail);
            assert(seq![(p, e)] + (line_windows(ls.drop_first(), nl, q) + if tail.len() > 0 {
                seq![(t.len() as int, t.len() as int)]
            } else {
                Seq::<(int, int)>::empty()
            }) =~= line_windows(ls, nl, p) + if tail.len() > 0 {
                seq![(t.len() as int, t.len() as int)]
            } else {
                Seq::<(int, int)>::empty()
            });
        } else {
            // the line is the last one and a final newline follows
            assert(q == t.len());
            assert(segments(t, q, q) == seq![(q, without_cr(t, q, q))]);
            assert(line_windows(ls.drop_first(), nl, q) =~= Seq::<(int, int)>::empty());
        }
    }
}

/// Each window of the joined lines holds its line.
pub proof fn lemma_line_windows_bytes(t: Seq<u8>, p: int, ls: Seq<Seq<u8>>, nl: Seq<u8>, tail: Seq<u8>)
    requires
        ls.len() >= 1,
        0 <= p,
        p + (join_lines(ls, nl) + tail).len() == t.len(),
        t.subrange(p, t.len() as int) == join_lines(ls, nl) + tail,
    ensures
        line_windows(ls, nl, p).len() == ls.len(),
        forall|k: int|
            0 <= k < ls.len() ==> {
                let w = #[trigger] line_windows(ls, nl, p)[k];
                &&& p <= w.0 <= w.1 <= t.len()
                &&& t.subrange(w.0, w.1) == ls[k]
            },
    decreases ls.len(),
{
    let l0 = ls[0];
    let rest = t.subrange(p, t.len() as int);
    let lw = line_windows(ls, nl, p);
    let q = p + l0.len() + nl.len();
    if ls.len() >= 2 {
        lemma_join_front(ls, nl);
        assert(rest =~= l0 + nl + (join_lines(ls.drop_first(), nl) + tail));
        assert(t.subrange(q, t.len() as int) =~= rest.subrange(q - p, rest.len() as int));
        assert(rest.subrange(q - p, rest.len() as int) =~= join_lines(ls.drop_first(), nl) + tail);
        lemma_line_windows_bytes(t, q, ls.drop_first(), nl, tail);
        assert(t.subrange(p, p + l0.len()) =~= rest.subrange(0, l0.len() as int));
        assert(rest.subrange(0, l0.len() as int) =~= l0);
        assert forall|k: int| 0 <= k < ls.len() implies {
            let w = #[trigger] lw[k];
            &&& p <= w.0 <= w.1 <= t.len()
            &&& t.subrange(w.0, w.1) == ls[k]
        } by {
            if k > 0 {
                assert(lw[k] == line_windows(ls.drop_first(), nl, q)[k - 1]);
                assert(ls[k] == ls.drop_first()[k - 1]);
            }
        }
    } else {
        assert(join_lines(ls, nl) == l0);
        assert(t.subrange(p, p + l0.len()) =~= rest.subrange(0, l0.len() as int));
        assert(rest.subrange(0, l0.len() as int) =~= l0);
        assert(lw =~= seq![(p, p + l0.len())]) by {
            assert(line_windows(ls.drop_first(), nl, q) =~= Seq::<(int, int)>::empty());
        }
    }
}

/// What the formatter makes of a statement: a blank line, a comment line,
/// or code with its kind, whether it has a head line, its tokens and its
/// comment.
pub enum Content {
    Blank,
    Comment(Seq<u8>),
    Code { kind: PhysicalKind, orphan: bool, toks: Seq<Seq<u8>>, comment: Option<Seq<u8>> },
}

pub open spec fn content_of(b: Seq<u8>, s: StmtV, case: KeywordCase) -> Content {
    match s {
        StmtV::Blank => Content::Blank,
        StmtV::Comment(w) => Content::Comment(b.subrange(w.0, rskip_ws(b, w.0, w.1))),
        StmtV::Code { kind, head, .. } => Content::Code {
            kind,
            orphan: head is None,
            toks: code_tokens(b, s, case),
            comment: code_comment(b, s),
        },
    }
}

pub open spec fn contents(b: Seq<u8>, ss: Seq<StmtV>, case: KeywordCase) -> Seq<Content> {
    ss.map_values(|s: StmtV| content_of(b, s, case))
}

pub open spec fn c_inst(c: Content) -> bool {
    c matches Content::Code { kind, .. } && kind == PhysicalKind::Instance
}

pub open spec fn c_toks(c: Content) -> Seq<Seq<u8>> {
    match c {
        Content::Code { toks, .. } => toks,
        _ => seq![],
    }
}

pub open spec fn c_comment(c: Content) -> Option<Seq<u8>> {
    match c {
        Content::Code { comment, .. } => comment,
        _ => None,
    }
}

pub open spec fn c_run_end(cs: Seq<Content>, i: int) -> int
    decreases cs.len() - i,
{
    if 0 <= i < cs.len() && c_inst(cs[i]) {
        c_run_end(cs, i + 1)
    } else {
        i
    }
}

pub open spec fn c_block_lines(blk: Seq<Content>, widths: Seq<int>, opts: FormatOptions, n: int) -> Seq<Seq<u8>>
    decreases n,
{
    if n <= 0 {
        seq![]
    } else {
        c_block_lines(blk, widths, opts, n - 1) + emit_spec(
            c_toks(blk[n - 1]),
            c_comment(blk[n - 1]),
            Some(widths),
            opts.indent_width as int,
            opts.max_line_width as int,
        )
    }
}

pub open spec fn c_widths(blk: Seq<Content>) -> Seq<int> {
    block_widths(blk.map_values(|c: Content| c_toks(c)))
}

pub open spec fn c_render_block(blk: Seq<Content>, opts: FormatOptions) -> Seq<Seq<u8>> {
    c_block_lines(blk, c_widths(blk), opts, blk.len() as int)
}

pub open spec fn c_render_code(c: Content, opts: FormatOptions) -> Seq<Seq<u8>> {
    emit_spec(c_toks(c), c_comment(c), None, opts.indent_width as int, opts.max_line_width as int)
}

/// The lines written for the contents from `i` on.
pub open spec fn c_render(cs: Seq<Content>, i: int, opts: FormatOptions) -> Seq<Seq<u8>>
    decreases cs.len() - i,
{
    if i < 0 || i >= cs.len() {
        seq![]
    } else {
        match cs[i] {
            Content::Blank => seq![Seq::<u8>::empty()] + c_render(cs, i + 1, opts),
            Content::Comment(l) => seq![l] + c_render(cs, i + 1, opts),
            Content::Code { kind, .. } => if kind == PhysicalKind::Instance && opts.align_columns {
                let j = c_run_end(cs, i + 1);
                if i < j <= cs.len() {
                    c_render_block(cs.subrange(i, j), opts) + c_render(cs, j, opts)
                } else {
                    seq![]
                }
            } else {
                c_render_code(cs[i], opts) + c_render(cs, i + 1, opts)
            },
        }
    }
}

proof fn lemma_run_end_contents(b: Seq<u8>, ss: Seq<StmtV>, case: KeywordCase, i: int)
    requires
        0 <= i <= ss.len(),
    ensures
        run_end(ss, i) == c_run_end(contents(b, ss, case), i),
    decreases ss.len() - i,
{
    let cs = contents(b, ss, case);
    if i < ss.len() {
        assert(cs[i] == content_of(b, ss[i], case));
        assert(is_instance_code(ss[i]) == c_inst(cs[i]));
        if is_instance_code(ss[i]) {
            lemma_run_end_contents(b, ss, case, i + 1);
        }
    }
}

proof fn lemma_block_lines_contents(b: Seq<u8>, blk: Seq<StmtV>, cb: Seq<Content>, widths: Seq<int>, opts: FormatOptions, n: int)
    requires
        cb == contents(b, blk, opts.keyword_case),
        0 <= n <= blk.len(),
    ensures
        block_lines(b, blk, widths, opts, n) == c_block_lines(cb, widths, opts, n),
    decreases n,
{
    if n > 0 {
        lemma_block_lines_contents(b, blk, cb, widths, opts, n - 1);
        assert(cb[n - 1] == content_of(b, blk[n - 1], opts.keyword_case));
        assert(code_tokens(b, blk[n - 1], opts.keyword_case) == c_toks(cb[n - 1]));
        assert(code_comment(b, blk[n - 1]) == c_comment(cb[n - 1]));
    }
}

/// What the formatter writes depends only on the contents of the statements.
pub proof fn lemma_render_contents(b: Seq<u8>, ss: Seq<StmtV>, i: int, opts: FormatOptions)
    requires
        0 <= i <= ss.len(),
    ensures
        render_from(b, ss, i, opts) == c_render(contents(b, ss, opts.keyword_case), i, opts),
    decreases ss.len() - i,
{
    let case = opts.keyword_case;
    let cs = contents(b, ss, case);
    if i < ss.len() {
        assert(cs[i] == content_of(b, ss[i], case));
        match ss[i] {
            StmtV::Blank => {
                lemma_render_contents(b, ss, i + 1, opts);
            },
            StmtV::Comment(w) => {
                lemma_render_contents(b, ss, i + 1, opts);
            },
            StmtV::Code { kind, .. } => {
                if kind == PhysicalKind::Instance && opts.align_columns {
                    let j = run_end(ss, i + 1);
                    lemma_run_end_contents(b, ss, case, i + 1);
                    crate::format::lemma_run_end(ss, i + 1);
                    let blk = ss.subrange(i, j);
                    let cb = cs.subrange(i, j);
                    assert(cb =~= contents(b, blk, case));
                    assert(blk.map_values(|s: StmtV| code_tokens(b, s, case)) =~= cb.map_values(
                        |c: Content| c_toks(c),
                    )) by {
                        assert forall|k: int| 0 <= k < blk.len() implies code_tokens(b, #[trigger] blk[k], case)
                            == c_toks(cb[k]) by {
                            assert(cb[k] == content_of(b, blk[k], case));
                        }
                    }
                    lemma_block_lines_contents(
                        b,
                        blk,
                        cb,
                        block_widths(blk.map_values(|s: StmtV| code_tokens(b, s, case))),
                        opts,
                        blk.len() as int,
                    );
                    lemma_render_contents(b, ss, j, opts);
                } else {
                    lemma_render_contents(b, ss, i + 1, opts);
                }
            },
        }
    }
}

/// The statements after grouping the lines `ws` onto `st`.
pub open spec fn gfold(st: Seq<StmtV>, b: Seq<u8>, ws: Seq<(int, int)>) -> Seq<StmtV>
    decreases ws.len(),
{
    if ws.len() == 0 {
        st
    } else {
        group_step(gfold(st, b, ws.drop_last()), b, ws.last())
    }
}

pub proof fn lemma_gfold_lines(b: Seq<u8>, ws: Seq<(int, int)>)
    ensures
        group_lines(b, ws) == gfold(seq![], b, ws),
    decreases ws.len(),
{
    if ws.len() > 0 {
        lemma_gfold_lines(b, ws.drop_last());
    }
}

proof fn lemma_gfold_concat(st: Seq<StmtV>, b: Seq<u8>, a: Seq<(int, int)>, c: Seq<(int, int)>)
    ensures
        gfold(st, b, a + c) == gfold(gfold(st, b, a), b, c),
    decreases c.len(),
{
    if c.len() == 0 {
        assert(a + c =~= a);
    } else {
        assert((a + c).drop_last() =~= a + c.drop_last());
        assert((a + c).last() == c.last());
        lemma_gfold_concat(st, b, a, c.drop_last());
    }
}

pub open spec fn pays(b: Seq<u8>, ws: Seq<(int, int)>) -> Seq<(int, int)> {
    ws.map_values(|w: (int, int)| payload(b, w))
}

/// Continuation lines add their payloads to the statement before them.
proof fn lemma_gfold_conts(st: Seq<StmtV>, b: Seq<u8>, ws: Seq<(int, int)>)
    requires
        st.len() > 0,
        st.last() is Code,
        forall|k: int| 0 <= k < ws.len() ==> physical_kind(b, #[trigger] ws[k]) == PhysicalKind::Continuation,
    ensures
        match st.last() {
            StmtV::Code { kind, head, conts } => gfold(st, b, ws) == st.drop_last().push(
                StmtV::Code { kind, head, conts: conts + pays(b, ws) },
            ),
            _ => true,
        },
    decreases ws.len(),
{
    if let StmtV::Code { kind, head, conts } = st.last() {
        if ws.len() == 0 {
            assert(conts + pays(b, ws) =~= conts);
            assert(st.drop_last().push(st.last()) =~= st);
        } else {
            lemma_gfold_conts(st, b, ws.drop_last());
            let mid = gfold(st, b, ws.drop_last());
            assert(physical_kind(b, ws[ws.len() - 1]) == PhysicalKind::Continuation);
            assert(mid.last() == StmtV::Code { kind, head, conts: conts + pays(b, ws.drop_last()) });
            assert(mid.drop_last() =~= st.drop_last());
            assert((conts + pays(b, ws.drop_last())).push(payload(b, ws.last())) =~= conts + pays(b, ws));
        }
    }
}

/// The window `w` of `b` holds the `k`-th written line of words `x` and
/// comment `c`.
pub open spec fn holds_line(b: Seq<u8>, w: (int, int), k: int, indent: int, c: Option<Seq<u8>>, x: Seq<Seq<u8>>) -> bool {
    &&& 0 <= w.0 <= w.1 <= b.len()
    &&& written_line(b.subrange(w.0, w.1), k, indent, c, x)
    &&& (x.len() > 0 || (k > 0 && c is Some))
    &&& words(x)
    &&& c matches Some(t) ==> kept_comment(t)
    &&& c is Some && x.len() > 0 ==> !opens_quote(x.last())
}

/// A written `+` line: its payload reads back as its words and comment.
proof fn lemma_cont_line(b: Seq<u8>, w: (int, int), indent: int, c: Option<Seq<u8>>, x: Seq<Seq<u8>>)
    requires
        holds_line(b, w, 1, indent, c, x),
        indent >= 0,
    ensures
        physical_kind(b, w) == PhysicalKind::Continuation,
        tokenize_spec(b, split_comment_spec(b, payload(b, w).0, payload(b, w).1).0) == x,
        comment_bytes(b, split_comment_spec(b, payload(b, w).0, payload(b, w).1).1) == c,
{
    let line = b.subrange(w.0, w.1);
    let j = words_part(line, 1, indent, c);
    let rest = with_comment(j, c);
    lemma_with_comment_prefix(j, c);
    assert(line == seq![43u8] + spaces(indent) + rest);
    assert(b[w.0] == line[0]);
    lemma_kind_plus(b, w.0, w.1);
    if x.len() == 0 {
        let t = c->0;
        assert(j.len() == 0);
        let g = indent + 2;
        assert(line =~= seq![43u8] + spaces(g) + t);
        assert(b[w.0 + 1 + g] == t[0]) by {
            assert(line[1 + g] == t[0]);
        }
        lemma_ws_len_ascii(b, w.0 + 1 + g, w.1);
        lemma_payload_lead(b, w.0, w.1, g, t);
        assert(b.subrange(w.0 + 1 + g, w.1) =~= t) by {
            assert(b.subrange(w.0 + 1 + g, w.1) =~= line.subrange(1 + g, line.len() as int));
        }
        lemma_split_comment_only(b, w.0 + 1 + g, w.1, c);
    } else {
        lemma_spaced_bytes(j, x);
        assert(rest[0] == j[0]);
        let pa = w.0 + 1 + indent;
        assert(b.subrange(pa, w.1) =~= rest) by {
            assert(b.subrange(pa, w.1) =~= line.subrange(1 + indent, line.len() as int));
        }
        lemma_written_start(b, pa, w.1, j, x, c);
        lemma_payload_cont(b, w.0, w.1, indent, rest);
        lemma_split_written(b, pa, w.1, j, x, c);
        if let Some(t) = c {
            assert(b.subrange(pa + j.len() + 2, w.1) =~= rest.subrange(j.len() as int + 2, rest.len() as int));
            assert(rest.subrange(j.len() as int + 2, rest.len() as int) =~= t);
        }
    }
}

/// The `+` lines of a statement give back its later groups of words and
/// its comment.
proof fn lemma_cont_tokens(b: Seq<u8>, ws: Seq<(int, int)>, xs: Seq<Seq<Seq<u8>>>, indent: int, c: Option<Seq<u8>>)
    requires
        ws.len() == xs.len(),
        indent >= 0,
        forall|k: int|
            0 <= k < ws.len() ==> holds_line(
                b,
                #[trigger] ws[k],
                1,
                indent,
                if k == ws.len() - 1 {
                    c
                } else {
                    None
                },
                xs[k],
            ),
    ensures
        forall|k: int| 0 <= k < ws.len() ==> physical_kind(b, #[trigger] ws[k]) == PhysicalKind::Continuation,
        cont_tokens(b, pays(b, ws)) == flat(xs),
        comment_bytes(b, last_comment(b, pays(b, ws))) == if ws.len() > 0 {
            c
        } else {
            None
        },
    decreases ws.len(),
{
    let ps = pays(b, ws);
    if ws.len() == 0 {
        assert(ps.len() == 0);
        assert(flat(xs) == Seq::<Seq<u8>>::empty());
    } else {
        let n = ws.len() - 1;
        assert forall|k: int| 0 <= k < n implies holds_line(
            b,
            #[trigger] ws.drop_last()[k],
            1,
            indent,
            if k == n - 1 {
                None::<Seq<u8>>
            } else {
                None
            },
            xs.drop_last()[k],
        ) by {
            assert(ws.drop_last()[k] == ws[k]);
            assert(xs.drop_last()[k] == xs[k]);
            assert(holds_line(b, ws[k], 1, indent, if k == ws.len() - 1 { c } else { None }, xs[k]));
        }
        lemma_cont_tokens(b, ws.drop_last(), xs.drop_last(), indent, None);
        assert(holds_line(b, ws[n], 1, indent, c, xs[n]));
        lemma_cont_line(b, ws[n], indent, c, xs[n]);
        assert(ps.drop_last() =~= pays(b, ws.drop_last()));
        assert(ps.last() == payload(b, ws[n]));
        assert(flat(xs) == flat(xs.drop_last()) + xs.last());
        assert forall|k: int| 0 <= k < ws.len() implies physical_kind(b, #[trigger] ws[k]) == PhysicalKind::Continuation by {
            if k < n {
                assert(ws.drop_last()[k] == ws[k]);
            }
        }
        if ws.len() == 1 {
            assert(pays(b, ws.drop_last()).len() == 0);
        }
    }
}

proof fn lemma_flat_front(gs: Seq<Seq<Seq<u8>>>)
    requires
        gs.len() >= 1,
    ensures
        flat(gs) == gs[0] + flat(gs.drop_first()),
    decreases gs.len(),
{
    if gs.len() == 1 {
        assert(gs.drop_first().len() == 0);
        assert(gs.drop_last().len() == 0);
        assert(flat(gs.drop_last()) == Seq::<Seq<u8>>::empty());
        assert(flat(gs) =~= gs[0] + flat(gs.drop_first()));
    } else {
        lemma_flat_front(gs.drop_last());
        assert(gs.drop_last().drop_first() =~= gs.drop_first().drop_last());
        assert(gs.drop_first().last() == gs.last());
        assert(gs.drop_last()[0] == gs[0]);
        assert(flat(gs) =~= gs[0] + flat(gs.drop_first()));
    }
}

proof fn lemma_cont_front(b: Seq<u8>, p: (int, int), r: Seq<(int, int)>)
    ensures
        cont_tokens(b, seq![p] + r) == tokenize_spec(b, split_comment_spec(b, p.0, p.1).0)
            + cont_tokens(b, r),
        last_comment(b, seq![p] + r) == match last_comment(b, r) {
            Some(x) => Some(x),
            None => split_comment_spec(b, p.0, p.1).1,
        },
    decreases r.len(),
{
    let q = seq![p] + r;
    if r.len() == 0 {
        let e = Seq::<(int, int)>::empty();
        assert(q.drop_last() =~= e);
        assert(r =~= e);
        assert(q.last() == p);
        assert(cont_tokens(b, e) == Seq::<Seq<u8>>::empty());
        assert(last_comment(b, e) == None::<(int, int)>);
        assert(cont_tokens(b, q) == cont_tokens(b, q.drop_last()) + tokenize_spec(b, split_comment_spec(b, p.0, p.1).0));
        assert(cont_tokens(b, q) =~= tokenize_spec(b, split_comment_spec(b, p.0, p.1).0) + cont_tokens(b, r));
    } else {
        lemma_cont_front(b, p, r.drop_last());
        assert(q.drop_last() =~= seq![p] + r.drop_last());
        assert(q.last() == r.last());
        assert(cont_tokens(b, q) == cont_tokens(b, q.drop_last()) + tokenize_spec(b, split_comment_spec(b, q.last().0, q.last().1).0));
        assert(cont_tokens(b, r) == cont_tokens(b, r.drop_last()) + tokenize_spec(b, split_comment_spec(b, r.last().0, r.last().1).0));
        assert(cont_tokens(b, q) =~= tokenize_spec(b, split_comment_spec(b, p.0, p.1).0) + cont_tokens(b, r));
    }
}

/// The first word of a directive as the formatter writes it: a lone `.`
/// (then the only word), or `.` and a keyword already in the chosen case.
pub open spec fn directive_word(x: Seq<Seq<u8>>, case: KeywordCase) -> bool {
    &&& x.len() > 0
    &&& x[0].len() >= 1
    &&& x[0][0] == 46u8
    &&& x[0].len() == 1 ==> x.len() == 1
    &&& x[0].len() >= 2 ==> case_word(case, x[0].subrange(1, x[0].len() as int)) == x[0].subrange(
        1,
        x[0].len() as int,
    )
}

proof fn lemma_spaced_tail_of_first(s: Seq<u8>, x: Seq<Seq<u8>>)
    requires
        spaced(s, x),
        x.len() > 0,
        x[0].len() >= 2,
    ensures
        spaced(s.subrange(1, s.len() as int), seq![x[0].subrange(1, x[0].len() as int)] + x.drop_first()),
{
    let w = x[0].subrange(1, x[0].len() as int);
    let y = seq![w] + x.drop_first();
    assert(y.drop_first() =~= x.drop_first());
    assert(y[0] == w);
    if x.len() == 1 {
        assert(s == x[0]);
        assert(s.subrange(1, s.len() as int) =~= w);
    } else {
        let g = choose|g: int|
            #![trigger s.subrange(x[0].len() + g, s.len() as int)]
            1 <= g && x[0].len() + g <= s.len() && s.subrange(0, x[0].len() as int) == x[0] && (
            forall|k: int| x[0].len() <= k < x[0].len() + g ==> s[k] == 32u8) && spaced(
                s.subrange(x[0].len() + g, s.len() as int),
                x.drop_first(),
            );
        let t = s.subrange(1, s.len() as int);
        assert(t.subrange(w.len() + g, t.len() as int) =~= s.subrange(x[0].len() + g, s.len() as int));
        assert(t.subrange(0, w.len() as int) =~= w);
        assert(forall|k: int| w.len() <= k < w.len() + g ==> t[k] == s[k + 1]);
        assert(spaced(t.subrange(y[0].len() + g, t.len() as int), y.drop_first()));
    }
}

/// A written directive line reads back as its words.
proof fn lemma_directive_head(b: Seq<u8>, a: int, j: Seq<u8>, x: Seq<Seq<u8>>, case: KeywordCase)
    requires
        0 <= a,
        a + j.len() <= b.len(),
        b.subrange(a, a + j.len()) == j,
        spaced(j, x),
        words(x),
        directive_word(x, case),
    ensures
        tokenize_directive_spec(b, (a, a + j.len()), case) == x,
{
    let n = j.len() as int;
    lemma_spaced_bytes(j, x);
    assert(b[a] == j[0]);
    assert(b[a + n - 1] == j[n - 1]);
    lemma_ws_len_local(b, a, a + n, j, 0);
    lemma_ws_len_back_local(b, a, a + n, j);
    assert(trim_win(b, a, a + n) == (a, a + n));
    assert(b[a] == 46u8);
    if x[0].len() == 1 {
        assert(x.len() == 1);
        assert(j == x[0]);
        assert(n == 1);
        assert(qtokens(b, a + 1, a + 1) == Seq::<(int, int)>::empty());
        assert(x =~= seq![seq![46u8]]) by {
            assert(x[0] =~= seq![46u8]);
        }
    } else {
        let w = x[0].subrange(1, x[0].len() as int);
        let y = seq![w] + x.drop_first();
        lemma_spaced_tail_of_first(j, x);
        assert(oword(x[0]));
        assert(!is_quote(x[0][0]));
        lemma_oword_tail(x[0]);
        if x.len() > 1 {
            lemma_words_tail(x);
            lemma_word_tail(x[0]);
        }
        assert forall|i: int| 0 <= i < y.len() implies oword(#[trigger] y[i]) by {
            if i > 0 {
                assert(y[i] == x[i]);
            }
        }
        assert forall|i: int| 0 <= i < y.len() - 1 implies word(#[trigger] y[i]) by {
            if i > 0 {
                assert(y[i] == x[i]);
            }
        }
        assert(b.subrange(a + 1, a + n) =~= j.subrange(1, n));
        lemma_tokens_of_spaced(b, a + 1, a + n, y);
        let parts = qtokens(b, a + 1, a + n);
        assert(tok_bytes(b, parts) == y);
        assert(parts.len() == y.len());
        assert(b.subrange(parts[0].0, parts[0].1) == tok_bytes(b, parts)[0]);
        assert(tok_bytes(b, parts.drop_first()) =~= tok_bytes(b, parts).drop_first());
        assert(seq![46u8] + w =~= x[0]);
        assert(tokenize_directive_spec(b, (a, a + n), case) =~= seq![seq![46u8] + case_word(case, w)] + y.drop_first());
        assert(y.drop_first() =~= x.drop_first());
        assert(seq![x[0]] + x.drop_first() =~= x);
    }
}

/// The window `ws[k]` of `b` holds the line `ls[k]`, for every `k`.
pub open spec fn windows_hold(b: Seq<u8>, ws: Seq<(int, int)>, ls: Seq<Seq<u8>>) -> bool {
    &&& ws.len() == ls.len()
    &&& forall|k: int|
        0 <= k < ws.len() ==> 0 <= (#[trigger] ws[k]).0 <= ws[k].1 <= b.len() && b.subrange(ws[k].0, ws[k].1)
            == ls[k]
}

proof fn lemma_holds_lines(b: Seq<u8>, ws: Seq<(int, int)>, ls: Seq<Seq<u8>>, gs: Seq<Seq<Seq<u8>>>, indent: int, c: Option<Seq<u8>>)
    requires
        windows_hold(b, ws, ls),
        written_lines(ls, gs, indent, c),
        c matches Some(t) ==> kept_comment(t),
    ensures
        forall|k: int|
            0 <= k < ws.len() ==> holds_line(
                b,
                #[trigger] ws[k],
                k,
                indent,
                if k == ws.len() - 1 {
                    c
                } else {
                    None
                },
                gs[k],
            ),
{
    assert forall|k: int| 0 <= k < ws.len() implies holds_line(
        b,
        #[trigger] ws[k],
        k,
        indent,
        if k == ws.len() - 1 {
            c
        } else {
            None
        },
        gs[k],
    ) by {
        assert(b.subrange(ws[k].0, ws[k].1) == ls[k]);
        assert(written_line(ls[k], k, indent, if k == ls.len() - 1 { c } else { None }, gs[k]));
    }
}

/// A `+` line written at position `k >= 1` is also the first `+` line as far
/// as its shape goes.
proof fn lemma_holds_shift(b: Seq<u8>, w: (int, int), k: int, indent: int, c: Option<Seq<u8>>, x: Seq<Seq<u8>>)
    requires
        k >= 1,
        holds_line(b, w, k, indent, c, x),
    ensures
        holds_line(b, w, 1, indent, c, x),
{
    assert(lead(k, indent) == lead(1, indent));
}

/// The content of a written code statement.
pub open spec fn code_ok(kind: PhysicalKind, orphan: bool, toks: Seq<Seq<u8>>, comment: Option<Seq<u8>>, case: KeywordCase, after_code: bool) -> bool {
    &&& toks.len() > 0
    &&& owords(toks)
    &&& comment matches Some(t) ==> kept_comment(t)
    &&& !orphan ==> {
        &&& kind != PhysicalKind::Blank
        &&& kind != PhysicalKind::Comment
        &&& kind != PhysicalKind::Continuation
        &&& physical_kind(toks[0], (0, toks[0].len() as int)) == kind
        &&& kind == PhysicalKind::Directive ==> directive_word(toks, case)
    }
    &&& orphan ==> kind == PhysicalKind::Other && toks[0] == seq![43u8] && !after_code
}

/// The later groups of a statement, read from its `+` lines.
proof fn lemma_tail_lines(b: Seq<u8>, ws: Seq<(int, int)>, gs: Seq<Seq<Seq<u8>>>, indent: int, c: Option<Seq<u8>>)
    requires
        ws.len() == gs.len(),
        ws.len() >= 1,
        indent >= 0,
        forall|k: int|
            0 <= k < ws.len() ==> holds_line(
                b,
                #[trigger] ws[k],
                k,
                indent,
                if k == ws.len() - 1 {
                    c
                } else {
                    None
                },
                gs[k],
            ),
    ensures
        forall|k: int| 0 <= k < ws.drop_first().len() ==> physical_kind(b, #[trigger] ws.drop_first()[k]) == PhysicalKind::Continuation,
        cont_tokens(b, pays(b, ws.drop_first())) == flat(gs.drop_first()),
        comment_bytes(b, last_comment(b, pays(b, ws.drop_first()))) == if ws.len() > 1 {
            c
        } else {
            None
        },
{
    let wt = ws.drop_first();
    let gt = gs.drop_first();
    assert forall|k: int| 0 <= k < wt.len() implies holds_line(
        b,
        #[trigger] wt[k],
        1,
        indent,
        if k == wt.len() - 1 {
            c
        } else {
            None
        },
        gt[k],
    ) by {
        assert(wt[k] == ws[k + 1]);
        assert(gt[k] == gs[k + 1]);
        lemma_holds_shift(b, ws[k + 1], k + 1, indent, if k + 1 == ws.len() - 1 { c } else { None }, gs[k + 1]);
    }
    lemma_cont_tokens(b, wt, gt, indent, c);
}

/// Grouping the written lines of a code statement with a head line gives
/// back a statement with the same content.
#[verifier::rlimit(60)]
#[verifier::spinoff_prover]
proof fn lemma_group_head(
    b: Seq<u8>,
    st: Seq<StmtV>,
    ws: Seq<(int, int)>,
    gs: Seq<Seq<Seq<u8>>>,
    kind: PhysicalKind,
    toks: Seq<Seq<u8>>,
    comment: Option<Seq<u8>>,
    opts: FormatOptions,
)
    requires
        ws.len() == gs.len(),
        ws.len() >= 1,
        flat(gs) == toks,
        code_ok(kind, false, toks, comment, opts.keyword_case, st.len() > 0 && st.last() is Code),
        forall|k: int|
            0 <= k < ws.len() ==> holds_line(
                b,
                #[trigger] ws[k],
                k,
                opts.indent_width as int,
                if k == ws.len() - 1 {
                    comment
                } else {
                    None
                },
                gs[k],
            ),
    ensures
        gfold(st, b, ws).len() == st.len() + 1,
        gfold(st, b, ws).drop_last() == st,
        content_of(b, gfold(st, b, ws).last(), opts.keyword_case) == (Content::Code {
            kind,
            orphan: false,
            toks,
            comment,
        }),
{
    let indent = opts.indent_width as int;
    let case = opts.keyword_case;
    let m = ws.len();
    let w0 = ws[0];
    let c0 = if m == 1 {
        comment
    } else {
        None
    };
    assert(holds_line(b, w0, 0, indent, c0, gs[0]));
    let line0 = b.subrange(w0.0, w0.1);
    let j0 = words_part(line0, 0, indent, c0);
    assert(line0 =~= with_comment(j0, c0));
    lemma_flat_front(gs);
    assert(toks[0] == gs[0][0]);
    lemma_kind_head(b, w0.0, w0.1, j0, gs[0], c0);
    assert(physical_kind(b, w0) == kind);
    let st1 = st.push(StmtV::Code { kind, head: Some(w0), conts: seq![] });
    assert(gfold(st, b, seq![w0]) == st1) by {
        assert(seq![w0].drop_last() =~= Seq::<(int, int)>::empty());
        assert(gfold(st, b, seq![w0].drop_last()) == st);
        assert(seq![w0].last() == w0);
        assert(gfold(st, b, seq![w0]) == group_step(st, b, w0));
        assert(kind != PhysicalKind::Blank && kind != PhysicalKind::Comment && kind != PhysicalKind::Continuation);
    }
    assert(ws =~= seq![w0] + ws.drop_first());
    lemma_gfold_concat(st, b, seq![w0], ws.drop_first());
    lemma_tail_lines(b, ws, gs, indent, comment);
    lemma_gfold_conts(st1, b, ws.drop_first());
    let conts = pays(b, ws.drop_first());
    let s2 = StmtV::Code { kind, head: Some(w0), conts: seq![] + conts };
    assert(seq![] + conts =~= conts);
    assert(gfold(st, b, ws) == st.push(s2));
    // tokens
    lemma_split_written(b, w0.0, w0.1, j0, gs[0], c0);
    let code = split_comment_spec(b, w0.0, w0.1).0;
    assert(code == (w0.0, w0.0 + j0.len()));
    if kind == PhysicalKind::Directive {
        assert(b.subrange(w0.0, w0.0 + j0.len()) =~= j0) by {
            lemma_with_comment_prefix(j0, c0);
            assert(b.subrange(w0.0, w0.0 + j0.len()) =~= line0.subrange(0, j0.len() as int));
        }
        assert(directive_word(toks, case));
        assert(directive_word(gs[0], case)) by {
            assert(gs[0][0] == toks[0]);
            if toks[0].len() == 1 {
                assert(toks.len() == 1);
                assert(gs[0].len() >= 1);
                assert(flat(gs.drop_first()).len() == 0);
            }
        }
        lemma_directive_head(b, w0.0, j0, gs[0], case);
    }
    assert(stmt_tokens(b, kind, Some(w0), conts, case) == gs[0] + flat(gs.drop_first())) by {
        if kind == PhysicalKind::Directive {
            assert(toks == gs[0] + flat(gs.drop_first()));
            lemma_join_dot_id(toks, case);
        }
    }
    assert(code_tokens(b, s2, case) == toks);
    // comment
    if m == 1 {
        assert(ws.drop_first().len() == 0);
        assert(conts.len() == 0);
        if let Some(t) = comment {
            lemma_with_comment_prefix(j0, c0);
            assert(b.subrange(w0.0 + j0.len() + 2, w0.1) =~= line0.subrange(j0.len() as int + 2, line0.len() as int));
            assert(line0.subrange(j0.len() as int + 2, line0.len() as int) =~= t);
        }
    }
    assert(code_comment(b, s2) == comment);
}

/// Grouping the written lines of a statement without head line (led by a
/// `+` word) gives back a statement with the same content.
/// Tokens the formatter writes for a directive already have their keyword
/// joined to the dot.
proof fn lemma_join_dot_id(x: Seq<Seq<u8>>, case: KeywordCase)
    requires
        directive_word(x, case),
    ensures
        join_dot(x, case) == x,
{
    reveal(join_dot);
}

/// The tokens of an orphan statement: its `+`, then those of its lines.
proof fn lemma_orphan_tokens(b: Seq<u8>, conts: Seq<(int, int)>, case: KeywordCase)
    ensures
        code_tokens(b, StmtV::Code { kind: PhysicalKind::Other, head: None, conts }, case) == seq![
            seq![43u8],
        ] + cont_tokens(b, conts),
{
}

/// The first line of an orphan statement with words after its `+`: its
/// payload reads back as those words and the comment.
#[verifier::rlimit(60)]
#[verifier::spinoff_prover]
proof fn lemma_orphan_first_words(b: Seq<u8>, w0: (int, int), indent: int, c0: Option<Seq<u8>>, x0: Seq<Seq<u8>>)
    requires
        holds_line(b, w0, 0, indent, c0, x0),
        x0.len() > 0,
        x0[0] == seq![43u8],
        indent >= 0,
        x0.len() >= 2,
    ensures
        physical_kind(b, w0) == PhysicalKind::Continuation,
        tokenize_spec(b, split_comment_spec(b, payload(b, w0).0, payload(b, w0).1).0) == x0.drop_first(),
        comment_bytes(b, split_comment_spec(b, payload(b, w0).0, payload(b, w0).1).1) == c0,
{
    let line0 = b.subrange(w0.0, w0.1);
    let j0 = words_part(line0, 0, indent, c0);
    assert(line0 =~= with_comment(j0, c0));
    assert(words(x0));
    lemma_spaced_bytes(j0, x0);
    lemma_with_comment_prefix(j0, c0);
    assert(b[w0.0] == line0[0]);
    assert(line0[0] == j0[0]);
    assert(j0[0] == 43u8);
    lemma_kind_plus(b, w0.0, w0.1);
    let x1 = x0.drop_first();
    let g = choose|g: int|
        #![trigger j0.subrange(x0[0].len() + g, j0.len() as int)]
        1 <= g && x0[0].len() + g <= j0.len() && j0.subrange(0, x0[0].len() as int) == x0[0] && (
        forall|k: int| x0[0].len() <= k < x0[0].len() + g ==> j0[k] == 32u8) && spaced(
            j0.subrange(x0[0].len() + g, j0.len() as int),
            x0.drop_first(),
        );
    assert(x0[0].len() == 1);
    let j1 = j0.subrange(1 + g, j0.len() as int);
    let r1 = with_comment(j1, c0);
    assert(line0 =~= seq![43u8] + spaces(g) + r1);
    lemma_words_tail(x0);
    assert(x1.last() == x0.last());
    lemma_spaced_bytes(j1, x1);
    lemma_with_comment_prefix(j1, c0);
    assert(b.subrange(w0.0, w0.1) == seq![43u8] + spaces(g) + r1);
    lemma_orphan_read(b, w0, g, j1, x1, c0);
}

/// A `+` line, spaces, then a spaced line and maybe a comment: its payload
/// reads back as those words and the comment.
#[verifier::rlimit(60)]
#[verifier::spinoff_prover]
proof fn lemma_orphan_read(b: Seq<u8>, w0: (int, int), g: int, j1: Seq<u8>, x1: Seq<Seq<u8>>, c0: Option<Seq<u8>>)
    requires
        0 <= w0.0 <= w0.1 <= b.len(),
        g >= 1,
        b.subrange(w0.0, w0.1) == seq![43u8] + spaces(g) + with_comment(j1, c0),
        spaced(j1, x1),
        words(x1),
        x1.len() > 0,
        c0 matches Some(t) ==> kept_comment(t),
        c0 is Some ==> qopen(x1.last(), x1.last().len() as int) is None,
    ensures
        tokenize_spec(b, split_comment_spec(b, payload(b, w0).0, payload(b, w0).1).0) == x1,
        comment_bytes(b, split_comment_spec(b, payload(b, w0).0, payload(b, w0).1).1) == c0,
{
    let line0 = b.subrange(w0.0, w0.1);
    let r1 = with_comment(j1, c0);
    lemma_spaced_bytes(j1, x1);
    lemma_with_comment_prefix(j1, c0);
    assert(b.subrange(w0.0 + 1 + g, w0.1) =~= line0.subrange(1 + g, line0.len() as int));
    assert(line0.subrange(1 + g, line0.len() as int) =~= r1);
    assert(b.subrange(w0.0 + 1 + g, w0.1) =~= r1);
    lemma_written_start(b, w0.0 + 1 + g, w0.1, j1, x1, c0);
    lemma_payload_lead(b, w0.0, w0.1, g, r1);
    lemma_split_written(b, w0.0 + 1 + g, w0.1, j1, x1, c0);
    if let Some(t) = c0 {
        assert(b.subrange(w0.0 + 1 + g + j1.len() + 2, w0.1) =~= r1.subrange(j1.len() as int + 2, r1.len() as int));
        assert(r1.subrange(j1.len() as int + 2, r1.len() as int) =~= t);
    }
}

/// The first line of an orphan statement with nothing after its `+` but
/// maybe a comment.
#[verifier::rlimit(60)]
#[verifier::spinoff_prover]
proof fn lemma_orphan_first_alone(b: Seq<u8>, w0: (int, int), indent: int, c0: Option<Seq<u8>>, x0: Seq<Seq<u8>>)
    requires
        holds_line(b, w0, 0, indent, c0, x0),
        x0.len() > 0,
        x0[0] == seq![43u8],
        indent >= 0,
        x0.len() == 1,
    ensures
        physical_kind(b, w0) == PhysicalKind::Continuation,
        tokenize_spec(b, split_comment_spec(b, payload(b, w0).0, payload(b, w0).1).0) == x0.drop_first(),
        comment_bytes(b, split_comment_spec(b, payload(b, w0).0, payload(b, w0).1).1) == c0,
{
    let line0 = b.subrange(w0.0, w0.1);
    let j0 = words_part(line0, 0, indent, c0);
    assert(line0 =~= with_comment(j0, c0));
    assert(words(x0));
    lemma_spaced_bytes(j0, x0);
    lemma_with_comment_prefix(j0, c0);
    assert(b[w0.0] == line0[0]);
    assert(line0[0] == j0[0]);
    assert(j0[0] == 43u8);
    lemma_kind_plus(b, w0.0, w0.1);
    let x1 = x0.drop_first();
    assert(x0.len() == 1);
    assert(j0 == x0[0]);
    assert(j0 =~= seq![43u8]);
    let g = if c0 is Some {
        2int
    } else {
        0int
    };
    let r1 = match c0 {
        Some(t) => t,
        None => Seq::<u8>::empty(),
    };
    assert(line0 =~= seq![43u8] + spaces(g) + r1);
    assert(b.subrange(w0.0 + 1 + g, w0.1) =~= line0.subrange(1 + g, line0.len() as int));
    assert(line0.subrange(1 + g, line0.len() as int) =~= r1);
    assert(b.subrange(w0.0 + 1 + g, w0.1) =~= r1);
    if let Some(t) = c0 {
        assert(b[w0.0 + 1 + g] == t[0]);
        lemma_ws_len_ascii(b, w0.0 + 1 + g, w0.1);
    }
    lemma_payload_lead(b, w0.0, w0.1, g, r1);
    lemma_split_comment_only(b, w0.0 + 1 + g, w0.1, c0);
    assert(x1 =~= Seq::<Seq<u8>>::empty());
}

/// The first line of an orphan statement: a `+` line whose payload reads
/// back as the words after its `+` and the comment.
proof fn lemma_orphan_first_line(b: Seq<u8>, w0: (int, int), indent: int, c0: Option<Seq<u8>>, x0: Seq<Seq<u8>>)
    requires
        holds_line(b, w0, 0, indent, c0, x0),
        x0.len() > 0,
        x0[0] == seq![43u8],
        indent >= 0,
    ensures
        physical_kind(b, w0) == PhysicalKind::Continuation,
        tokenize_spec(b, split_comment_spec(b, payload(b, w0).0, payload(b, w0).1).0) == x0.drop_first(),
        comment_bytes(b, split_comment_spec(b, payload(b, w0).0, payload(b, w0).1).1) == c0,
{
    if x0.len() >= 2 {
        lemma_orphan_first_words(b, w0, indent, c0, x0);
    } else {
        lemma_orphan_first_alone(b, w0, indent, c0, x0);
    }
}

#[verifier::rlimit(100)]
#[verifier::spinoff_prover]
proof fn lemma_group_orphan(
    b: Seq<u8>,
    st: Seq<StmtV>,
    ws: Seq<(int, int)>,
    gs: Seq<Seq<Seq<u8>>>,
    toks: Seq<Seq<u8>>,
    comment: Option<Seq<u8>>,
    opts: FormatOptions,
)
    requires
        ws.len() == gs.len(),
        ws.len() >= 1,
        flat(gs) == toks,
        code_ok(PhysicalKind::Other, true, toks, comment, opts.keyword_case, st.len() > 0 && st.last() is Code),
        forall|k: int|
            0 <= k < ws.len() ==> holds_line(
                b,
                #[trigger] ws[k],
                k,
                opts.indent_width as int,
                if k == ws.len() - 1 {
                    comment
                } else {
                    None
                },
                gs[k],
            ),
    ensures
        gfold(st, b, ws).len() == st.len() + 1,
        gfold(st, b, ws).drop_last() == st,
        content_of(b, gfold(st, b, ws).last(), opts.keyword_case) == (Content::Code {
            kind: PhysicalKind::Other,
            orphan: true,
            toks,
            comment,
        }),
{
    let indent = opts.indent_width as int;
    let case = opts.keyword_case;
    let m = ws.len();
    let w0 = ws[0];
    let c0 = if m == 1 {
        comment
    } else {
        None
    };
    assert(holds_line(b, w0, 0, indent, c0, gs[0]));
    lemma_flat_front(gs);
    assert(toks[0] == gs[0][0]);
    let x0 = gs[0];
    lemma_orphan_first_line(b, w0, indent, c0, x0);
    let p0 = payload(b, w0);
    let st1 = st.push(StmtV::Code { kind: PhysicalKind::Other, head: None, conts: seq![p0] });
    assert(gfold(st, b, seq![w0]) == st1) by {
        assert(seq![w0].drop_last() =~= Seq::<(int, int)>::empty());
        assert(gfold(st, b, seq![w0].drop_last()) == st);
        assert(seq![w0].last() == w0);
        assert(gfold(st, b, seq![w0]) == group_step(st, b, w0));
    }
    assert(ws =~= seq![w0] + ws.drop_first());
    lemma_gfold_concat(st, b, seq![w0], ws.drop_first());
    lemma_tail_lines(b, ws, gs, indent, comment);
    lemma_gfold_conts(st1, b, ws.drop_first());
    let rest = pays(b, ws.drop_first());
    let conts = seq![p0] + rest;
    let s2 = StmtV::Code { kind: PhysicalKind::Other, head: None, conts };
    assert(gfold(st, b, ws) == st.push(s2));
    let x1 = x0.drop_first();
    lemma_cont_front(b, p0, rest);
    assert(x0 =~= seq![seq![43u8]] + x1);
    assert(cont_tokens(b, conts) == x1 + flat(gs.drop_first()));
    lemma_orphan_tokens(b, conts, case);
    assert(code_tokens(b, s2, case) == seq![seq![43u8]] + (x1 + flat(gs.drop_first())));
    assert(code_tokens(b, s2, case) =~= toks);
    assert(code_comment(b, s2) == comment) by {
        if m >= 2 {
            if comment is None {
                assert(last_comment(b, rest) is None);
            }
        } else {
            assert(rest.len() == 0);
            assert(last_comment(b, rest) is None);
        }
    }
}

/// Each content a statement can have.
pub open spec fn content_ok(ct: Content, case: KeywordCase, after_code: bool) -> bool {
    match ct {
        Content::Blank => true,
        Content::Comment(l) => {
            &&& l.len() > 0
            &&& forall|k: int| 0 <= k < l.len() ==> #[trigger] l[k] != 10u8
            &&& ws_len_back(l, 0, l.len() as int) == 0
            &&& physical_kind(l, (0, l.len() as int)) == PhysicalKind::Comment
        },
        Content::Code { kind, orphan, toks, comment } => code_ok(kind, orphan, toks, comment, case, after_code),
    }
}

proof fn lemma_group_blank(b: Seq<u8>, st: Seq<StmtV>, w: (int, int), case: KeywordCase)
    requires
        0 <= w.0 <= w.1 <= b.len(),
        b.subrange(w.0, w.1) == Seq::<u8>::empty(),
    ensures
        gfold(st, b, seq![w]) == st.push(StmtV::Blank),
        content_of(b, StmtV::Blank, case) == Content::Blank,
{
    assert(b.subrange(w.0, w.1).len() == w.1 - w.0);
    assert(w.0 == w.1);
    assert(seq![w].drop_last() =~= Seq::<(int, int)>::empty());
    assert(gfold(st, b, seq![w].drop_last()) == st);
}

proof fn lemma_group_comment(b: Seq<u8>, st: Seq<StmtV>, w: (int, int), l: Seq<u8>, case: KeywordCase)
    requires
        0 <= w.0 <= w.1 <= b.len(),
        b.subrange(w.0, w.1) == l,
        content_ok(Content::Comment(l), case, false),
    ensures
        gfold(st, b, seq![w]) == st.push(StmtV::Comment(w)),
        content_of(b, StmtV::Comment(w), case) == Content::Comment(l),
{
    lemma_kind_local(b, w, l);
    assert(physical_kind(b, w) == PhysicalKind::Comment);
    assert(seq![w].drop_last() =~= Seq::<(int, int)>::empty());
    assert(gfold(st, b, seq![w].drop_last()) == st);
    lemma_ws_len_back_local(b, w.0, w.1, l);
    assert(rskip_ws(b, w.0, w.1) == w.1);
}

proof fn lemma_width_ge(toks: Seq<Seq<Seq<u8>>>, m: int, c: int)
    requires
        0 <= m < toks.len(),
        0 <= c < toks[m].len(),
    ensures
        width_at(toks, c) >= toks[m][c].len(),
    decreases toks.len(),
{
    if m < toks.len() - 1 {
        lemma_width_ge(toks.drop_last(), m, c);
        assert(toks.drop_last()[m] == toks[m]);
    }
}

/// Column widths that fit the words: one per word at least, each at least
/// as wide as its word.
pub open spec fn widths_fit(w: Option<Seq<int>>, ts: Seq<Seq<u8>>) -> bool {
    w matches Some(v) ==> ts.len() <= v.len() && forall|k: int|
        0 <= k < ts.len() ==> v[k] >= (#[trigger] ts[k]).len()
}

/// The lines written for one statement.
pub open spec fn group_ok(ct: Content, grp: Seq<Seq<u8>>, opts: FormatOptions) -> bool {
    match ct {
        Content::Blank => grp == seq![Seq::<u8>::empty()],
        Content::Comment(l) => grp == seq![l],
        Content::Code { toks, comment, .. } => exists|w: Option<Seq<int>>|
            #![trigger widths_fit(w, toks)]
            widths_fit(w, toks) && grp == emit_spec(
                toks,
                comment,
                w,
                opts.indent_width as int,
                opts.max_line_width as int,
            ),
    }
}

pub open spec fn block_groups(blk: Seq<Content>, widths: Seq<int>, opts: FormatOptions, n: int) -> Seq<Seq<Seq<u8>>>
    decreases n,
{
    if n <= 0 {
        seq![]
    } else {
        block_groups(blk, widths, opts, n - 1).push(
            emit_spec(
                c_toks(blk[n - 1]),
                c_comment(blk[n - 1]),
                Some(widths),
                opts.indent_width as int,
                opts.max_line_width as int,
            ),
        )
    }
}

/// The lines written for each statement from `i` on.
pub open spec fn c_groups(cs: Seq<Content>, i: int, opts: FormatOptions) -> Seq<Seq<Seq<u8>>>
    decreases cs.len() - i,
{
    if i < 0 || i >= cs.len() {
        seq![]
    } else {
        match cs[i] {
            Content::Blank => seq![seq![Seq::<u8>::empty()]] + c_groups(cs, i + 1, opts),
            Content::Comment(l) => seq![seq![l]] + c_groups(cs, i + 1, opts),
            Content::Code { kind, .. } => if kind == PhysicalKind::Instance && opts.align_columns {
                let j = c_run_end(cs, i + 1);
                if i < j <= cs.len() {
                    block_groups(cs.subrange(i, j), c_widths(cs.subrange(i, j)), opts, j - i) + c_groups(
                        cs,
                        j,
                        opts,
                    )
                } else {
                    seq![]
                }
            } else {
                seq![c_render_code(cs[i], opts)] + c_groups(cs, i + 1, opts)
            },
        }
    }
}

pub proof fn lemma_c_run_end(cs: Seq<Content>, i: int)
    requires
        0 <= i <= cs.len(),
    ensures
        i <= c_run_end(cs, i) <= cs.len(),
        forall|k: int| i <= k < c_run_end(cs, i) ==> c_inst(#[trigger] cs[k]),
    decreases cs.len() - i,
{
    if i < cs.len() && c_inst(cs[i]) {
        lemma_c_run_end(cs, i + 1);
    }
}

pub proof fn lemma_flat_concat(a: Seq<Seq<Seq<u8>>>, c: Seq<Seq<Seq<u8>>>)
    ensures
        flat(a + c) == flat(a) + flat(c),
    decreases c.len(),
{
    if c.len() == 0 {
        assert(a + c =~= a);
        assert(flat(a) + flat(c) =~= flat(a));
    } else {
        lemma_flat_concat(a, c.drop_last());
        assert((a + c).drop_last() =~= a + c.drop_last());
        assert((a + c).last() == c.last());
        assert(flat(a + c) =~= flat(a) + flat(c));
    }
}

proof fn lemma_block_groups(blk: Seq<Content>, widths: Seq<int>, opts: FormatOptions, n: int)
    requires
        0 <= n <= blk.len(),
        forall|m: int| 0 <= m < blk.len() ==> widths_fit(Some(widths), c_toks(#[trigger] blk[m])),
    ensures
        flat(block_groups(blk, widths, opts, n)) == c_block_lines(blk, widths, opts, n),
        block_groups(blk, widths, opts, n).len() == n,
        forall|m: int| 0 <= m < n ==> #[trigger] block_groups(blk, widths, opts, n)[m] == emit_spec(
            c_toks(blk[m]),
            c_comment(blk[m]),
            Some(widths),
            opts.indent_width as int,
            opts.max_line_width as int,
        ),
    decreases n,
{
    if n > 0 {
        lemma_block_groups(blk, widths, opts, n - 1);
        let g = block_groups(blk, widths, opts, n);
        assert(g.drop_last() =~= block_groups(blk, widths, opts, n - 1));
        assert forall|m: int| 0 <= m < n implies #[trigger] g[m] == emit_spec(
            c_toks(blk[m]),
            c_comment(blk[m]),
            Some(widths),
            opts.indent_width as int,
            opts.max_line_width as int,
        ) by {
            if m < n - 1 {
                assert(g[m] == block_groups(blk, widths, opts, n - 1)[m]);
            }
        }
    } else {
        assert(flat(Seq::<Seq<Seq<u8>>>::empty()) == Seq::<Seq<u8>>::empty());
    }
}

/// The lines written for the statements from `i` on are the groups, one
/// per statement, each what that statement writes.
#[verifier::rlimit(40)]
pub proof fn lemma_c_groups(cs: Seq<Content>, i: int, opts: FormatOptions)
    requires
        0 <= i <= cs.len(),
    ensures
        flat(c_groups(cs, i, opts)) == c_render(cs, i, opts),
        c_groups(cs, i, opts).len() == cs.len() - i,
        forall|k: int| 0 <= k < cs.len() - i ==> group_ok(cs[i + k], #[trigger] c_groups(cs, i, opts)[k], opts),
    decreases cs.len() - i,
{
    let gr = c_groups(cs, i, opts);
    if i < cs.len() {
        match cs[i] {
            Content::Code { kind, toks, comment, .. } => {
                if kind == PhysicalKind::Instance && opts.align_columns {
                    let j = c_run_end(cs, i + 1);
                    lemma_c_run_end(cs, i + 1);
                    lemma_c_groups(cs, j, opts);
                    let blk = cs.subrange(i, j);
                    let tk = blk.map_values(|c: Content| c_toks(c));
                    let wd = c_widths(blk);
                    assert forall|m: int| 0 <= m < blk.len() implies widths_fit(Some(wd), c_toks(#[trigger] blk[m])) by {
                        assert(tk[m] == c_toks(blk[m]));
                        crate::format::lemma_col_count_ge(tk, m);
                        assert forall|c: int| 0 <= c < tk[m].len() implies wd[c] >= (#[trigger] tk[m][c]).len() by {
                            lemma_width_ge(tk, m, c);
                        }
                    }
                    lemma_block_groups(blk, wd, opts, j - i);
                    let bg = block_groups(blk, wd, opts, j - i);
                    lemma_flat_concat(bg, c_groups(cs, j, opts));
                    assert forall|k: int| 0 <= k < cs.len() - i implies group_ok(cs[i + k], #[trigger] gr[k], opts) by {
                        if k < j - i {
                            assert(gr[k] == bg[k]);
                            assert(blk[k] == cs[i + k]);
                            assert(c_inst(cs[i + k]));
                            let bt = c_toks(blk[k]);
                            assert(widths_fit(Some(wd), bt));
                        } else {
                            assert(gr[k] == c_groups(cs, j, opts)[k - (j - i)]);
                            assert(cs[i + k] == cs[j + (k - (j - i))]);
                        }
                    }
                } else {
                    lemma_c_groups(cs, i + 1, opts);
                    let rest = c_groups(cs, i + 1, opts);
                    lemma_flat_concat(seq![c_render_code(cs[i], opts)], rest);
                    assert(flat(seq![c_render_code(cs[i], opts)]) == c_render_code(cs[i], opts)) by {
                        assert(seq![c_render_code(cs[i], opts)].drop_last() =~= Seq::<Seq<Seq<u8>>>::empty());
                        assert(flat(Seq::<Seq<Seq<u8>>>::empty()) == Seq::<Seq<u8>>::empty());
                        assert(Seq::<Seq<u8>>::empty() + c_render_code(cs[i], opts) =~= c_render_code(cs[i], opts));
                    }
                    assert forall|k: int| 0 <= k < cs.len() - i implies group_ok(cs[i + k], #[trigger] gr[k], opts) by {
                        if k == 0 {
                            assert(gr[0] == c_render_code(cs[i], opts));
                            assert(widths_fit(None::<Seq<int>>, toks));
                        } else {
                            assert(gr[k] == rest[k - 1]);
                            assert(cs[i + k] == cs[(i + 1) + (k - 1)]);
                        }
                    }
                }
            },
            _ => {
                lemma_c_groups(cs, i + 1, opts);
                let rest = c_groups(cs, i + 1, opts);
                let first = gr[0];
                assert(gr == seq![first] + rest);
                lemma_flat_concat(seq![first], rest);
                assert(flat(seq![first]) == first) by {
                    assert(seq![first].drop_last() =~= Seq::<Seq<Seq<u8>>>::empty());
                    assert(flat(Seq::<Seq<Seq<u8>>>::empty()) == Seq::<Seq<u8>>::empty());
                    assert(Seq::<Seq<u8>>::empty() + first =~= first);
                }
                assert forall|k: int| 0 <= k < cs.len() - i implies group_ok(cs[i + k], #[trigger] gr[k], opts) by {
                    if k > 0 {
                        assert(gr[k] == rest[k - 1]);
                        assert(cs[i + k] == cs[(i + 1) + (k - 1)]);
                    }
                }
            },
        }
    } else {
        assert(flat(Seq::<Seq<Seq<u8>>>::empty()) == Seq::<Seq<u8>>::empty());
    }
}

/// Every statement's content is one the formatter writes back faithfully.
pub open spec fn contents_ok(cs: Seq<Content>, case: KeywordCase) -> bool {
    forall|k: int| 0 <= k < cs.len() ==> content_ok(#[trigger] cs[k], case, k > 0 && cs[k - 1] is Code)
}

pub open spec fn off(gs: Seq<Seq<Seq<u8>>>, k: int) -> int {
    flat(gs.take(k)).len() as int
}

proof fn lemma_flat_at(gs: Seq<Seq<Seq<u8>>>, k: int)
    requires
        0 <= k < gs.len(),
    ensures
        off(gs, k + 1) == off(gs, k) + gs[k].len(),
        off(gs, k + 1) <= flat(gs).len(),
        flat(gs).subrange(off(gs, k), off(gs, k + 1)) == gs[k],
{
    let a = gs.take(k);
    let c = gs.subrange(k + 1, gs.len() as int);
    assert(gs.take(k + 1) =~= a.push(gs[k]));
    assert(gs.take(k + 1).drop_last() =~= a);
    assert(flat(gs.take(k + 1)) == flat(a) + gs[k]);
    assert(gs =~= gs.take(k + 1) + c);
    lemma_flat_concat(gs.take(k + 1), c);
    assert(flat(gs).subrange(off(gs, k), off(gs, k + 1)) =~= gs[k]);
}

proof fn lemma_windows_sub(b: Seq<u8>, lw: Seq<(int, int)>, ls: Seq<Seq<u8>>, p: int, q: int)
    requires
        windows_hold(b, lw, ls),
        0 <= p <= q <= ls.len(),
    ensures
        windows_hold(b, lw.subrange(p, q), ls.subrange(p, q)),
{
    assert forall|k: int| 0 <= k < q - p implies 0 <= (#[trigger] lw.subrange(p, q)[k]).0 <= lw.subrange(p, q)[k].1 <= b.len()
        && b.subrange(lw.subrange(p, q)[k].0, lw.subrange(p, q)[k].1) == ls.subrange(p, q)[k] by {
        assert(lw.subrange(p, q)[k] == lw[p + k]);
        assert(ls.subrange(p, q)[k] == ls[p + k]);
    }
}

/// One statement's written lines, grouped after the statements before it.
#[verifier::rlimit(40)]
proof fn lemma_group_one(b: Seq<u8>, st: Seq<StmtV>, ws: Seq<(int, int)>, ct: Content, grp: Seq<Seq<u8>>, opts: FormatOptions)
    requires
        windows_hold(b, ws, grp),
        group_ok(ct, grp, opts),
        content_ok(ct, opts.keyword_case, st.len() > 0 && st.last() is Code),
    ensures
        gfold(st, b, ws).len() == st.len() + 1,
        gfold(st, b, ws).drop_last() == st,
        content_of(b, gfold(st, b, ws).last(), opts.keyword_case) == ct,
{
    let case = opts.keyword_case;
    match ct {
        Content::Blank => {
            assert(ws.len() == 1);
            assert(ws =~= seq![ws[0]]);
            lemma_group_blank(b, st, ws[0], case);
        },
        Content::Comment(l) => {
            assert(ws.len() == 1);
            assert(ws =~= seq![ws[0]]);
            lemma_group_comment(b, st, ws[0], l, case);
        },
        Content::Code { kind, orphan, toks, comment } => {
            let w = choose|w: Option<Seq<int>>|
                #![trigger widths_fit(w, toks)]
                widths_fit(w, toks) && grp == emit_spec(
                    toks,
                    comment,
                    w,
                    opts.indent_width as int,
                    opts.max_line_width as int,
                );
            let gs = lemma_emit_spec(toks, comment, w, opts.indent_width as int, opts.max_line_width as int);
            lemma_holds_lines(b, ws, grp, gs, opts.indent_width as int, comment);
            if orphan {
                lemma_group_orphan(b, st, ws, gs, toks, comment, opts);
            } else {
                lemma_group_head(b, st, ws, gs, kind, toks, comment, opts);
            }
        },
    }
}

/// Grouping all written lines gives back the statements' contents.
pub proof fn lemma_group_prefix(b: Seq<u8>, lw: Seq<(int, int)>, cs: Seq<Content>, gs: Seq<Seq<Seq<u8>>>, opts: FormatOptions, k: int)
    requires
        windows_hold(b, lw, flat(gs)),
        gs.len() == cs.len(),
        forall|m: int| 0 <= m < cs.len() ==> group_ok(cs[m], #[trigger] gs[m], opts),
        contents_ok(cs, opts.keyword_case),
        0 <= k <= cs.len(),
    ensures
        gfold(seq![], b, lw.take(off(gs, k))).len() == k,
        forall|m: int| 0 <= m < k ==> content_of(b, #[trigger] gfold(seq![], b, lw.take(off(gs, k)))[m], opts.keyword_case) == cs[m],
    decreases k,
{
    if k == 0 {
        assert(gs.take(0) =~= Seq::<Seq<Seq<u8>>>::empty());
        assert(flat(Seq::<Seq<Seq<u8>>>::empty()) == Seq::<Seq<u8>>::empty());
        assert(lw.take(0) =~= Seq::<(int, int)>::empty());
    } else {
        lemma_group_prefix(b, lw, cs, gs, opts, k - 1);
        lemma_flat_at(gs, k - 1);
        let p = off(gs, k - 1);
        let q = off(gs, k);
        let st = gfold(seq![], b, lw.take(p));
        let ws = lw.subrange(p, q);
        lemma_windows_sub(b, lw, flat(gs), p, q);
        assert(lw.take(q) =~= lw.take(p) + ws);
        lemma_gfold_concat(seq![], b, lw.take(p), ws);
        assert(content_ok(cs[k - 1], opts.keyword_case, k - 1 > 0 && cs[k - 2] is Code));
        if k - 1 > 0 {
            assert(content_of(b, st[k - 2], opts.keyword_case) == cs[k - 2]);
            assert((st.last() is Code) == (cs[k - 2] is Code));
        }
        lemma_group_one(b, st, ws, cs[k - 1], gs[k - 1], opts);
        let st2 = gfold(st, b, ws);
        assert forall|m: int| 0 <= m < k implies content_of(b, #[trigger] st2[m], opts.keyword_case) == cs[m] by {
            if m < k - 1 {
                assert(st2[m] == st2.drop_last()[m]);
            }
        }
    }
}

} // verus!
