//! The JSON scanner: a lenient lexer that indexes whatever structure it can see.
use vstd::prelude::*;

use super::{IoMemento, Tok};

verus! {

/// An open container or string waiting for its closing byte: `(open, tag)`.
pub type Pending = (usize, IoMemento);

/// Bytes that continue a number run: digits, `.`, `e`, `E`, `+`, `-`.
pub open spec fn is_num_byte(b: u8) -> bool {
    (0x30 <= b <= 0x39) || b == 0x2e || b == 0x65 || b == 0x45 || b == 0x2b || b == 0x2d
}

/// Bytes that start a number: digits, `+`, `-`.
pub open spec fn is_num_start(b: u8) -> bool {
    (0x30 <= b <= 0x39) || b == 0x2b || b == 0x2d
}

/// The end (exclusive) of the number run starting at `i`.
pub open spec fn num_run_end(src: Seq<u8>, i: int) -> int
    decreases src.len() - i,
{
    if 0 <= i < src.len() && is_num_byte(src[i]) {
        num_run_end(src, i + 1)
    } else {
        i
    }
}

/// Close every pending span at `last`, innermost first.
pub open spec fn close_pending(stack: Seq<Pending>, toks: Seq<Tok>, last: usize) -> Seq<Tok>
    decreases stack.len(),
{
    if stack.len() == 0 {
        toks
    } else {
        close_pending(stack.drop_last(), toks.push((stack.last().0, last, stack.last().1)), last)
    }
}

/// Pop the innermost pending span, closing it at `i` (nothing happens when none is pending).
pub open spec fn pop_close(stack: Seq<Pending>, toks: Seq<Tok>, i: int) -> (Seq<Pending>, Seq<Tok>) {
    if stack.len() == 0 {
        (stack, toks)
    } else {
        (stack.drop_last(), toks.push((stack.last().0, i as usize, stack.last().1)))
    }
}

/// The JSON lexer from position `i`: emits tokens into `toks` as it sees them.
/// Inside a string an escaped byte never closes the string; `true`, `false`, `null`
/// are literal tokens; runs of number bytes are number tokens; every other byte is
/// skipped; pending spans close at end of source.
pub open spec fn json_lex(
    src: Seq<u8>,
    i: int,
    stack: Seq<Pending>,
    in_quote: bool,
    escaped: bool,
    toks: Seq<Tok>,
) -> Seq<Tok>
    decreases src.len() - i,
{
    if i < 0 || i >= src.len() {
        close_pending(stack, toks, (src.len() - 1) as usize)
    } else {
        let c = src[i];
        if in_quote {
            if escaped {
                json_lex(src, i + 1, stack, true, false, toks)
            } else if c == 0x5c {
                json_lex(src, i + 1, stack, true, true, toks)
            } else if c == 0x22 {
                let (st, ts) = pop_close(stack, toks, i);
                json_lex(src, i + 1, st, false, false, ts)
            } else {
                json_lex(src, i + 1, stack, true, false, toks)
            }
        } else if c == 0x7b {
            json_lex(src, i + 1, stack.push((i as usize, IoMemento::IoObject)), false, escaped, toks)
        } else if c == 0x5b {
            json_lex(src, i + 1, stack.push((i as usize, IoMemento::IoArray)), false, escaped, toks)
        } else if c == 0x7d || c == 0x5d {
            let (st, ts) = pop_close(stack, toks, i);
            json_lex(src, i + 1, st, false, escaped, ts)
        } else if c == 0x22 {
            json_lex(src, i + 1, stack.push((i as usize, IoMemento::IoString)), true, escaped, toks)
        } else if c == 0x74 && i + 3 < src.len() && src[i + 1] == 0x72 && src[i + 2] == 0x75
            && src[i + 3] == 0x65 {
            json_lex(
                src,
                i + 4,
                stack,
                false,
                escaped,
                toks.push((i as usize, (i + 3) as usize, IoMemento::IoBoolean)),
            )
        } else if c == 0x66 && i + 4 < src.len() && src[i + 1] == 0x61 && src[i + 2] == 0x6c
            && src[i + 3] == 0x73 && src[i + 4] == 0x65 {
            json_lex(
                src,
                i + 5,
                stack,
                false,
                escaped,
                toks.push((i as usize, (i + 4) as usize, IoMemento::IoBoolean)),
            )
        } else if c == 0x6e && i + 3 < src.len() && src[i + 1] == 0x75 && src[i + 2] == 0x6c
            && src[i + 3] == 0x6c {
            json_lex(
                src,
                i + 4,
                stack,
                false,
                escaped,
                toks.push((i as usize, (i + 3) as usize, IoMemento::IoNothing)),
            )
        } else if is_num_start(c) {
            let e = num_run_end(src, i + 1);
            if i < e <= src.len() {
                json_lex(
                    src,
                    e,
                    stack,
                    false,
                    escaped,
                    toks.push((i as usize, (e - 1) as usize, IoMemento::IoDouble)),
                )
            } else {
                toks
            }
        } else {
            json_lex(src, i + 1, stack, false, escaped, toks)
        }
    }
}

/// The tokens the JSON scanner emits for `src`, in emission order.
pub open spec fn json_tokens(src: Seq<u8>) -> Seq<Tok> {
    json_lex(src, 0, seq![], false, false, seq![])
}

pub proof fn lemma_num_run_end(src: Seq<u8>, i: int)
    requires
        0 <= i <= src.len(),
    ensures
        i <= num_run_end(src, i) <= src.len(),
    decreases src.len() - i,
{
    if i < src.len() && is_num_byte(src[i]) {
        lemma_num_run_end(src, i + 1);
    }
}

/// Every token ends before `n`.
pub open spec fn closes_below(toks: Seq<Tok>, n: int) -> bool {
    forall|k: int| 0 <= k < toks.len() ==> #[trigger] toks[k].1 < n
}

proof fn lemma_close_pending_below(stack: Seq<Pending>, toks: Seq<Tok>, last: usize, n: int)
    requires
        closes_below(toks, n),
        last < n,
    ensures
        closes_below(close_pending(stack, toks, last), n),
    decreases stack.len(),
{
    if stack.len() > 0 {
        let t2 = toks.push((stack.last().0, last, stack.last().1));
        assert forall|k: int| 0 <= k < t2.len() implies #[trigger] t2[k].1 < n by {
            if k < toks.len() {
                assert(t2[k] == toks[k]);
            }
        }
        lemma_close_pending_below(stack.drop_last(), t2, last, n);
    }
}

proof fn lemma_push_below(toks: Seq<Tok>, t: Tok, n: int)
    requires
        closes_below(toks, n),
        t.1 < n,
    ensures
        closes_below(toks.push(t), n),
{
    assert forall|k: int| 0 <= k < toks.len() + 1 implies #[trigger] toks.push(t)[k].1 < n by {
        if k < toks.len() {
            assert(toks.push(t)[k] == toks[k]);
        }
    }
}

/// Every token the lexer emits from position `i` on ends inside the source, given that
/// every token so far does and a span is pending only in a non-empty source.
proof fn lemma_json_lex_below(
    src: Seq<u8>,
    i: int,
    stack: Seq<Pending>,
    in_quote: bool,
    escaped: bool,
    toks: Seq<Tok>,
)
    requires
        closes_below(toks, src.len() as int),
        stack.len() > 0 ==> src.len() > 0,
    ensures
        closes_below(json_lex(src, i, stack, in_quote, escaped, toks), src.len() as int),
    decreases src.len() - i,
{
    let n = src.len() as int;
    if i < 0 || i >= n {
        if stack.len() > 0 {
            lemma_close_pending_below(stack, toks, (n - 1) as usize, n);
        }
    } else {
        let c = src[i];
        if in_quote {
            if escaped {
                lemma_json_lex_below(src, i + 1, stack, true, false, toks);
            } else if c == 0x5c {
                lemma_json_lex_below(src, i + 1, stack, true, true, toks);
            } else if c == 0x22 {
                let (st, ts) = pop_close(stack, toks, i);
                if stack.len() > 0 {
                    lemma_push_below(toks, (stack.last().0, i as usize, stack.last().1), n);
                }
                lemma_json_lex_below(src, i + 1, st, false, false, ts);
            } else {
                lemma_json_lex_below(src, i + 1, stack, true, false, toks);
            }
        } else if c == 0x7b {
            lemma_json_lex_below(src, i + 1, stack.push((i as usize, IoMemento::IoObject)), false, escaped, toks);
        } else if c == 0x5b {
            lemma_json_lex_below(src, i + 1, stack.push((i as usize, IoMemento::IoArray)), false, escaped, toks);
        } else if c == 0x7d || c == 0x5d {
            let (st, ts) = pop_close(stack, toks, i);
            if stack.len() > 0 {
                lemma_push_below(toks, (stack.last().0, i as usize, stack.last().1), n);
            }
            lemma_json_lex_below(src, i + 1, st, false, escaped, ts);
        } else if c == 0x22 {
            lemma_json_lex_below(src, i + 1, stack.push((i as usize, IoMemento::IoString)), true, escaped, toks);
        } else if c == 0x74 && i + 3 < n && src[i + 1] == 0x72 && src[i + 2] == 0x75 && src[i + 3]
            == 0x65 {
            let t = (i as usize, (i + 3) as usize, IoMemento::IoBoolean);
            lemma_push_below(toks, t, n);
            lemma_json_lex_below(src, i + 4, stack, false, escaped, toks.push(t));
        } else if c == 0x66 && i + 4 < n && src[i + 1] == 0x61 && src[i + 2] == 0x6c && src[i + 3]
            == 0x73 && src[i + 4] == 0x65 {
            let t = (i as usize, (i + 4) as usize, IoMemento::IoBoolean);
            lemma_push_below(toks, t, n);
            lemma_json_lex_below(src, i + 5, stack, false, escaped, toks.push(t));
        } else if c == 0x6e && i + 3 < n && src[i + 1] == 0x75 && src[i + 2] == 0x6c && src[i + 3]
            == 0x6c {
            let t = (i as usize, (i + 3) as usize, IoMemento::IoNothing);
            lemma_push_below(toks, t, n);
            lemma_json_lex_below(src, i + 4, stack, false, escaped, toks.push(t));
        } else if is_num_start(c) {
            let e = num_run_end(src, i + 1);
            if i < e <= n {
                let t = (i as usize, (e - 1) as usize, IoMemento::IoDouble);
                lemma_push_below(toks, t, n);
                lemma_json_lex_below(src, e, stack, false, escaped, toks.push(t));
            }
        } else {
            lemma_json_lex_below(src, i + 1, stack, false, escaped, toks);
        }
    }
}

/// Every token the JSON scanner emits ends inside the source.
pub proof fn lemma_json_tokens_below(src: Seq<u8>)
    ensures
        closes_below(json_tokens(src), src.len() as int),
{
    lemma_json_lex_below(src, 0, seq![], false, false, seq![]);
}

/// Every token starts at or before where it ends, and ends before `n`.
pub open spec fn spans_ordered(toks: Seq<Tok>, n: int) -> bool {
    forall|k: int| 0 <= k < toks.len() ==> #[trigger] toks[k].0 <= toks[k].1 && toks[k].1 < n
}

/// Every pending span opened before `i`.
pub open spec fn opened_before(stack: Seq<Pending>, i: int) -> bool {
    forall|k: int| 0 <= k < stack.len() ==> #[trigger] stack[k].0 < i
}

proof fn lemma_push_ordered(toks: Seq<Tok>, t: Tok, n: int)
    requires
        spans_ordered(toks, n),
        t.0 <= t.1 < n,
    ensures
        spans_ordered(toks.push(t), n),
{
    assert forall|k: int| 0 <= k < toks.len() + 1 implies #[trigger] toks.push(t)[k].0 <= toks.push(
        t,
    )[k].1 && toks.push(t)[k].1 < n by {
        if k < toks.len() {
            assert(toks.push(t)[k] == toks[k]);
        }
    }
}

proof fn lemma_close_pending_ordered(stack: Seq<Pending>, toks: Seq<Tok>, last: usize, n: int)
    requires
        spans_ordered(toks, n),
        last < n,
        opened_before(stack, last + 1),
    ensures
        spans_ordered(close_pending(stack, toks, last), n),
    decreases stack.len(),
{
    if stack.len() > 0 {
        assert(stack[stack.len() - 1].0 < last + 1);
        lemma_push_ordered(toks, (stack.last().0, last, stack.last().1), n);
        assert(opened_before(stack.drop_last(), last + 1)) by {
            assert forall|k: int| 0 <= k < stack.drop_last().len() implies #[trigger] stack.drop_last()[k].0
                < last + 1 by {
                assert(stack.drop_last()[k] == stack[k]);
            }
        }
        lemma_close_pending_ordered(stack.drop_last(), toks.push((stack.last().0, last, stack.last().1)), last, n);
    }
}

proof fn lemma_pop_close_ordered(stack: Seq<Pending>, toks: Seq<Tok>, i: int, n: int)
    requires
        spans_ordered(toks, n),
        0 <= i < n <= usize::MAX,
        opened_before(stack, i),
    ensures
        spans_ordered(pop_close(stack, toks, i).1, n),
        opened_before(pop_close(stack, toks, i).0, i + 1),
{
    if stack.len() > 0 {
        assert(stack[stack.len() - 1].0 < i);
        lemma_push_ordered(toks, (stack.last().0, i as usize, stack.last().1), n);
        assert forall|k: int| 0 <= k < stack.drop_last().len() implies #[trigger] stack.drop_last()[k].0
            < i + 1 by {
            assert(stack.drop_last()[k] == stack[k]);
        }
    } else {
        assert forall|k: int| 0 <= k < stack.len() implies #[trigger] stack[k].0 < i + 1 by {}
    }
}

proof fn lemma_opened_before_push(stack: Seq<Pending>, p: Pending, i: int)
    requires
        opened_before(stack, i),
        p.0 < i + 1,
    ensures
        opened_before(stack.push(p), i + 1),
{
    assert forall|k: int| 0 <= k < stack.len() + 1 implies #[trigger] stack.push(p)[k].0 < i + 1 by {
        if k < stack.len() {
            assert(stack.push(p)[k] == stack[k]);
        }
    }
}

proof fn lemma_opened_before_mono(stack: Seq<Pending>, i: int, j: int)
    requires
        opened_before(stack, i),
        i <= j,
    ensures
        opened_before(stack, j),
{
    assert forall|k: int| 0 <= k < stack.len() implies #[trigger] stack[k].0 < j by {
        assert(stack[k].0 < i);
    }
}

/// Every token the lexer emits from position `i` on starts at or before its end, given
/// that every token so far does and every pending span opened before `i`.
proof fn lemma_json_lex_ordered(
    src: Seq<u8>,
    i: int,
    stack: Seq<Pending>,
    in_quote: bool,
    escaped: bool,
    toks: Seq<Tok>,
)
    requires
        0 <= i <= src.len() <= usize::MAX,
        spans_ordered(toks, src.len() as int),
        opened_before(stack, i),
    ensures
        spans_ordered(json_lex(src, i, stack, in_quote, escaped, toks), src.len() as int),
    decreases src.len() - i,
{
    let n = src.len() as int;
    if i >= n {
        if stack.len() > 0 {
            assert(stack[0].0 < i);
            lemma_opened_before_mono(stack, i, n);
            lemma_close_pending_ordered(stack, toks, (n - 1) as usize, n);
        }
    } else {
        let c = src[i];
        if in_quote {
            if escaped {
                lemma_opened_before_mono(stack, i, i + 1);
                lemma_json_lex_ordered(src, i + 1, stack, true, false, toks);
            } else if c == 0x5c {
                lemma_opened_before_mono(stack, i, i + 1);
                lemma_json_lex_ordered(src, i + 1, stack, true, true, toks);
            } else if c == 0x22 {
                let (st, ts) = pop_close(stack, toks, i);
                lemma_pop_close_ordered(stack, toks, i, n);
                lemma_json_lex_ordered(src, i + 1, st, false, false, ts);
            } else {
                lemma_opened_before_mono(stack, i, i + 1);
                lemma_json_lex_ordered(src, i + 1, stack, true, false, toks);
            }
        } else if c == 0x7b {
            lemma_opened_before_push(stack, (i as usize, IoMemento::IoObject), i);
            lemma_json_lex_ordered(src, i + 1, stack.push((i as usize, IoMemento::IoObject)), false, escaped, toks);
        } else if c == 0x5b {
            lemma_opened_before_push(stack, (i as usize, IoMemento::IoArray), i);
            lemma_json_lex_ordered(src, i + 1, stack.push((i as usize, IoMemento::IoArray)), false, escaped, toks);
        } else if c == 0x7d || c == 0x5d {
            let (st, ts) = pop_close(stack, toks, i);
            lemma_pop_close_ordered(stack, toks, i, n);
            lemma_json_lex_ordered(src, i + 1, st, false, escaped, ts);
        } else if c == 0x22 {
            lemma_opened_before_push(stack, (i as usize, IoMemento::IoString), i);
            lemma_json_lex_ordered(src, i + 1, stack.push((i as usize, IoMemento::IoString)), true, escaped, toks);
        } else if c == 0x74 && i + 3 < n && src[i + 1] == 0x72 && src[i + 2] == 0x75 && src[i + 3]
            == 0x65 {
            let t = (i as usize, (i + 3) as usize, IoMemento::IoBoolean);
            lemma_push_ordered(toks, t, n);
            lemma_opened_before_mono(stack, i, i + 4);
            lemma_json_lex_ordered(src, i + 4, stack, false, escaped, toks.push(t));
        } else if c == 0x66 && i + 4 < n && src[i + 1] == 0x61 && src[i + 2] == 0x6c && src[i + 3]
            == 0x73 && src[i + 4] == 0x65 {
            let t = (i as usize, (i + 4) as usize, IoMemento::IoBoolean);
            lemma_push_ordered(toks, t, n);
            lemma_opened_before_mono(stack, i, i + 5);
            lemma_json_lex_ordered(src, i + 5, stack, false, escaped, toks.push(t));
        } else if c == 0x6e && i + 3 < n && src[i + 1] == 0x75 && src[i + 2] == 0x6c && src[i + 3]
            == 0x6c {
            let t = (i as usize, (i + 3) as usize, IoMemento::IoNothing);
            lemma_push_ordered(toks, t, n);
            lemma_opened_before_mono(stack, i, i + 4);
            lemma_json_lex_ordered(src, i + 4, stack, false, escaped, toks.push(t));
        } else if is_num_start(c) {
            let e = num_run_end(src, i + 1);
            if i < e <= n {
                let t = (i as usize, (e - 1) as usize, IoMemento::IoDouble);
                lemma_push_ordered(toks, t, n);
                lemma_opened_before_mono(stack, i, e);
                lemma_json_lex_ordered(src, e, stack, false, escaped, toks.push(t));
            }
        } else {
            lemma_opened_before_mono(stack, i, i + 1);
            lemma_json_lex_ordered(src, i + 1, stack, false, escaped, toks);
        }
    }
}

/// Every token the JSON scanner emits starts at or before its end, which lies inside the
/// source.
pub proof fn lemma_json_tokens_ordered(src: Seq<u8>)
    requires
        src.len() <= usize::MAX,
    ensures
        spans_ordered(json_tokens(src), src.len() as int),
{
    lemma_json_lex_ordered(src, 0, seq![], false, false, seq![]);
}

/// `b` is string content in which every backslash escapes exactly the one byte after it:
/// a run of bytes none of which is a double quote, where a backslash and the byte after
/// it go together (and that byte may be anything, a backslash or a quote too).
pub open spec fn escaped_content(b: Seq<u8>) -> bool
    decreases b.len(),
{
    if b.len() == 0 {
        true
    } else if b[0] == 0x5c {
        b.len() >= 2 && escaped_content(b.subrange(2, b.len() as int))
    } else {
        b[0] != 0x22 && escaped_content(b.subrange(1, b.len() as int))
    }
}

/// `a` begins with all of `b`.
pub open spec fn extends(a: Seq<Tok>, b: Seq<Tok>) -> bool {
    &&& b.len() <= a.len()
    &&& forall|k: int| 0 <= k < b.len() ==> #[trigger] a[k] == b[k]
}

proof fn lemma_extends_push(a: Seq<Tok>, b: Seq<Tok>, t: Tok)
    requires
        extends(a, b.push(t)),
    ensures
        extends(a, b),
{
    assert forall|k: int| 0 <= k < b.len() implies #[trigger] a[k] == b[k] by {
        assert(b.push(t)[k] == b[k]);
    }
}

proof fn lemma_close_pending_extends(stack: Seq<Pending>, toks: Seq<Tok>, last: usize)
    ensures
        extends(close_pending(stack, toks, last), toks),
    decreases stack.len(),
{
    if stack.len() > 0 {
        let t = (stack.last().0, last, stack.last().1);
        lemma_close_pending_extends(stack.drop_last(), toks.push(t), last);
        lemma_extends_push(close_pending(stack, toks, last), toks, t);
    }
}

/// The lexer only appends to the tokens it was handed.
proof fn lemma_json_lex_extends(
    src: Seq<u8>,
    i: int,
    stack: Seq<Pending>,
    in_quote: bool,
    escaped: bool,
    toks: Seq<Tok>,
)
    ensures
        extends(json_lex(src, i, stack, in_quote, escaped, toks), toks),
    decreases src.len() - i,
{
    let r = json_lex(src, i, stack, in_quote, escaped, toks);
    let n = src.len() as int;
    if i < 0 || i >= n {
        lemma_close_pending_extends(stack, toks, (n - 1) as usize);
    } else {
        let c = src[i];
        if in_quote {
            if escaped {
                lemma_json_lex_extends(src, i + 1, stack, true, false, toks);
            } else if c == 0x5c {
                lemma_json_lex_extends(src, i + 1, stack, true, true, toks);
            } else if c == 0x22 {
                let (st, ts) = pop_close(stack, toks, i);
                lemma_json_lex_extends(src, i + 1, st, false, false, ts);
                if stack.len() > 0 {
                    lemma_extends_push(r, toks, (stack.last().0, i as usize, stack.last().1));
                }
            } else {
                lemma_json_lex_extends(src, i + 1, stack, true, false, toks);
            }
        } else if c == 0x7b {
            lemma_json_lex_extends(src, i + 1, stack.push((i as usize, IoMemento::IoObject)), false, escaped, toks);
        } else if c == 0x5b {
            lemma_json_lex_extends(src, i + 1, stack.push((i as usize, IoMemento::IoArray)), false, escaped, toks);
        } else if c == 0x7d || c == 0x5d {
            let (st, ts) = pop_close(stack, toks, i);
            lemma_json_lex_extends(src, i + 1, st, false, escaped, ts);
            if stack.len() > 0 {
                lemma_extends_push(r, toks, (stack.last().0, i as usize, stack.last().1));
            }
        } else if c == 0x22 {
            lemma_json_lex_extends(src, i + 1, stack.push((i as usize, IoMemento::IoString)), true, escaped, toks);
        } else if c == 0x74 && i + 3 < n && src[i + 1] == 0x72 && src[i + 2] == 0x75 && src[i + 3]
            == 0x65 {
            let t = (i as usize, (i + 3) as usize, IoMemento::IoBoolean);
            lemma_json_lex_extends(src, i + 4, stack, false, escaped, toks.push(t));
            lemma_extends_push(r, toks, t);
        } else if c == 0x66 && i + 4 < n && src[i + 1] == 0x61 && src[i + 2] == 0x6c && src[i + 3]
            == 0x73 && src[i + 4] == 0x65 {
            let t = (i as usize, (i + 4) as usize, IoMemento::IoBoolean);
            lemma_json_lex_extends(src, i + 5, stack, false, escaped, toks.push(t));
            lemma_extends_push(r, toks, t);
        } else if c == 0x6e && i + 3 < n && src[i + 1] == 0x75 && src[i + 2] == 0x6c && src[i + 3]
            == 0x6c {
            let t = (i as usize, (i + 3) as usize, IoMemento::IoNothing);
            lemma_json_lex_extends(src, i + 4, stack, false, escaped, toks.push(t));
            lemma_extends_push(r, toks, t);
        } else if is_num_start(c) {
            let e = num_run_end(src, i + 1);
            if i < e <= n {
                let t = (i as usize, (e - 1) as usize, IoMemento::IoDouble);
                lemma_json_lex_extends(src, e, stack, false, escaped, toks.push(t));
                lemma_extends_push(r, toks, t);
            }
        } else {
            lemma_json_lex_extends(src, i + 1, stack, false, escaped, toks);
        }
    }
}

/// Inside a string, escaped content from `i` up to an unescaped quote at `j` is read as
/// text, and that quote closes the innermost pending span at `j`: lexing goes on after the
/// quote exactly as if the string had been closed there.
pub proof fn lemma_json_string_closes(src: Seq<u8>, i: int, j: int, stack: Seq<Pending>, toks: Seq<Tok>)
    requires
        0 <= i <= j < src.len(),
        escaped_content(src.subrange(i, j)),
        src[j] == 0x22,
    ensures
        json_lex(src, i, stack, true, false, toks) == json_lex(
            src,
            j + 1,
            pop_close(stack, toks, j).0,
            false,
            false,
            pop_close(stack, toks, j).1,
        ),
    decreases j - i,
{
    let b = src.subrange(i, j);
    if i < j {
        if src[i] == 0x5c {
            assert(b[0] == src[i]);
            assert(b.subrange(2, b.len() as int) =~= src.subrange(i + 2, j));
            assert(json_lex(src, i, stack, true, false, toks) == json_lex(src, i + 1, stack, true, true, toks));
            assert(json_lex(src, i + 1, stack, true, true, toks) == json_lex(src, i + 2, stack, true, false, toks));
            lemma_json_string_closes(src, i + 2, j, stack, toks);
        } else {
            assert(b[0] == src[i]);
            assert(b.subrange(1, b.len() as int) =~= src.subrange(i + 1, j));
            lemma_json_string_closes(src, i + 1, j, stack, toks);
        }
    }
}

/// A document that opens with a string of escaped content scans to that string as its
/// first token, closed at its closing quote, whatever follows: a backslash escapes exactly
/// the next byte, so an escaped backslash before a quote does not keep the string open.
pub proof fn lemma_json_leading_string(body: Seq<u8>, rest: Seq<u8>)
    requires
        escaped_content(body),
        body.len() + rest.len() + 2 <= usize::MAX,
    ensures
        ({
            let src = seq![0x22u8] + body + seq![0x22u8] + rest;
            let toks = json_tokens(src);
            toks.len() >= 1 && toks[0] == (0usize, (body.len() + 1) as usize, IoMemento::IoString)
        }),
{
    let src = seq![0x22u8] + body + seq![0x22u8] + rest;
    let j: int = body.len() as int + 1;
    assert(src[0] == 0x22);
    assert(src[j] == 0x22);
    assert(src.subrange(1, j) =~= body);
    let st = seq![(0usize, IoMemento::IoString)];
    assert(seq![].push((0usize, IoMemento::IoString)) == st);
    assert(json_tokens(src) == json_lex(src, 1, st, true, false, seq![]));
    lemma_json_string_closes(src, 1, j, st, seq![]);
    let t = (0usize, j as usize, IoMemento::IoString);
    assert(pop_close(st, seq![], j) == (Seq::<Pending>::empty(), seq![t])) by {
        assert(st.drop_last() =~= Seq::<Pending>::empty());
        assert(Seq::<Tok>::empty().push(t) =~= seq![t]);
    }
    lemma_json_lex_extends(src, j + 1, Seq::<Pending>::empty(), false, false, seq![t]);
}

/// Scan `src` as JSON: the emitted tokens, in emission order.
pub(crate) fn json_token_list(src: &[u8]) -> (r: Vec<Tok>)
    ensures
        r@ == json_tokens(src@),
{
    let n = src.len();
    let mut toks: Vec<Tok> = Vec::new();
    let mut stack: Vec<Pending> = Vec::new();
    let mut in_quote = false;
    let mut escaped = false;
    let mut index: usize = 0;
    while index < n
        invariant
            n == src@.len(),
            index <= n,
            json_lex(src@, index as int, stack@, in_quote, escaped, toks@) == json_tokens(src@),
            n == 0 ==> stack@.len() == 0,
        decreases n - index,
    {
        let ch = src[index];
        if in_quote {
            if escaped {
                escaped = false;
            } else if ch == 0x5c {
                escaped = true;
            } else if ch == 0x22 {
                in_quote = false;
                if stack.len() > 0 {
                    let p = stack.pop().unwrap();
                    toks.push((p.0, index, p.1));
                }
            }
            index = index + 1;
        } else if ch == 0x7b {
            stack.push((index, IoMemento::IoObject));
            index = index + 1;
        } else if ch == 0x5b {
            stack.push((index, IoMemento::IoArray));
            index = index + 1;
        } else if ch == 0x7d || ch == 0x5d {
            if stack.len() > 0 {
                let p = stack.pop().unwrap();
                toks.push((p.0, index, p.1));
            }
            index = index + 1;
        } else if ch == 0x22 {
            stack.push((index, IoMemento::IoString));
            in_quote = true;
            index = index + 1;
        } else if ch == 0x74 && n - index > 3 && src[index + 1] == 0x72 && src[index + 2] == 0x75
            && src[index + 3] == 0x65 {
            toks.push((index, index + 3, IoMemento::IoBoolean));
            index = index + 4;
        } else if ch == 0x66 && n - index > 4 && src[index + 1] == 0x61 && src[index + 2] == 0x6c
            && src[index + 3] == 0x73 && src[index + 4] == 0x65 {
            toks.push((index, index + 4, IoMemento::IoBoolean));
            index = index + 5;
        } else if ch == 0x6e && n - index > 3 && src[index + 1] == 0x75 && src[index + 2] == 0x6c
            && src[index + 3] == 0x6c {
            toks.push((index, index + 3, IoMemento::IoNothing));
            index = index + 4;
        } else if (0x30 <= ch && ch <= 0x39) || ch == 0x2b || ch == 0x2d {
            let start = index;
            index = index + 1;
            proof {
                lemma_num_run_end(src@, index as int);
            }
            while index < n && is_num_byte_exec(src[index])
                invariant
                    n == src@.len(),
                    start < index <= n,
                    num_run_end(src@, index as int) == num_run_end(src@, start + 1),
                decreases n - index,
            {
                index = index + 1;
            }
            toks.push((start, index - 1, IoMemento::IoDouble));
        } else {
            index = index + 1;
        }
    }
    let last: usize = if n == 0 {
        0
    } else {
        n - 1
    };
    proof {
        if n > 0 {
            assert(last == (n - 1) as usize);
        }
    }
    while stack.len() > 0
        invariant
            n == src@.len(),
            n > 0 || stack@.len() == 0,
            n > 0 ==> last == (n - 1) as usize,
            close_pending(stack@, toks@, last) == json_tokens(src@),
        decreases stack@.len(),
    {
        let p = stack.pop().unwrap();
        toks.push((p.0, last, p.1));
    }
    toks
}

fn is_num_byte_exec(b: u8) -> (r: bool)
    ensures
        r == is_num_byte(b),
{
    (0x30 <= b && b <= 0x39) || b == 0x2e || b == 0x65 || b == 0x45 || b == 0x2b || b == 0x2d
}

} // verus!
