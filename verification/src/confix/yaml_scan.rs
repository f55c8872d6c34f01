//! The YAML scanner: an indentation-aware walk over the lines of the source.
//!
//! Offsets are measured in the UTF-8 encoding of the Latin-1 projection of the source
//! (see `yaml_text`).
use vstd::prelude::*;

use super::yaml_text::{
    find_colon, is_float_text, lemma_ulen_add, lemma_ulen_subrange, trim, trim_end, trim_start, ulen,
    ulen_range, trim_start_range, trim_end_range, find_colon_range, is_float_range,
};
use super::{IoMemento, Tok};

verus! {

/// Lines of `src[start..]` where the current line began at `start` and `i` is the
/// scan position: split at each 0x0A byte, a trailing empty line kept.
pub open spec fn lines_from(src: Seq<u8>, start: int, i: int) -> Seq<Seq<u8>>
    decreases src.len() - i,
{
    if i < start || i >= src.len() {
        seq![src.subrange(start, src.len() as int)]
    } else if src[i] == 0x0a {
        seq![src.subrange(start, i)] + lines_from(src, i + 1, i + 1)
    } else {
        lines_from(src, start, i + 1)
    }
}

/// The lines of the source.
pub open spec fn split_lines(src: Seq<u8>) -> Seq<Seq<u8>> {
    lines_from(src, 0, 0)
}

/// Offset of line `k`: the lengths of the lines before it, each with its newline.
pub open spec fn line_off(lines: Seq<Seq<u8>>, k: int) -> int
    decreases k,
{
    if k <= 0 {
        0
    } else {
        line_off(lines, k - 1) + ulen(lines[k - 1]) + 1
    }
}

/// `x - 1`, or 0 for 0.
pub open spec fn sat1(x: int) -> int {
    if x > 0 {
        x - 1
    } else {
        0
    }
}

/// The first line from `from` that is neither blank nor a `#` comment:
/// `(line, indentation, text without the indentation)`.
pub open spec fn meaningful(lines: Seq<Seq<u8>>, from: int) -> Option<(int, int, Seq<u8>)>
    decreases lines.len() - from,
{
    if from < 0 || from >= lines.len() {
        None
    } else {
        let t = trim_start(lines[from]);
        if t.len() == 0 || t[0] == 0x23 {
            meaningful(lines, from + 1)
        } else {
            Some((from, ulen(lines[from]) - ulen(t), t))
        }
    }
}

/// End (inclusive) of the last line consumed before line `next`.
pub open spec fn last_end(lines: Seq<Seq<u8>>, next: int, text_len: int) -> int {
    if next <= 0 {
        0
    } else if next - 1 < lines.len() {
        line_off(lines, next - 1) + sat1(ulen(trim_end(lines[next - 1])) as int)
    } else {
        sat1(text_len)
    }
}

/// A scalar token for `raw` spanning `start..=end`: `true`/`false` are booleans,
/// `null`/`~` nothing, float literals numbers, anything else a string, whose span
/// widens by one on each side when `raw` starts with a double quote.
pub open spec fn emit_scalar(toks: Seq<Tok>, start: int, end: int, raw: Seq<u8>) -> Seq<Tok> {
    let t = trim(raw);
    let tag = if t == seq![0x74u8, 0x72, 0x75, 0x65] || t == seq![0x66u8, 0x61, 0x6c, 0x73, 0x65] {
        IoMemento::IoBoolean
    } else if t == seq![0x6eu8, 0x75, 0x6c, 0x6c] || t == seq![0x7eu8] {
        IoMemento::IoNothing
    } else if is_float_text(t) {
        IoMemento::IoDouble
    } else {
        IoMemento::IoString
    };
    if tag == IoMemento::IoString && raw.len() > 0 && raw[0] == 0x22 {
        toks.push((sat1(start) as usize, (end + 1) as usize, tag))
    } else {
        toks.push((start as usize, end as usize, tag))
    }
}

/// A scalar is emitted as a boolean exactly when its trimmed text is `true` or `false`,
/// and a boolean token spans `start..=end` as given; either way one token is appended.
pub proof fn lemma_yaml_boolean_scalar(toks: Seq<Tok>, start: int, end: int, raw: Seq<u8>)
    ensures
        ({
            let r = emit_scalar(toks, start, end, raw);
            let t = trim(raw);
            &&& r.len() == toks.len() + 1
            &&& r.subrange(0, toks.len() as int) == toks
            &&& (r.last().2 == IoMemento::IoBoolean <==> (t == seq![0x74u8, 0x72, 0x75, 0x65] || t
                == seq![0x66u8, 0x61, 0x6c, 0x73, 0x65]))
            &&& r.last().2 == IoMemento::IoBoolean ==> r.last() == (
                start as usize,
                end as usize,
                IoMemento::IoBoolean,
            )
        }),
{
    let r = emit_scalar(toks, start, end, raw);
    assert(r.subrange(0, toks.len() as int) =~= toks);
}

/// Close the token at `idx` at the end of the last line before `next`.
pub open spec fn patch_close(
    lines: Seq<Seq<u8>>,
    toks: Seq<Tok>,
    idx: int,
    next: int,
    text_len: int,
) -> Seq<Tok> {
    toks.update(idx, (toks[idx].0, last_end(lines, next, text_len) as usize, toks[idx].2))
}

/// Measure of the walk: the lines left from `i`.
pub open spec fn lines_left(lines: Seq<Seq<u8>>, i: int) -> nat {
    if 0 <= i < lines.len() {
        (lines.len() - i) as nat
    } else {
        0
    }
}

/// One step of a mapping or sequence walk: the walk stops at a line, moves on to a
/// line, or never returns.
pub enum Step {
    Stop(int, Seq<Tok>),
    Next(int, Seq<Tok>),
    Stuck,
}

/// Walk the block that starts at line `li` with indentation `indent`: a sequence when
/// its first meaningful line starts with `-`, a mapping when that line holds a mapping
/// colon, else a scalar. `Some((next line, tokens))`, or `None` where the walk never
/// returns.
pub open spec fn walk_block(
    lines: Seq<Seq<u8>>,
    text_len: int,
    li: int,
    indent: int,
    toks: Seq<Tok>,
) -> Option<(int, Seq<Tok>)>
    decreases lines_left(lines, li), 3int,
{
    match meaningful(lines, li) {
        None => Some((li, toks)),
        Some((k, col, first)) => if first[0] == 0x2d {
            walk_sequence(lines, text_len, li, indent, toks)
        } else if find_colon(first) is Some {
            walk_mapping(lines, text_len, li, indent, toks)
        } else {
            let start = line_off(lines, li) + col;
            let end = sat1(start + ulen(trim_end(first)));
            let open = if start <= end {
                start
            } else {
                end
            };
            Some((li + 1, toks.push((open as usize, end as usize, IoMemento::IoString))))
        },
    }
}

/// A nested block under a key or a dash on a line of indentation `col`, looked for from
/// line `from`: when the next meaningful line is indented deeper, a container token
/// spanning the nested block, then its tokens (`Some(..)`, with `Some(None)` where the
/// walk never returns); otherwise `None` (the caller emits a null).
pub open spec fn walk_nested(
    lines: Seq<Seq<u8>>,
    text_len: int,
    from: int,
    col: int,
    toks: Seq<Tok>,
) -> Option<Option<(int, Seq<Tok>)>>
    decreases lines_left(lines, from), 4int,
{
    match meaningful(lines, from) {
        Some((nl, ncol, tt)) => if ncol > col && from <= nl {
            let kind = if tt[0] == 0x2d {
                IoMemento::IoArray
            } else {
                IoMemento::IoObject
            };
            let nested = toks.len() as int;
            let t2 = toks.push((line_off(lines, nl) as usize, sat1(text_len) as usize, kind));
            match walk_block(lines, text_len, nl, ncol, t2) {
                None => Some(None),
                Some((next, t3)) => Some(Some((next, patch_close(lines, t3, nested, next, text_len)))),
            }
        } else {
            None
        },
        None => None,
    }
}

/// A mapping block: its container token, then its entries.
pub open spec fn walk_mapping(
    lines: Seq<Seq<u8>>,
    text_len: int,
    li: int,
    indent: int,
    toks: Seq<Tok>,
) -> Option<(int, Seq<Tok>)>
    decreases lines_left(lines, li), 2int,
{
    let open_tok = toks.len() as int;
    let t1 = toks.push((line_off(lines, li) as usize, sat1(text_len) as usize, IoMemento::IoObject));
    match mapping_entries(lines, text_len, li, indent, t1) {
        None => None,
        Some((i, t2)) => Some((i, patch_close(lines, t2, open_tok, i, text_len))),
    }
}

/// The entries of a mapping from line `i`.
pub open spec fn mapping_entries(
    lines: Seq<Seq<u8>>,
    text_len: int,
    i: int,
    indent: int,
    toks: Seq<Tok>,
) -> Option<(int, Seq<Tok>)>
    decreases lines_left(lines, i), 1int,
{
    match mapping_step(lines, text_len, i, indent, toks) {
        Step::Stop(j, t) => Some((j, t)),
        Step::Stuck => None,
        Step::Next(j, t) => if 0 <= i < j && i < lines.len() {
            mapping_entries(lines, text_len, j, indent, t)
        } else {
            None
        },
    }
}

/// One entry of a mapping at line `i`: at the mapping's indentation, a key token then a
/// scalar, a nested block or a null; a deeper line is skipped; a shallower line or one
/// without a mapping colon ends the mapping.
pub open spec fn mapping_step(
    lines: Seq<Seq<u8>>,
    text_len: int,
    i: int,
    indent: int,
    toks: Seq<Tok>,
) -> Step
    decreases lines_left(lines, i), 0int,
{
    match meaningful(lines, i) {
        None => Step::Stop(i, toks),
        Some((lineno, col, trimmed)) => if !(i <= lineno < lines.len()) {
            Step::Stuck
        } else if col < indent {
            Step::Stop(i, toks)
        } else if col > indent {
            Step::Next(lineno + 1, toks)
        } else {
            match find_colon(trimmed) {
                None => Step::Stop(i, toks),
                Some(colon) => {
                    let i2 = lineno + 1;
                    let key_raw = trim(trimmed.take(colon));
                    let key_start = line_off(lines, lineno) + col;
                    let key_end = key_start + sat1(ulen(key_raw) as int);
                    let t1 = toks.push((key_start as usize, key_end as usize, IoMemento::IoString));
                    let val_raw = trim(trimmed.skip(colon + 1));
                    if val_raw.len() == 0 {
                        match walk_nested(lines, text_len, i2, col, t1) {
                            Some(None) => Step::Stuck,
                            Some(Some((next, t3))) => Step::Next(next, t3),
                            None => Step::Next(
                                i2,
                                t1.push((key_start as usize, key_start as usize, IoMemento::IoNothing)),
                            ),
                        }
                    } else {
                        let vs = line_off(lines, lineno) + col + (ulen(trimmed) - ulen(val_raw));
                        let ve = line_off(lines, lineno) + sat1(ulen(trim_end(trimmed)) as int);
                        Step::Next(i2, emit_scalar(t1, vs, ve, val_raw))
                    }
                },
            }
        },
    }
}

/// A sequence block: its container token, then its items.
pub open spec fn walk_sequence(
    lines: Seq<Seq<u8>>,
    text_len: int,
    li: int,
    indent: int,
    toks: Seq<Tok>,
) -> Option<(int, Seq<Tok>)>
    decreases lines_left(lines, li), 2int,
{
    let open_tok = toks.len() as int;
    let t1 = toks.push((line_off(lines, li) as usize, sat1(text_len) as usize, IoMemento::IoArray));
    match sequence_items(lines, text_len, li, indent, t1) {
        None => None,
        Some((i, t2)) => Some((i, patch_close(lines, t2, open_tok, i, text_len))),
    }
}

/// The items of a sequence from line `i`.
pub open spec fn sequence_items(
    lines: Seq<Seq<u8>>,
    text_len: int,
    i: int,
    indent: int,
    toks: Seq<Tok>,
) -> Option<(int, Seq<Tok>)>
    decreases lines_left(lines, i), 1int,
{
    match sequence_step(lines, text_len, i, indent, toks) {
        Step::Stop(j, t) => Some((j, t)),
        Step::Stuck => None,
        Step::Next(j, t) => if 0 <= i < j && i < lines.len() {
            sequence_items(lines, text_len, j, indent, t)
        } else {
            None
        },
    }
}

/// One item of a sequence at line `i`: a dash line at or beyond the sequence's
/// indentation holds a scalar, a nested block or a null; any other line ends the
/// sequence. An inline mapping item (`- key: value`) makes the walk revisit its own line
/// forever.
pub open spec fn sequence_step(
    lines: Seq<Seq<u8>>,
    text_len: int,
    i: int,
    indent: int,
    toks: Seq<Tok>,
) -> Step
    decreases lines_left(lines, i), 0int,
{
    match meaningful(lines, i) {
        None => Step::Stop(i, toks),
        Some((lineno, col, trimmed)) => if !(i <= lineno < lines.len()) {
            Step::Stuck
        } else if col < indent || trimmed[0] != 0x2d {
            Step::Stop(i, toks)
        } else {
            let i2 = lineno + 1;
            let after = trimmed.skip(1);
            let rest = trim(after);
            if rest.len() == 0 {
                match walk_nested(lines, text_len, i2, col, toks) {
                    Some(None) => Step::Stuck,
                    Some(Some((next, t3))) => Step::Next(next, t3),
                    None => {
                        let o = line_off(lines, lineno);
                        Step::Next(i2, toks.push((o as usize, o as usize, IoMemento::IoNothing)))
                    },
                }
            } else if find_colon(rest) is Some {
                Step::Stuck
            } else {
                let dash = ulen(trimmed) - ulen(trim_start(after));
                let item_start = line_off(lines, lineno) + col + dash;
                let ve = line_off(lines, lineno) + sat1(ulen(trim_end(trimmed)) as int);
                Step::Next(i2, emit_scalar(toks, item_start, ve, rest))
            }
        },
    }
}

/// White space as the first-character test of the YAML scanner sees it:
/// space, tab, line feed, vertical tab, form feed, carriage return.
pub open spec fn is_lead_ws(b: u8) -> bool {
    b == 0x20 || b == 0x09 || b == 0x0a || b == 0x0b || b == 0x0c || b == 0x0d
}

/// Index of the first byte that is not leading white space.
pub open spec fn first_non_ws(src: Seq<u8>, i: int) -> int
    decreases src.len() - i,
{
    if 0 <= i < src.len() && is_lead_ws(src[i]) {
        first_non_ws(src, i + 1)
    } else {
        i
    }
}

/// The source is a flow document (its first non-blank byte is `{` or `[`), which the
/// YAML scanner hands to the JSON scanner.
pub open spec fn yaml_is_flow(src: Seq<u8>) -> bool {
    let f = first_non_ws(src, 0);
    0 <= f < src.len() && (src[f] == 0x7b || src[f] == 0x5b)
}

/// Tokens of the line walk over a block document, `None` where the walk never returns.
pub open spec fn yaml_walk(src: Seq<u8>) -> Option<Seq<Tok>> {
    let lines = split_lines(src);
    match meaningful(lines, 0) {
        None => Some(seq![]),
        Some((li, col, _)) => match walk_block(lines, ulen(src) as int, li, col, seq![]) {
            None => None,
            Some((_, toks)) => Some(toks),
        },
    }
}

} // verus!

verus! {

// ── lemmas ──────────────────────────────────────────────────────────────────

proof fn lemma_line_off_prepend(x: Seq<u8>, r: Seq<Seq<u8>>, k: int)
    requires
        0 <= k <= r.len(),
    ensures
        line_off(seq![x] + r, k + 1) == ulen(x) + 1 + line_off(r, k),
    decreases k,
{
    let s = seq![x] + r;
    if k > 0 {
        lemma_line_off_prepend(x, r, k - 1);
        assert(s[k] == r[k - 1]);
        assert(line_off(s, k + 1) == line_off(s, k) + ulen(s[k]) + 1);
        assert(line_off(r, k) == line_off(r, k - 1) + ulen(r[k - 1]) + 1);
    } else {
        assert(s[0] == x);
        assert(line_off(s, 1) == line_off(s, 0) + ulen(s[0]) + 1);
    }
}

proof fn lemma_lines_from_total(src: Seq<u8>, start: int, i: int)
    requires
        0 <= start <= i <= src.len(),
    ensures
        line_off(lines_from(src, start, i), lines_from(src, start, i).len() as int) == ulen(
            src.subrange(start, src.len() as int),
        ) + 1,
        lines_from(src, start, i).len() >= 1,
    decreases src.len() - i,
{
    if i >= src.len() {
        let l = lines_from(src, start, i);
        assert(l == seq![src.subrange(start, src.len() as int)]);
        assert(line_off(l, 1) == line_off(l, 0) + ulen(l[0]) + 1);
    } else if src[i] == 0x0a {
        lemma_lines_from_total(src, i + 1, i + 1);
        let r = lines_from(src, i + 1, i + 1);
        let x = src.subrange(start, i);
        let l = lines_from(src, start, i);
        assert(l == seq![x] + r);
        assert(l.len() == r.len() + 1);
        lemma_line_off_prepend(x, r, r.len() as int);
        let whole = src.subrange(start, src.len() as int);
        lemma_ulen_subrange(whole, i - start, i - start + 1);
        assert(whole.subrange(0, i - start) == x);
        assert(whole.subrange(i - start + 1, whole.len() as int) == src.subrange(
            i + 1,
            src.len() as int,
        ));
        assert(whole.subrange(i - start, i - start + 1) == seq![0x0au8]);
        assert(ulen(seq![0x0au8]) == 1) by {
            let nl = seq![0x0au8];
            assert(nl.drop_last() =~= Seq::<u8>::empty());
            assert(nl.last() == 0x0au8);
            assert(ulen(Seq::<u8>::empty()) == 0);
        }
    } else {
        lemma_lines_from_total(src, start, i + 1);
    }
}

proof fn lemma_lines_from_count(src: Seq<u8>, start: int, i: int)
    requires
        0 <= start <= i <= src.len(),
    ensures
        lines_from(src, start, i).len() <= src.len() - i + 1,
    decreases src.len() - i,
{
    if i < src.len() {
        if src[i] == 0x0a {
            lemma_lines_from_count(src, i + 1, i + 1);
        } else {
            lemma_lines_from_count(src, start, i + 1);
        }
    }
}

proof fn lemma_line_off_mono(lines: Seq<Seq<u8>>, j: int, k: int)
    requires
        0 <= j <= k,
    ensures
        line_off(lines, j) <= line_off(lines, k),
    decreases k,
{
    if j < k {
        lemma_line_off_mono(lines, j, k - 1);
    }
}

/// Every line, at its offset, ends within the projected text.
pub proof fn lemma_line_bounds(src: Seq<u8>, k: int)
    requires
        0 <= k < split_lines(src).len(),
    ensures
        line_off(split_lines(src), k) + ulen(split_lines(src)[k]) <= ulen(src),
        0 <= line_off(split_lines(src), k),
{
    let l = split_lines(src);
    lemma_lines_from_total(src, 0, 0);
    lemma_line_off_mono(l, k + 1, l.len() as int);
    lemma_line_off_mono(l, 0, k);
    assert(src.subrange(0, src.len() as int) == src);
}

proof fn lemma_meaningful(lines: Seq<Seq<u8>>, from: int)
    ensures
        meaningful(lines, from) matches Some((k, col, t)) ==> {
            &&& from <= k < lines.len()
            &&& t == trim_start(lines[k])
            &&& col == ulen(lines[k]) - ulen(t)
            &&& t.len() > 0
            &&& t[0] != 0x23
        },
    decreases lines.len() - from,
{
    if 0 <= from < lines.len() {
        lemma_meaningful(lines, from + 1);
    }
}

// ── executable ──────────────────────────────────────────────────────────────

/// The scanner's view of the source: line ranges, line offsets and the text length.
pub struct Lines {
    pub ranges: Vec<(usize, usize)>,
    pub offs: Vec<usize>,
    pub text_len: usize,
}

/// The lines that `ranges` select in `src`.
pub open spec fn lines_view(src: Seq<u8>, ranges: Seq<(usize, usize)>) -> Seq<Seq<u8>> {
    ranges.map_values(|r: (usize, usize)| src.subrange(r.0 as int, r.1 as int))
}

/// Line `k`, at its offset, ends within the projected text.
pub open spec fn line_end_ok(src: Seq<u8>, range: (usize, usize), k: int) -> bool {
    line_off(split_lines(src), k) + ulen(split_lines(src)[k]) <= ulen(src)
}

impl Lines {
    /// The line table of `src`.
    pub open spec fn wf(&self, src: Seq<u8>) -> bool {
        &&& lines_view(src, self.ranges@) == split_lines(src)
        &&& self.offs@.len() == self.ranges@.len()
        &&& self.text_len == ulen(src)
        &&& ulen(src) + 2 <= usize::MAX
        &&& self.ranges@.len() < usize::MAX
        &&& forall|k: int|
            0 <= k < self.ranges@.len() ==> #[trigger] self.ranges@[k].0 <= self.ranges@[k].1
                <= src.len()
        &&& forall|k: int|
            0 <= k < self.offs@.len() ==> #[trigger] self.offs@[k] == line_off(split_lines(src), k)
        &&& forall|k: int|
            0 <= k < self.ranges@.len() ==> #[trigger] line_end_ok(src, self.ranges@[k], k)
    }

    pub open spec fn lines(&self, src: Seq<u8>) -> Seq<Seq<u8>> {
        split_lines(src)
    }
}

fn line_ranges(src: &[u8]) -> (ranges: Vec<(usize, usize)>)
    ensures
        lines_view(src@, ranges@) == split_lines(src@),
        forall|k: int|
            0 <= k < ranges@.len() ==> #[trigger] ranges@[k].0 <= ranges@[k].1 <= src@.len(),
{
    let n = src.len();
    let mut ranges: Vec<(usize, usize)> = Vec::new();
    let mut start: usize = 0;
    let mut i: usize = 0;
    while i < n
        invariant
            n == src@.len(),
            start <= i <= n,
            lines_view(src@, ranges@) + lines_from(src@, start as int, i as int) == split_lines(src@),
            forall|k: int|
                0 <= k < ranges@.len() ==> #[trigger] ranges@[k].0 <= ranges@[k].1 <= src@.len(),
        decreases n - i,
    {
        if src[i] == 0x0a {
            let ghost before = lines_view(src@, ranges@);
            ranges.push((start, i));
            proof {
                assert(lines_view(src@, ranges@) == before.push(src@.subrange(start as int, i as int)));
                assert(lines_from(src@, start as int, i as int) == seq![
                    src@.subrange(start as int, i as int),
                ] + lines_from(src@, i + 1, i + 1));
                assert(before + lines_from(src@, start as int, i as int) == before.push(
                    src@.subrange(start as int, i as int),
                ) + lines_from(src@, i + 1, i + 1));
            }
            start = i + 1;
        }
        i = i + 1;
    }
    let ghost before = lines_view(src@, ranges@);
    ranges.push((start, n));
    proof {
        assert(lines_view(src@, ranges@) == before.push(src@.subrange(start as int, n as int)));
        assert(lines_from(src@, start as int, n as int) == seq![src@.subrange(start as int, n as int)]);
    }
    ranges
}

fn build_lines(src: &[u8]) -> (r: Lines)
    requires
        ulen(src@) + 2 <= usize::MAX,
    ensures
        r.wf(src@),
{
    let n = src.len();
    let ranges = line_ranges(src);
    proof {
        assert(src@.subrange(0, n as int) == src@);
        lemma_lines_from_count(src@, 0, 0);
        crate::confix::yaml_text::lemma_ulen_bounds(src@);
    }
    let text_len = ulen_range(src, 0, n);
    let mut offs: Vec<usize> = Vec::new();
    let mut off: usize = 0;
    let mut k: usize = 0;
    let ghost lines = split_lines(src@);
    while k < ranges.len()
        invariant
            lines_view(src@, ranges@) == lines,
            lines == split_lines(src@),
            text_len == ulen(src@),
            ulen(src@) + 2 <= usize::MAX,
            k <= ranges@.len(),
            offs@.len() == k,
            off == line_off(lines, k as int),
            forall|j: int| 0 <= j < k ==> #[trigger] offs@[j] == line_off(lines, j),
            forall|j: int|
                0 <= j < ranges@.len() ==> #[trigger] ranges@[j].0 <= ranges@[j].1 <= src@.len(),
        decreases ranges@.len() - k,
    {
        proof {
            lemma_line_bounds(src@, k as int);
            assert(lines[k as int] == src@.subrange(ranges@[k as int].0 as int, ranges@[k as int].1 as int));
        }
        offs.push(off);
        let (a, b) = ranges[k];
        let l = ulen_range(src, a, b);
        off = off + l + 1;
        k = k + 1;
    }
    proof {
        assert forall|j: int| 0 <= j < ranges@.len() implies #[trigger] line_end_ok(src@, ranges@[j], j) by {
            lemma_line_bounds(src@, j);
        }
    }
    Lines { ranges, offs, text_len }
}

/// The first meaningful line from `from`: `(line, indentation, trimmed start, line end)`.
fn meaningful_exec(src: &[u8], ls: &Lines, from: usize) -> (r: Option<(usize, usize, usize, usize)>)
    requires
        ls.wf(src@),
    ensures
        r is None ==> meaningful(split_lines(src@), from as int) is None,
        r matches Some((k, col, ta, tb)) ==> {
            &&& meaningful(split_lines(src@), from as int) == Some(
                (k as int, col as int, src@.subrange(ta as int, tb as int)),
            )
            &&& k < ls.ranges@.len()
            &&& ls.ranges@[k as int].0 <= ta < tb
            &&& tb == ls.ranges@[k as int].1
            &&& ls.offs@[k as int] + col + ulen(src@.subrange(ta as int, tb as int)) <= ls.text_len
            &&& src@.subrange(ta as int, tb as int)[0] == src@[ta as int]
            &&& ls.offs@[k as int] == line_off(split_lines(src@), k as int)
        },
{
    let ghost lines = split_lines(src@);
    let mut k = from;
    while k < ls.ranges.len()
        invariant
            ls.wf(src@),
            lines == split_lines(src@),
            from <= k,
            meaningful(lines, k as int) == meaningful(lines, from as int),
        decreases ls.ranges@.len() - k,
    {
        let (a, b) = ls.ranges[k];
        let ta = trim_start_range(src, a, b);
        proof {
            assert(lines[k as int] == src@.subrange(a as int, b as int));
        }
        if ta < b && src[ta] != 0x23 {
            proof {
                let line = src@.subrange(a as int, b as int);
                lemma_ulen_subrange(line, (ta - a) as int, (b - a) as int);
                assert(line.subrange((ta - a) as int, (b - a) as int) == src@.subrange(ta as int, b as int));
                assert(line.subrange((b - a) as int, line.len() as int) == Seq::<u8>::empty());
                lemma_ulen_subrange(src@, a as int, b as int);
                lemma_line_bounds(src@, k as int);
            }
            let full = ulen_range(src, a, b);
            let tl = ulen_range(src, ta, b);
            proof {
                let line = src@.subrange(a as int, b as int);
                assert(line.subrange(0, (ta - a) as int) + src@.subrange(ta as int, b as int) == line);
                lemma_ulen_add(line.subrange(0, (ta - a) as int), src@.subrange(ta as int, b as int));
            }
            return Some((k, full - tl, ta, b));
        }
        k = k + 1;
    }
    None
}

} // verus!

verus! {

/// The scalar word by number: `true`, `false`, `null`, `~`.
pub open spec fn scalar_word(k: u8) -> Seq<u8> {
    if k == 0 {
        seq![0x74u8, 0x72, 0x75, 0x65]
    } else if k == 1 {
        seq![0x66u8, 0x61, 0x6c, 0x73, 0x65]
    } else if k == 2 {
        seq![0x6eu8, 0x75, 0x6c, 0x6c]
    } else {
        seq![0x7eu8]
    }
}

fn scalar_word_byte(k: u8, i: usize) -> (r: u8)
    requires
        i < scalar_word(k).len(),
    ensures
        r == scalar_word(k)[i as int],
{
    if k == 0 {
        if i == 0 {
            0x74
        } else if i == 1 {
            0x72
        } else if i == 2 {
            0x75
        } else {
            0x65
        }
    } else if k == 1 {
        if i == 0 {
            0x66
        } else if i == 1 {
            0x61
        } else if i == 2 {
            0x6c
        } else if i == 3 {
            0x73
        } else {
            0x65
        }
    } else if k == 2 {
        if i == 0 {
            0x6e
        } else if i == 1 {
            0x75
        } else {
            0x6c
        }
    } else {
        0x7e
    }
}

fn range_is_word(src: &[u8], a: usize, b: usize, k: u8) -> (r: bool)
    requires
        a <= b <= src@.len(),
    ensures
        r == (src@.subrange(a as int, b as int) == scalar_word(k)),
{
    let len: usize = if k == 0 {
        4
    } else if k == 1 {
        5
    } else if k == 2 {
        4
    } else {
        1
    };
    if b - a != len {
        assert(src@.subrange(a as int, b as int).len() != scalar_word(k).len());
        return false;
    }
    let mut i: usize = 0;
    while i < len
        invariant
            len == scalar_word(k).len(),
            b - a == len,
            b <= src@.len(),
            i <= len,
            forall|j: int| 0 <= j < i ==> src@[a + j] == scalar_word(k)[j],
        decreases len - i,
    {
        if src[a + i] != scalar_word_byte(k, i) {
            proof {
                assert(src@.subrange(a as int, b as int)[i as int] != scalar_word(k)[i as int]);
            }
            return false;
        }
        i = i + 1;
    }
    assert(src@.subrange(a as int, b as int) =~= scalar_word(k));
    true
}

fn sat_sub1(x: usize) -> (r: usize)
    ensures
        r == sat1(x as int),
{
    if x > 0 {
        x - 1
    } else {
        0
    }
}

/// Push the scalar token of `src[ra..rb]` spanning `start..=end` (see `emit_scalar`).
fn emit_scalar_exec(src: &[u8], t: &mut Vec<Tok>, start: usize, end: usize, ra: usize, rb: usize)
    requires
        ra <= rb <= src@.len(),
        end + 1 <= usize::MAX,
    ensures
        final(t)@ == emit_scalar(old(t)@, start as int, end as int, src@.subrange(ra as int, rb as int)),
        final(t)@.len() == old(t)@.len() + 1,
{
    let ghost raw = src@.subrange(ra as int, rb as int);
    let x = trim_start_range(src, ra, rb);
    let y = trim_end_range(src, x, rb);
    let ghost tr = src@.subrange(x as int, y as int);
    assert(tr == trim(raw));
    proof {
        assert(scalar_word(0) == seq![0x74u8, 0x72, 0x75, 0x65]);
        assert(scalar_word(1) == seq![0x66u8, 0x61, 0x6c, 0x73, 0x65]);
        assert(scalar_word(2) == seq![0x6eu8, 0x75, 0x6c, 0x6c]);
        assert(scalar_word(3) == seq![0x7eu8]);
    }
    let tag = if range_is_word(src, x, y, 0) || range_is_word(src, x, y, 1) {
        IoMemento::IoBoolean
    } else if range_is_word(src, x, y, 2) || range_is_word(src, x, y, 3) {
        IoMemento::IoNothing
    } else if is_float_range(src, x, y) {
        IoMemento::IoDouble
    } else {
        IoMemento::IoString
    };
    if tag == IoMemento::IoString && ra < rb && src[ra] == 0x22 {
        t.push((sat_sub1(start), end + 1, tag));
    } else {
        t.push((start, end, tag));
    }
}

/// End (inclusive) of the last line consumed before line `next` (see `last_end`).
fn last_end_exec(src: &[u8], ls: &Lines, next: usize) -> (r: usize)
    requires
        ls.wf(src@),
    ensures
        r == last_end(split_lines(src@), next as int, ls.text_len as int),
        r <= ls.text_len,
{
    if next == 0 {
        0
    } else if next - 1 < ls.ranges.len() {
        let (a, b) = ls.ranges[next - 1];
        let e = trim_end_range(src, a, b);
        proof {
            let lines = split_lines(src@);
            lemma_line_bounds(src@, next - 1);
            lemma_ulen_subrange(src@, a as int, b as int);
            assert(lines[next - 1] == src@.subrange(a as int, b as int));
            lemma_ulen_subrange(src@.subrange(a as int, b as int), 0, (e - a) as int);
            assert(src@.subrange(a as int, b as int).subrange(0, (e - a) as int) == src@.subrange(
                a as int,
                e as int,
            ));
        }
        let l = ulen_range(src, a, e);
        ls.offs[next - 1] + sat_sub1(l)
    } else {
        sat_sub1(ls.text_len)
    }
}

/// Patch the close of token `idx` to the end of the last line before `next`.
fn patch_close_exec(src: &[u8], ls: &Lines, t: &mut Vec<Tok>, idx: usize, next: usize)
    requires
        ls.wf(src@),
        idx < old(t)@.len(),
    ensures
        final(t)@ == patch_close(split_lines(src@), old(t)@, idx as int, next as int, ls.text_len as int),
        final(t)@.len() == old(t)@.len(),
{
    let e = last_end_exec(src, ls, next);
    let (o, _, g) = t[idx];
    t.set(idx, (o, e, g));
}

/// Walk a nested block from line `from` under a line of indentation `col`
/// (see `walk_nested`): `None` when there is no deeper block there.
fn walk_nested_exec(src: &[u8], ls: &Lines, from: usize, col: usize, t: &mut Vec<Tok>) -> (r: Option<usize>)
    requires
        ls.wf(src@),
        walk_nested(split_lines(src@), ls.text_len as int, from as int, col as int, old(t)@) != Some(
            None::<(int, Seq<Tok>)>,
        ),
    ensures
        walk_nested(split_lines(src@), ls.text_len as int, from as int, col as int, old(t)@) is None
            ==> r is None && final(t)@ == old(t)@,
        walk_nested(split_lines(src@), ls.text_len as int, from as int, col as int, old(t)@) matches Some(Some((n, ts)))
            ==> r == Some(n as usize) && final(t)@ == ts && from <= n <= split_lines(src@).len(),
        r is Some ==> walk_nested(split_lines(src@), ls.text_len as int, from as int, col as int, old(t)@) is Some,
        r is None ==> walk_nested(split_lines(src@), ls.text_len as int, from as int, col as int, old(t)@) is None,
        final(t)@.len() >= old(t)@.len(),
    decreases lines_left(split_lines(src@), from as int), 4int,
{
    let ghost lines = split_lines(src@);
    match meaningful_exec(src, ls, from) {
        Some((nl, ncol, ta, tb)) => {
            if ncol > col {
                proof {
                    lemma_meaningful(lines, from as int);
                }
                let kind = if src[ta] == 0x2d {
                    IoMemento::IoArray
                } else {
                    IoMemento::IoObject
                };
                let nested = t.len();
                t.push((ls.offs[nl], sat_sub1(ls.text_len), kind));
                let next = walk_block_exec(src, ls, nl, ncol, t);
                patch_close_exec(src, ls, t, nested, next);
                Some(next)
            } else {
                None
            }
        },
        None => None,
    }
}

/// Walk the block that starts at line `li` (see `walk_block`).
fn walk_block_exec(src: &[u8], ls: &Lines, li: usize, indent: usize, t: &mut Vec<Tok>) -> (next: usize)
    requires
        ls.wf(src@),
        li <= split_lines(src@).len(),
        walk_block(split_lines(src@), ls.text_len as int, li as int, indent as int, old(t)@) is Some,
    ensures
        walk_block(split_lines(src@), ls.text_len as int, li as int, indent as int, old(t)@) == Some(
            (next as int, final(t)@),
        ),
        li <= next <= split_lines(src@).len(),
        final(t)@.len() >= old(t)@.len(),
    decreases lines_left(split_lines(src@), li as int), 3int,
{
    let ghost lines = split_lines(src@);
    match meaningful_exec(src, ls, li) {
        None => li,
        Some((k, col, ta, tb)) => {
            proof {
                lemma_meaningful(lines, li as int);
            }
            let ghost tr = src@.subrange(ta as int, tb as int);
            if src[ta] == 0x2d {
                proof {
                    assert(meaningful(lines, li as int) == Some((k as int, col as int, tr)));
                    assert(tr[0] == 0x2d);
                }
                walk_sequence_exec(src, ls, li, indent, t)
            } else if find_colon_range(src, ta, tb).is_some() {
                proof {
                    assert(meaningful(lines, li as int) == Some((k as int, col as int, tr)));
                }
                walk_mapping_exec(src, ls, li, indent, t)
            } else {
                let te = trim_end_range(src, ta, tb);
                proof {
                    lemma_ulen_subrange(tr, 0, (te - ta) as int);
                    assert(tr.subrange(0, (te - ta) as int) == src@.subrange(ta as int, te as int));
                    lemma_line_bounds(src@, li as int);
                    lemma_line_off_mono(lines, li as int, k as int);
                    assert(ls.offs@[li as int] == line_off(lines, li as int));
                    assert(meaningful(lines, li as int) == Some((k as int, col as int, tr)));
                }
                let tel = ulen_range(src, ta, te);
                let start = ls.offs[li] + col;
                let end = sat_sub1(start + tel);
                let open = if start <= end {
                    start
                } else {
                    end
                };
                t.push((open, end, IoMemento::IoString));
                li + 1
            }
        },
    }
}

/// The outcome of an executed step: stopped at, or moved on to, a line.
pub open spec fn step_done(step: Step, stop: bool, j: usize, ts: Seq<Tok>, i: int, nlines: int) -> bool {
    match step {
        Step::Stop(k, t) => stop && j == k && ts == t && k == i,
        Step::Next(k, t) => !stop && j == k && ts == t && i < k <= nlines,
        Step::Stuck => false,
    }
}

/// One mapping entry at line `i` (see `mapping_step`).
#[verifier::rlimit(80)]
#[verifier::spinoff_prover]
fn mapping_step_exec(src: &[u8], ls: &Lines, i: usize, indent: usize, t: &mut Vec<Tok>) -> (r: (bool, usize))
    requires
        ls.wf(src@),
        i <= split_lines(src@).len(),
        !(mapping_step(split_lines(src@), ls.text_len as int, i as int, indent as int, old(t)@) is Stuck),
    ensures
        step_done(
            mapping_step(split_lines(src@), ls.text_len as int, i as int, indent as int, old(t)@),
            r.0,
            r.1,
            final(t)@,
            i as int,
            split_lines(src@).len() as int,
        ),
        final(t)@.len() >= old(t)@.len(),
    decreases lines_left(split_lines(src@), i as int), 0int,
{
    let ghost lines = split_lines(src@);
    let ghost tl = ls.text_len as int;
    let m = meaningful_exec(src, ls, i);
    if m.is_none() {
        return (true, i);
    }
    let (lineno, col, ta, tb) = m.unwrap();
    let ghost trimmed = src@.subrange(ta as int, tb as int);
    proof {
        lemma_meaningful(lines, i as int);
        assert(meaningful(lines, i as int) == Some((lineno as int, col as int, trimmed)));
    }
    if col < indent {
        return (true, i);
    }
    if col > indent {
        return (false, lineno + 1);
    }
    let fc = find_colon_range(src, ta, tb);
    if fc.is_none() {
        return (true, i);
    }
    let p = fc.unwrap();
    proof {
        crate::confix::yaml_text::lemma_find_colon_from(trimmed, 0, false, 0);
        assert(trimmed.take(p as int) == src@.subrange(ta as int, ta + p));
        assert(trimmed.skip(p + 1) == src@.subrange(ta + p + 1, tb as int));
    }
    let i2 = lineno + 1;
    let ks = trim_start_range(src, ta, ta + p);
    let ke = trim_end_range(src, ks, ta + p);
    proof {
        lemma_ulen_subrange(trimmed, (ks - ta) as int, (ke - ta) as int);
        assert(trimmed.subrange((ks - ta) as int, (ke - ta) as int) == src@.subrange(ks as int, ke as int));
        assert(trim(trimmed.take(p as int)) == src@.subrange(ks as int, ke as int));
    }
    let kl = ulen_range(src, ks, ke);
    let key_start = ls.offs[lineno] + col;
    let key_end = key_start + sat_sub1(kl);
    let ghost t0 = t@;
    t.push((key_start, key_end, IoMemento::IoString));
    let va = trim_start_range(src, ta + p + 1, tb);
    let vb = trim_end_range(src, va, tb);
    proof {
        assert(trim(trimmed.skip(p + 1)) == src@.subrange(va as int, vb as int));
        assert(t@ == t0.push(
            (
                (line_off(lines, lineno as int) + col) as usize,
                (line_off(lines, lineno as int) + col + sat1(ulen(trim(trimmed.take(p as int))) as int)) as usize,
                IoMemento::IoString,
            ),
        ));
    }
    if va == vb {
        proof {
            let vr = trim(trimmed.skip(p + 1));
            assert(vr.len() == 0);
            assert(find_colon(trimmed) == Some(p as int));
            assert(!(col < indent) && !(col > indent));
            assert(i <= lineno < lines.len());
            let kr = trim(trimmed.take(p as int));
            let t1s = t0.push(((line_off(lines, lineno as int) + col) as usize, (line_off(lines, lineno as int) + col + sat1(ulen(kr) as int)) as usize, IoMemento::IoString));
            assert(t1s == t@);
            assert(mapping_step(lines, tl, i as int, indent as int, t0) is Next || mapping_step(lines, tl, i as int, indent as int, t0) is Stuck);
            let st = mapping_step(lines, tl, i as int, indent as int, t0);
            match walk_nested(lines, tl, i2 as int, col as int, t@) {
                Some(None) => { assert(st is Stuck); },
                Some(Some((n, t3))) => { assert(st == Step::Next(n, t3)); },
                None => { assert(st == Step::Next(i2 as int, t@.push((key_start, key_start, IoMemento::IoNothing)))); },
            }
        }
        match walk_nested_exec(src, ls, i2, col, t) {
            Some(next) => (false, next),
            None => {
                t.push((key_start, key_start, IoMemento::IoNothing));
                (false, i2)
            },
        }
    } else {
        let te = trim_end_range(src, ta, tb);
        proof {
            lemma_ulen_subrange(trimmed, (va - ta) as int, (vb - ta) as int);
            assert(trimmed.subrange((va - ta) as int, (vb - ta) as int) == src@.subrange(va as int, vb as int));
            lemma_ulen_subrange(trimmed, 0, (te - ta) as int);
            assert(trimmed.subrange(0, (te - ta) as int) == src@.subrange(ta as int, te as int));
            assert(trimmed.subrange(0, trimmed.len() as int) == trimmed);
        }
        let tl_ = ulen_range(src, ta, tb);
        let vl = ulen_range(src, va, vb);
        let tel = ulen_range(src, ta, te);
        let vs = ls.offs[lineno] + col + (tl_ - vl);
        let ve = ls.offs[lineno] + sat_sub1(tel);
        emit_scalar_exec(src, t, vs, ve, va, vb);
        (false, i2)
    }
}

/// One sequence item at line `i` (see `sequence_step`).
fn sequence_step_exec(src: &[u8], ls: &Lines, i: usize, indent: usize, t: &mut Vec<Tok>) -> (r: (bool, usize))
    requires
        ls.wf(src@),
        i <= split_lines(src@).len(),
        !(sequence_step(split_lines(src@), ls.text_len as int, i as int, indent as int, old(t)@) is Stuck),
    ensures
        step_done(
            sequence_step(split_lines(src@), ls.text_len as int, i as int, indent as int, old(t)@),
            r.0,
            r.1,
            final(t)@,
            i as int,
            split_lines(src@).len() as int,
        ),
        final(t)@.len() >= old(t)@.len(),
    decreases lines_left(split_lines(src@), i as int), 0int,
{
    let ghost lines = split_lines(src@);
    let m = meaningful_exec(src, ls, i);
    if m.is_none() {
        return (true, i);
    }
    let (lineno, col, ta, tb) = m.unwrap();
    let ghost trimmed = src@.subrange(ta as int, tb as int);
    proof {
        lemma_meaningful(lines, i as int);
        assert(meaningful(lines, i as int) == Some((lineno as int, col as int, trimmed)));
    }
    if col < indent || src[ta] != 0x2d {
        return (true, i);
    }
    let i2 = lineno + 1;
    let ra = trim_start_range(src, ta + 1, tb);
    let rb = trim_end_range(src, ra, tb);
    proof {
        assert(trimmed.skip(1) == src@.subrange(ta + 1, tb as int));
        assert(trim(trimmed.skip(1)) == src@.subrange(ra as int, rb as int));
    }
    if ra == rb {
        match walk_nested_exec(src, ls, i2, col, t) {
            Some(next) => (false, next),
            None => {
                let o = ls.offs[lineno];
                t.push((o, o, IoMemento::IoNothing));
                (false, i2)
            },
        }
    } else {
        proof {
            assert(find_colon(src@.subrange(ra as int, rb as int)) is None);
        }
        let te = trim_end_range(src, ta, tb);
        proof {
            lemma_ulen_subrange(trimmed, (ra - ta) as int, trimmed.len() as int);
            assert(trimmed.subrange((ra - ta) as int, trimmed.len() as int) == src@.subrange(ra as int, tb as int));
            lemma_ulen_subrange(trimmed, 0, (te - ta) as int);
            assert(trimmed.subrange(0, (te - ta) as int) == src@.subrange(ta as int, te as int));
            assert(trimmed.subrange(0, trimmed.len() as int) == trimmed);
        }
        let tl_ = ulen_range(src, ta, tb);
        let al = ulen_range(src, ra, tb);
        let tel = ulen_range(src, ta, te);
        let item_start = ls.offs[lineno] + col + (tl_ - al);
        let ve = ls.offs[lineno] + sat_sub1(tel);
        emit_scalar_exec(src, t, item_start, ve, ra, rb);
        (false, i2)
    }
}

/// A mapping block at line `li` (see `walk_mapping`).
fn walk_mapping_exec(src: &[u8], ls: &Lines, li: usize, indent: usize, t: &mut Vec<Tok>) -> (next: usize)
    requires
        ls.wf(src@),
        li < split_lines(src@).len(),
        walk_mapping(split_lines(src@), ls.text_len as int, li as int, indent as int, old(t)@) is Some,
    ensures
        walk_mapping(split_lines(src@), ls.text_len as int, li as int, indent as int, old(t)@) == Some(
            (next as int, final(t)@),
        ),
        li <= next <= split_lines(src@).len(),
        final(t)@.len() >= old(t)@.len(),
    decreases lines_left(split_lines(src@), li as int), 2int,
{
    let ghost lines = split_lines(src@);
    let ghost tl = ls.text_len as int;
    proof {
        assert(ls.offs@[li as int] == line_off(lines, li as int));
    }
    let open_tok = t.len();
    t.push((ls.offs[li], sat_sub1(ls.text_len), IoMemento::IoObject));
    let ghost t1 = t@;
    proof {
        assert(t1 == old(t)@.push(
            (line_off(lines, li as int) as usize, sat1(tl) as usize, IoMemento::IoObject),
        ));
    }
    let mut i = li;
    loop
        invariant
            ls.wf(src@),
            lines == split_lines(src@),
            tl == ls.text_len as int,
            li < lines.len(),
            li <= i <= lines.len(),
            open_tok < t@.len(),
            t1.len() <= t@.len(),
            mapping_entries(lines, tl, i as int, indent as int, t@) is Some,
            mapping_entries(lines, tl, i as int, indent as int, t@) == mapping_entries(
                lines,
                tl,
                li as int,
                indent as int,
                t1,
            ),
        ensures
            ls.wf(src@),
            li <= i <= lines.len(),
            open_tok < t@.len(),
            mapping_entries(lines, tl, li as int, indent as int, t1) == Some((i as int, t@)),
        decreases lines.len() - i,
    {
        let (stop, j) = mapping_step_exec(src, ls, i, indent, t);
        i = j;
        if stop {
            break;
        }
    }
    patch_close_exec(src, ls, t, open_tok, i);
    i
}

/// A sequence block at line `li` (see `walk_sequence`).
fn walk_sequence_exec(src: &[u8], ls: &Lines, li: usize, indent: usize, t: &mut Vec<Tok>) -> (next: usize)
    requires
        ls.wf(src@),
        li < split_lines(src@).len(),
        walk_sequence(split_lines(src@), ls.text_len as int, li as int, indent as int, old(t)@) is Some,
    ensures
        walk_sequence(split_lines(src@), ls.text_len as int, li as int, indent as int, old(t)@) == Some(
            (next as int, final(t)@),
        ),
        li <= next <= split_lines(src@).len(),
        final(t)@.len() >= old(t)@.len(),
    decreases lines_left(split_lines(src@), li as int), 2int,
{
    let ghost lines = split_lines(src@);
    let ghost tl = ls.text_len as int;
    proof {
        assert(ls.offs@[li as int] == line_off(lines, li as int));
    }
    let open_tok = t.len();
    t.push((ls.offs[li], sat_sub1(ls.text_len), IoMemento::IoArray));
    let ghost t1 = t@;
    proof {
        assert(t1 == old(t)@.push(
            (line_off(lines, li as int) as usize, sat1(tl) as usize, IoMemento::IoArray),
        ));
    }
    let mut i = li;
    loop
        invariant
            ls.wf(src@),
            lines == split_lines(src@),
            tl == ls.text_len as int,
            li < lines.len(),
            li <= i <= lines.len(),
            open_tok < t@.len(),
            t1.len() <= t@.len(),
            sequence_items(lines, tl, i as int, indent as int, t@) is Some,
            sequence_items(lines, tl, i as int, indent as int, t@) == sequence_items(
                lines,
                tl,
                li as int,
                indent as int,
                t1,
            ),
        ensures
            ls.wf(src@),
            li <= i <= lines.len(),
            open_tok < t@.len(),
            sequence_items(lines, tl, li as int, indent as int, t1) == Some((i as int, t@)),
        decreases lines.len() - i,
    {
        let (stop, j) = sequence_step_exec(src, ls, i, indent, t);
        i = j;
        if stop {
            break;
        }
    }
    patch_close_exec(src, ls, t, open_tok, i);
    i
}

} // verus!

verus! {

/// The source can be scanned as YAML: a flow document goes to the JSON scanner;
/// a block document needs its projected text to fit in memory (`usize`) and a walk
/// that returns.
pub open spec fn yaml_scannable(src: Seq<u8>) -> bool {
    yaml_is_flow(src) || (ulen(src) + 2 <= usize::MAX && yaml_walk(src) is Some)
}

/// The tokens the YAML scanner emits for a scannable source.
pub open spec fn yaml_tokens(src: Seq<u8>) -> Seq<Tok> {
    if yaml_is_flow(src) {
        crate::confix::json_scan::json_tokens(src)
    } else {
        yaml_walk(src).unwrap()
    }
}

proof fn lemma_first_non_ws(src: Seq<u8>, i: int)
    requires
        0 <= i <= src.len(),
    ensures
        i <= first_non_ws(src, i) <= src.len(),
    decreases src.len() - i,
{
    if i < src.len() && is_lead_ws(src[i]) {
        lemma_first_non_ws(src, i + 1);
    }
}

/// Is the source a flow document?
pub fn yaml_flow_exec(src: &[u8]) -> (r: bool)
    ensures
        r == yaml_is_flow(src@),
{
    let mut i: usize = 0;
    proof {
        lemma_first_non_ws(src@, 0);
    }
    while i < src.len() && (src[i] == 0x20 || src[i] == 0x09 || src[i] == 0x0a || src[i] == 0x0b
        || src[i] == 0x0c || src[i] == 0x0d)
        invariant
            i <= src@.len(),
            first_non_ws(src@, i as int) == first_non_ws(src@, 0),
        decreases src@.len() - i,
    {
        i = i + 1;
    }
    i < src.len() && (src[i] == 0x7b || src[i] == 0x5b)
}

/// The tokens of the line walk over a block document.
pub(crate) fn yaml_walk_tokens(src: &[u8]) -> (r: Vec<Tok>)
    requires
        ulen(src@) + 2 <= usize::MAX,
        yaml_walk(src@) is Some,
    ensures
        yaml_walk(src@) == Some(r@),
{
    let ls = build_lines(src);
    let mut t: Vec<Tok> = Vec::new();
    match meaningful_exec(src, &ls, 0) {
        None => {},
        Some((li, col, _, _)) => {
            proof {
                lemma_meaningful(split_lines(src@), 0);
            }
            let _ = walk_block_exec(src, &ls, li, col, &mut t);
        },
    }
    t
}

} // verus!
