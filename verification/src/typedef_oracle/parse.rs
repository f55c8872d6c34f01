//! Reading typedef and typealias declarations out of source text, by character ranges.
use vstd::prelude::*;

use crate::confix::nav::{is_white_space, is_white_space_exec};

verus! {

// ── ranges of characters ────────────────────────────────────────────────────

/// The first position in `a..b` that is not white space (`b` where there is none).
pub open spec fn skip_ws(cs: Seq<char>, a: int, b: int) -> int
    decreases b - a,
{
    if a < b && is_white_space(cs[a]) {
        skip_ws(cs, a + 1, b)
    } else {
        a
    }
}

/// The end of `a..b` once trailing white space is dropped.
pub open spec fn back_ws(cs: Seq<char>, a: int, b: int) -> int
    decreases b - a,
{
    if a < b && is_white_space(cs[b - 1]) {
        back_ws(cs, a, b - 1)
    } else {
        b
    }
}

/// The end of `a..b` once trailing `;` are dropped.
pub open spec fn back_semis(cs: Seq<char>, a: int, b: int) -> int
    decreases b - a,
{
    if a < b && cs[b - 1] == ';' {
        back_semis(cs, a, b - 1)
    } else {
        b
    }
}

/// `a..b` trimmed of white space at both ends.
pub open spec fn trim_range(cs: Seq<char>, a: int, b: int) -> (int, int) {
    let s = skip_ws(cs, a, b);
    (s, back_ws(cs, s, b))
}

/// The first position in `a..b` holding `c`.
pub open spec fn find_in(cs: Seq<char>, a: int, b: int, c: char) -> Option<int>
    decreases b - a,
{
    if a >= b {
        None
    } else if cs[a] == c {
        Some(a)
    } else {
        find_in(cs, a + 1, b, c)
    }
}

/// The last position in `a..b` holding `c`.
pub open spec fn rfind_in(cs: Seq<char>, a: int, b: int, c: char) -> Option<int>
    decreases b - a,
{
    if a >= b {
        None
    } else if cs[b - 1] == c {
        Some(b - 1)
    } else {
        rfind_in(cs, a, b - 1, c)
    }
}

/// `p` occurs in `cs` at `i`, before `b`.
pub open spec fn matches_at(cs: Seq<char>, i: int, b: int, p: Seq<char>) -> bool {
    0 <= i && i + p.len() <= b && cs.subrange(i, i + p.len()) == p
}

/// Where a typedef's ` as ` separator stands.
pub enum SplitAt {
    Found(int),
    Missing,
    /// Reading on would slice a character in two.
    Fault,
}

/// The first top-level ` as ` in `i..b`, scanning with angle-bracket depth `depth`:
/// `<` opens a level, `>` closes one. A non-ASCII character met at top level faults.
pub open spec fn split_as(cs: Seq<char>, i: int, b: int, depth: nat) -> SplitAt
    decreases b - i,
{
    if i >= b {
        SplitAt::Missing
    } else if cs[i] == '<' {
        split_as(cs, i + 1, b, depth + 1)
    } else if cs[i] == '>' {
        split_as(
            cs,
            i + 1,
            b,
            if depth > 0 {
                (depth - 1) as nat
            } else {
                0
            },
        )
    } else if depth == 0 && (cs[i] as u32) >= 0x80 {
        SplitAt::Fault
    } else if depth == 0 && matches_at(cs, i, b, seq![' ', 'a', 's', ' ']) {
        SplitAt::Found(i)
    } else {
        split_as(cs, i + 1, b, depth)
    }
}

/// The parameter list of a name `a..b` is nested or unterminated: after its first `<`,
/// either no `>` follows or something other than white space follows the first `>`.
pub open spec fn params_nested(cs: Seq<char>, a: int, b: int) -> bool {
    match find_in(cs, a, b, '<') {
        None => false,
        Some(start) => match find_in(cs, start + 1, b, '>') {
            None => true,
            Some(close) => skip_ws(cs, close + 1, b) < b,
        },
    }
}

/// The type parameters of a name.
pub enum TypeParams {
    Absent,
    Range(int, int),
    /// The last `>` stands before the first `<`.
    Fault,
}

/// The text between the first `<` and the last `>` of a name `a..b`.
pub open spec fn type_params(cs: Seq<char>, a: int, b: int) -> TypeParams {
    match find_in(cs, a, b, '<') {
        None => TypeParams::Absent,
        Some(start) => match rfind_in(cs, a, b, '>') {
            None => TypeParams::Absent,
            Some(end) => if end < start {
                TypeParams::Fault
            } else {
                TypeParams::Range(start + 1, end)
            },
        },
    }
}

/// A name `a..b` without its parameter list, trimmed.
pub open spec fn clean_name(cs: Seq<char>, a: int, b: int) -> (int, int) {
    match find_in(cs, a, b, '<') {
        Some(i) => trim_range(cs, a, i),
        None => trim_range(cs, a, b),
    }
}

/// The pieces of `a..b` between the separators `c`, starting a piece at `start` and
/// scanning from `i`.
pub open spec fn pieces_from(cs: Seq<char>, start: int, i: int, b: int, c: char) -> Seq<(int, int)>
    decreases b - i,
{
    if i >= b {
        seq![(start, b)]
    } else if cs[i] == c {
        seq![(start, i)] + pieces_from(cs, i + 1, i + 1, b, c)
    } else {
        pieces_from(cs, start, i + 1, b, c)
    }
}

/// The lines of `cs`: split at `\n`, each line so ended losing one trailing `\r`; a final
/// line without `\n` kept whole where it is not empty.
pub open spec fn lines_from(cs: Seq<char>, start: int, i: int) -> Seq<(int, int)>
    decreases cs.len() - i,
{
    if i >= cs.len() {
        if start < cs.len() {
            seq![(start, cs.len() as int)]
        } else {
            seq![]
        }
    } else if cs[i] == '\n' {
        let end = if i > start && cs[i - 1] == '\r' {
            i - 1
        } else {
            i
        };
        seq![(start, end)] + lines_from(cs, i + 1, i + 1)
    } else {
        lines_from(cs, start, i + 1)
    }
}

/// Every range of `r` is well-ordered and ends by `n`.
pub open spec fn ranges_within(r: Seq<(usize, usize)>, n: int) -> bool {
    forall|k: int| #![trigger r[k]] 0 <= k < r.len() ==> r[k].0 <= r[k].1 <= n
}

pub proof fn lemma_ranges_push(r: Seq<(usize, usize)>, x: (usize, usize), n: int)
    requires
        ranges_within(r, n),
        x.0 <= x.1 <= n,
    ensures
        ranges_within(r.push(x), n),
{
    assert forall|k: int| #![trigger r.push(x)[k]] 0 <= k < r.len() + 1 implies r.push(x)[k].0 <= r.push(x)[k].1
        <= n by {
        if k < r.len() {
            assert(r.push(x)[k] == r[k]);
        }
    }
}

// ── executable ──────────────────────────────────────────────────────────────

pub fn skip_ws_exec(cs: &Vec<char>, a: usize, b: usize) -> (r: usize)
    requires
        a <= b <= cs@.len(),
    ensures
        r == skip_ws(cs@, a as int, b as int),
        a <= r <= b,
{
    let mut i = a;
    while i < b && is_white_space_exec(cs[i])
        invariant
            a <= i <= b <= cs@.len(),
            skip_ws(cs@, i as int, b as int) == skip_ws(cs@, a as int, b as int),
        decreases b - i,
    {
        i = i + 1;
    }
    i
}

pub fn back_ws_exec(cs: &Vec<char>, a: usize, b: usize) -> (r: usize)
    requires
        a <= b <= cs@.len(),
    ensures
        r == back_ws(cs@, a as int, b as int),
        a <= r <= b,
{
    let mut j = b;
    while j > a && is_white_space_exec(cs[j - 1])
        invariant
            a <= j <= b <= cs@.len(),
            back_ws(cs@, a as int, j as int) == back_ws(cs@, a as int, b as int),
        decreases j - a,
    {
        j = j - 1;
    }
    j
}

pub fn back_semis_exec(cs: &Vec<char>, a: usize, b: usize) -> (r: usize)
    requires
        a <= b <= cs@.len(),
    ensures
        r == back_semis(cs@, a as int, b as int),
        a <= r <= b,
{
    let mut j = b;
    while j > a && cs[j - 1] == ';'
        invariant
            a <= j <= b <= cs@.len(),
            back_semis(cs@, a as int, j as int) == back_semis(cs@, a as int, b as int),
        decreases j - a,
    {
        j = j - 1;
    }
    j
}

pub fn trim_exec(cs: &Vec<char>, a: usize, b: usize) -> (r: (usize, usize))
    requires
        a <= b <= cs@.len(),
    ensures
        (r.0 as int, r.1 as int) == trim_range(cs@, a as int, b as int),
        a <= r.0 <= r.1 <= b,
{
    let s = skip_ws_exec(cs, a, b);
    (s, back_ws_exec(cs, s, b))
}

pub fn find_exec(cs: &Vec<char>, a: usize, b: usize, c: char) -> (r: Option<usize>)
    requires
        a <= b <= cs@.len(),
    ensures
        match r {
            Some(i) => find_in(cs@, a as int, b as int, c) == Some(i as int) && a <= i < b,
            None => find_in(cs@, a as int, b as int, c) is None,
        },
{
    let mut i = a;
    while i < b
        invariant
            a <= i <= b <= cs@.len(),
            find_in(cs@, i as int, b as int, c) == find_in(cs@, a as int, b as int, c),
        decreases b - i,
    {
        if cs[i] == c {
            return Some(i);
        }
        i = i + 1;
    }
    None
}

pub fn rfind_exec(cs: &Vec<char>, a: usize, b: usize, c: char) -> (r: Option<usize>)
    requires
        a <= b <= cs@.len(),
    ensures
        match r {
            Some(i) => rfind_in(cs@, a as int, b as int, c) == Some(i as int) && a <= i < b,
            None => rfind_in(cs@, a as int, b as int, c) is None,
        },
{
    let mut j = b;
    while j > a
        invariant
            a <= j <= b <= cs@.len(),
            rfind_in(cs@, a as int, j as int, c) == rfind_in(cs@, a as int, b as int, c),
        decreases j - a,
    {
        if cs[j - 1] == c {
            return Some(j - 1);
        }
        j = j - 1;
    }
    None
}

/// Does `p` occur at `i` before `b`?
pub fn matches_at_exec(cs: &Vec<char>, i: usize, b: usize, p: &Vec<char>) -> (r: bool)
    requires
        i <= b <= cs@.len(),
    ensures
        r == matches_at(cs@, i as int, b as int, p@),
{
    if b - i < p.len() {
        return false;
    }
    let mut k: usize = 0;
    while k < p.len()
        invariant
            k <= p@.len(),
            i + p@.len() <= b <= cs@.len(),
            cs@.subrange(i as int, i + k) == p@.subrange(0, k as int),
        decreases p@.len() - k,
    {
        if cs[i + k] != p[k] {
            assert(cs@.subrange(i as int, i + p@.len())[k as int] != p@[k as int]);
            return false;
        }
        k = k + 1;
        assert(cs@.subrange(i as int, i + k) =~= p@.subrange(0, k as int));
    }
    assert(p@.subrange(0, p@.len() as int) =~= p@);
    true
}

/// The characters `a..b` as a string.
pub fn string_of(cs: &Vec<char>, a: usize, b: usize) -> (s: String)
    requires
        a <= b <= cs@.len(),
    ensures
        s@ == cs@.subrange(a as int, b as int),
{
    let mut s = String::new();
    let mut i = a;
    while i < b
        invariant
            a <= i <= b <= cs@.len(),
            s@ == cs@.subrange(a as int, i as int),
        decreases b - i,
    {
        s.push(cs[i]);
        i = i + 1;
        assert(s@ =~= cs@.subrange(a as int, i as int));
    }
    s
}

/// The characters of a string.
pub fn chars_of(text: &str) -> (cs: Vec<char>)
    ensures
        cs@ == text@,
{
    let mut cs: Vec<char> = Vec::new();
    proof {
        broadcast use vstd::string::axiom_spec_iter;
    }
    for c in it: text.chars()
        invariant
            it.seq() == text@,
            cs@ == text@.subrange(0, it.index() as int),
    {
        cs.push(c);
        assert(cs@ =~= text@.subrange(0, it.index() as int + 1));
    }
    assert(cs@ =~= text@);
    cs
}

/// The lines of `cs` (see `lines_from`).
pub fn lines_exec(cs: &Vec<char>) -> (r: Vec<(usize, usize)>)
    ensures
        r@.map_values(|p: (usize, usize)| (p.0 as int, p.1 as int)) == lines_from(cs@, 0, 0),
        ranges_within(r@, cs@.len() as int),
{
    let n = cs.len();
    let mut out: Vec<(usize, usize)> = Vec::new();
    let mut start: usize = 0;
    let mut i: usize = 0;
    while i < n
        invariant
            start <= i <= n,
            n == cs@.len(),
            out@.map_values(|p: (usize, usize)| (p.0 as int, p.1 as int)) + lines_from(
                cs@,
                start as int,
                i as int,
            ) == lines_from(cs@, 0, 0),
            ranges_within(out@, n as int),
        decreases n - i,
    {
        if cs[i] == '\n' {
            let end = if i > start && cs[i - 1] == '\r' {
                i - 1
            } else {
                i
            };
            let ghost before = out@;
            out.push((start, end));
            assert(out@.map_values(|p: (usize, usize)| (p.0 as int, p.1 as int)) =~= before.map_values(
                |p: (usize, usize)| (p.0 as int, p.1 as int),
            ) + seq![(start as int, end as int)]);
            proof {
                lemma_ranges_push(before, (start, end), n as int);
            }
            start = i + 1;
        }
        i = i + 1;
    }
    if start < n {
        let ghost before = out@;
        out.push((start, n));
        proof {
            lemma_ranges_push(before, (start, n), n as int);
        }
        assert(out@.map_values(|p: (usize, usize)| (p.0 as int, p.1 as int)) =~= before.map_values(
            |p: (usize, usize)| (p.0 as int, p.1 as int),
        ) + seq![(start as int, n as int)]);
    } else {
        assert(out@.map_values(|p: (usize, usize)| (p.0 as int, p.1 as int)) =~= out@.map_values(
            |p: (usize, usize)| (p.0 as int, p.1 as int),
        ) + lines_from(cs@, start as int, i as int));
    }
    out
}

/// The pieces of `a..b` between separators `c` (see `pieces_from`).
pub fn pieces_exec(cs: &Vec<char>, a: usize, b: usize, c: char) -> (r: Vec<(usize, usize)>)
    requires
        a <= b <= cs@.len(),
    ensures
        r@.map_values(|p: (usize, usize)| (p.0 as int, p.1 as int)) == pieces_from(
            cs@,
            a as int,
            a as int,
            b as int,
            c,
        ),
        ranges_within(r@, b as int),
{
    let mut out: Vec<(usize, usize)> = Vec::new();
    let mut start = a;
    let mut i = a;
    while i < b
        invariant
            a <= start <= i <= b <= cs@.len(),
            out@.map_values(|p: (usize, usize)| (p.0 as int, p.1 as int)) + pieces_from(
                cs@,
                start as int,
                i as int,
                b as int,
                c,
            ) == pieces_from(cs@, a as int, a as int, b as int, c),
            ranges_within(out@, b as int),
        decreases b - i,
    {
        if cs[i] == c {
            let ghost before = out@;
            out.push((start, i));
            assert(out@.map_values(|p: (usize, usize)| (p.0 as int, p.1 as int)) =~= before.map_values(
                |p: (usize, usize)| (p.0 as int, p.1 as int),
            ) + seq![(start as int, i as int)]);
            proof {
                lemma_ranges_push(before, (start, i), b as int);
            }
            start = i + 1;
        }
        i = i + 1;
    }
    let ghost before = out@;
    out.push((start, b));
    assert(out@.map_values(|p: (usize, usize)| (p.0 as int, p.1 as int)) =~= before.map_values(
        |p: (usize, usize)| (p.0 as int, p.1 as int),
    ) + seq![(start as int, b as int)]);
    proof {
        lemma_ranges_push(before, (start, b), b as int);
    }
    out
}

/// Where the top-level ` as ` of `a..b` stands (see `split_as`): `Err` on a fault.
pub fn split_as_exec(cs: &Vec<char>, a: usize, b: usize) -> (r: Result<Option<usize>, ()>)
    requires
        a <= b <= cs@.len(),
    ensures
        match r {
            Ok(Some(i)) => split_as(cs@, a as int, b as int, 0) == SplitAt::Found(i as int) && a <= i
                && i + 4 <= b,
            Ok(None) => split_as(cs@, a as int, b as int, 0) == SplitAt::Missing,
            Err(_) => split_as(cs@, a as int, b as int, 0) == SplitAt::Fault,
        },
{
    let sep: Vec<char> = vec![' ', 'a', 's', ' '];
    assert(sep@ =~= seq![' ', 'a', 's', ' ']);
    let mut depth: usize = 0;
    let mut i = a;
    while i < b
        invariant
            a <= i <= b <= cs@.len(),
            depth <= i - a,
            sep@ == seq![' ', 'a', 's', ' '],
            split_as(cs@, i as int, b as int, depth as nat) == split_as(cs@, a as int, b as int, 0),
        decreases b - i,
    {
        let c = cs[i];
        if c == '<' {
            depth = depth + 1;
        } else if c == '>' {
            if depth > 0 {
                depth = depth - 1;
            }
        } else if depth == 0 && (c as u32) >= 0x80 {
            return Err(());
        } else if depth == 0 && matches_at_exec(cs, i, b, &sep) {
            return Ok(Some(i));
        }
        i = i + 1;
    }
    Ok(None)
}

/// Does the parameter list of name `a..b` nest (see `params_nested`)?
pub fn params_nested_exec(cs: &Vec<char>, a: usize, b: usize) -> (r: bool)
    requires
        a <= b <= cs@.len(),
    ensures
        r == params_nested(cs@, a as int, b as int),
{
    match find_exec(cs, a, b, '<') {
        None => false,
        Some(start) => match find_exec(cs, start + 1, b, '>') {
            None => true,
            Some(close) => skip_ws_exec(cs, close + 1, b) < b,
        },
    }
}

/// The parameter list of name `a..b` (see `type_params`): `Err` on a fault.
pub fn type_params_exec(cs: &Vec<char>, a: usize, b: usize) -> (r: Result<Option<(usize, usize)>, ()>)
    requires
        a <= b <= cs@.len(),
    ensures
        match r {
            Ok(Some((x, y))) => type_params(cs@, a as int, b as int) == TypeParams::Range(x as int, y as int)
                && x <= y <= b,
            Ok(None) => type_params(cs@, a as int, b as int) == TypeParams::Absent,
            Err(_) => type_params(cs@, a as int, b as int) == TypeParams::Fault,
        },
{
    match find_exec(cs, a, b, '<') {
        None => Ok(None),
        Some(start) => match rfind_exec(cs, a, b, '>') {
            None => Ok(None),
            Some(end) => if end < start {
                Err(())
            } else {
                proof {
                    lemma_find_in(cs@, a as int, b as int, '<');
                    lemma_rfind_in(cs@, a as int, b as int, '>');
                }
                Ok(Some((start + 1, end)))
            },
        },
    }
}

proof fn lemma_find_in(cs: Seq<char>, a: int, b: int, c: char)
    ensures
        find_in(cs, a, b, c) matches Some(i) ==> a <= i < b && cs[i] == c,
    decreases b - a,
{
    if a < b && cs[a] != c {
        lemma_find_in(cs, a + 1, b, c);
    }
}

proof fn lemma_rfind_in(cs: Seq<char>, a: int, b: int, c: char)
    ensures
        rfind_in(cs, a, b, c) matches Some(i) ==> a <= i < b && cs[i] == c,
    decreases b - a,
{
    if a < b && cs[b - 1] != c {
        lemma_rfind_in(cs, a, b - 1, c);
    }
}

/// Name `a..b` without its parameter list, trimmed (see `clean_name`).
pub fn clean_name_exec(cs: &Vec<char>, a: usize, b: usize) -> (r: (usize, usize))
    requires
        a <= b <= cs@.len(),
    ensures
        (r.0 as int, r.1 as int) == clean_name(cs@, a as int, b as int),
        a <= r.0 <= r.1 <= b,
{
    match find_exec(cs, a, b, '<') {
        Some(i) => trim_exec(cs, a, i),
        None => trim_exec(cs, a, b),
    }
}

} // verus!
