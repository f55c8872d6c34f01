//! Byte-level text helpers of the YAML scanner.
//!
//! The YAML scanner reads each source byte as the character with the same code
//! (a Latin-1 projection) and measures lengths and offsets in the UTF-8 encoding of
//! that projected text: bytes below 0x80 count one, the others two.
use vstd::prelude::*;

verus! {

/// UTF-8 width of the character that byte `b` projects to.
pub open spec fn width(b: u8) -> nat {
    if b < 0x80 {
        1
    } else {
        2
    }
}

/// UTF-8 length of the projected text of `s`.
pub open spec fn ulen(s: Seq<u8>) -> nat
    decreases s.len(),
{
    if s.len() == 0 {
        0
    } else {
        ulen(s.drop_last()) + width(s.last())
    }
}

/// White space as `char::is_whitespace` sees the projected character.
pub open spec fn is_ws(b: u8) -> bool {
    (0x09 <= b <= 0x0d) || b == 0x20 || b == 0x85 || b == 0xa0
}

/// `s` without its leading white space.
pub open spec fn trim_start(s: Seq<u8>) -> Seq<u8>
    decreases s.len(),
{
    if s.len() > 0 && is_ws(s[0]) {
        trim_start(s.drop_first())
    } else {
        s
    }
}

/// `s` without its trailing white space.
pub open spec fn trim_end(s: Seq<u8>) -> Seq<u8>
    decreases s.len(),
{
    if s.len() > 0 && is_ws(s.last()) {
        trim_end(s.drop_last())
    } else {
        s
    }
}

/// `s` without leading and trailing white space.
pub open spec fn trim(s: Seq<u8>) -> Seq<u8> {
    trim_end(trim_start(s))
}

/// Position of the first mapping colon in `s` from `i`: a `:` outside single or
/// double quotes that ends `s` or is followed by white space.
pub open spec fn find_colon_from(s: Seq<u8>, i: int, in_quote: bool, quote: u8) -> Option<int>
    decreases s.len() - i,
{
    if i < 0 || i >= s.len() {
        None
    } else {
        let c = s[i];
        if in_quote {
            if c == quote {
                find_colon_from(s, i + 1, false, quote)
            } else {
                find_colon_from(s, i + 1, true, quote)
            }
        } else if c == 0x22 || c == 0x27 {
            find_colon_from(s, i + 1, true, c)
        } else if c == 0x3a && (i + 1 >= s.len() || is_ws(s[i + 1])) {
            Some(i)
        } else {
            find_colon_from(s, i + 1, false, quote)
        }
    }
}

/// Position of the first mapping colon in `s`.
pub open spec fn find_colon(s: Seq<u8>) -> Option<int> {
    find_colon_from(s, 0, false, 0)
}

pub open spec fn is_digit(b: u8) -> bool {
    0x30 <= b <= 0x39
}

/// End of the run of decimal digits starting at `i`.
pub open spec fn digits_end(s: Seq<u8>, i: int) -> int
    decreases s.len() - i,
{
    if 0 <= i < s.len() && is_digit(s[i]) {
        digits_end(s, i + 1)
    } else {
        i
    }
}

/// `s[c..]` is an exponent tail: an optional sign and at least one digit, to the end.
pub open spec fn exponent_ok(s: Seq<u8>, c: int) -> bool {
    let c2 = if c < s.len() && (s[c] == 0x2b || s[c] == 0x2d) {
        c + 1
    } else {
        c
    };
    digits_end(s, c2) > c2 && digits_end(s, c2) == s.len()
}

/// `s` is a decimal number: `Digit+ | Digit+ '.' Digit* | Digit* '.' Digit+`,
/// then an optional exponent `('e' | 'E') Sign? Digit+`.
pub open spec fn is_decimal(s: Seq<u8>) -> bool {
    let a = digits_end(s, 0);
    let has_dot = a < s.len() && s[a] == 0x2e;
    let b = if has_dot {
        digits_end(s, a + 1)
    } else {
        a
    };
    let frac = if has_dot {
        b - (a + 1)
    } else {
        0
    };
    (a > 0 || frac > 0) && (b == s.len() || ((s[b] == 0x65 || s[b] == 0x45) && exponent_ok(
        s,
        b + 1,
    )))
}

/// ASCII lower case of a byte.
pub open spec fn lower(b: u8) -> u8 {
    if 0x41 <= b <= 0x5a {
        (b + 32) as u8
    } else {
        b
    }
}

/// `s` equals `word` (given in lower case) ignoring ASCII case.
pub open spec fn eq_ignore_case(s: Seq<u8>, word: Seq<u8>) -> bool {
    s.len() == word.len() && forall|i: int| 0 <= i < s.len() ==> lower(s[i]) == word[i]
}

/// The strings that `str::parse::<f64>` accepts, as its documentation gives the grammar:
/// an optional sign, then `inf`, `infinity` or `nan` in any case, or a decimal number.
pub open spec fn is_float_text(s: Seq<u8>) -> bool {
    let body = if s.len() > 0 && (s[0] == 0x2b || s[0] == 0x2d) {
        s.skip(1)
    } else {
        s
    };
    eq_ignore_case(body, seq![0x69u8, 0x6e, 0x66]) || eq_ignore_case(
        body,
        seq![0x69u8, 0x6e, 0x66, 0x69, 0x6e, 0x69, 0x74, 0x79],
    ) || eq_ignore_case(body, seq![0x6eu8, 0x61, 0x6e]) || is_decimal(body)
}

// ── lemmas ──────────────────────────────────────────────────────────────────

pub proof fn lemma_ulen_add(a: Seq<u8>, b: Seq<u8>)
    ensures
        ulen(a + b) == ulen(a) + ulen(b),
    decreases b.len(),
{
    if b.len() > 0 {
        lemma_ulen_add(a, b.drop_last());
        assert((a + b).drop_last() == a + b.drop_last());
    } else {
        assert(a + b == a);
    }
}

pub proof fn lemma_ulen_bounds(s: Seq<u8>)
    ensures
        s.len() <= ulen(s) <= 2 * s.len(),
    decreases s.len(),
{
    if s.len() > 0 {
        lemma_ulen_bounds(s.drop_last());
    }
}

/// The length of a sub-range is at most that of the whole.
pub proof fn lemma_ulen_subrange(s: Seq<u8>, a: int, b: int)
    requires
        0 <= a <= b <= s.len(),
    ensures
        ulen(s.subrange(a, b)) <= ulen(s),
        ulen(s.subrange(0, a)) + ulen(s.subrange(a, b)) + ulen(s.subrange(b, s.len() as int))
            == ulen(s),
{
    lemma_ulen_add(s.subrange(0, a), s.subrange(a, b));
    lemma_ulen_add(s.subrange(0, a) + s.subrange(a, b), s.subrange(b, s.len() as int));
    assert(s.subrange(0, a) + s.subrange(a, b) + s.subrange(b, s.len() as int) == s);
}

/// Trimming at the start drops a prefix.
pub proof fn lemma_trim_start(s: Seq<u8>)
    ensures
        trim_start(s).len() <= s.len(),
        trim_start(s) == s.subrange(s.len() - trim_start(s).len(), s.len() as int),
        trim_start(s).len() > 0 ==> !is_ws(trim_start(s)[0]),
    decreases s.len(),
{
    if s.len() > 0 && is_ws(s[0]) {
        lemma_trim_start(s.drop_first());
    } else {
        assert(s == s.subrange(0, s.len() as int));
    }
}

/// Trimming at the end drops a suffix.
pub proof fn lemma_trim_end(s: Seq<u8>)
    ensures
        trim_end(s).len() <= s.len(),
        trim_end(s) == s.subrange(0, trim_end(s).len() as int),
    decreases s.len(),
{
    if s.len() > 0 && is_ws(s.last()) {
        lemma_trim_end(s.drop_last());
    } else {
        assert(s == s.subrange(0, s.len() as int));
    }
}

pub proof fn lemma_find_colon_from(s: Seq<u8>, i: int, q: bool, c: u8)
    ensures
        find_colon_from(s, i, q, c) matches Some(p) ==> 0 <= i <= p < s.len() && s[p] == 0x3a,
    decreases s.len() - i,
{
    if 0 <= i < s.len() {
        let ch = s[i];
        if q {
            lemma_find_colon_from(s, i + 1, ch != c, c);
        } else if ch == 0x22 || ch == 0x27 {
            lemma_find_colon_from(s, i + 1, true, ch);
        } else {
            lemma_find_colon_from(s, i + 1, false, c);
        }
    }
}

pub proof fn lemma_digits_end(s: Seq<u8>, i: int)
    requires
        0 <= i <= s.len(),
    ensures
        i <= digits_end(s, i) <= s.len(),
    decreases s.len() - i,
{
    if i < s.len() && is_digit(s[i]) {
        lemma_digits_end(s, i + 1);
    }
}

// ── executable ──────────────────────────────────────────────────────────────

pub fn is_ws_exec(b: u8) -> (r: bool)
    ensures
        r == is_ws(b),
{
    (0x09 <= b && b <= 0x0d) || b == 0x20 || b == 0x85 || b == 0xa0
}

/// UTF-8 length of the projected text of `src[a..b]`.
pub fn ulen_range(src: &[u8], a: usize, b: usize) -> (r: usize)
    requires
        a <= b <= src@.len(),
        ulen(src@.subrange(a as int, b as int)) <= usize::MAX,
    ensures
        r == ulen(src@.subrange(a as int, b as int)),
{
    let mut n: usize = 0;
    let mut i = a;
    while i < b
        invariant
            a <= i <= b <= src@.len(),
            n == ulen(src@.subrange(a as int, i as int)),
            ulen(src@.subrange(a as int, b as int)) <= usize::MAX,
        decreases b - i,
    {
        proof {
            assert(src@.subrange(a as int, i + 1).drop_last() == src@.subrange(a as int, i as int));
            lemma_ulen_subrange(src@.subrange(a as int, b as int), 0, (i + 1 - a) as int);
            assert(src@.subrange(a as int, b as int).subrange(0, (i + 1 - a) as int) == src@.subrange(
                a as int,
                i + 1,
            ));
        }
        if src[i] < 0x80 {
            n = n + 1;
        } else {
            n = n + 2;
        }
        i = i + 1;
    }
    n
}

/// Start of `trim_start(src[a..b])`.
pub fn trim_start_range(src: &[u8], a: usize, b: usize) -> (r: usize)
    requires
        a <= b <= src@.len(),
    ensures
        a <= r <= b,
        src@.subrange(r as int, b as int) == trim_start(src@.subrange(a as int, b as int)),
{
    let mut i = a;
    while i < b && is_ws_exec(src[i])
        invariant
            a <= i <= b <= src@.len(),
            trim_start(src@.subrange(i as int, b as int)) == trim_start(
                src@.subrange(a as int, b as int),
            ),
        decreases b - i,
    {
        assert(src@.subrange(i as int, b as int).drop_first() == src@.subrange(i + 1, b as int));
        i = i + 1;
    }
    i
}

/// End of `trim_end(src[a..b])`.
pub fn trim_end_range(src: &[u8], a: usize, b: usize) -> (r: usize)
    requires
        a <= b <= src@.len(),
    ensures
        a <= r <= b,
        src@.subrange(a as int, r as int) == trim_end(src@.subrange(a as int, b as int)),
{
    let mut j = b;
    while j > a && is_ws_exec(src[j - 1])
        invariant
            a <= j <= b <= src@.len(),
            trim_end(src@.subrange(a as int, j as int)) == trim_end(src@.subrange(a as int, b as int)),
        decreases j - a,
    {
        assert(src@.subrange(a as int, j as int).drop_last() == src@.subrange(a as int, j - 1));
        j = j - 1;
    }
    j
}

/// Position (relative to `a`) of the first mapping colon in `src[a..b]`.
pub fn find_colon_range(src: &[u8], a: usize, b: usize) -> (r: Option<usize>)
    requires
        a <= b <= src@.len(),
    ensures
        r matches Some(p) ==> find_colon(src@.subrange(a as int, b as int)) == Some(p as int),
        r is None ==> find_colon(src@.subrange(a as int, b as int)) is None,
{
    let ghost s = src@.subrange(a as int, b as int);
    let n = b - a;
    let mut i: usize = 0;
    let mut in_quote = false;
    let mut quote: u8 = 0;
    while i < n
        invariant
            n == s.len(),
            a + n == b,
            b <= src@.len(),
            s == src@.subrange(a as int, b as int),
            i <= n,
            find_colon_from(s, i as int, in_quote, quote) == find_colon(s),
        decreases n - i,
    {
        let c = src[a + i];
        assert(c == s[i as int]);
        if in_quote {
            if c == quote {
                in_quote = false;
            }
        } else if c == 0x22 || c == 0x27 {
            in_quote = true;
            quote = c;
        } else if c == 0x3a && (i + 1 >= n || is_ws_exec(src[a + i + 1])) {
            return Some(i);
        }
        i = i + 1;
    }
    None
}

/// Is `src[a..b]` a string that `str::parse::<f64>` accepts?
pub fn is_float_range(src: &[u8], a: usize, b: usize) -> (r: bool)
    requires
        a <= b <= src@.len(),
    ensures
        r == is_float_text(src@.subrange(a as int, b as int)),
{
    let ghost s = src@.subrange(a as int, b as int);
    let start = if a < b && (src[a] == 0x2b || src[a] == 0x2d) {
        a + 1
    } else {
        a
    };
    let ghost body = src@.subrange(start as int, b as int);
    assert(body == (if s.len() > 0 && (s[0] == 0x2b || s[0] == 0x2d) {
        s.skip(1)
    } else {
        s
    }));
    let w1 = eq_ignore_case_range(src, start, b, 0);
    let w2 = eq_ignore_case_range(src, start, b, 1);
    let w3 = eq_ignore_case_range(src, start, b, 2);
    let d = is_decimal_range(src, start, b);
    w1 || w2 || w3 || d
}

/// The words `inf`, `infinity`, `nan` by number.
pub open spec fn float_word(k: u8) -> Seq<u8> {
    if k == 0 {
        seq![0x69u8, 0x6e, 0x66]
    } else if k == 1 {
        seq![0x69u8, 0x6e, 0x66, 0x69, 0x6e, 0x69, 0x74, 0x79]
    } else {
        seq![0x6eu8, 0x61, 0x6e]
    }
}

fn float_word_byte(k: u8, i: usize) -> (r: u8)
    requires
        i < float_word(k).len(),
    ensures
        r == float_word(k)[i as int],
{
    if k == 0 {
        if i == 0 {
            0x69
        } else if i == 1 {
            0x6e
        } else {
            0x66
        }
    } else if k == 1 {
        if i == 0 {
            0x69
        } else if i == 1 {
            0x6e
        } else if i == 2 {
            0x66
        } else if i == 3 {
            0x69
        } else if i == 4 {
            0x6e
        } else if i == 5 {
            0x69
        } else if i == 6 {
            0x74
        } else {
            0x79
        }
    } else {
        if i == 0 {
            0x6e
        } else if i == 1 {
            0x61
        } else {
            0x6e
        }
    }
}

fn eq_ignore_case_range(src: &[u8], a: usize, b: usize, k: u8) -> (r: bool)
    requires
        a <= b <= src@.len(),
    ensures
        r == eq_ignore_case(src@.subrange(a as int, b as int), float_word(k)),
{
    let ghost s = src@.subrange(a as int, b as int);
    let len: usize = if k == 0 {
        3
    } else if k == 1 {
        8
    } else {
        3
    };
    if b - a != len {
        return false;
    }
    let mut i: usize = 0;
    while i < len
        invariant
            len == float_word(k).len(),
            b - a == len,
            s == src@.subrange(a as int, b as int),
            b <= src@.len(),
            i <= len,
            forall|j: int| 0 <= j < i ==> lower(s[j]) == float_word(k)[j],
        decreases len - i,
    {
        let c = src[a + i];
        let lc = if 0x41 <= c && c <= 0x5a {
            c + 32
        } else {
            c
        };
        assert(lc == lower(s[i as int]));
        if lc != float_word_byte(k, i) {
            return false;
        }
        i = i + 1;
    }
    true
}

fn digits_end_range(src: &[u8], a: usize, b: usize, i: usize) -> (r: usize)
    requires
        a <= i <= b <= src@.len(),
    ensures
        r as int == a + digits_end(src@.subrange(a as int, b as int), i - a),
        i <= r <= b,
{
    let ghost s = src@.subrange(a as int, b as int);
    let mut j = i;
    proof {
        lemma_digits_end(s, i - a);
    }
    while j < b && 0x30 <= src[j] && src[j] <= 0x39
        invariant
            a <= i <= j <= b <= src@.len(),
            s == src@.subrange(a as int, b as int),
            digits_end(s, j - a) == digits_end(s, i - a),
        decreases b - j,
    {
        j = j + 1;
    }
    j
}

fn is_decimal_range(src: &[u8], a: usize, b: usize) -> (r: bool)
    requires
        a <= b <= src@.len(),
    ensures
        r == is_decimal(src@.subrange(a as int, b as int)),
{
    let ghost s = src@.subrange(a as int, b as int);
    let x = digits_end_range(src, a, b, a);
    let has_dot = x < b && src[x] == 0x2e;
    let y = if has_dot {
        digits_end_range(src, a, b, x + 1)
    } else {
        x
    };
    let frac: usize = if has_dot {
        y - (x + 1)
    } else {
        0
    };
    if !(x > a || frac > 0) {
        return false;
    }
    if y == b {
        return true;
    }
    if !(src[y] == 0x65 || src[y] == 0x45) {
        return false;
    }
    let c = y + 1;
    let c2 = if c < b && (src[c] == 0x2b || src[c] == 0x2d) {
        c + 1
    } else {
        c
    };
    let d = digits_end_range(src, a, b, c2);
    d > c2 && d == b
}

} // verus!
