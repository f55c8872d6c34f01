//! The CBOR span scanner (RFC 8949 item heads mapped to token tags).
use vstd::prelude::*;

use super::{IoMemento, Tok};

verus! {

/// The big-endian value of a byte sequence.
pub open spec fn be_nat(s: Seq<u8>) -> nat
    decreases s.len(),
{
    if s.len() == 0 {
        0
    } else {
        be_nat(s.drop_last()) * 256 + s.last() as nat
    }
}

/// `256^k`.
pub open spec fn pow256(k: nat) -> nat
    decreases k,
{
    if k == 0 {
        1
    } else {
        256 * pow256((k - 1) as nat)
    }
}

pub proof fn lemma_be_nat_bound(s: Seq<u8>)
    ensures
        be_nat(s) < pow256(s.len()),
    decreases s.len(),
{
    if s.len() > 0 {
        lemma_be_nat_bound(s.drop_last());
    }
}

/// The argument of a data-item head whose additional information is `ai`, read from
/// `pos`: `(length, next)`. Additional information 31 is the indefinite marker `-1`;
/// an eight-byte argument is read as a two's-complement `i64`. `None` where the read
/// runs past the end of the source or `ai` is 28, 29 or 30.
pub open spec fn cbor_length(src: Seq<u8>, pos: int, ai: u8) -> Option<(i64, int)> {
    let width: int = if ai == 24 {
        1
    } else if ai == 25 {
        2
    } else if ai == 26 {
        4
    } else {
        8
    };
    if ai <= 23 {
        Some((ai as i64, pos))
    } else if ai == 31 {
        Some((-1i64, pos))
    } else if ai > 27 {
        None
    } else if pos < 0 || pos + width > src.len() {
        None
    } else {
        Some(((be_nat(src.subrange(pos, pos + width)) as u64) as i64, pos + width))
    }
}

/// Measure of the scan: the bytes left from `pos`.
pub open spec fn left(src: Seq<u8>, pos: int) -> nat {
    if 0 <= pos < src.len() {
        (src.len() - pos) as nat
    } else {
        0
    }
}

/// Token tag of a simple value (major type 7) with additional information `ai`.
pub open spec fn simple_tag(ai: u8) -> IoMemento {
    if ai == 20 || ai == 21 {
        IoMemento::IoBoolean
    } else if 25 <= ai <= 27 {
        IoMemento::IoDouble
    } else {
        IoMemento::IoNothing
    }
}

/// Payload width of a simple value (major type 7) with additional information `ai`.
pub open spec fn simple_size(ai: u8) -> int {
    if ai == 25 {
        2
    } else if ai == 26 {
        4
    } else if ai == 27 {
        8
    } else if ai == 24 {
        1
    } else {
        0
    }
}

/// Scan the data item at `pos`, emitting its token after those of its children:
/// `Some((next, tokens))`, or `None` where the scan would read past the end of the source,
/// meet additional information 28–30 in a head that carries an argument, or overflow
/// an offset.
pub open spec fn cbor_item(src: Seq<u8>, pos: int, toks: Seq<Tok>) -> Option<(int, Seq<Tok>)>
    decreases left(src, pos), 0int,
{
    if pos < 0 || pos >= src.len() {
        None
    } else {
        let initial = src[pos];
        let major = initial / 32;
        let ai = initial % 32;
        if major == 7 {
            let size = simple_size(ai);
            if pos + 1 + size > usize::MAX {
                None
            } else {
                Some((pos + 1 + size, toks.push((pos as usize, (pos + size) as usize, simple_tag(ai)))))
            }
        } else {
            match cbor_length(src, pos + 1, ai) {
                None => None,
                Some((length, next)) => if !(pos < next) {
                    None
                } else if major <= 1 {
                    Some((next, toks.push((pos as usize, (next - 1) as usize, IoMemento::IoLong))))
                } else if major <= 3 {
                    if length < 0 {
                        Some((next, toks))
                    } else {
                        let end = next + ((length as usize) as int);
                        if end > usize::MAX {
                            None
                        } else {
                            let tag = if major == 2 {
                                IoMemento::IoBytes
                            } else {
                                IoMemento::IoString
                            };
                            Some((end, toks.push((pos as usize, (end - 1) as usize, tag))))
                        }
                    }
                } else if major <= 5 {
                    let tag = if major == 4 {
                        IoMemento::IoArray
                    } else {
                        IoMemento::IoObject
                    };
                    if length < 0 {
                        match cbor_indefinite(src, next, major == 5, toks) {
                            None => None,
                            Some((cursor, ts)) => {
                                let c = if cursor < src.len() {
                                    cursor + 1
                                } else {
                                    cursor
                                };
                                Some((c, ts.push((pos as usize, (c - 1) as usize, tag))))
                            },
                        }
                    } else {
                        let n = (length as usize) as int;
                        let count = if major == 5 {
                            2 * n
                        } else {
                            n
                        };
                        if count > usize::MAX {
                            None
                        } else {
                            match cbor_items(src, next, count as nat, toks) {
                                None => None,
                                Some((cursor, ts)) => Some(
                                    (cursor, ts.push((pos as usize, (cursor - 1) as usize, tag))),
                                ),
                            }
                        }
                    }
                } else {
                    cbor_item(src, next, toks)
                },
            }
        }
    }
}

/// Scan `count` consecutive items from `pos`.
pub open spec fn cbor_items(src: Seq<u8>, pos: int, count: nat, toks: Seq<Tok>) -> Option<
    (int, Seq<Tok>),
>
    decreases left(src, pos), 1int,
{
    if count == 0 {
        Some((pos, toks))
    } else if pos < 0 || pos >= src.len() {
        None
    } else {
        match cbor_item(src, pos, toks) {
            None => None,
            Some((next, ts)) => if pos < next {
                cbor_items(src, next, (count - 1) as nat, ts)
            } else {
                None
            },
        }
    }
}

/// Scan items (key/value pairs when `pairs`) from `pos` up to a break byte or the end.
pub open spec fn cbor_indefinite(src: Seq<u8>, pos: int, pairs: bool, toks: Seq<Tok>) -> Option<
    (int, Seq<Tok>),
>
    decreases left(src, pos), 1int,
{
    if pos < 0 || pos >= src.len() || src[pos] == 0xff {
        Some((pos, toks))
    } else {
        match cbor_item(src, pos, toks) {
            None => None,
            Some((c1, ts1)) => if !(pos < c1) {
                None
            } else if pairs {
                match cbor_item(src, c1, ts1) {
                    None => None,
                    Some((c2, ts2)) => if c1 < c2 {
                        cbor_indefinite(src, c2, pairs, ts2)
                    } else {
                        None
                    },
                }
            } else {
                cbor_indefinite(src, c1, pairs, ts1)
            },
        }
    }
}

/// Scan top-level items from `pos` to the end of the source.
pub open spec fn cbor_top(src: Seq<u8>, pos: int, toks: Seq<Tok>) -> Option<Seq<Tok>>
    decreases left(src, pos),
{
    if pos < 0 || pos >= src.len() {
        Some(toks)
    } else {
        match cbor_item(src, pos, toks) {
            None => None,
            Some((next, ts)) => if pos < next {
                cbor_top(src, next, ts)
            } else {
                None
            },
        }
    }
}

/// The tokens the CBOR scanner emits for `src`, or `None` where it fails.
pub open spec fn cbor_tokens(src: Seq<u8>) -> Option<Seq<Tok>> {
    cbor_top(src, 0, seq![])
}

// ── executable ──────────────────────────────────────────────────────────────

/// Read a head argument (see `cbor_length`): `None` exactly where the spec has none.
fn read_length(src: &[u8], position: usize, ai: u8) -> (r: Option<(i64, usize)>)
    ensures
        match r {
            Some((len, next)) => cbor_length(src@, position as int, ai) == Some((len, next as int)),
            None => cbor_length(src@, position as int, ai) is None,
        },
{
    if ai <= 23 {
        Some((ai as i64, position))
    } else if ai == 31 {
        Some((-1, position))
    } else if ai > 27 {
        None
    } else {
        let width: usize = if ai == 24 {
            1
        } else if ai == 25 {
            2
        } else if ai == 26 {
            4
        } else {
            8
        };
        let n = src.len();
        if position > n || n - position < width {
            return None;
        }
        let mut v: u64 = 0;
        let mut k: usize = 0;
        while k < width
            invariant
                n == src@.len(),
                k <= width,
                width <= 8,
                position + width <= src@.len(),
                v == be_nat(src@.subrange(position as int, position + k)),
            decreases width - k,
        {
            proof {
                lemma_be_nat_bound(src@.subrange(position as int, position + k));
                assert(pow256(k as nat) <= pow256(7)) by {
                    lemma_pow256_mono(k as nat, 7);
                }
                assert(pow256(7) == 0x100000000000000nat) by {
                    reveal_with_fuel(pow256, 8);
                }
                assert(src@.subrange(position as int, position + k + 1).drop_last() == src@.subrange(
                    position as int,
                    position + k,
                ));
            }
            v = v * 256 + src[position + k] as u64;
            k = k + 1;
        }
        Some((v as i64, position + width))
    }
}

proof fn lemma_pow256_mono(a: nat, b: nat)
    requires
        a <= b,
    ensures
        pow256(a) <= pow256(b),
    decreases b,
{
    if a < b {
        lemma_pow256_mono(a, (b - 1) as nat);
    }
}

/// Scan the item at `position` (see `cbor_item`): `None` exactly where the spec has none.
fn parse_item(src: &[u8], position: usize, t: &mut Vec<Tok>) -> (r: Option<usize>)
    ensures
        match r {
            Some(next) => cbor_item(src@, position as int, old(t)@) == Some((next as int, final(t)@))
                && position < next,
            None => cbor_item(src@, position as int, old(t)@) is None,
        },
    decreases left(src@, position as int),
{
    if position >= src.len() {
        return None;
    }
    let initial = src[position];
    let major = initial / 32;
    let ai = initial % 32;
    if major == 7 {
        let size: usize = if ai == 25 {
            2
        } else if ai == 26 {
            4
        } else if ai == 27 {
            8
        } else if ai == 24 {
            1
        } else {
            0
        };
        let tag = if ai == 20 || ai == 21 {
            IoMemento::IoBoolean
        } else if 25 <= ai && ai <= 27 {
            IoMemento::IoDouble
        } else {
            IoMemento::IoNothing
        };
        if position > usize::MAX - 1 - size {
            return None;
        }
        t.push((position, position + size, tag));
        return Some(position + 1 + size);
    }
    let (length, next) = match read_length(src, position + 1, ai) {
        Some(x) => x,
        None => return None,
    };
    if !(position < next) {
        return None;
    }
    if major <= 1 {
        t.push((position, next - 1, IoMemento::IoLong));
        Some(next)
    } else if major <= 3 {
        if length < 0 {
            Some(next)
        } else {
            let l = length as usize;
            if next > usize::MAX - l {
                return None;
            }
            let end = next + l;
            let tag = if major == 2 {
                IoMemento::IoBytes
            } else {
                IoMemento::IoString
            };
            t.push((position, end - 1, tag));
            Some(end)
        }
    } else if major <= 5 {
        let tag = if major == 4 {
            IoMemento::IoArray
        } else {
            IoMemento::IoObject
        };
        let mut cursor = next;
        if length < 0 {
            let ghost t0 = t@;
            proof {
                assert(cbor_indefinite(src@, next as int, major == 5, t0) is None ==> cbor_item(
                    src@,
                    position as int,
                    old(t)@,
                ) is None);
            }
            while cursor < src.len() && src[cursor] != 0xff
                invariant
                    cbor_indefinite(src@, next as int, major == 5, t0) is None ==> cbor_item(
                        src@,
                        position as int,
                        old(t)@,
                    ) is None,
                    next <= cursor,
                    position < next,
                    cbor_indefinite(src@, cursor as int, major == 5, t@) == cbor_indefinite(
                        src@,
                        next as int,
                        major == 5,
                        t0,
                    ),
                decreases left(src@, cursor as int),
            {
                let ghost tb = t@;
                let ghost cb = cursor;
                let c1 = match parse_item(src, cursor, t) {
                    Some(c) => c,
                    None => {
                        proof {
                            assert(cbor_indefinite(src@, cb as int, major == 5, tb) is None);
                        }
                        return None;
                    },
                };
                cursor = c1;
                if major == 5 {
                    let ghost t1 = t@;
                    cursor = match parse_item(src, cursor, t) {
                        Some(c) => c,
                        None => {
                            proof {
                                assert(cbor_item(src@, c1 as int, t1) is None);
                                assert(cbor_indefinite(src@, cb as int, major == 5, tb) is None);
                            }
                            return None;
                        },
                    };
                }
            }
            if cursor < src.len() {
                cursor = cursor + 1;
            }
        } else {
            let n = length as usize;
            if major == 5 && n > usize::MAX / 2 {
                return None;
            }
            let count: usize = if major == 5 {
                n * 2
            } else {
                n
            };
            let ghost t0 = t@;
            proof {
                assert(cbor_items(src@, next as int, count as nat, t0) is None ==> cbor_item(
                    src@,
                    position as int,
                    old(t)@,
                ) is None);
            }
            let mut remaining = count;
            while remaining > 0
                invariant
                    cbor_items(src@, next as int, count as nat, t0) is None ==> cbor_item(
                        src@,
                        position as int,
                        old(t)@,
                    ) is None,
                    next <= cursor,
                    position < next,
                    cbor_items(src@, cursor as int, remaining as nat, t@) == cbor_items(
                        src@,
                        next as int,
                        count as nat,
                        t0,
                    ),
                decreases remaining,
            {
                let ghost tb = t@;
                if cursor >= src.len() {
                    proof {
                        assert(cbor_items(src@, cursor as int, remaining as nat, tb) is None);
                    }
                    return None;
                }
                cursor = match parse_item(src, cursor, t) {
                    Some(c) => c,
                    None => {
                        proof {
                            assert(cbor_items(src@, cursor as int, remaining as nat, tb) is None);
                        }
                        return None;
                    },
                };
                remaining = remaining - 1;
            }
        }
        t.push((position, cursor - 1, tag));
        Some(cursor)
    } else {
        parse_item(src, next, t)
    }
}

/// Scan `src` as a sequence of CBOR items: the emitted tokens, in emission order, or
/// `None` where the scan fails.
pub(crate) fn cbor_token_list(src: &[u8]) -> (r: Option<Vec<Tok>>)
    ensures
        match r {
            Some(v) => cbor_tokens(src@) == Some(v@),
            None => cbor_tokens(src@) is None,
        },
{
    let mut t: Vec<Tok> = Vec::new();
    let mut position: usize = 0;
    while position < src.len()
        invariant
            cbor_top(src@, position as int, t@) == cbor_tokens(src@),
        decreases left(src@, position as int),
    {
        position = match parse_item(src, position, &mut t) {
            Some(p) => p,
            None => return None,
        };
    }
    Some(t)
}

} // verus!
