//! Header detection and key/value span extraction over a sanitized buffer.
use vstd::prelude::*;
use crate::error::ParseR3Error;
use crate::sanitizer::LF;
use crate::text::{find_byte, find_pair, pair_at};

verus! {

/// `[`, doubled to open a header.
pub const OPEN: u8 = 91;
/// `]`, doubled to close a header.
pub const CLOSE: u8 = 93;

/// Byte ranges of one entry: the key between the markers and the value after
/// the header line.
#[derive(Clone, Copy, PartialEq, Eq, Structural)]
pub struct Span {
    pub key_start: usize,
    pub key_end: usize,
    pub value_start: usize,
    pub value_end: usize,
}

/// A valid header start: `[[` at offset 0 or right after an LF.
pub open spec fn header_at(s: Seq<u8>, k: int) -> bool {
    pair_at(s, k, OPEN, OPEN) && (k == 0 || s[k - 1] == LF)
}

/// The first `]]` at or after `i`, or `s.len()` when there is none.
pub open spec fn next_close(s: Seq<u8>, i: int) -> int
    decreases s.len() - i,
{
    if i >= s.len() {
        s.len() as int
    } else if pair_at(s, i, CLOSE, CLOSE) {
        i
    } else {
        next_close(s, i + 1)
    }
}

/// The first LF at or after `i`, or `s.len()` when there is none.
pub open spec fn next_lf(s: Seq<u8>, i: int) -> int
    decreases s.len() - i,
{
    if i >= s.len() {
        s.len() as int
    } else if 0 <= i && s[i] == LF {
        i
    } else {
        next_lf(s, i + 1)
    }
}

/// The first valid header start at or after `i`, or `s.len()` when there is none.
pub open spec fn next_header(s: Seq<u8>, i: int) -> int
    decreases s.len() - i,
{
    if i >= s.len() {
        s.len() as int
    } else if header_at(s, i) {
        i
    } else {
        next_header(s, i + 1)
    }
}

/// The entries whose headers start at or after `p`, in ascending order, or
/// the error of the first malformed header among them.
pub open spec fn scan_from(s: Seq<u8>, p: int) -> Result<Seq<Span>, ParseR3Error>
    decreases s.len() - p,
{
    if p < 0 || p >= s.len() {
        Ok(seq![])
    } else if !header_at(s, p) {
        scan_from(s, p + 1)
    } else {
        let c = next_close(s, p + 2);
        if c >= s.len() {
            Err(ParseR3Error::BracketMismatch)
        } else {
            let l = next_lf(s, c + 2);
            if l >= s.len() {
                Err(ParseR3Error::KeyValueMismatch)
            } else {
                match scan_from(s, p + 1) {
                    Ok(rest) => Ok(
                        seq![
                            Span {
                                key_start: (p + 2) as usize,
                                key_end: c as usize,
                                value_start: (l + 1) as usize,
                                value_end: next_header(s, l + 1) as usize,
                            },
                        ] + rest,
                    ),
                    Err(e) => Err(e),
                }
            }
        }
    }
}

/// `pre` followed by the entries of `r`, or the error of `r`.
pub open spec fn after(pre: Seq<Span>, r: Result<Seq<Span>, ParseR3Error>) -> Result<
    Seq<Span>,
    ParseR3Error,
> {
    match r {
        Ok(x) => Ok(pre + x),
        Err(e) => Err(e),
    }
}

/// A span lies inside `s`, its parts in order, each part bounded by the
/// markers around it: `[` before the key, `]` after it, LF before the value,
/// and `[` or the end of `s` after it.
pub open spec fn span_in(s: Seq<u8>, sp: Span) -> bool {
    &&& 1 <= sp.key_start <= sp.key_end < s.len()
    &&& 1 <= sp.value_start <= sp.value_end <= s.len()
    &&& s[sp.key_start - 1] == OPEN
    &&& s[sp.key_end as int] == CLOSE
    &&& s[sp.value_start - 1] == LF
    &&& (sp.value_end == s.len() || s[sp.value_end as int] == OPEN)
}

/// `k` is the first `]]` at or after `i`.
pub proof fn lemma_next_close(s: Seq<u8>, i: int, k: int)
    requires
        0 <= i <= k <= s.len(),
        forall|j: int| i <= j < k ==> !pair_at(s, j, CLOSE, CLOSE),
        k == s.len() || pair_at(s, k, CLOSE, CLOSE),
    ensures
        next_close(s, i) == k,
    decreases k - i,
{
    if i < k {
        lemma_next_close(s, i + 1, k);
    }
}

/// `k` is the first LF at or after `i`.
pub proof fn lemma_next_lf(s: Seq<u8>, i: int, k: int)
    requires
        0 <= i <= k <= s.len(),
        forall|j: int| i <= j < k ==> s[j] != LF,
        k == s.len() || s[k] == LF,
    ensures
        next_lf(s, i) == k,
    decreases k - i,
{
    if i < k {
        lemma_next_lf(s, i + 1, k);
    }
}

/// `k` is the first valid header start at or after `i`.
pub proof fn lemma_next_header(s: Seq<u8>, i: int, k: int)
    requires
        0 <= i <= k <= s.len(),
        forall|j: int| i <= j < k ==> !header_at(s, j),
        k == s.len() || header_at(s, k),
    ensures
        next_header(s, i) == k,
    decreases k - i,
{
    if i < k {
        lemma_next_header(s, i + 1, k);
    }
}

/// Scanning is unaffected by a stretch without header starts.
pub proof fn lemma_scan_skip(s: Seq<u8>, p: int, k: int)
    requires
        0 <= p <= k <= s.len(),
        forall|j: int| p <= j < k ==> !header_at(s, j),
    ensures
        scan_from(s, p) == scan_from(s, k),
    decreases k - p,
{
    if p < k {
        lemma_scan_skip(s, p + 1, k);
    }
}

/// The first valid header start at or after `from`, if any.
fn find_header(s: &Vec<u8>, from: usize) -> (r: Option<usize>)
    requires
        from <= s@.len(),
    ensures
        match r {
            Some(k) => from <= k < s@.len() && header_at(s@, k as int) && forall|j: int|
                from <= j < k ==> !header_at(s@, j),
            None => forall|j: int| from <= j < s@.len() ==> !header_at(s@, j),
        },
{
    let n = s.len();
    let mut q = from;
    loop
        invariant
            n == s@.len(),
            from <= q <= n,
            forall|j: int| from <= j < q ==> !header_at(s@, j),
        decreases n - q,
    {
        match find_pair(OPEN, OPEN, s.as_slice(), q) {
            None => {
                return None;
            },
            Some(off) => {
                let k = q + off;
                if k == 0 || s[k - 1] == LF {
                    return Some(k);
                }
                q = k + 1;
            },
        }
    }
}

/// Locates every valid header of `s` and the key and value ranges it
/// delimits, in ascending order.
pub fn scan_entries(s: &Vec<u8>) -> (r: Result<Vec<Span>, ParseR3Error>)
    ensures
        match r {
            Ok(v) => scan_from(s@, 0) is Ok && scan_from(s@, 0)->Ok_0 == v@ && forall|i: int|
                0 <= i < v@.len() ==> #[trigger] span_in(s@, v@[i]),
            Err(e) => scan_from(s@, 0) is Err && scan_from(s@, 0)->Err_0 == e && (e
                == ParseR3Error::BracketMismatch || e == ParseR3Error::KeyValueMismatch),
        },
{
    let n = s.len();
    let mut spans: Vec<Span> = Vec::new();
    let mut p: usize = 0;
    assert(spans@ + seq![] =~= spans@);
    while p < n
        invariant
            n == s@.len(),
            p <= n,
            scan_from(s@, 0) == after(spans@, scan_from(s@, p as int)),
            forall|i: int| 0 <= i < spans@.len() ==> #[trigger] span_in(s@, spans@[i]),
        decreases n - p,
    {
        match find_header(s, p) {
            None => {
                proof {
                    lemma_scan_skip(s@, p as int, n as int);
                }
                p = n;
            },
            Some(k) => {
                proof {
                    lemma_scan_skip(s@, p as int, k as int);
                }
                let c = match find_pair(CLOSE, CLOSE, s.as_slice(), k + 2) {
                    None => {
                        proof {
                            lemma_next_close(s@, k + 2, n as int);
                        }
                        return Err(ParseR3Error::BracketMismatch);
                    },
                    Some(off) => k + 2 + off,
                };
                proof {
                    lemma_next_close(s@, k + 2, c as int);
                }
                let l = match find_byte(LF, s.as_slice(), c + 2) {
                    None => {
                        proof {
                            lemma_next_lf(s@, c + 2, n as int);
                        }
                        return Err(ParseR3Error::KeyValueMismatch);
                    },
                    Some(off) => c + 2 + off,
                };
                proof {
                    lemma_next_lf(s@, c + 2, l as int);
                }
                let e = match find_header(s, l + 1) {
                    None => n,
                    Some(h) => h,
                };
                proof {
                    lemma_next_header(s@, l + 1, e as int);
                }
                let sp = Span { key_start: k + 2, key_end: c, value_start: l + 1, value_end: e };
                let ghost pre = spans@;
                spans.push(sp);
                proof {
                    assert(forall|x: Seq<Span>| pre + (seq![sp] + x) == spans@ + x) by {
                        assert forall|x: Seq<Span>| pre + (seq![sp] + x) == spans@ + x by {
                            assert(pre + (seq![sp] + x) =~= spans@ + x);
                        }
                    }
                }
                p = k + 1;
            },
        }
    }
    assert(scan_from(s@, p as int) is Ok && scan_from(s@, p as int)->Ok_0 == Seq::<Span>::empty());
    assert(spans@ + seq![] =~= spans@);
    Ok(spans)
}

} // verus!
