//! Line-ending normalisation and in-place comment blanking.
use vstd::prelude::*;
use vstd::utf8::*;
use crate::error::ParseR3Error;
use crate::text::{find_byte, find_pair, pair_at, utf8_text};

verus! {

pub const LF: u8 = 10;
pub const CR: u8 = 13;
pub const HASH: u8 = 35;
/// The byte that overwrites comment text: a space, which trimming removes.
pub const FILL: u8 = 32;

/// Every CR LF pair and every lone CR becomes a single LF.
pub open spec fn normalize_lines(b: Seq<u8>) -> Seq<u8>
    decreases b.len(),
{
    if b.len() == 0 {
        seq![]
    } else if b[0] == CR {
        if b.len() >= 2 && b[1] == LF {
            seq![LF] + normalize_lines(b.subrange(2, b.len() as int))
        } else {
            seq![LF] + normalize_lines(b.subrange(1, b.len() as int))
        }
    } else {
        seq![b[0]] + normalize_lines(b.subrange(1, b.len() as int))
    }
}

/// Whether position `i` of `s` lies in a comment: some `##` starts at or
/// before `i` and no LF stands between it and `i` (inclusive).
pub open spec fn in_comment(s: Seq<u8>, i: int) -> bool
    decreases i + 1,
{
    if i < 0 || i >= s.len() {
        false
    } else {
        s[i] != LF && ((s[i] == HASH && i + 1 < s.len() && s[i + 1] == HASH) || in_comment(s, i - 1))
    }
}

/// `s` with every comment byte overwritten by `FILL`; the length is kept.
pub open spec fn blank_comments(s: Seq<u8>) -> Seq<u8> {
    Seq::new(s.len(), |i: int| if in_comment(s, i) { FILL } else { s[i] })
}

/// The buffer that header scanning works on.
pub open spec fn sanitized(b: Seq<u8>) -> Seq<u8> {
    blank_comments(normalize_lines(b))
}

/// `b` holds no CR.
pub open spec fn no_cr(b: Seq<u8>) -> bool {
    forall|i: int| 0 <= i < b.len() ==> b[i] != CR
}

proof fn lemma_normalize_prefix(x: Seq<u8>, y: Seq<u8>)
    requires
        no_cr(x),
    ensures
        normalize_lines(x + y) == x + normalize_lines(y),
    decreases x.len(),
{
    if x.len() > 0 {
        let xy = x + y;
        assert(xy.subrange(1, xy.len() as int) =~= x.subrange(1, x.len() as int) + y);
        lemma_normalize_prefix(x.subrange(1, x.len() as int), y);
        assert(x =~= seq![x[0]] + x.subrange(1, x.len() as int));
        assert(seq![x[0]] + (x.subrange(1, x.len() as int) + normalize_lines(y)) =~= x
            + normalize_lines(y));
    } else {
        assert(x + y =~= y);
        assert(x + normalize_lines(y) =~= normalize_lines(y));
    }
}

/// Text without CR is left as it is by line-ending normalisation.
pub proof fn lemma_normalize_no_cr(b: Seq<u8>)
    requires
        no_cr(b),
    ensures
        normalize_lines(b) == b,
{
    lemma_normalize_prefix(b, seq![]);
    assert(b + seq![] =~= b);
    assert(normalize_lines(Seq::<u8>::empty()) =~= Seq::<u8>::empty());
}

/// Line-ending normalisation leaves no CR behind.
pub proof fn lemma_normalize_has_no_cr(b: Seq<u8>)
    ensures
        no_cr(normalize_lines(b)),
    decreases b.len(),
{
    if b.len() > 0 {
        lemma_normalize_has_no_cr(b.subrange(1, b.len() as int));
        if b.len() >= 2 {
            lemma_normalize_has_no_cr(b.subrange(2, b.len() as int));
        }
    }
}

/// Line-ending normalisation keeps text valid UTF-8.
pub proof fn lemma_normalize_valid(b: Seq<u8>)
    requires
        valid_utf8(b),
    ensures
        valid_utf8(normalize_lines(b)),
    decreases b.len(),
{
    if b.len() > 0 {
        let rest = pop_first_scalar(b);
        assert(1 <= length_of_first_scalar(b) <= b.len());
        assert(rest.len() < b.len());
        lemma_normalize_valid(rest);
        if b[0] == CR {
            assert(length_of_first_scalar(b) == 1);
            assert(rest =~= b.subrange(1, b.len() as int));
            let nl = seq![LF];
            assert(valid_utf8(nl)) by {
                reveal_with_fuel(valid_utf8, 2);
                assert(valid_first_scalar(nl));
                assert(pop_first_scalar(nl) =~= Seq::<u8>::empty());
            }
            if b.len() >= 2 && b[1] == LF {
                let rest2 = b.subrange(2, b.len() as int);
                assert(rest2 =~= pop_first_scalar(rest)) by {
                    assert(length_of_first_scalar(rest) == 1);
                }
                assert(valid_utf8(rest));
                assert(valid_utf8(rest2));
                lemma_normalize_valid(rest2);
                valid_utf8_concat(nl, normalize_lines(rest2));
            } else {
                valid_utf8_concat(nl, normalize_lines(rest));
            }
        } else {
            let first = take_first_scalar(b);
            assert(b =~= first + rest);
            assert(no_cr(first));
            lemma_normalize_prefix(first, rest);
            assert(valid_utf8(first)) by {
                reveal_with_fuel(valid_utf8, 2);
                assert(forall|k: int| 0 <= k < first.len() ==> first[k] == b[k]);
                assert(length_of_first_scalar(first) == length_of_first_scalar(b));
                assert(decode_first_codepoint(first) == decode_first_codepoint(b));
                assert(valid_first_scalar(first));
                assert(pop_first_scalar(first) =~= Seq::<u8>::empty());
            }
            valid_utf8_concat(first, normalize_lines(rest));
        }
    }
}

/// ASCII text is valid UTF-8.
pub proof fn lemma_ascii_valid(x: Seq<u8>)
    requires
        forall|t: int| 0 <= t < x.len() ==> x[t] < 128,
    ensures
        valid_utf8(x),
    decreases x.len(),
{
    if x.len() > 0 {
        let rest = x.subrange(1, x.len() as int);
        assert(valid_first_scalar(x));
        assert(pop_first_scalar(x) =~= rest);
        lemma_ascii_valid(rest);
    }
}

proof fn lemma_comment_steady(s: Seq<u8>, i: int, j: int)
    requires
        0 <= i <= j < s.len(),
        forall|t: int| i < t <= j ==> s[t] >= 128,
    ensures
        in_comment(s, j) == in_comment(s, i),
    decreases j - i,
{
    if i < j {
        lemma_comment_steady(s, i, j - 1);
    }
}

proof fn lemma_blank_valid_from(s: Seq<u8>, base: int)
    requires
        0 <= base <= s.len(),
        valid_utf8(s.subrange(base, s.len() as int)),
    ensures
        valid_utf8(blank_comments(s).subrange(base, s.len() as int)),
    decreases s.len() - base,
{
    let b = blank_comments(s);
    let n = s.len() as int;
    let rest = s.subrange(base, n);
    if base < n {
        let w = length_of_first_scalar(rest);
        assert(1 <= w <= rest.len());
        assert(pop_first_scalar(rest) =~= s.subrange(base + w, n));
        lemma_blank_valid_from(s, base + w);
        let piece = b.subrange(base, base + w);
        assert(b.subrange(base, n) =~= piece + b.subrange(base + w, n));
        if w == 1 {
            assert(piece[0] < 128);
            lemma_ascii_valid(piece);
        } else {
            assert forall|t: int| base < t < base + w implies s[t] >= 128 by {
                assert(s[t] == rest[t - base]);
            }
            assert(s[base] >= 128) by {
                assert(s[base] == rest[0]);
            }
            assert forall|t: int| base <= t < base + w implies in_comment(s, t) == in_comment(s, base)
                by {
                lemma_comment_steady(s, base, t);
            }
            if in_comment(s, base) {
                lemma_ascii_valid(piece);
            } else {
                let own = rest.subrange(0, w);
                assert(piece =~= own);
                assert(valid_utf8(own)) by {
                    reveal_with_fuel(valid_utf8, 2);
                    assert(forall|k: int| 0 <= k < own.len() ==> own[k] == rest[k]);
                    assert(length_of_first_scalar(own) == length_of_first_scalar(rest));
                    assert(decode_first_codepoint(own) == decode_first_codepoint(rest));
                    assert(valid_first_scalar(own));
                    assert(pop_first_scalar(own) =~= Seq::<u8>::empty());
                }
            }
        }
        valid_utf8_concat(piece, b.subrange(base + w, n));
    }
}

/// Sanitizing keeps text valid UTF-8.
pub proof fn lemma_sanitized_valid(b: Seq<u8>)
    requires
        valid_utf8(b),
    ensures
        valid_utf8(sanitized(b)),
{
    let s = normalize_lines(b);
    lemma_normalize_valid(b);
    assert(s.subrange(0, s.len() as int) =~= s);
    lemma_blank_valid_from(s, 0);
    assert(blank_comments(s).subrange(0, s.len() as int) =~= blank_comments(s));
}

proof fn lemma_no_comment_run(s: Seq<u8>, i: int, k: int)
    requires
        0 <= i <= k <= s.len(),
        i == 0 || !in_comment(s, i - 1),
        forall|j: int| i <= j < k ==> !pair_at(s, j, HASH, HASH),
    ensures
        forall|j: int| i <= j < k ==> !in_comment(s, j),
    decreases k - i,
{
    if i < k {
        assert(!pair_at(s, i, HASH, HASH));
        assert(!in_comment(s, i));
        lemma_no_comment_run(s, i + 1, k);
    }
}

proof fn lemma_comment_run(s: Seq<u8>, k: int, e: int)
    requires
        pair_at(s, k, HASH, HASH),
        k <= e <= s.len(),
        forall|j: int| k <= j < e ==> s[j] != LF,
    ensures
        forall|j: int| k <= j < e ==> in_comment(s, j),
    decreases e - k,
{
    if k < e {
        lemma_comment_run(s, k, e - 1);
        assert(s[e - 1] != LF);
        if e - 1 > k {
            assert(in_comment(s, e - 2));
        }
        assert(in_comment(s, e - 1));
    }
}

fn normalize_line_endings(file: &[u8]) -> (r: Vec<u8>)
    ensures
        r@ == normalize_lines(file@),
{
    let n = file.len();
    let mut out: Vec<u8> = Vec::with_capacity(n);
    let mut pos: usize = 0;
    assert(file@.subrange(0, n as int) =~= file@);
    assert(out@ + normalize_lines(file@) =~= normalize_lines(file@));
    while pos < n
        invariant
            n == file@.len(),
            pos <= n,
            out@ + normalize_lines(file@.subrange(pos as int, n as int)) == normalize_lines(file@),
        decreases n - pos,
    {
        let ghost before = out@;
        match find_byte(CR, file, pos) {
            None => {
                let rest = &file[pos..n];
                proof {
                    assert(no_cr(rest@));
                    lemma_normalize_no_cr(rest@);
                }
                out.extend_from_slice(rest);
                assert(out@ =~= before + rest@);
                pos = n;
                assert(normalize_lines(file@.subrange(n as int, n as int)) =~= Seq::<u8>::empty());
                assert(out@ + Seq::<u8>::empty() =~= out@);
            },
            Some(off) => {
                let cr = pos + off;
                let chunk = &file[pos..cr];
                let ghost tail = file@.subrange(cr as int, n as int);
                proof {
                    assert(no_cr(chunk@));
                    assert(file@.subrange(pos as int, n as int) =~= chunk@ + tail);
                    lemma_normalize_prefix(chunk@, tail);
                }
                out.extend_from_slice(chunk);
                out.push(LF);
                if cr + 1 < n && file[cr + 1] == LF {
                    assert(tail.subrange(2, tail.len() as int) =~= file@.subrange(cr + 2, n as int));
                    pos = cr + 2;
                } else {
                    assert(tail.subrange(1, tail.len() as int) =~= file@.subrange(cr + 1, n as int));
                    pos = cr + 1;
                }
                assert(out@ + normalize_lines(file@.subrange(pos as int, n as int)) =~= before + (
                chunk@ + normalize_lines(tail)));
            },
        }
    }
    assert(out@ =~= out@ + normalize_lines(file@.subrange(n as int, n as int)));
    out
}

fn blank_comments_in_place(buf: &mut Vec<u8>)
    ensures
        final(buf)@ == blank_comments(old(buf)@),
{
    let ghost s = buf@;
    let n = buf.len();
    let mut i: usize = 0;
    while i < n
        invariant
            s == old(buf)@,
            n == s.len(),
            buf@.len() == n,
            i <= n,
            i == 0 || i == n || !in_comment(s, i - 1),
            forall|j: int| 0 <= j < i ==> buf@[j] == blank_comments(s)[j],
            forall|j: int| i <= j < n ==> buf@[j] == s[j],
        decreases n - i,
    {
        let start = match find_pair(HASH, HASH, buf.as_slice(), i) {
            None => {
                proof {
                    assert forall|j: int| i <= j < n implies !pair_at(s, j, HASH, HASH) by {
                        assert(!pair_at(buf@, j, HASH, HASH));
                    }
                    lemma_no_comment_run(s, i as int, n as int);
                    assert forall|j: int| 0 <= j < n implies buf@[j] == blank_comments(s)[j] by {
                        if j >= i {
                            assert(!in_comment(s, j));
                        }
                    }
                }
                assert(buf@ =~= blank_comments(s));
                return;
            },
            Some(off) => i + off,
        };
        proof {
            assert forall|j: int| i <= j < start implies !pair_at(s, j, HASH, HASH) by {
                assert(!pair_at(buf@, j, HASH, HASH));
            }
            lemma_no_comment_run(s, i as int, start as int);
        }
        let end = match find_byte(LF, buf.as_slice(), start) {
            None => n,
            Some(off) => start + off,
        };
        proof {
            lemma_comment_run(s, start as int, end as int);
        }
        assert(end < n ==> s[end as int] == LF);
        let mut k = start;
        while k < end
            invariant
                n == s.len(),
                buf@.len() == n,
                i <= start <= k <= end <= n,
                end < n ==> s[end as int] == LF,
                forall|j: int| start <= j < end ==> in_comment(s, j),
                forall|j: int| 0 <= j < i ==> buf@[j] == blank_comments(s)[j],
                forall|j: int| i <= j < start ==> !in_comment(s, j),
                forall|j: int| i <= j < start ==> buf@[j] == s[j],
                forall|j: int| start <= j < k ==> buf@[j] == FILL,
                forall|j: int| k <= j < n ==> buf@[j] == s[j],
            decreases end - k,
        {
            buf.set(k, FILL);
            k = k + 1;
        }
        proof {
            assert forall|j: int| 0 <= j < end implies buf@[j] == blank_comments(s)[j] by {
                if i <= j < start {
                    assert(!in_comment(s, j));
                } else if start <= j {
                    assert(in_comment(s, j));
                }
            }
        }
        if end < n {
            assert(!in_comment(s, end as int));
            i = end + 1;
        } else {
            i = n;
        }
    }
    assert(buf@ =~= blank_comments(s));
}

/// Checks that `file` is UTF-8, then normalises its line endings and blanks
/// its comments.
pub fn sanitize_r3_locale_file(file: &[u8]) -> (r: Result<Vec<u8>, ParseR3Error>)
    ensures
        match r {
            Ok(v) => valid_utf8(file@) && v@ == sanitized(file@),
            Err(e) => !valid_utf8(file@) && e == ParseR3Error::InvalidUTF8Value,
        },
{
    if utf8_text(file).is_none() {
        return Err(ParseR3Error::InvalidUTF8Value);
    }
    let mut buf = normalize_line_endings(file);
    blank_comments_in_place(&mut buf);
    Ok(buf)
}

} // verus!
