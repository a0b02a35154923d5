//! Well-formed documents built from keys and values, and what parsing them
//! yields.
use vstd::prelude::*;
use vstd::utf8::*;
use crate::parser::{build_upto, key_bytes, parse_outcome, value_bytes};
use crate::sanitizer::{
    CR, HASH, LF, blank_comments, in_comment, lemma_ascii_valid, lemma_normalize_no_cr,
    no_cr, sanitized,
};
use crate::scanner::{
    CLOSE, OPEN, Span, header_at, lemma_next_close, lemma_next_header, lemma_next_lf,
    lemma_scan_skip, scan_from,
};
use crate::store::{MAX_BYTES, MAX_STRINGS, can_push, total_len};
use crate::text::{pair_at, trim_of, xxh3_of};

verus! {

/// One entry as written: `[[key]]`, LF, the value, LF.
pub open spec fn entry_text(k: Seq<u8>, v: Seq<u8>) -> Seq<u8> {
    seq![OPEN, OPEN] + k + seq![CLOSE, CLOSE, LF] + v + seq![LF]
}

/// The document holding the given entries in order.
pub open spec fn render(keys: Seq<Seq<u8>>, vals: Seq<Seq<u8>>) -> Seq<u8>
    decreases keys.len(),
{
    if keys.len() == 0 || vals.len() != keys.len() {
        seq![]
    } else {
        render(keys.drop_last(), vals.drop_last()) + entry_text(keys.last(), vals.last())
    }
}

/// Text with no CR and no two `#` in a row.
pub open spec fn quiet(x: Seq<u8>) -> bool {
    &&& forall|t: int| 0 <= t < x.len() ==> x[t] != CR
    &&& forall|t: int| !pair_at(x, t, HASH, HASH)
}

/// A key that can stand between the markers: quiet UTF-8 on one line,
/// without `]`, and free of surrounding whitespace.
pub open spec fn good_key(k: Seq<u8>) -> bool {
    &&& valid_utf8(k)
    &&& quiet(k)
    &&& forall|t: int| 0 <= t < k.len() ==> k[t] != LF && k[t] != CLOSE
    &&& trim_of(k) == k
}

/// A value that can follow a header line: quiet UTF-8 in which no line
/// opens with `[[`, free of surrounding whitespace.
pub open spec fn good_value(v: Seq<u8>) -> bool {
    &&& valid_utf8(v)
    &&& quiet(v)
    &&& !pair_at(v, 0, OPEN, OPEN)
    &&& forall|t: int| 0 <= t < v.len() && v[t] == LF ==> !pair_at(v, t + 1, OPEN, OPEN)
    &&& trim_of(v + seq![LF]) == v
}

/// Keys and values pair up, each is well formed, the keys' hashes differ,
/// and the values fit in one string table.
pub open spec fn well_formed(keys: Seq<Seq<u8>>, vals: Seq<Seq<u8>>) -> bool {
    &&& keys.len() == vals.len()
    &&& keys.len() <= MAX_STRINGS
    &&& total_len(vals) <= MAX_BYTES
    &&& forall|i: int| 0 <= i < keys.len() ==> good_key(#[trigger] keys[i])
    &&& forall|i: int| 0 <= i < vals.len() ==> good_value(#[trigger] vals[i])
    &&& forall|i: int, j: int|
        0 <= i < j < keys.len() ==> xxh3_of(#[trigger] keys[i]) != xxh3_of(#[trigger] keys[j])
}

/// Where entry `i` starts.
pub open spec fn offset(keys: Seq<Seq<u8>>, vals: Seq<Seq<u8>>, i: int) -> int {
    render(keys.take(i), vals.take(i)).len() as int
}

proof fn lemma_render_take(keys: Seq<Seq<u8>>, vals: Seq<Seq<u8>>, i: int)
    requires
        keys.len() == vals.len(),
        0 <= i < keys.len(),
    ensures
        render(keys.take(i + 1), vals.take(i + 1)) == render(keys.take(i), vals.take(i))
            + entry_text(keys[i], vals[i]),
{
    assert(keys.take(i + 1).drop_last() =~= keys.take(i));
    assert(vals.take(i + 1).drop_last() =~= vals.take(i));
}

proof fn lemma_render_prefix(keys: Seq<Seq<u8>>, vals: Seq<Seq<u8>>, i: int, n: int)
    requires
        keys.len() == vals.len(),
        0 <= i <= n <= keys.len(),
    ensures
        render(keys.take(i), vals.take(i)).len() <= render(keys.take(n), vals.take(n)).len(),
        render(keys.take(n), vals.take(n)).subrange(0, offset(keys, vals, i)) == render(
            keys.take(i),
            vals.take(i),
        ),
    decreases n - i,
{
    if i == n {
        assert(render(keys.take(n), vals.take(n)).subrange(0, offset(keys, vals, i)) =~= render(
            keys.take(i),
            vals.take(i),
        ));
    } else {
        lemma_render_prefix(keys, vals, i + 1, n);
        lemma_render_take(keys, vals, i);
        let big = render(keys.take(n), vals.take(n));
        let mid = render(keys.take(i + 1), vals.take(i + 1));
        assert(big.subrange(0, offset(keys, vals, i)) =~= mid.subrange(0, offset(keys, vals, i)));
        assert(mid.subrange(0, offset(keys, vals, i)) =~= render(keys.take(i), vals.take(i)));
    }
}

/// The bytes of entry `i` inside the whole document.
proof fn lemma_layout(keys: Seq<Seq<u8>>, vals: Seq<Seq<u8>>, i: int)
    requires
        keys.len() == vals.len(),
        0 <= i < keys.len(),
    ensures
        ({
            let doc = render(keys, vals);
            let o = offset(keys, vals, i);
            let k = keys[i];
            let v = vals[i];
            let c = o + 2 + k.len();
            &&& 0 <= o
            &&& offset(keys, vals, i + 1) == c + 4 + v.len()
            &&& offset(keys, vals, i + 1) <= doc.len()
            &&& doc[o] == OPEN && doc[o + 1] == OPEN
            &&& forall|t: int| 0 <= t < k.len() ==> doc[o + 2 + t] == k[t]
            &&& doc[c] == CLOSE && doc[c + 1] == CLOSE && doc[c + 2] == LF
            &&& forall|t: int| 0 <= t < v.len() ==> doc[c + 3 + t] == v[t]
            &&& doc[c + 3 + v.len()] == LF
        }),
{
    let n = keys.len() as int;
    assert(keys.take(n) =~= keys);
    assert(vals.take(n) =~= vals);
    lemma_render_prefix(keys, vals, i + 1, n);
    lemma_render_take(keys, vals, i);
    let doc = render(keys, vals);
    let e = entry_text(keys[i], vals[i]);
    let o = offset(keys, vals, i);
    let pre = render(keys.take(i + 1), vals.take(i + 1));
    assert forall|t: int| 0 <= t < e.len() implies doc[o + t] == e[t] by {
        assert(pre[o + t] == e[t]);
        assert(doc.subrange(0, offset(keys, vals, i + 1))[o + t] == doc[o + t]);
    }
    let k = keys[i];
    let v = vals[i];
    let c: int = 2 + k.len() as int;
    assert(e[0] == OPEN && e[1] == OPEN);
    assert(forall|t: int| 0 <= t < k.len() ==> e[2 + t] == k[t]);
    assert(e[c] == CLOSE && e[c + 1] == CLOSE && e[c + 2] == LF);
    assert(forall|t: int| 0 <= t < v.len() ==> e[c + 3 + t] == v[t]);
    assert(e[c + 3 + v.len()] == LF);
    assert forall|t: int| 0 <= t < k.len() implies doc[o + 2 + t] == k[t] by {
        assert(doc[o + (2 + t)] == e[2 + t]);
    }
    assert forall|t: int| 0 <= t < v.len() implies doc[o + c + 3 + t] == v[t] by {
        assert(doc[o + (c + 3 + t)] == e[c + 3 + t]);
    }
    assert(doc[o + c] == e[c]);
    assert(doc[o + (c + 1)] == e[c + 1]);
    assert(doc[o + (c + 2)] == e[c + 2]);
    assert(doc[o + (c + 3 + v.len())] == e[c + 3 + v.len()]);
    assert(doc[o + 0] == e[0]);
    assert(doc[o + 1] == e[1]);
}

proof fn lemma_bounds(keys: Seq<Seq<u8>>, vals: Seq<Seq<u8>>, i: int)
    requires
        keys.len() == vals.len(),
        0 <= i <= keys.len(),
    ensures
        offset(keys, vals, 0) == 0,
        offset(keys, vals, keys.len() as int) == render(keys, vals).len(),
        0 < i ==> render(keys, vals)[offset(keys, vals, i) - 1] == LF,
{
    assert(keys.take(0) =~= Seq::<Seq<u8>>::empty());
    assert(keys.take(keys.len() as int) =~= keys);
    assert(vals.take(keys.len() as int) =~= vals);
    if 0 < i {
        lemma_layout(keys, vals, i - 1);
    }
}

/// The span that scanning finds for entry `i`.
pub open spec fn span_of(keys: Seq<Seq<u8>>, vals: Seq<Seq<u8>>, i: int) -> Span {
    let o = offset(keys, vals, i);
    let c = o + 2 + keys[i].len();
    Span {
        key_start: (o + 2) as usize,
        key_end: c as usize,
        value_start: (c + 2 + 1) as usize,
        value_end: offset(keys, vals, i + 1) as usize,
    }
}

/// The spans of all entries, in order.
pub open spec fn spans_of(keys: Seq<Seq<u8>>, vals: Seq<Seq<u8>>) -> Seq<Span> {
    Seq::new(keys.len(), |i: int| span_of(keys, vals, i))
}

proof fn lemma_scan_render(keys: Seq<Seq<u8>>, vals: Seq<Seq<u8>>, i: int)
    requires
        well_formed(keys, vals),
        0 <= i <= keys.len(),
    ensures
        scan_from(render(keys, vals), offset(keys, vals, i)) == Ok::<Seq<Span>, crate::error::ParseR3Error>(
            spans_of(keys, vals).subrange(i, keys.len() as int),
        ),
    decreases keys.len() - i,
{
    let doc = render(keys, vals);
    let n = keys.len() as int;
    lemma_bounds(keys, vals, i);
    if i == n {
        assert(spans_of(keys, vals).subrange(i, n) =~= Seq::<Span>::empty());
    } else {
        lemma_layout(keys, vals, i);
        lemma_bounds(keys, vals, i + 1);
        lemma_scan_render(keys, vals, i + 1);
        let o = offset(keys, vals, i);
        let o2 = offset(keys, vals, i + 1);
        let k = keys[i];
        let v = vals[i];
        assert(good_key(k));
        assert(good_value(v));
        let c = o + 2 + k.len();
        assert(header_at(doc, o));
        assert forall|j: int| o + 2 <= j < c implies !pair_at(doc, j, CLOSE, CLOSE) by {
            assert(doc[o + 2 + (j - o - 2)] == k[j - o - 2]);
        }
        lemma_next_close(doc, o + 2, c);
        lemma_next_lf(doc, c + 2, c + 2);
        assert forall|j: int| o + 1 <= j < o2 implies !header_at(doc, j) by {
            if j < c + 3 {
                if o + 3 <= j <= c {
                    assert(doc[o + 2 + (j - 1 - o - 2)] == k[j - 1 - o - 2]);
                }
            } else if j == c + 3 {
                if v.len() > 0 {
                    assert(doc[c + 3 + 0] == v[0]);
                }
                if v.len() > 1 {
                    assert(doc[c + 3 + 1] == v[1]);
                }
            } else {
                let t = j - 1 - c - 3;
                assert(doc[c + 3 + t] == v[t]);
                if v[t] == LF && t + 1 < v.len() {
                    assert(doc[c + 3 + (t + 1)] == v[t + 1]);
                    if t + 2 < v.len() {
                        assert(doc[c + 3 + (t + 2)] == v[t + 2]);
                    }
                }
            }
        }
        if i + 1 < n {
            lemma_layout(keys, vals, i + 1);
            assert(header_at(doc, o2));
        }
        lemma_next_header(doc, c + 3, o2);
        lemma_scan_skip(doc, o + 1, o2);
        assert(seq![span_of(keys, vals, i)] + spans_of(keys, vals).subrange(i + 1, n) =~= spans_of(
            keys,
            vals,
        ).subrange(i, n));
    }
}
proof fn lemma_quiet_concat(a: Seq<u8>, b: Seq<u8>)
    requires
        quiet(a),
        quiet(b),
        a.len() == 0 || b.len() == 0 || a.last() != HASH || b[0] != HASH,
    ensures
        quiet(a + b),
{
    let ab = a + b;
    assert forall|t: int| !pair_at(ab, t, HASH, HASH) by {
        if pair_at(ab, t, HASH, HASH) {
            if t + 1 < a.len() {
                assert(pair_at(a, t, HASH, HASH));
            } else if t >= a.len() {
                assert(pair_at(b, t - a.len(), HASH, HASH));
            }
        }
    }
}

proof fn lemma_entry_valid(k: Seq<u8>, v: Seq<u8>)
    requires
        valid_utf8(k),
        valid_utf8(v),
    ensures
        valid_utf8(entry_text(k, v)),
{
    let a = seq![OPEN, OPEN];
    let b = seq![CLOSE, CLOSE, LF];
    let c = seq![LF];
    lemma_ascii_valid(a);
    lemma_ascii_valid(b);
    lemma_ascii_valid(c);
    valid_utf8_concat(a, k);
    valid_utf8_concat(a + k, b);
    valid_utf8_concat(a + k + b, v);
    valid_utf8_concat(a + k + b + v, c);
}

proof fn lemma_render_text(keys: Seq<Seq<u8>>, vals: Seq<Seq<u8>>)
    requires
        well_formed(keys, vals),
    ensures
        valid_utf8(render(keys, vals)),
        quiet(render(keys, vals)),
    decreases keys.len(),
{
    if keys.len() > 0 {
        let kd = keys.drop_last();
        let vd = vals.drop_last();
        assert(well_formed(kd, vd)) by {
            assert(forall|i: int| 0 <= i < kd.len() ==> kd[i] == keys[i]);
            assert(forall|i: int| 0 <= i < vd.len() ==> vd[i] == vals[i]);
            assert(total_len(vd) <= total_len(vals));
        }
        lemma_render_text(kd, vd);
        let k = keys.last();
        let v = vals.last();
        assert(good_key(keys[keys.len() - 1]));
        assert(good_value(vals[vals.len() - 1]));
        lemma_entry_valid(k, v);
        let e = entry_text(k, v);
        valid_utf8_concat(render(kd, vd), e);
        let a = seq![OPEN, OPEN];
        let b = seq![CLOSE, CLOSE, LF];
        let c = seq![LF];
        assert(quiet(a));
        assert(quiet(b));
        assert(quiet(c));
        lemma_quiet_concat(a, k);
        lemma_quiet_concat(a + k, b);
        lemma_quiet_concat(a + k + b, v);
        lemma_quiet_concat(a + k + b + v, c);
        lemma_quiet_concat(render(kd, vd), e);
    }
}

proof fn lemma_no_comment(s: Seq<u8>, i: int)
    requires
        forall|t: int| !pair_at(s, t, HASH, HASH),
    ensures
        !in_comment(s, i),
    decreases i + 1,
{
    if 0 <= i < s.len() {
        assert(!pair_at(s, i, HASH, HASH));
        lemma_no_comment(s, i - 1);
    }
}

proof fn lemma_sanitized_render(keys: Seq<Seq<u8>>, vals: Seq<Seq<u8>>)
    requires
        well_formed(keys, vals),
    ensures
        sanitized(render(keys, vals)) == render(keys, vals),
        valid_utf8(render(keys, vals)),
{
    let doc = render(keys, vals);
    lemma_render_text(keys, vals);
    assert(no_cr(doc));
    lemma_normalize_no_cr(doc);
    assert forall|i: int| 0 <= i < doc.len() implies !in_comment(doc, i) by {
        lemma_no_comment(doc, i);
    }
    assert(blank_comments(doc) =~= doc);
}

/// The entries of the first `i` keys and values.
pub open spec fn map_of(keys: Seq<Seq<u8>>, vals: Seq<Seq<u8>>, i: int) -> Map<u64, Seq<u8>>
    decreases i,
{
    if i <= 0 {
        Map::empty()
    } else {
        map_of(keys, vals, i - 1).insert(xxh3_of(keys[i - 1]), vals[i - 1])
    }
}

proof fn lemma_map_of(keys: Seq<Seq<u8>>, vals: Seq<Seq<u8>>, i: int, h: u64)
    requires
        well_formed(keys, vals),
        0 <= i <= keys.len(),
    ensures
        map_of(keys, vals, i).contains_key(h) <==> exists|j: int| 0 <= j < i && xxh3_of(keys[j]) == h,
        forall|j: int|
            0 <= j < i && xxh3_of(keys[j]) == h ==> map_of(keys, vals, i)[h] == vals[j],
    decreases i,
{
    if i > 0 {
        lemma_map_of(keys, vals, i - 1, h);
        if xxh3_of(keys[i - 1]) == h {
            assert forall|j: int| 0 <= j < i && xxh3_of(keys[j]) == h implies j == i - 1 by {
                if j < i - 1 {
                    assert(xxh3_of(keys[j]) != xxh3_of(keys[i - 1]));
                }
            }
        }
    }
}

proof fn lemma_total_len_take(vals: Seq<Seq<u8>>, i: int)
    requires
        0 <= i <= vals.len(),
    ensures
        total_len(vals.take(i)) <= total_len(vals),
    decreases vals.len(),
{
    if i < vals.len() {
        assert(vals.drop_last().take(i) =~= vals.take(i));
        lemma_total_len_take(vals.drop_last(), i);
    } else {
        assert(vals.take(i) =~= vals);
    }
}

proof fn lemma_build_render(keys: Seq<Seq<u8>>, vals: Seq<Seq<u8>>, i: int)
    requires
        well_formed(keys, vals),
        render(keys, vals).len() <= usize::MAX,
        0 <= i <= keys.len(),
    ensures
        build_upto(render(keys, vals), spans_of(keys, vals), i) == Ok::<
            (Map<u64, Seq<u8>>, Seq<Seq<u8>>),
            crate::error::ParseR3Error,
        >((map_of(keys, vals, i), vals.take(i))),
    decreases i,
{
    if i == 0 {
        assert(vals.take(0) =~= Seq::<Seq<u8>>::empty());
    } else {
        let j = i - 1;
        lemma_build_render(keys, vals, j);
        let doc = render(keys, vals);
        let sp = spans_of(keys, vals)[j];
        let k = keys[j];
        let v = vals[j];
        assert(trim_of(k) == k && trim_of(v + seq![LF]) == v) by {
            assert(good_key(keys[j]));
            assert(good_value(vals[j]));
        }
        lemma_layout(keys, vals, j);
        lemma_bounds(keys, vals, i);
        let o = offset(keys, vals, j);
        let c = o + 2 + k.len();
        assert(sp.key_start == o + 2 && sp.key_end == c && sp.value_start == c + 3);
        assert(sp.value_end == offset(keys, vals, i));
        assert(key_bytes(doc, sp) =~= k);
        assert(value_bytes(doc, sp) =~= v + seq![LF]) by {
            assert forall|t: int| 0 <= t < v.len() implies value_bytes(doc, sp)[t] == v[t] by {
                assert(doc[c + 3 + t] == v[t]);
            }
        }
        assert(vals.take(i).drop_last() =~= vals.take(j));
        assert(vals.take(i).last() == v);
        lemma_total_len_take(vals, i);
        assert(can_push(vals.take(j), v));
        lemma_map_of(keys, vals, j, xxh3_of(k));
        if map_of(keys, vals, j).contains_key(xxh3_of(k)) {
            let jj = choose|jj: int| 0 <= jj < j && xxh3_of(keys[jj]) == xxh3_of(k);
            assert(xxh3_of(keys[jj]) != xxh3_of(keys[j]));
        }
        assert(vals.take(j).push(v) =~= vals.take(i));
    }
}

/// A well-formed document parses, and the hash of each of its keys leads to
/// that key's value: looking a key up gives back its value.
pub proof fn lemma_round_trip(keys: Seq<Seq<u8>>, vals: Seq<Seq<u8>>, i: int)
    requires
        well_formed(keys, vals),
        render(keys, vals).len() <= usize::MAX,
        0 <= i < keys.len(),
    ensures
        parse_outcome(render(keys, vals)) is Ok,
        parse_outcome(render(keys, vals))->Ok_0.contains_key(xxh3_of(keys[i])),
        parse_outcome(render(keys, vals))->Ok_0[xxh3_of(keys[i])] == vals[i],
{
    let n = keys.len() as int;
    lemma_sanitized_render(keys, vals);
    lemma_bounds(keys, vals, 0);
    lemma_scan_render(keys, vals, 0);
    assert(spans_of(keys, vals).subrange(0, n) =~= spans_of(keys, vals));
    lemma_build_render(keys, vals, n);
    lemma_map_of(keys, vals, n, xxh3_of(keys[i]));
}

} // verus!
