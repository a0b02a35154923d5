//! Parsing a locale document into a `LocaleTable`.
use vstd::prelude::*;
use vstd::utf8::*;
use vstd::string::StringSliceAdditionalSpecFns;
use crate::error::ParseR3Error;
use crate::sanitizer::{
    LF, lemma_normalize_has_no_cr, lemma_normalize_no_cr, lemma_normalize_valid,
    lemma_sanitized_valid, normalize_lines, sanitize_r3_locale_file, sanitized,
};
use crate::scanner::{CLOSE, OPEN, Span, scan_entries, scan_from, span_in};
use crate::store::{
    HashIndex, ValueBuilder, builder_strings, can_push, index_entries,
};
use crate::table::LocaleTable;
use crate::text::{key_hash, trim_text, trim_of, utf8_text, xxh3_of};

verus! {

/// Entries so far (key hash to value bytes) and the values interned so far.
pub type BuildState = (Map<u64, Seq<u8>>, Seq<Seq<u8>>);

/// The raw key bytes of a span.
pub open spec fn key_bytes(s: Seq<u8>, sp: Span) -> Seq<u8> {
    s.subrange(sp.key_start as int, sp.key_end as int)
}

/// The raw value bytes of a span.
pub open spec fn value_bytes(s: Seq<u8>, sp: Span) -> Seq<u8> {
    s.subrange(sp.value_start as int, sp.value_end as int)
}

/// Adding one entry: the trimmed value is interned, then the trimmed key's
/// hash must be new.
pub open spec fn add_entry(st: BuildState, key: Seq<u8>, val: Seq<u8>) -> Result<
    BuildState,
    ParseR3Error,
> {
    if !can_push(st.1, trim_of(val)) {
        Err(ParseR3Error::CapacityExceeded)
    } else if st.0.contains_key(xxh3_of(trim_of(key))) {
        Err(ParseR3Error::DuplicateKeys)
    } else {
        Ok((st.0.insert(xxh3_of(trim_of(key)), trim_of(val)), st.1.push(trim_of(val))))
    }
}

/// The state after adding the first `i` spans of `s`, or the first error.
pub open spec fn build_upto(s: Seq<u8>, spans: Seq<Span>, i: int) -> Result<
    BuildState,
    ParseR3Error,
>
    decreases i,
{
    if i <= 0 {
        Ok((Map::empty(), seq![]))
    } else {
        match build_upto(s, spans, i - 1) {
            Ok(st) => add_entry(st, key_bytes(s, spans[i - 1]), value_bytes(s, spans[i - 1])),
            Err(e) => Err(e),
        }
    }
}

/// What parsing `b` yields: the table as a map from key hash to value bytes,
/// or the error.
pub open spec fn parse_outcome(b: Seq<u8>) -> Result<Map<u64, Seq<u8>>, ParseR3Error> {
    if !valid_utf8(b) {
        Err(ParseR3Error::InvalidUTF8Value)
    } else {
        match scan_from(sanitized(b), 0) {
            Err(e) => Err(e),
            Ok(spans) => match build_upto(sanitized(b), spans, spans.len() as int) {
                Ok(st) => Ok(st.0),
                Err(e) => Err(e),
            },
        }
    }
}

proof fn lemma_build_err_stays(s: Seq<u8>, spans: Seq<Span>, i: int, n: int)
    requires
        0 <= i <= n,
        build_upto(s, spans, i) is Err,
    ensures
        build_upto(s, spans, n) == build_upto(s, spans, i),
    decreases n - i,
{
    if i < n {
        lemma_build_err_stays(s, spans, i, n - 1);
    }
}

proof fn lemma_boundary_after_ascii(s: Seq<u8>, i: int)
    requires
        valid_utf8(s),
        0 <= i < s.len(),
        is_char_boundary(s, i),
        s[i] < 128,
    ensures
        is_char_boundary(s, i + 1),
    decreases s.len(),
{
    reveal_with_fuel(is_char_boundary, 2);
    let w = length_of_first_scalar(s);
    let p = pop_first_scalar(s);
    assert(1 <= w <= s.len());
    if i == 0 {
        assert(w == 1);
    } else {
        assert(p[i - w] == s[i]);
        lemma_boundary_after_ascii(p, i - w);
    }
}

/// The bytes between two ASCII markers of UTF-8 text are UTF-8 text.
proof fn lemma_slice_valid(s: Seq<u8>, a: int, b: int)
    requires
        valid_utf8(s),
        0 <= a <= b <= s.len(),
        a == 0 || s[a - 1] < 128,
        b == s.len() || s[b] < 128,
    ensures
        valid_utf8(s.subrange(a, b)),
{
    is_char_boundary_start_end_of_seq(s);
    if a > 0 {
        is_char_boundary_iff_not_is_continuation_byte(s, a - 1);
        lemma_boundary_after_ascii(s, a - 1);
    }
    valid_utf8_split(s, a);
    let r = s.subrange(a, s.len() as int);
    is_char_boundary_start_end_of_seq(r);
    if b < s.len() {
        assert(r[b - a] == s[b]);
        is_char_boundary_iff_not_is_continuation_byte(r, b - a);
    }
    valid_utf8_split(r, b - a);
    assert(r.subrange(0, b - a) =~= s.subrange(a, b));
}

/// Ties the index and the interned values to the entries of a build state.
pub open spec fn holds_state(index: Map<u64, u16>, strings: Seq<Seq<u8>>, st: BuildState) -> bool {
    &&& strings == st.1
    &&& index.dom() == st.0.dom()
    &&& forall|h: u64| #[trigger]
        index.contains_key(h) ==> (index[h] as int) < strings.len() && strings[index[h] as int]
            == st.0[h]
}

/// Records identifier `id` under `hash`, unless that hash is already present.
pub fn insert_hashed(table: &mut HashIndex, hash: u64, id: u16) -> (r: Result<(), ParseR3Error>)
    ensures
        index_entries(old(table)).contains_key(hash) ==> r == Err::<(), ParseR3Error>(
            ParseR3Error::DuplicateKeys,
        ) && index_entries(final(table)) == index_entries(old(table)),
        !index_entries(old(table)).contains_key(hash) ==> r is Ok && index_entries(final(table))
            == index_entries(old(table)).insert(hash, id),
{
    if table.find(hash).is_none() {
        table.insert_unique(hash, id);
        Ok(())
    } else {
        Err(ParseR3Error::DuplicateKeys)
    }
}

/// Records `key` under identifier `id`, unless its hash is already present.
pub fn insert_into_hashtable(table: &mut HashIndex, key: &[u8], id: u16) -> (r: Result<
    (),
    ParseR3Error,
>)
    ensures
        index_entries(old(table)).contains_key(xxh3_of(key@)) ==> r == Err::<(), ParseR3Error>(
            ParseR3Error::DuplicateKeys,
        ) && index_entries(final(table)) == index_entries(old(table)),
        !index_entries(old(table)).contains_key(xxh3_of(key@)) ==> r is Ok && index_entries(
            final(table),
        ) == index_entries(old(table)).insert(xxh3_of(key@), id),
{
    insert_hashed(table, key_hash(key), id)
}

/// Parses a locale document: sanitizes it, locates its headers, then interns
/// each trimmed value and indexes it under the hash of its trimmed key.
pub fn parse_r3locale_bytes(bytes: &[u8]) -> (r: Result<LocaleTable, ParseR3Error>)
    ensures
        match r {
            Ok(t) => t.wf() && parse_outcome(bytes@) is Ok && parse_outcome(bytes@)->Ok_0 == t@,
            Err(e) => parse_outcome(bytes@) is Err && parse_outcome(bytes@)->Err_0 == e,
        },
        (r is Err && r->Err_0 == ParseR3Error::InvalidUTF8Value) <==> !valid_utf8(bytes@),
{
    let s = match sanitize_r3_locale_file(bytes) {
        Ok(s) => s,
        Err(e) => return Err(e),
    };
    let spans = match scan_entries(&s) {
        Ok(v) => v,
        Err(e) => return Err(e),
    };
    let ghost sv = s@;
    proof {
        lemma_sanitized_valid(bytes@);
    }
    let mut builder = ValueBuilder::new();
    let mut index = HashIndex::new();
    let ghost mut m: Map<u64, Seq<u8>> = Map::empty();
    assert(index_entries(&index).dom() =~= m.dom());
    let mut i: usize = 0;
    while i < spans.len()
        invariant
            sv == s@,
            sv == sanitized(bytes@),
            valid_utf8(bytes@),
            valid_utf8(sv),
            scan_from(sv, 0) is Ok && scan_from(sv, 0)->Ok_0 == spans@,
            forall|k: int| 0 <= k < spans@.len() ==> #[trigger] span_in(sv, spans@[k]),
            i <= spans@.len(),
            build_upto(sv, spans@, i as int) is Ok,
            build_upto(sv, spans@, i as int)->Ok_0 == (m, builder_strings(&builder)),
            holds_state(index_entries(&index), builder_strings(&builder), (m, builder_strings(&builder))),
        decreases spans@.len() - i,
    {
        let sp = spans[i];
        assert(span_in(sv, spans@[i as int]));
        let key_raw = &s.as_slice()[sp.key_start..sp.key_end];
        let value_raw = &s.as_slice()[sp.value_start..sp.value_end];
        assert(key_raw@ == key_bytes(sv, sp));
        assert(value_raw@ == value_bytes(sv, sp));
        proof {
            lemma_slice_valid(sv, sp.key_start as int, sp.key_end as int);
            lemma_slice_valid(sv, sp.value_start as int, sp.value_end as int);
        }
        let key_text = match utf8_text(key_raw) {
            Some(t) => t,
            None => {
                // Never taken: the slice lies between ASCII markers of UTF-8 text.
                proof {
                    assert(false);
                }
                return Err(ParseR3Error::InvalidUTF8Value);
            },
        };
        let value_text = match utf8_text(value_raw) {
            Some(t) => t,
            None => {
                // Never taken: the slice lies between ASCII markers of UTF-8 text.
                proof {
                    assert(false);
                }
                return Err(ParseR3Error::InvalidUTF8Value);
            },
        };
        let key = trim_text(key_text).as_bytes();
        let value = trim_text(value_text);
        let id = match builder.try_push(value) {
            Ok(id) => id,
            Err(_) => {
                proof {
                    lemma_build_err_stays(sv, spans@, i + 1, spans@.len() as int);
                }
                return Err(ParseR3Error::CapacityExceeded);
            },
        };
        match insert_into_hashtable(&mut index, key, id) {
            Ok(()) => {},
            Err(e) => {
                assert(m.contains_key(xxh3_of(key@)));
                proof {
                    lemma_build_err_stays(sv, spans@, i + 1, spans@.len() as int);
                }
                return Err(e);
            },
        }
        proof {
            m = m.insert(xxh3_of(key@), value.spec_bytes());
            assert(index_entries(&index).dom() =~= m.dom());
        }
        i = i + 1;
    }
    let table = LocaleTable { string_values: builder.build(), entries: index };
    assert(table@ =~= m);
    Ok(table)
}

/// Bytes that are not UTF-8 anywhere are rejected as such, whatever else
/// they hold: no entry is produced.
pub proof fn lemma_invalid_text_rejected(b: Seq<u8>)
    requires
        !valid_utf8(b),
    ensures
        parse_outcome(b) == Err::<Map<u64, Seq<u8>>, ParseR3Error>(ParseR3Error::InvalidUTF8Value),
{
}

/// A document whose lines end in CR LF or in a lone CR parses exactly as the
/// same document with LF line endings.
pub proof fn lemma_line_endings_irrelevant(doc: Seq<u8>)
    requires
        valid_utf8(doc),
    ensures
        parse_outcome(doc) == parse_outcome(normalize_lines(doc)),
{
    lemma_normalize_valid(doc);
    lemma_normalize_has_no_cr(doc);
    lemma_normalize_no_cr(normalize_lines(doc));
}

/// Parsing the same bytes twice gives the same outcome, and tables that
/// answer every lookup alike.
pub proof fn lemma_parse_repeatable(
    a: Seq<u8>,
    b: Seq<u8>,
    t1: LocaleTable,
    t2: LocaleTable,
    key: Seq<u8>,
)
    requires
        a == b,
        parse_outcome(a) is Ok ==> parse_outcome(a)->Ok_0 == t1@,
        parse_outcome(b) is Ok ==> parse_outcome(b)->Ok_0 == t2@,
    ensures
        parse_outcome(a) == parse_outcome(b),
        parse_outcome(a) is Ok ==> (t1@.contains_key(xxh3_of(key)) == t2@.contains_key(xxh3_of(key))
            && t1@[xxh3_of(key)] == t2@[xxh3_of(key)]),
{
}

} // verus!
