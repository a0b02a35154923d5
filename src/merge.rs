//! Consolidating several locale tables into one, earliest table first.
use vstd::prelude::*;
use vstd::string::StringSliceAdditionalSpecFns;
use crate::error::MergeTableError;
use crate::store::{
    lists,
    HashIndex, MAX_BYTES, MAX_STRINGS, ValueBuilder, builder_strings, index_entries, table_strings,
    total_len,
};
use crate::table::LocaleTable;

verus! {

/// The consolidated entries of `vs`: a key takes its value from the earliest
/// map that holds it.
pub open spec fn merge_views(vs: Seq<Map<u64, Seq<u8>>>) -> Map<u64, Seq<u8>>
    decreases vs.len(),
{
    if vs.len() == 0 {
        Map::empty()
    } else {
        vs.last().union_prefer_right(merge_views(vs.drop_last()))
    }
}

/// The views of a list of tables.
pub open spec fn views_of(tables: Seq<&LocaleTable>) -> Seq<Map<u64, Seq<u8>>> {
    Seq::new(tables.len(), |i: int| tables[i]@)
}

/// A merged table holds exactly the keys of its sources, each with the value
/// of the earliest source that holds it.
pub proof fn lemma_merge_precedence(vs: Seq<Map<u64, Seq<u8>>>, i: int, h: u64)
    requires
        0 <= i < vs.len(),
        vs[i].contains_key(h),
        forall|j: int| 0 <= j < i ==> !(#[trigger] vs[j]).contains_key(h),
    ensures
        merge_views(vs).contains_key(h),
        merge_views(vs)[h] == vs[i][h],
    decreases vs.len(),
{
    if i < vs.len() - 1 {
        lemma_merge_precedence(vs.drop_last(), i, h);
    } else {
        lemma_merge_absent(vs.drop_last(), h);
    }
}

/// A key that no source holds is absent from the merge.
pub proof fn lemma_merge_absent(vs: Seq<Map<u64, Seq<u8>>>, h: u64)
    requires
        forall|j: int| 0 <= j < vs.len() ==> !(#[trigger] vs[j]).contains_key(h),
    ensures
        !merge_views(vs).contains_key(h),
    decreases vs.len(),
{
    if vs.len() > 0 {
        lemma_merge_absent(vs.drop_last(), h);
    }
}

/// Some distinct keys of `m` carry values that together do not fit in one
/// string table.
pub open spec fn overflows(m: Map<u64, Seq<u8>>) -> bool {
    exists|w: Seq<u64>|
        #![trigger w.no_duplicates()]
        w.no_duplicates() && (forall|i: int| 0 <= i < w.len() ==> m.contains_key(#[trigger] w[i]))
            && (w.len() > MAX_STRINGS || total_len(w.map_values(|h: u64| m[h])) > MAX_BYTES)
}

proof fn lemma_merge_prefix(vs: Seq<Map<u64, Seq<u8>>>, t: int, h: u64)
    requires
        0 <= t <= vs.len(),
        merge_views(vs.take(t)).contains_key(h),
    ensures
        merge_views(vs).contains_key(h),
        merge_views(vs)[h] == merge_views(vs.take(t))[h],
    decreases vs.len(),
{
    if t == vs.len() {
        assert(vs.take(t) =~= vs);
    } else {
        assert(vs.drop_last().take(t) =~= vs.take(t));
        lemma_merge_prefix(vs.drop_last(), t, h);
    }
}

/// The entries an index and the strings it points into stand for.
pub open spec fn state_map(index: Map<u64, u16>, strings: Seq<Seq<u8>>) -> Map<u64, Seq<u8>> {
    Map::new(|h: u64| index.contains_key(h), |h: u64| strings[index[h] as int])
}

/// `keys` lists, in identifier order, the key that each string was interned
/// for, and every identifier in the index names a string.
pub open spec fn registry(index: Map<u64, u16>, strings: Seq<Seq<u8>>, keys: Seq<u64>) -> bool {
    &&& keys.len() == strings.len()
    &&& keys.no_duplicates()
    &&& forall|i: int|
        0 <= i < keys.len() ==> #[trigger] index.contains_key(keys[i]) && index[keys[i]] as int == i
    &&& forall|h: u64| #[trigger]
        index.contains_key(h) ==> (index[h] as int) < strings.len() && keys[index[h] as int] == h
}

/// The strings fit in one string table.
pub open spec fn fits(strings: Seq<Seq<u8>>) -> bool {
    strings.len() <= MAX_STRINGS && total_len(strings) <= MAX_BYTES
}

/// Total length of the strings whose positions are in `m`.
pub open spec fn masked_len(s: Seq<Seq<u8>>, m: Set<int>) -> int
    decreases s.len(),
{
    if s.len() == 0 {
        0
    } else {
        masked_len(s.drop_last(), m) + if m.contains(s.len() - 1) {
            s.last().len() as int
        } else {
            0
        }
    }
}

/// How many of the positions below `n` are in `m`.
pub open spec fn masked_count(n: int, m: Set<int>) -> int
    decreases n,
{
    if n <= 0 {
        0
    } else {
        masked_count(n - 1, m) + if m.contains(n - 1) {
            1int
        } else {
            0
        }
    }
}

proof fn lemma_masked_bounds(s: Seq<Seq<u8>>, m: Set<int>)
    ensures
        masked_len(s, m) <= total_len(s),
        masked_count(s.len() as int, m) <= s.len(),
    decreases s.len(),
{
    if s.len() > 0 {
        lemma_masked_bounds(s.drop_last(), m);
    }
}

proof fn lemma_masked_insert(s: Seq<Seq<u8>>, m: Set<int>, j: int)
    requires
        0 <= j < s.len(),
        !m.contains(j),
    ensures
        masked_len(s, m.insert(j)) == masked_len(s, m) + s[j].len(),
        masked_count(s.len() as int, m.insert(j)) == masked_count(s.len() as int, m) + 1,
    decreases s.len(),
{
    let n = s.len() as int;
    if j < n - 1 {
        lemma_masked_insert(s.drop_last(), m, j);
    } else {
        lemma_masked_same(s.drop_last(), m, m.insert(j));
    }
}

proof fn lemma_masked_same(s: Seq<Seq<u8>>, a: Set<int>, b: Set<int>)
    requires
        forall|j: int| 0 <= j < s.len() ==> (a.contains(j) <==> b.contains(j)),
    ensures
        masked_len(s, a) == masked_len(s, b),
        masked_count(s.len() as int, a) == masked_count(s.len() as int, b),
    decreases s.len(),
{
    if s.len() > 0 {
        lemma_masked_same(s.drop_last(), a, b);
    }
}

/// The identifiers of the keys in `w`.
pub open spec fn id_set(index: Map<u64, u16>, w: Seq<u64>) -> Set<int> {
    Set::new(|j: int| exists|k: int| 0 <= k < w.len() && index[w[k]] as int == j)
}

proof fn lemma_keys_masked(
    index: Map<u64, u16>,
    strings: Seq<Seq<u8>>,
    keys: Seq<u64>,
    w: Seq<u64>,
)
    requires
        registry(index, strings, keys),
        w.no_duplicates(),
        forall|i: int| 0 <= i < w.len() ==> index.contains_key(#[trigger] w[i]),
    ensures
        w.len() == masked_count(strings.len() as int, id_set(index, w)),
        total_len(w.map_values(|h: u64| state_map(index, strings)[h])) == masked_len(
            strings,
            id_set(index, w),
        ),
    decreases w.len(),
{
    let f = state_map(index, strings);
    if w.len() == 0 {
        lemma_masked_same(strings, id_set(index, w), Set::empty());
        lemma_masked_zero(strings);
        assert(w.map_values(|h: u64| f[h]) =~= Seq::<Seq<u8>>::empty());
    } else {
        let wd = w.drop_last();
        let h = w.last();
        lemma_keys_masked(index, strings, keys, wd);
        let j = index[h] as int;
        assert(index.contains_key(w[w.len() - 1]));
        assert(!id_set(index, wd).contains(j)) by {
            if id_set(index, wd).contains(j) {
                let k = choose|k: int| 0 <= k < wd.len() && index[wd[k]] as int == j;
                assert(index.contains_key(w[k]));
                assert(keys[index[wd[k]] as int] == wd[k]);
                assert(w[k] == w[w.len() - 1]);
            }
        }
        lemma_masked_insert(strings, id_set(index, wd), j);
        assert forall|x: int| 0 <= x < strings.len() implies (id_set(index, w).contains(x)
            <==> id_set(index, wd).insert(j).contains(x)) by {
            if id_set(index, w).contains(x) {
                let k = choose|k: int| 0 <= k < w.len() && index[w[k]] as int == x;
                if k < wd.len() {
                    assert(wd[k] == w[k]);
                }
            }
            if id_set(index, wd).contains(x) {
                let k = choose|k: int| 0 <= k < wd.len() && index[wd[k]] as int == x;
                assert(w[k] == wd[k]);
            }
            if x == j {
                assert(w[w.len() - 1] == h);
            }
        }
        lemma_masked_same(strings, id_set(index, w), id_set(index, wd).insert(j));
        assert(w.map_values(|h: u64| f[h]).drop_last() =~= wd.map_values(|h: u64| f[h]));
    }
}

proof fn lemma_masked_zero(s: Seq<Seq<u8>>)
    ensures
        masked_len(s, Set::empty()) == 0,
        masked_count(s.len() as int, Set::empty()) == 0,
    decreases s.len(),
{
    if s.len() > 0 {
        lemma_masked_zero(s.drop_last());
    }
}

proof fn lemma_fits_no_overflow(index: Map<u64, u16>, strings: Seq<Seq<u8>>, keys: Seq<u64>)
    requires
        registry(index, strings, keys),
        fits(strings),
    ensures
        !overflows(state_map(index, strings)),
{
    let f = state_map(index, strings);
    if overflows(f) {
        let w = choose|w: Seq<u64>|
            #![trigger w.no_duplicates()]
            w.no_duplicates() && (forall|i: int| 0 <= i < w.len() ==> f.contains_key(#[trigger] w[i]))
                && (w.len() > MAX_STRINGS || total_len(w.map_values(|h: u64| f[h])) > MAX_BYTES);
        lemma_keys_masked(index, strings, keys, w);
        lemma_masked_bounds(strings, id_set(index, w));
    }
}

proof fn lemma_capacity_witness(
    vs: Seq<Map<u64, Seq<u8>>>,
    t: int,
    index: Map<u64, u16>,
    strings: Seq<Seq<u8>>,
    keys: Seq<u64>,
    h: u64,
    v: Seq<u8>,
)
    requires
        0 <= t < vs.len(),
        registry(index, strings, keys),
        forall|k: u64| #[trigger]
            state_map(index, strings).contains_key(k) ==> vs[t].union_prefer_right(
                merge_views(vs.take(t)),
            ).contains_key(k) && state_map(index, strings)[k] == vs[t].union_prefer_right(
                merge_views(vs.take(t)),
            )[k],
        !index.contains_key(h),
        !merge_views(vs.take(t)).contains_key(h),
        vs[t].contains_key(h),
        vs[t][h] == v,
        !(strings.len() < MAX_STRINGS && total_len(strings) + v.len() <= MAX_BYTES),
    ensures
        overflows(merge_views(vs)),
{
    let f = merge_views(vs);
    let m = state_map(index, strings);
    assert(vs.take(t + 1).drop_last() =~= vs.take(t));
    assert(vs.take(t + 1).last() == vs[t]);
    let w = keys.push(h);
    assert forall|i: int| 0 <= i < w.len() implies f.contains_key(#[trigger] w[i]) && f[w[i]]
        == strings.push(v)[i] by {
        if i < keys.len() {
            assert(index.contains_key(keys[i]));
            assert(m.contains_key(keys[i]));
        }
        lemma_merge_prefix(vs, t + 1, w[i]);
    }
    assert(w.map_values(|k: u64| f[k]) =~= strings.push(v));
    assert(strings.push(v).drop_last() =~= strings);
    assert forall|i: int, k: int| 0 <= i < w.len() && 0 <= k < w.len() && i != k implies w[i] != w[k] by {
        if k == keys.len() {
            assert(index.contains_key(keys[i]));
        }
        if i == keys.len() {
            assert(index.contains_key(keys[k]));
        }
    }
    assert(w.no_duplicates());
}

/// Adds to the builder and index every entry of `src` whose key they do not
/// hold yet.
fn absorb_table(
    src: &LocaleTable,
    builder: &mut ValueBuilder,
    index: &mut HashIndex,
    Ghost(keys): Ghost<Seq<u64>>,
    Ghost(vs): Ghost<Seq<Map<u64, Seq<u8>>>>,
    Ghost(t): Ghost<int>,
) -> (r: Result<Ghost<Seq<u64>>, MergeTableError>)
    requires
        src.wf(),
        0 <= t < vs.len(),
        vs[t] == src@,
        registry(index_entries(old(index)), builder_strings(old(builder)), keys),
        fits(builder_strings(old(builder))),
        state_map(index_entries(old(index)), builder_strings(old(builder))) == merge_views(vs.take(t)),
    ensures
        match r {
            Ok(new_keys) => registry(index_entries(final(index)), builder_strings(final(builder)), new_keys@)
                && fits(builder_strings(final(builder))) && state_map(index_entries(final(index)), builder_strings(final(builder)))
                == merge_views(vs.take(t + 1)),
            Err(e) => e == MergeTableError::CapacityExceeded && overflows(merge_views(vs)),
        },
{
    let ghost mt = merge_views(vs.take(t));
    let ghost sv = src@;
    let ghost mut keys = keys;
    let entries = src.entries.entries();
    let mut j: usize = 0;
    while j < entries.len()
        invariant
            src.wf(),
            0 <= t < vs.len(),
            vs[t] == sv,
            sv == src@,
            mt == merge_views(vs.take(t)),
            j <= entries@.len(),
            lists(index_entries(&src.entries), entries@),
            registry(index_entries(index), builder_strings(builder), keys),
            fits(builder_strings(builder)),
            forall|h: u64| #[trigger]
                state_map(index_entries(index), builder_strings(builder)).contains_key(h) <==> (
                mt.contains_key(h) || (sv.contains_key(h) && exists|k: int|
                    0 <= k < j && entries@[k].key == h)),
            forall|h: u64| #[trigger]
                state_map(index_entries(index), builder_strings(builder)).contains_key(h)
                    ==> state_map(index_entries(index), builder_strings(builder))[h] == (
                if mt.contains_key(h) {
                    mt[h]
                } else {
                    sv[h]
                }),
        decreases entries@.len() - j,
    {
        let e = entries[j];
        assert(index_entries(&src.entries).contains_key(entries@[j as int].key));
        let ghost m0 = state_map(index_entries(index), builder_strings(builder));
        if index.find(e.key).is_none() {
            let value = src.string_values.get(e.string_id).unwrap();
            assert(sv.contains_key(e.key) && sv[e.key] == value.spec_bytes());
            assert(!mt.contains_key(e.key)) by {
                assert(!m0.contains_key(e.key));
            }
            let ghost old_builder = *builder;
            let id = match builder.try_push(value) {
                Ok(id) => id,
                Err(_) => {
                    proof {
                        assert forall|k: u64| #[trigger] m0.contains_key(k) implies sv.union_prefer_right(
                            mt).contains_key(k) && m0[k] == sv.union_prefer_right(mt)[k] by {}
                        lemma_capacity_witness(
                            vs,
                            t,
                            index_entries(index),
                            builder_strings(builder),
                            keys,
                            e.key,
                            value.spec_bytes(),
                        );
                    }
                    return Err(MergeTableError::CapacityExceeded);
                },
            };
            let ghost old_index = index_entries(index);
            assert(builder_strings(builder).drop_last() =~= builder_strings(&old_builder));
            index.insert_unique(e.key, id);
            proof {
                assert forall|i: int| 0 <= i < keys.len() implies keys[i] != e.key by {
                    assert(old_index.contains_key(keys[i]));
                }
                keys = keys.push(e.key);
                let m1 = state_map(index_entries(index), builder_strings(builder));
                assert forall|h: u64| #[trigger] m1.contains_key(h) implies m1[h] == (if h == e.key {
                    value.spec_bytes()
                } else {
                    m0[h]
                }) by {
                    if h != e.key {
                        assert(old_index.contains_key(h));
                    }
                }
                assert(m1 =~= m0.insert(e.key, value.spec_bytes()));
            }
        }
        j = j + 1;
    }
    proof {
        assert(vs.take(t + 1).drop_last() =~= vs.take(t));
        assert(vs.take(t + 1).last() == sv);
        assert forall|h: u64| #[trigger] sv.contains_key(h) implies exists|k: int|
            0 <= k < entries@.len() && entries@[k].key == h by {
            assert(index_entries(&src.entries).contains_key(h));
        }
        assert(state_map(index_entries(index), builder_strings(builder)) =~= sv.union_prefer_right(mt));
    }
    Ok(Ghost(keys))
}

/// Merges `tables` into one fresh table; on a key present in several tables
/// the earliest one supplies the value.
pub fn merge_locale_table_rust(tables: &[&LocaleTable]) -> (r: Result<LocaleTable, MergeTableError>)
    requires
        forall|i: int| 0 <= i < tables@.len() ==> (#[trigger] tables@[i]).wf(),
    ensures
        match r {
            Ok(t) => t.wf() && t@ == merge_views(views_of(tables@)),
            Err(e) => e == MergeTableError::CapacityExceeded,
        },
        r is Err <==> overflows(merge_views(views_of(tables@))),
{
    let ghost vs = views_of(tables@);
    let mut builder = ValueBuilder::new();
    let mut index = HashIndex::new();
    let ghost mut keys: Seq<u64> = seq![];
    assert(state_map(index_entries(&index), builder_strings(&builder)) =~= merge_views(vs.take(0)));
    let mut t: usize = 0;
    while t < tables.len()
        invariant
            vs == views_of(tables@),
            forall|i: int| 0 <= i < tables@.len() ==> (#[trigger] tables@[i]).wf(),
            t <= tables@.len(),
            registry(index_entries(&index), builder_strings(&builder), keys),
            fits(builder_strings(&builder)),
            state_map(index_entries(&index), builder_strings(&builder)) == merge_views(vs.take(t as int)),
        decreases tables@.len() - t,
    {
        let src = tables[t];
        match absorb_table(src, &mut builder, &mut index, Ghost(keys), Ghost(vs), Ghost(t as int)) {
            Ok(new_keys) => {
                proof {
                    keys = new_keys@;
                }
            },
            Err(e) => {
                return Err(e);
            },
        }
        t = t + 1;
    }
    assert(vs.take(tables@.len() as int) =~= vs);
    proof {
        lemma_fits_no_overflow(index_entries(&index), builder_strings(&builder), keys);
    }
    let table = LocaleTable { string_values: builder.build(), entries: index };
    assert(table@ =~= state_map(index_entries(&table.entries), table_strings(&table.string_values)));
    Ok(table)
}

} // verus!
