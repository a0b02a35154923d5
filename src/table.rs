//! The immutable locale table: an interned value store plus a hash index.
use vstd::prelude::*;
use vstd::string::StringSliceAdditionalSpecFns;
use crate::store::{HashIndex, ValueTable, index_entries, table_strings};
use crate::text::{key_hash, xxh3_of};

verus! {

/// A built table: values interned in one string table, looked up through the
/// hash of their key.
pub struct LocaleTable {
    pub string_values: ValueTable,
    pub entries: HashIndex,
}

impl LocaleTable {
    /// Every identifier in the index names a value of the string table.
    pub open spec fn wf(&self) -> bool {
        forall|h: u64| #[trigger]
            index_entries(&self.entries).contains_key(h) ==> (index_entries(&self.entries)[h] as int)
                < table_strings(&self.string_values).len()
    }
}

impl View for LocaleTable {
    /// The table as a map from key hash to the value's UTF-8 bytes.
    type V = Map<u64, Seq<u8>>;

    open spec fn view(&self) -> Map<u64, Seq<u8>> {
        Map::new(
            |h: u64| index_entries(&self.entries).contains_key(h),
            |h: u64| table_strings(&self.string_values)[index_entries(&self.entries)[h] as int],
        )
    }
}

impl LocaleTable {
    /// The value stored under the key hash `hash`, if any.
    pub fn find_hash(&self, hash: u64) -> (r: Option<&str>)
        requires
            self.wf(),
        ensures
            match r {
                Some(v) => self@.contains_key(hash) && v.spec_bytes() == self@[hash],
                None => !self@.contains_key(hash),
            },
    {
        match self.entries.find(hash) {
            Some(id) => self.string_values.get(id),
            None => None,
        }
    }

    /// The value stored under the hash of `key`, if any.
    pub fn find_entry(&self, key: &[u8]) -> (r: Option<&str>)
        requires
            self.wf(),
        ensures
            match r {
                Some(v) => self@.contains_key(xxh3_of(key@)) && v.spec_bytes() == self@[xxh3_of(
                    key@,
                )],
                None => !self@.contains_key(xxh3_of(key@)),
            },
    {
        self.find_hash(key_hash(key))
    }
}

impl LocaleTable {
    /// Every (key hash, value) pair of the table, each key once, in the
    /// index's own order.
    pub fn all_entries(&self) -> (r: Vec<(u64, &str)>)
        requires
            self.wf(),
        ensures
            forall|i: int|
                0 <= i < r@.len() ==> #[trigger] self@.contains_key(r@[i].0) && r@[i].1.spec_bytes()
                    == self@[r@[i].0],
            forall|h: u64|
                #[trigger] self@.contains_key(h) ==> exists|i: int| 0 <= i < r@.len() && r@[i].0 == h,
            forall|i: int, j: int| 0 <= i < j < r@.len() ==> r@[i].0 != r@[j].0,
    {
        let entries = self.entries.entries();
        let mut out: Vec<(u64, &str)> = Vec::with_capacity(entries.len());
        let mut i: usize = 0;
        while i < entries.len()
            invariant
                self.wf(),
                i <= entries@.len(),
                out@.len() == i,
                forall|k: int|
                    0 <= k < entries@.len() ==> #[trigger] index_entries(&self.entries).contains_key(
                        entries@[k].key,
                    ) && index_entries(&self.entries)[entries@[k].key] == entries@[k].string_id,
                forall|k: int| 0 <= k < i ==> (#[trigger] out@[k]).0 == entries@[k].key,
                forall|k: int|
                    0 <= k < i ==> #[trigger] self@.contains_key(out@[k].0) && out@[k].1.spec_bytes()
                        == self@[out@[k].0],
            decreases entries@.len() - i,
        {
            let e = entries[i];
            assert(index_entries(&self.entries).contains_key(entries@[i as int].key));
            let value = self.string_values.get(e.string_id).unwrap();
            out.push((e.key, value));
            i = i + 1;
        }
        proof {
            assert forall|h: u64| #[trigger] self@.contains_key(h) implies exists|k: int|
                0 <= k < out@.len() && out@[k].0 == h by {
                assert(index_entries(&self.entries).contains_key(h));
                let k = choose|k: int| 0 <= k < entries@.len() && entries@[k].key == h;
                assert(out@[k].0 == h);
            }
        }
        out
    }
}

} // verus!
