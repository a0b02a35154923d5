//! The two outside stores a locale table is made of: the string table that
//! interns values (lite_strtab) and the hash table of entries (hashbrown).
use vstd::prelude::*;
use vstd::string::StringSliceAdditionalSpecFns;

verus! {

/// One index entry: a key's hash and the identifier of its interned value.
#[derive(Clone, Copy, PartialEq, Eq, Structural)]
pub struct TableEntry {
    pub key: u64,
    pub string_id: u16,
}

impl TableEntry {
    /// Whether this entry is stored under `hash`.
    pub fn has_key(&self, hash: u64) -> (r: bool)
        ensures
            r == (self.key == hash),
    {
        self.key == hash
    }

    /// The hash this entry is stored under.
    pub fn key_of(&self) -> (r: u64)
        ensures
            r == self.key,
    {
        self.key
    }
}

/// The largest number of values one string table holds (identifiers are `u16`).
pub const MAX_STRINGS: usize = 65536;

/// The largest number of value bytes one string table holds (offsets are `u32`).
pub const MAX_BYTES: u64 = 4294967295;

/// Total number of bytes in a sequence of strings.
pub open spec fn total_len(strings: Seq<Seq<u8>>) -> int
    decreases strings.len(),
{
    if strings.len() == 0 {
        0
    } else {
        total_len(strings.drop_last()) + strings.last().len()
    }
}

/// Whether `v` can be appended to a string table holding `strings`.
pub open spec fn can_push(strings: Seq<Seq<u8>>, v: Seq<u8>) -> bool {
    strings.len() < MAX_STRINGS && total_len(strings) + v.len() <= MAX_BYTES
}

#[verifier::external_type_specification]
#[verifier::external_body]
pub struct ExStrtabError(lite_strtab::Error);

/// A string table under construction.
#[verifier::external_body]
pub struct ValueBuilder {
    inner: lite_strtab::StringTableBuilder<u32, u16>,
}

/// The strings a builder holds, as UTF-8 bytes, in push order.
pub uninterp spec fn builder_strings(b: &ValueBuilder) -> Seq<Seq<u8>>;

/// A frozen string table.
#[verifier::external_body]
pub struct ValueTable {
    inner: lite_strtab::StringTable<u32, u16>,
}

/// The strings a frozen table holds, as UTF-8 bytes, by identifier.
pub uninterp spec fn table_strings(t: &ValueTable) -> Seq<Seq<u8>>;

impl ValueBuilder {
    /// Relies on `lite_strtab::StringTableBuilder::new`: an empty builder.
    #[verifier::external_body]
    pub fn new() -> (r: ValueBuilder)
        ensures
            builder_strings(&r) == Seq::<Seq<u8>>::empty(),
    {
        ValueBuilder { inner: lite_strtab::StringTableBuilder::new() }
    }

    /// Relies on `lite_strtab::StringTableBuilder::try_push`: the next
    /// identifier is the count so far; it fails, changing nothing, when that
    /// count does not fit in `u16` or the bytes would not fit in `u32`.
    #[verifier::external_body]
    pub fn try_push(&mut self, value: &str) -> (r: Result<u16, lite_strtab::Error>)
        ensures
            r.is_ok() == can_push(builder_strings(old(self)), value.spec_bytes()),
            match r {
                Ok(id) => id as int == builder_strings(old(self)).len() && builder_strings(final(self))
                    == builder_strings(old(self)).push(value.spec_bytes()),
                Err(_) => builder_strings(final(self)) == builder_strings(old(self)),
            },
    {
        match self.inner.try_push(value) {
            Ok(id) => Ok(id.into_raw()),
            Err(e) => Err(e),
        }
    }

    /// Relies on `lite_strtab::StringTableBuilder::build`: the table holds the
    /// pushed strings under their identifiers.
    #[verifier::external_body]
    pub fn build(self) -> (r: ValueTable)
        ensures
            table_strings(&r) == builder_strings(&self),
    {
        ValueTable { inner: self.inner.build() }
    }
}

impl ValueTable {
    /// Relies on `lite_strtab::StringTable::get`: the string under `id`, if
    /// the table has one.
    #[verifier::external_body]
    pub fn get(&self, id: u16) -> (r: Option<&str>)
        ensures
            r.is_some() == ((id as int) < table_strings(self).len()),
            r matches Some(t) ==> t.spec_bytes() == table_strings(self)[id as int],
    {
        self.inner.get(lite_strtab::StringId::new(id))
    }
}

/// The write-once hash index of a table: entries keyed by their hash alone.
#[verifier::external_body]
pub struct HashIndex {
    table: hashbrown::HashTable<TableEntry>,
}

/// The entries an index holds, as a map from key hash to value identifier.
pub uninterp spec fn index_entries(i: &HashIndex) -> Map<u64, u16>;

/// `r` lists every entry of `m` exactly once.
pub open spec fn lists(m: Map<u64, u16>, r: Seq<TableEntry>) -> bool {
    &&& forall|i: int|
        0 <= i < r.len() ==> #[trigger] m.contains_key(r[i].key) && m[r[i].key] == r[i].string_id
    &&& forall|h: u64| #[trigger] m.contains_key(h) ==> exists|i: int| 0 <= i < r.len() && r[i].key == h
    &&& forall|i: int, j: int| 0 <= i < j < r.len() ==> r[i].key != r[j].key
}

impl HashIndex {
    /// Relies on `hashbrown::HashTable::new`: an empty table.
    #[verifier::external_body]
    pub fn new() -> (r: HashIndex)
        ensures
            index_entries(&r).dom() == Set::<u64>::empty(),
    {
        HashIndex { table: hashbrown::HashTable::new() }
    }

    /// Relies on `hashbrown::HashTable::find`: the entry stored under `hash`.
    #[verifier::external_body]
    pub fn find(&self, hash: u64) -> (r: Option<u16>)
        ensures
            r == (if index_entries(self).contains_key(hash) {
                Some(index_entries(self)[hash])
            } else {
                None::<u16>
            }),
    {
        self.table.find(hash, |e| e.has_key(hash)).map(|e| e.string_id)
    }

    /// Relies on `hashbrown::HashTable::insert_unique`: stores a new entry
    /// under a hash that the table does not hold yet.
    #[verifier::external_body]
    pub fn insert_unique(&mut self, hash: u64, id: u16)
        requires
            !index_entries(old(self)).contains_key(hash),
        ensures
            index_entries(final(self)) == index_entries(old(self)).insert(hash, id),
    {
        self.table.insert_unique(hash, TableEntry { key: hash, string_id: id }, |e| e.key_of());
    }

    /// Relies on `hashbrown::HashTable::iter`: every entry once, in the
    /// table's own order.
    #[verifier::external_body]
    pub fn entries(&self) -> (r: Vec<TableEntry>)
        ensures
            lists(index_entries(self), r@),
    {
        self.table.iter().copied().collect()
    }
}

} // verus!
