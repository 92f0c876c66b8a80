//! The table store: one table's key/value mapping, its in-memory cache, and
//! the synchronization of that cache with the table's backing file.
//!
//! Every mutation rewrites the whole backing file and then reloads it, so
//! that the cache is, on success, exactly the file's deserialized content.

use vstd::prelude::*;

use crate::base::DbBase;
use crate::codec::{
    column_fits_codec, decode_entries, encode_entries, entries_model, fits_codec, keys_distinct,
    table_decoding, table_encoding,
};
use crate::errors::DbError;
use crate::names::{file_name_view, table_file_name};
use crate::value::{DbValue, DbValueView};
use crate::volume::Disk;

verus! {

/// What a read of key `k` yields on a table mapping.
pub open spec fn spec_get(m: Map<Seq<char>, DbValueView>, k: Seq<char>) -> Result<
    DbValueView,
    DbError,
> {
    if m.contains_key(k) {
        Ok(m[k])
    } else {
        Err(DbError::KeyNotFound)
    }
}

/// What adding `k -> v` does to a table mapping: it never overwrites.
pub open spec fn spec_add(m: Map<Seq<char>, DbValueView>, k: Seq<char>, v: DbValueView) -> Result<
    Map<Seq<char>, DbValueView>,
    DbError,
> {
    if m.contains_key(k) {
        Err(DbError::KeyAlreadyExists)
    } else {
        Ok(m.insert(k, v))
    }
}

/// What updating `k -> v` does to a table mapping: it only overwrites.
pub open spec fn spec_update(m: Map<Seq<char>, DbValueView>, k: Seq<char>, v: DbValueView) -> Result<
    Map<Seq<char>, DbValueView>,
    DbError,
> {
    if m.contains_key(k) {
        Ok(m.insert(k, v))
    } else {
        Err(DbError::KeyNotFound)
    }
}

/// What removing `k` does to a table mapping.
pub open spec fn spec_remove(m: Map<Seq<char>, DbValueView>, k: Seq<char>) -> Result<
    Map<Seq<char>, DbValueView>,
    DbError,
> {
    if m.contains_key(k) {
        Ok(m.remove(k))
    } else {
        Err(DbError::KeyNotFound)
    }
}

/// What loading a table file with the given content yields: the mapping the
/// content decodes to, or a corrupt-data failure.
pub open spec fn spec_load(text: Seq<char>) -> Result<Map<Seq<char>, DbValueView>, DbError> {
    match table_decoding(text) {
        Some(m) => Ok(m),
        None => Err(DbError::CorruptData),
    }
}

/// One table: its name, the database it belongs to, the configured file
/// suffix, and the cached key and value columns.
#[derive(Debug, Clone)]
pub struct DbTable {
    name: String,
    parent_name: String,
    ext: String,
    keys: Vec<String>,
    vals: Vec<DbValue>,
}

impl DbTable {
    /// The table's name.
    pub closed spec fn table_name(self) -> Seq<char> {
        self.name@
    }

    /// The name of the database the table belongs to.
    pub closed spec fn parent_db(self) -> Seq<char> {
        self.parent_name@
    }

    /// The configured file suffix.
    pub closed spec fn file_ext(self) -> Seq<char> {
        self.ext@
    }

    /// The cached mapping from key to value shape.
    pub closed spec fn model(self) -> Map<Seq<char>, DbValueView> {
        entries_model(self.keys@, self.vals@)
    }

    /// The (directory, file name) pair of the table's backing file.
    pub open spec fn file_key(self) -> (Seq<char>, Seq<char>) {
        (self.parent_db(), file_name_view(self.table_name(), self.file_ext()))
    }

    /// The cached key column, in cache order.
    pub closed spec fn key_list(self) -> Seq<Seq<char>> {
        self.keys.deep_view()
    }

    /// The cache is well formed: one value per key, each key held once,
    /// every value within the codec's nesting bound.
    pub closed spec fn wf(self) -> bool {
        &&& self.keys@.len() == self.vals@.len()
        &&& keys_distinct(self.keys@)
        &&& column_fits_codec(self.vals@)
    }

    /// On a well-formed cache, the key column holds a key exactly when the
    /// mapping binds it.
    pub proof fn lemma_keys_match_model(self, k: Seq<char>)
        requires
            self.wf(),
        ensures
            self.key_list().contains(k) <==> self.model().contains_key(k),
    {
        lemma_entries_member(self.keys@, self.vals@, k);
        assert(forall|i: int| 0 <= i < self.keys@.len()
            ==> self.key_list()[i] == self.keys@[i]@);
        if self.key_list().contains(k) {
            let i = choose|i: int| 0 <= i < self.key_list().len() && self.key_list()[i] == k;
            assert(self.keys@[i]@ == k);
        }
        if self.model().contains_key(k) {
            let i = choose|i: int| 0 <= i < self.keys@.len() && self.keys@[i]@ == k;
            assert(self.key_list()[i] == k);
        }
    }

    /// The table's name, as a fresh string.
    pub fn name(&self) -> (r: String)
        ensures
            r@ == self.table_name(),
    {
        self.name.clone()
    }

    /// The cached keys, as fresh strings.
    #[verifier::loop_isolation(false)]
    pub fn key_names(&self) -> (r: Vec<String>)
        ensures
            r.deep_view() == self.key_list(),
    {
        let mut out: Vec<String> = Vec::new();
        let mut i: usize = 0;
        while i < self.keys.len()
            invariant
                i <= self.keys@.len(),
                out.deep_view() == self.key_list().subrange(0, i as int),
            decreases self.keys@.len() - i,
        {
            let n = self.keys[i].clone();
            out.push(n);
            proof {
                assert(out.deep_view() =~= self.key_list().subrange(0, i + 1));
            }
            i = i + 1;
        }
        proof {
            assert(self.key_list().subrange(0, self.key_list().len() as int)
                =~= self.key_list());
        }
        out
    }

    /// The volume still holds the directory of the table's database.
    pub open spec fn attached(self, disk: Disk) -> bool {
        disk.has_dir_named(self.parent_db())
    }

    /// The index at which the cache holds `key`, if any.
    #[verifier::loop_isolation(false)]
    fn find_key(&self, key: &String) -> (r: Option<usize>)
        ensures
            r matches Some(i) ==> 0 <= i < self.keys@.len() && self.keys@[i as int]@ == key@,
            r is None ==> forall|j: int| 0 <= j < self.keys@.len() ==> self.keys@[j]@ != key@,
    {
        let mut i: usize = 0;
        while i < self.keys.len()
            invariant
                i <= self.keys@.len(),
                forall|j: int| 0 <= j < i ==> self.keys@[j]@ != key@,
            decreases self.keys@.len() - i,
        {
            if self.keys[i] == *key {
                return Some(i);
            }
            i = i + 1;
        }
        None
    }

    /// Makes a table that does not yet have a backing file: writes an empty
    /// mapping to the new file and returns the loaded instance.
    pub fn new(name: String, base: &DbBase, disk: &mut Disk) -> (r: Result<DbTable, DbError>)
        requires
            old(disk).wf(),
            old(disk).has_dir_named(base.db_name()),
        ensures
            final(disk).wf(),
            final(disk).dir_list() == old(disk).dir_list(),
            ({
                let fkey = (base.db_name(), file_name_view(name@, base.db_ext()));
                &&& (old(disk).file_map().contains_key(fkey) ==> {
                    &&& r == Err::<DbTable, DbError>(DbError::AlreadyExists)
                    &&& *final(disk) == *old(disk)
                })
                &&& (!old(disk).file_map().contains_key(fkey) ==> {
                    &&& (r matches Ok(t) && {
                        &&& t.wf()
                        &&& t.model() == Map::<Seq<char>, DbValueView>::empty()
                        &&& t.table_name() == name@
                        &&& t.parent_db() == base.db_name()
                        &&& t.file_ext() == base.db_ext()
                    })
                    &&& final(disk).file_map() == old(disk).file_map().insert(
                        fkey,
                        table_encoding(Map::<Seq<char>, DbValueView>::empty()),
                    )
                    &&& table_decoding(table_encoding(Map::<Seq<char>, DbValueView>::empty()))
                        == Some(Map::<Seq<char>, DbValueView>::empty())
                })
            }),
    {
        let parent = base.name();
        let ext = base.extension();
        let fname = table_file_name(&name, &ext);
        if disk.has_file(&parent, &fname) {
            return Err(DbError::AlreadyExists);
        }
        let empty_keys: Vec<String> = Vec::new();
        let empty_vals: Vec<DbValue> = Vec::new();
        let content = encode_entries(&empty_keys, &empty_vals);
        disk.write_file(&parent, &fname, content);
        match Self::get_table(name, parent, ext, disk) {
            Ok(t) => Ok(t),
            Err(e) => {
                proof {
                    assert(false);
                }
                Err(e)
            },
        }
    }

    /// Loads a table from its backing file: a fresh read of the file,
    /// deserialized into a new instance.
    pub fn get_table(name: String, base_name: String, ext: String, disk: &Disk) -> (r: Result<
        DbTable,
        DbError,
    >)
        ensures
            ({
                let fkey = (base_name@, file_name_view(name@, ext@));
                &&& (!disk.file_map().contains_key(fkey) ==> r == Err::<DbTable, DbError>(
                    DbError::NotFound,
                ))
                &&& (disk.file_map().contains_key(fkey) ==> match spec_load(
                    disk.file_map()[fkey],
                ) {
                    Ok(m) => r matches Ok(t) && {
                        &&& t.wf()
                        &&& t.model() == m
                        &&& t.table_name() == name@
                        &&& t.parent_db() == base_name@
                        &&& t.file_ext() == ext@
                    },
                    Err(e) => r == Err::<DbTable, DbError>(e),
                })
            }),
    {
        let fname = table_file_name(&name, &ext);
        match disk.read_file(&base_name, &fname) {
            None => Err(DbError::NotFound),
            Some(text) => match decode_entries(text.as_str()) {
                None => Err(DbError::CorruptData),
                Some(kv) => Ok(
                    DbTable {
                        name,
                        parent_name: base_name,
                        ext,
                        keys: kv.0,
                        vals: kv.1,
                    },
                ),
            },
        }
    }

    /// Reads the value stored under `key`. A pure read: nothing changes.
    pub fn get(&self, key: &String) -> (r: Result<DbValue, DbError>)
        requires
            self.wf(),
        ensures
            match spec_get(self.model(), key@) {
                Ok(v) => r matches Ok(rv) && rv.model() == v,
                Err(e) => r matches Err(re) && re == e,
            },
    {
        proof {
            lemma_entries_member(self.keys@, self.vals@, key@);
        }
        match self.find_key(key) {
            Some(i) => {
                proof {
                    lemma_entries_value(self.keys@, self.vals@, i as int);
                }
                Ok(self.vals[i].clone())
            },
            None => Err(DbError::KeyNotFound),
        }
    }

    /// Serializes the current columns, overwrites the backing file, and
    /// reloads the cache from what was written: the read-after-write keeps
    /// the cache exactly the file's deserialized content.
    fn rewrite(&mut self, disk: &mut Disk)
        requires
            old(self).keys@.len() == old(self).vals@.len(),
            column_fits_codec(old(self).vals@),
            old(disk).wf(),
            old(self).attached(*old(disk)),
        ensures
            final(self).wf(),
            final(self).model() == entries_model(old(self).keys@, old(self).vals@),
            final(self).table_name() == old(self).table_name(),
            final(self).parent_db() == old(self).parent_db(),
            final(self).file_ext() == old(self).file_ext(),
            final(disk).wf(),
            final(disk).dir_list() == old(disk).dir_list(),
            final(disk).file_map() == old(disk).file_map().insert(
                old(self).file_key(),
                table_encoding(entries_model(old(self).keys@, old(self).vals@)),
            ),
            table_decoding(table_encoding(entries_model(old(self).keys@, old(self).vals@)))
                == Some(entries_model(old(self).keys@, old(self).vals@)),
    {
        let content = encode_entries(&self.keys, &self.vals);
        let fname = table_file_name(&self.name, &self.ext);
        disk.write_file(&self.parent_name, &fname, content);
        match disk.read_file(&self.parent_name, &fname) {
            Some(text) => match decode_entries(text.as_str()) {
                Some(kv) => {
                    self.keys = kv.0;
                    self.vals = kv.1;
                },
                None => {
                    proof {
                        assert(false);
                    }
                },
            },
            None => {
                proof {
                    assert(false);
                }
            },
        }
    }

    /// Inserts a pair under a key not yet present, and persists the table
    /// before returning success; a present key is never overwritten. A value
    /// nested beyond what the codec reads back is left out by contract.
    pub fn add(&mut self, disk: &mut Disk, key: String, value: DbValue) -> (r: Result<
        (),
        DbError,
    >)
        requires
            old(self).wf(),
            old(disk).wf(),
            old(self).attached(*old(disk)),
            fits_codec(value),
        ensures
            final(self).wf(),
            final(disk).wf(),
            final(self).table_name() == old(self).table_name(),
            final(self).parent_db() == old(self).parent_db(),
            final(self).file_ext() == old(self).file_ext(),
            final(disk).dir_list() == old(disk).dir_list(),
            match spec_add(old(self).model(), key@, value.model()) {
                Ok(m2) => {
                    &&& r is Ok
                    &&& final(self).model() == m2
                    &&& final(disk).file_map() == old(disk).file_map().insert(
                        old(self).file_key(),
                        table_encoding(m2),
                    )
                    &&& table_decoding(table_encoding(m2)) == Some(m2)
                },
                Err(e) => {
                    &&& r == Err::<(), DbError>(e)
                    &&& *final(self) == *old(self)
                    &&& *final(disk) == *old(disk)
                },
            },
    {
        proof {
            lemma_entries_member(self.keys@, self.vals@, key@);
        }
        match self.find_key(&key) {
            Some(_) => Err(DbError::KeyAlreadyExists),
            None => {
                proof {
                    lemma_entries_push(self.keys@, self.vals@, key, value);
                }
                self.keys.push(key);
                self.vals.push(value);
                proof {
                    assert(column_fits_codec(self.vals@)) by {
                        assert(forall|j: int|
                            0 <= j < self.vals@.len() - 1
                                ==> self.vals@[j] == old(self).vals@[j]);
                        assert(self.vals@.last() == value);
                    }
                }
                self.rewrite(disk);
                Ok(())
            },
        }
    }

    /// Replaces the value under a key already present, and persists the
    /// table before returning success. A value nested beyond what the codec
    /// reads back is left out by contract.
    pub fn update(&mut self, disk: &mut Disk, key: String, value: DbValue) -> (r: Result<
        (),
        DbError,
    >)
        requires
            old(self).wf(),
            old(disk).wf(),
            old(self).attached(*old(disk)),
            fits_codec(value),
        ensures
            final(self).wf(),
            final(disk).wf(),
            final(self).table_name() == old(self).table_name(),
            final(self).parent_db() == old(self).parent_db(),
            final(self).file_ext() == old(self).file_ext(),
            final(disk).dir_list() == old(disk).dir_list(),
            match spec_update(old(self).model(), key@, value.model()) {
                Ok(m2) => {
                    &&& r is Ok
                    &&& final(self).model() == m2
                    &&& final(disk).file_map() == old(disk).file_map().insert(
                        old(self).file_key(),
                        table_encoding(m2),
                    )
                    &&& table_decoding(table_encoding(m2)) == Some(m2)
                },
                Err(e) => {
                    &&& r == Err::<(), DbError>(e)
                    &&& *final(self) == *old(self)
                    &&& *final(disk) == *old(disk)
                },
            },
    {
        proof {
            lemma_entries_member(self.keys@, self.vals@, key@);
        }
        match self.find_key(&key) {
            None => Err(DbError::KeyNotFound),
            Some(i) => {
                proof {
                    lemma_entries_remove_at(self.keys@, self.vals@, i as int);
                }
                self.keys.remove(i);
                self.vals.remove(i);
                proof {
                    lemma_entries_push(self.keys@, self.vals@, key, value);
                    assert(forall|j: int|
                        0 <= j < self.vals@.len()
                            ==> self.vals@[j] == old(self).vals@.remove(i as int)[j]);
                }
                self.keys.push(key);
                self.vals.push(value);
                proof {
                    assert(entries_model(self.keys@, self.vals@)
                        =~= old(self).model().insert(key@, value.model()));
                    assert(column_fits_codec(self.vals@)) by {
                        assert(forall|j: int| 0 <= j < i ==> old(self).vals@.remove(i as int)[j]
                            == old(self).vals@[j]);
                        assert(forall|j: int|
                            i <= j < old(self).vals@.len() - 1
                                ==> old(self).vals@.remove(i as int)[j] == old(self).vals@[j + 1]);
                        assert(forall|j: int|
                            0 <= j < self.vals@.len() - 1
                                ==> self.vals@[j] == old(self).vals@.remove(i as int)[j]);
                        assert(self.vals@.last() == value);
                    }
                }
                self.rewrite(disk);
                Ok(())
            },
        }
    }

    /// Deletes a key and its value, pruning the key column too, and persists
    /// the table before returning success.
    pub fn remove(&mut self, disk: &mut Disk, key: String) -> (r: Result<(), DbError>)
        requires
            old(self).wf(),
            old(disk).wf(),
            old(self).attached(*old(disk)),
        ensures
            final(self).wf(),
            final(disk).wf(),
            final(self).table_name() == old(self).table_name(),
            final(self).parent_db() == old(self).parent_db(),
            final(self).file_ext() == old(self).file_ext(),
            final(disk).dir_list() == old(disk).dir_list(),
            match spec_remove(old(self).model(), key@) {
                Ok(m2) => {
                    &&& r is Ok
                    &&& final(self).model() == m2
                    &&& final(disk).file_map() == old(disk).file_map().insert(
                        old(self).file_key(),
                        table_encoding(m2),
                    )
                    &&& table_decoding(table_encoding(m2)) == Some(m2)
                },
                Err(e) => {
                    &&& r == Err::<(), DbError>(e)
                    &&& *final(self) == *old(self)
                    &&& *final(disk) == *old(disk)
                },
            },
    {
        proof {
            lemma_entries_member(self.keys@, self.vals@, key@);
        }
        match self.find_key(&key) {
            None => Err(DbError::KeyNotFound),
            Some(i) => {
                proof {
                    lemma_entries_remove_at(self.keys@, self.vals@, i as int);
                }
                self.keys.remove(i);
                self.vals.remove(i);
                proof {
                    assert(column_fits_codec(self.vals@)) by {
                        assert(forall|j: int| 0 <= j < i
                            ==> self.vals@[j] == old(self).vals@[j]);
                        assert(forall|j: int|
                            i <= j < old(self).vals@.len() - 1
                                ==> self.vals@[j] == old(self).vals@[j + 1]);
                    }
                }
                self.rewrite(disk);
                Ok(())
            },
        }
    }
}

/// A mapping holds a key exactly when the key column holds it.
proof fn lemma_entries_member(keys: Seq<String>, vals: Seq<DbValue>, k: Seq<char>)
    requires
        keys.len() == vals.len(),
    ensures
        entries_model(keys, vals).contains_key(k) <==> exists|i: int|
            0 <= i < keys.len() && keys[i]@ == k,
    decreases keys,
{
    if keys.len() > 0 {
        lemma_entries_member(keys.drop_last(), vals.drop_last(), k);
        assert(forall|i: int| 0 <= i < keys.len() - 1 ==> keys.drop_last()[i] == keys[i]);
        if keys.last()@ == k {
            assert(keys[keys.len() - 1]@ == k);
        }
        if exists|i: int| 0 <= i < keys.len() && keys[i]@ == k {
            let i = choose|i: int| 0 <= i < keys.len() && keys[i]@ == k;
            if i < keys.len() - 1 {
                assert(keys.drop_last()[i]@ == k);
            }
        }
    }
}

/// On a distinct key column, the mapping binds each key to its column value.
proof fn lemma_entries_value(keys: Seq<String>, vals: Seq<DbValue>, i: int)
    requires
        keys.len() == vals.len(),
        keys_distinct(keys),
        0 <= i < keys.len(),
    ensures
        entries_model(keys, vals).contains_key(keys[i]@),
        entries_model(keys, vals)[keys[i]@] == vals[i].model(),
    decreases keys,
{
    if i < keys.len() - 1 {
        assert(forall|j: int| 0 <= j < keys.len() - 1 ==> keys.drop_last()[j] == keys[j]);
        assert(forall|j: int| 0 <= j < vals.len() - 1 ==> vals.drop_last()[j] == vals[j]);
        assert(keys_distinct(keys.drop_last()));
        lemma_entries_value(keys.drop_last(), vals.drop_last(), i);
        assert(keys.last()@ != keys[i]@);
    }
}

/// Pushing a pair onto both columns inserts it into the mapping.
proof fn lemma_entries_push(keys: Seq<String>, vals: Seq<DbValue>, ks: String, v: DbValue)
    requires
        keys.len() == vals.len(),
    ensures
        entries_model(keys.push(ks), vals.push(v)) == entries_model(keys, vals).insert(
            ks@,
            v.model(),
        ),
{
    assert(keys.push(ks).drop_last() =~= keys);
    assert(vals.push(v).drop_last() =~= vals);
    assert(keys.push(ks).last() == ks);
    assert(vals.push(v).last() == v);
}

/// Taking index `i` out of both columns removes that key from the mapping.
proof fn lemma_entries_remove_at(keys: Seq<String>, vals: Seq<DbValue>, i: int)
    requires
        keys.len() == vals.len(),
        keys_distinct(keys),
        0 <= i < keys.len(),
    ensures
        keys.remove(i).len() == vals.remove(i).len(),
        keys_distinct(keys.remove(i)),
        entries_model(keys.remove(i), vals.remove(i)) == entries_model(keys, vals).remove(
            keys[i]@,
        ),
    decreases keys,
{
    let k = keys[i]@;
    assert(forall|j: int| 0 <= j < keys.len() - 1 ==> keys.drop_last()[j] == keys[j]);
    assert(forall|j: int| 0 <= j < vals.len() - 1 ==> vals.drop_last()[j] == vals[j]);
    assert(forall|j: int| 0 <= j < i ==> keys.remove(i)[j] == keys[j]);
    assert(forall|j: int| i <= j < keys.len() - 1 ==> keys.remove(i)[j] == keys[j + 1]);
    if i == keys.len() - 1 {
        assert(keys.remove(i) =~= keys.drop_last());
        assert(vals.remove(i) =~= vals.drop_last());
        lemma_entries_member(keys.drop_last(), vals.drop_last(), k);
        assert(!entries_model(keys.drop_last(), vals.drop_last()).contains_key(k));
        assert(entries_model(keys.remove(i), vals.remove(i)) =~= entries_model(
            keys,
            vals,
        ).remove(k));
    } else {
        assert(keys.remove(i).drop_last() =~= keys.drop_last().remove(i));
        assert(vals.remove(i).drop_last() =~= vals.drop_last().remove(i));
        assert(keys_distinct(keys.drop_last()));
        lemma_entries_remove_at(keys.drop_last(), vals.drop_last(), i);
        assert(keys.remove(i).last() == keys.last());
        assert(vals.remove(i).last() == vals.last());
        assert(keys.last()@ != k);
        assert(entries_model(keys.remove(i), vals.remove(i)) =~= entries_model(
            keys,
            vals,
        ).remove(k));
    }
}

/// Adding a fresh key and then reading it back yields exactly the added
/// value.
pub proof fn lemma_add_then_get(m: Map<Seq<char>, DbValueView>, k: Seq<char>, v: DbValueView)
    requires
        !m.contains_key(k),
    ensures
        spec_add(m, k, v) == Ok::<Map<Seq<char>, DbValueView>, DbError>(m.insert(k, v)),
        spec_get(m.insert(k, v), k) == Ok::<DbValueView, DbError>(v),
{
}

/// Adding a key already present fails with the key-exists error, and the
/// key still reads as the value it had.
pub proof fn lemma_add_present_rejected(m: Map<Seq<char>, DbValueView>, k: Seq<char>, v: DbValueView)
    requires
        m.contains_key(k),
    ensures
        spec_add(m, k, v) == Err::<Map<Seq<char>, DbValueView>, DbError>(DbError::KeyAlreadyExists),
        spec_get(m, k) == Ok::<DbValueView, DbError>(m[k]),
{
}

/// Updating an absent key fails with the key-not-found error.
pub proof fn lemma_update_absent_rejected(
    m: Map<Seq<char>, DbValueView>,
    k: Seq<char>,
    v: DbValueView,
)
    requires
        !m.contains_key(k),
    ensures
        spec_update(m, k, v) == Err::<Map<Seq<char>, DbValueView>, DbError>(DbError::KeyNotFound),
{
}

/// After a removal the key reads as absent.
pub proof fn lemma_remove_then_get(m: Map<Seq<char>, DbValueView>, k: Seq<char>)
    requires
        m.contains_key(k),
    ensures
        spec_remove(m, k) == Ok::<Map<Seq<char>, DbValueView>, DbError>(m.remove(k)),
        spec_get(m.remove(k), k) == Err::<DbValueView, DbError>(DbError::KeyNotFound),
{
}

/// Loading one content twice yields one mapping: what a load returns is a
/// function of the file content alone.
pub proof fn lemma_load_deterministic(
    text: Seq<char>,
    m1: Map<Seq<char>, DbValueView>,
    m2: Map<Seq<char>, DbValueView>,
)
    requires
        spec_load(text) == Ok::<Map<Seq<char>, DbValueView>, DbError>(m1),
        spec_load(text) == Ok::<Map<Seq<char>, DbValueView>, DbError>(m2),
    ensures
        m1 == m2,
{
}

} // verus!
