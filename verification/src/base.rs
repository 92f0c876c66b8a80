//! The database store: the set of table names inside one database
//! directory, and the lifecycle of the tables it tracks.
//!
//! The directory is the source of truth for membership when a database is
//! opened; afterwards the in-memory set is authoritative and is mutated
//! incrementally by adding and dropping tables through this component.

use vstd::prelude::*;

use crate::codec::{table_decoding, table_encoding};
use crate::errors::DbError;
use crate::names::{
    file_name_view, lemma_stem_of_file_name, lemma_stem_view_inverse, stem_view, table_file_name,
    table_stem,
};
use crate::table::{spec_load, DbTable};
use crate::value::DbValueView;
use crate::volume::{lemma_listing_member, Disk};

verus! {

/// No name occurs twice.
pub open spec fn distinct_names(ts: Seq<Seq<char>>) -> bool {
    forall|i: int, j: int| 0 <= i < j < ts.len() ==> ts[i] != ts[j]
}

/// What adding table `n` does to the tracked set, given whether a file for
/// it is already on the volume: a tracked name is refused outright, an
/// orphaned file is refused without tracking anything.
pub open spec fn spec_add_table(
    tables: Seq<Seq<char>>,
    n: Seq<char>,
    file_present: bool,
) -> Result<Seq<Seq<char>>, DbError> {
    if tables.contains(n) {
        Err(DbError::TableAlreadyExists)
    } else if file_present {
        Err(DbError::AlreadyExists)
    } else {
        Ok(tables.push(n))
    }
}

/// One database: its name, the configured file suffix, and the tracked
/// table names.
#[derive(Debug, Clone)]
pub struct DbBase {
    name: String,
    ext: String,
    tables: Vec<String>,
}

impl DbBase {
    /// The database's name.
    pub closed spec fn db_name(self) -> Seq<char> {
        self.name@
    }

    /// The configured file suffix.
    pub closed spec fn db_ext(self) -> Seq<char> {
        self.ext@
    }

    /// The tracked table names, in tracking order.
    pub closed spec fn table_list(self) -> Seq<Seq<char>> {
        self.tables.deep_view()
    }

    /// Whether a table of this name is tracked.
    pub open spec fn tracks(self, n: Seq<char>) -> bool {
        self.table_list().contains(n)
    }

    /// The tracked set is well formed: no table name is tracked twice.
    pub closed spec fn wf(self) -> bool {
        distinct_names(self.table_list())
    }

    /// The database's name, as a fresh string.
    pub fn name(&self) -> (r: String)
        ensures
            r@ == self.db_name(),
    {
        self.name.clone()
    }

    /// The configured file suffix, as a fresh string.
    pub fn extension(&self) -> (r: String)
        ensures
            r@ == self.db_ext(),
    {
        self.ext.clone()
    }

    /// The tracked table names, as fresh strings.
    #[verifier::loop_isolation(false)]
    pub fn table_names(&self) -> (r: Vec<String>)
        ensures
            r.deep_view() == self.table_list(),
    {
        let mut out: Vec<String> = Vec::new();
        let mut i: usize = 0;
        while i < self.tables.len()
            invariant
                i <= self.tables@.len(),
                out.deep_view() == self.table_list().subrange(0, i as int),
            decreases self.tables@.len() - i,
        {
            let n = self.tables[i].clone();
            out.push(n);
            proof {
                assert(out.deep_view() =~= self.table_list().subrange(0, i + 1));
            }
            i = i + 1;
        }
        proof {
            assert(self.table_list().subrange(0, self.table_list().len() as int)
                =~= self.table_list());
        }
        out
    }

    /// Makes a database whose directory does not yet exist: creates the
    /// directory and returns a store tracking no tables.
    pub fn new(disk: &mut Disk, name: String, ext: String) -> (r: Result<DbBase, DbError>)
        requires
            old(disk).wf(),
        ensures
            final(disk).wf(),
            r is Err <==> old(disk).has_dir_named(name@),
            r matches Err(e) ==> e == DbError::AlreadyExists && *final(disk) == *old(disk),
            r matches Ok(db) ==> {
                &&& db.wf()
                &&& db.db_name() == name@
                &&& db.db_ext() == ext@
                &&& db.table_list() == Seq::<Seq<char>>::empty()
                &&& final(disk).dir_list() == old(disk).dir_list().push(name@)
                &&& final(disk).has_dir_named(name@)
                &&& final(disk).file_map() == old(disk).file_map()
                &&& final(disk).listing(name@) == Seq::<Seq<char>>::empty()
            },
    {
        if disk.has_dir(&name) {
            return Err(DbError::AlreadyExists);
        }
        disk.create_dir(name.clone());
        let db = DbBase { name, ext, tables: Vec::new() };
        proof {
            assert(db.table_list() =~= Seq::<Seq<char>>::empty());
            assert(disk.dir_list().last() == name@);
        }
        Ok(db)
    }

    /// Opens a database whose directory exists: derives the tracked set from
    /// the directory's listing, one table per file that carries the suffix.
    #[verifier::loop_isolation(false)]
    pub fn from_name(disk: &Disk, name: String, ext: String) -> (r: Result<DbBase, DbError>)
        ensures
            r is Err <==> !disk.has_dir_named(name@),
            r matches Err(e) ==> e == DbError::NotFound,
            r matches Ok(db) ==> {
                &&& db.wf()
                &&& db.db_name() == name@
                &&& db.db_ext() == ext@
                &&& forall|t: Seq<char>| db.tracks(t) <==> disk.file_map().contains_key(
                    (name@, file_name_view(t, ext@)),
                )
            },
    {
        if !disk.has_dir(&name) {
            return Err(DbError::NotFound);
        }
        let files = disk.list_dir(&name);
        let mut tables: Vec<String> = Vec::new();
        let mut i: usize = 0;
        while i < files.len()
            invariant
                i <= files@.len(),
                files.deep_view() == disk.listing(name@),
                distinct_names(tables.deep_view()),
                forall|t: Seq<char>| tables.deep_view().contains(t) <==> exists|j: int|
                    0 <= j < i && stem_view(files.deep_view()[j], ext@) == Some(t),
            decreases files@.len() - i,
        {
            let ghost pre = tables.deep_view();
            match table_stem(&files[i], &ext) {
                Some(s) => {
                    if !contains_name(&tables, &s) {
                        tables.push(s);
                        proof {
                            assert(tables.deep_view() =~= pre.push(s@));
                            assert forall|t: Seq<char>| tables.deep_view().contains(t)
                                implies exists|j: int|
                                    0 <= j < i + 1 && stem_view(files.deep_view()[j], ext@)
                                        == Some(t) by {
                                let j = choose|j: int|
                                    0 <= j < pre.push(s@).len() && pre.push(s@)[j] == t;
                                if j < pre.len() {
                                    assert(pre.contains(t));
                                } else {
                                    assert(stem_view(files.deep_view()[i as int], ext@)
                                        == Some(t));
                                }
                            }
                            assert forall|t: Seq<char>|
                                exists|j: int|
                                    0 <= j < i + 1 && stem_view(files.deep_view()[j], ext@)
                                        == Some(t)
                                implies tables.deep_view().contains(t) by {
                                let j = choose|j: int|
                                    0 <= j < i + 1 && stem_view(files.deep_view()[j], ext@)
                                        == Some(t);
                                if j < i {
                                    assert(pre.contains(t));
                                    let m = choose|m: int| 0 <= m < pre.len() && pre[m] == t;
                                    assert(tables.deep_view()[m] == t);
                                } else {
                                    assert(t == s@);
                                    assert(tables.deep_view()[pre.len() as int] == t);
                                }
                            }
                        }
                    } else {
                        proof {
                            assert forall|t: Seq<char>|
                                exists|j: int|
                                    0 <= j < i + 1 && stem_view(files.deep_view()[j], ext@)
                                        == Some(t)
                                implies tables.deep_view().contains(t) by {
                                let j = choose|j: int|
                                    0 <= j < i + 1 && stem_view(files.deep_view()[j], ext@)
                                        == Some(t);
                                if j == i {
                                    assert(t == s@);
                                }
                            }
                        }
                    }
                },
                None => {
                    proof {
                        assert forall|t: Seq<char>|
                            exists|j: int|
                                0 <= j < i + 1 && stem_view(files.deep_view()[j], ext@)
                                    == Some(t)
                            implies tables.deep_view().contains(t) by {
                            let j = choose|j: int|
                                0 <= j < i + 1 && stem_view(files.deep_view()[j], ext@)
                                    == Some(t);
                            assert(j < i);
                        }
                    }
                },
            }
            i = i + 1;
        }
        let db = DbBase { name, ext, tables };
        proof {
            assert forall|t: Seq<char>| db.tracks(t) <==> disk.file_map().contains_key(
                (db.db_name(), file_name_view(t, db.db_ext())),
            ) by {
                if db.tracks(t) {
                    let j = choose|j: int|
                        0 <= j < files.deep_view().len() && stem_view(
                            files.deep_view()[j],
                            db.db_ext(),
                        ) == Some(t);
                    lemma_stem_view_inverse(files.deep_view()[j], db.db_ext(), t);
                    assert(disk.listing(db.db_name()).contains(file_name_view(t, db.db_ext())));
                    lemma_listing_member(
                        *disk,
                        db.db_name(),
                        file_name_view(t, db.db_ext()),
                    );
                }
                if disk.file_map().contains_key((db.db_name(), file_name_view(t, db.db_ext()))) {
                    lemma_listing_member(
                        *disk,
                        db.db_name(),
                        file_name_view(t, db.db_ext()),
                    );
                    let f = file_name_view(t, db.db_ext());
                    let j = choose|j: int|
                        0 <= j < disk.listing(db.db_name()).len() && disk.listing(
                            db.db_name(),
                        )[j] == f;
                    lemma_stem_of_file_name(t, db.db_ext());
                    assert(stem_view(files.deep_view()[j], db.db_ext()) == Some(t));
                }
            }
        }
        Ok(db)
    }

    /// Opens the database if its directory exists, and creates it otherwise;
    /// this never fails for either reason alone. The store it was called on
    /// is discarded.
    pub fn from_name_or_new(self, disk: &mut Disk, name: String, ext: String) -> (r: DbBase)
        requires
            old(disk).wf(),
        ensures
            final(disk).wf(),
            r.wf(),
            r.db_name() == name@,
            r.db_ext() == ext@,
            old(disk).has_dir_named(name@) ==> {
                &&& *final(disk) == *old(disk)
                &&& forall|t: Seq<char>| r.tracks(t) <==> old(disk).file_map().contains_key(
                    (name@, file_name_view(t, ext@)),
                )
            },
            !old(disk).has_dir_named(name@) ==> {
                &&& final(disk).dir_list() == old(disk).dir_list().push(name@)
                &&& final(disk).file_map() == old(disk).file_map()
                &&& r.table_list() == Seq::<Seq<char>>::empty()
            },
            final(disk).has_dir_named(name@),
    {
        if disk.has_dir(&name) {
            match DbBase::from_name(disk, name, ext) {
                Ok(db) => db,
                Err(_) => {
                    proof {
                        assert(false);
                    }
                    DbBase { name: String::new(), ext: String::new(), tables: Vec::new() }
                },
            }
        } else {
            disk.create_dir(name.clone());
            let db = DbBase { name, ext, tables: Vec::new() };
            proof {
                assert(db.table_list() =~= Seq::<Seq<char>>::empty());
                assert(disk.dir_list().last() == name@);
            }
            db
        }
    }

    /// Starts tracking a new table: creates its backing file with an empty
    /// mapping and appends its name to the tracked set. Either both happen
    /// or, on failure, neither.
    pub fn add_table(&mut self, disk: &mut Disk, name: String) -> (r: Result<DbTable, DbError>)
        requires
            old(self).wf(),
            old(disk).wf(),
            old(disk).has_dir_named(old(self).db_name()),
        ensures
            final(self).db_name() == old(self).db_name(),
            final(self).db_ext() == old(self).db_ext(),
            final(self).wf(),
            final(disk).wf(),
            final(disk).dir_list() == old(disk).dir_list(),
            ({
                let fkey = (old(self).db_name(), file_name_view(name@, old(self).db_ext()));
                match spec_add_table(
                    old(self).table_list(),
                    name@,
                    old(disk).file_map().contains_key(fkey),
                ) {
                    Ok(ts) => {
                        &&& (r matches Ok(t) && {
                            &&& t.wf()
                            &&& t.model() == Map::<Seq<char>, DbValueView>::empty()
                            &&& t.table_name() == name@
                            &&& t.parent_db() == old(self).db_name()
                            &&& t.file_ext() == old(self).db_ext()
                        })
                        &&& final(self).table_list() == ts
                        &&& final(disk).file_map() == old(disk).file_map().insert(
                            fkey,
                            table_encoding(Map::<Seq<char>, DbValueView>::empty()),
                        )
                        &&& table_decoding(
                            table_encoding(Map::<Seq<char>, DbValueView>::empty()),
                        ) == Some(Map::<Seq<char>, DbValueView>::empty())
                    },
                    Err(e) => {
                        &&& (r matches Err(re) && re == e)
                        &&& *final(self) == *old(self)
                        &&& *final(disk) == *old(disk)
                    },
                }
            }),
    {
        if contains_name(&self.tables, &name) {
            return Err(DbError::TableAlreadyExists);
        }
        match DbTable::new(name.clone(), &*self, disk) {
            Err(e) => Err(e),
            Ok(tab) => {
                let ghost pre = self.tables.deep_view();
                self.tables.push(name);
                proof {
                    assert(self.tables.deep_view() =~= pre.push(tab.table_name()));
                }
                Ok(tab)
            },
        }
    }

    /// Stops tracking a table: deletes its backing file and takes its name
    /// out of the tracked set. Dropping an untracked name changes nothing.
    pub fn drop_table(&mut self, disk: &mut Disk, name: String) -> (r: Result<(), DbError>)
        requires
            old(self).wf(),
            old(disk).wf(),
        ensures
            final(self).db_name() == old(self).db_name(),
            final(self).db_ext() == old(self).db_ext(),
            final(self).wf(),
            final(disk).wf(),
            final(disk).dir_list() == old(disk).dir_list(),
            !old(self).tracks(name@) ==> {
                &&& r == Err::<(), DbError>(DbError::TableNotFound)
                &&& *final(self) == *old(self)
                &&& *final(disk) == *old(disk)
            },
            old(self).tracks(name@) ==> {
                &&& r is Ok
                &&& final(disk).file_map() == old(disk).file_map().remove(
                    (old(self).db_name(), file_name_view(name@, old(self).db_ext())),
                )
                &&& forall|t: Seq<char>| final(self).tracks(t) <==> (old(self).tracks(t) && t
                    != name@)
            },
    {
        match find_name(&self.tables, &name) {
            None => Err(DbError::TableNotFound),
            Some(i) => {
                let fname = table_file_name(&name, &self.ext);
                disk.remove_file(&self.name, &fname);
                proof {
                    lemma_distinct_remove(self.tables.deep_view(), i as int);
                    assert(forall|j: int| 0 <= j < i ==> self.tables@.remove(i as int)[j]
                        == self.tables@[j]);
                    assert(forall|j: int| i <= j < self.tables@.len() - 1
                        ==> self.tables@.remove(i as int)[j] == self.tables@[j + 1]);
                }
                let ghost pre = self.tables.deep_view();
                self.tables.remove(i);
                proof {
                    assert(self.tables.deep_view() =~= pre.remove(i as int));
                }
                Ok(())
            },
        }
    }

    /// Fetches a tracked table, always by a fresh read of its backing file:
    /// outside edits to the file are visible on every call.
    pub fn get_table(&self, disk: &Disk, name: String) -> (r: Result<DbTable, DbError>)
        ensures
            !self.tracks(name@) ==> r == Err::<DbTable, DbError>(DbError::TableNotFound),
            self.tracks(name@) ==> ({
                let fkey = (self.db_name(), file_name_view(name@, self.db_ext()));
                &&& (!disk.file_map().contains_key(fkey) ==> r == Err::<DbTable, DbError>(
                    DbError::NotFound,
                ))
                &&& (disk.file_map().contains_key(fkey) ==> match spec_load(
                    disk.file_map()[fkey],
                ) {
                    Ok(m) => r matches Ok(t) && {
                        &&& t.wf()
                        &&& t.model() == m
                        &&& t.table_name() == name@
                        &&& t.parent_db() == self.db_name()
                        &&& t.file_ext() == self.db_ext()
                    },
                    Err(e) => r == Err::<DbTable, DbError>(e),
                })
            }),
    {
        match find_name(&self.tables, &name) {
            None => Err(DbError::TableNotFound),
            Some(_) => DbTable::get_table(name, self.name.clone(), self.ext.clone(), disk),
        }
    }
}

/// Whether the list holds this name.
#[verifier::loop_isolation(false)]
fn contains_name(v: &Vec<String>, s: &String) -> (r: bool)
    ensures
        r == v.deep_view().contains(s@),
{
    let mut i: usize = 0;
    while i < v.len()
        invariant
            i <= v@.len(),
            forall|j: int| 0 <= j < i ==> v.deep_view()[j] != s@,
        decreases v@.len() - i,
    {
        if v[i] == *s {
            proof {
                assert(v.deep_view()[i as int] == s@);
            }
            return true;
        }
        i = i + 1;
    }
    false
}

/// The index at which the list holds this name, if any.
#[verifier::loop_isolation(false)]
fn find_name(v: &Vec<String>, s: &String) -> (r: Option<usize>)
    ensures
        r matches Some(i) ==> 0 <= i < v.deep_view().len() && v.deep_view()[i as int] == s@,
        r is None ==> !v.deep_view().contains(s@),
{
    let mut i: usize = 0;
    while i < v.len()
        invariant
            i <= v@.len(),
            forall|j: int| 0 <= j < i ==> v.deep_view()[j] != s@,
        decreases v@.len() - i,
    {
        if v[i] == *s {
            proof {
                assert(v.deep_view()[i as int] == s@);
            }
            return Some(i);
        }
        i = i + 1;
    }
    None
}

/// Taking one index out of a distinct name list removes exactly that name.
proof fn lemma_distinct_remove(ts: Seq<Seq<char>>, i: int)
    requires
        distinct_names(ts),
        0 <= i < ts.len(),
    ensures
        distinct_names(ts.remove(i)),
        forall|t: Seq<char>| ts.remove(i).contains(t) <==> (ts.contains(t) && t != ts[i]),
{
    assert(forall|j: int| 0 <= j < i ==> ts.remove(i)[j] == ts[j]);
    assert(forall|j: int| i <= j < ts.len() - 1 ==> ts.remove(i)[j] == ts[j + 1]);
    assert forall|t: Seq<char>| ts.remove(i).contains(t) <==> (ts.contains(t) && t != ts[i]) by {
        if ts.remove(i).contains(t) {
            let j = choose|j: int| 0 <= j < ts.remove(i).len() && ts.remove(i)[j] == t;
            if j < i {
                assert(ts[j] == t);
            } else {
                assert(ts[j + 1] == t);
            }
        }
        if ts.contains(t) && t != ts[i] {
            let j = choose|j: int| 0 <= j < ts.len() && ts[j] == t;
            if j < i {
                assert(ts.remove(i)[j] == t);
            } else {
                assert(ts.remove(i)[j - 1] == t);
            }
        }
    }
}

/// A table added under a fresh name reads back empty: the file the addition
/// writes decodes to the empty mapping, and a fetch of the table yields
/// exactly what that file decodes to.
pub proof fn lemma_added_table_loads_empty(content: Seq<char>)
    requires
        table_decoding(content) == Some(Map::<Seq<char>, DbValueView>::empty()),
    ensures
        spec_load(content) == Ok::<Map<Seq<char>, DbValueView>, DbError>(
            Map::<Seq<char>, DbValueView>::empty(),
        ),
{
}

} // verus!
