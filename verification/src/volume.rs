//! An in-memory model of the backing volume.
//!
//! The engine works against a `Disk`: the directories present and, inside
//! them, the files with their text content. A caller that wants real
//! persistence mirrors one `Disk` onto a real directory tree — it rebuilds
//! the value from the tree when it starts and replays every mutation onto
//! the tree. The engine's contracts then say exactly which directories and
//! files each operation touches, and that nothing else changes.

use vstd::prelude::*;

verus! {

/// One file: the directory it sits in, its name, and its whole content.
type FileEntry = (String, String, String);

/// The mapping from (directory, file name) to content that a file list
/// denotes; a later entry for the same file overrides an earlier one.
spec fn files_model(fs: Seq<FileEntry>) -> Map<(Seq<char>, Seq<char>), Seq<char>>
    decreases fs,
{
    if fs.len() == 0 {
        Map::empty()
    } else {
        files_model(fs.drop_last()).insert((fs.last().0@, fs.last().1@), fs.last().2@)
    }
}

/// The file list with every entry of the named file taken out.
spec fn files_without(fs: Seq<FileEntry>, d: Seq<char>, f: Seq<char>) -> Seq<FileEntry>
    decreases fs,
{
    if fs.len() == 0 {
        Seq::empty()
    } else {
        let rest = files_without(fs.drop_last(), d, f);
        if fs.last().0@ == d && fs.last().1@ == f {
            rest
        } else {
            rest.push(fs.last())
        }
    }
}

/// The names of the files that sit in directory `d`, in list order.
spec fn listing_of(fs: Seq<FileEntry>, d: Seq<char>) -> Seq<Seq<char>>
    decreases fs,
{
    if fs.len() == 0 {
        Seq::empty()
    } else {
        let rest = listing_of(fs.drop_last(), d);
        if fs.last().0@ == d {
            rest.push(fs.last().1@)
        } else {
            rest
        }
    }
}

/// The backing volume: directories, and the files inside them.
#[derive(Debug)]
pub struct Disk {
    dirs: Vec<String>,
    files: Vec<FileEntry>,
}

impl Disk {
    /// The names of the directories present, in creation order.
    pub closed spec fn dir_list(self) -> Seq<Seq<char>> {
        self.dirs.deep_view()
    }

    /// Whether a directory of this name is present.
    pub open spec fn has_dir_named(self, d: Seq<char>) -> bool {
        self.dir_list().contains(d)
    }

    /// The files present: (directory, file name) to content.
    pub closed spec fn file_map(self) -> Map<(Seq<char>, Seq<char>), Seq<char>> {
        files_model(self.files@)
    }

    /// The names of the files that sit in directory `d`, in volume order.
    pub closed spec fn listing(self, d: Seq<char>) -> Seq<Seq<char>> {
        listing_of(self.files@, d)
    }

    /// A volume is well formed when every file sits in a directory that is
    /// present. Every operation preserves this.
    pub closed spec fn wf(self) -> bool {
        forall|i: int|
            0 <= i < self.files@.len()
                ==> self.dir_list().contains(#[trigger] self.files@[i].0@)
    }

    /// An empty volume: no directories, no files.
    pub fn new() -> (r: Disk)
        ensures
            r.wf(),
            r.dir_list() == Seq::<Seq<char>>::empty(),
            r.file_map() == Map::<(Seq<char>, Seq<char>), Seq<char>>::empty(),
    {
        Disk { dirs: Vec::new(), files: Vec::new() }
    }

    /// Whether the named directory is present.
    #[verifier::loop_isolation(false)]
    pub fn has_dir(&self, name: &String) -> (r: bool)
        ensures
            r == self.has_dir_named(name@),
    {
        let mut i: usize = 0;
        while i < self.dirs.len()
            invariant
                i <= self.dirs@.len(),
                forall|j: int| 0 <= j < i ==> self.dir_list()[j] != name@,
            decreases self.dirs@.len() - i,
        {
            if self.dirs[i] == *name {
                proof {
                    assert(self.dir_list()[i as int] == name@);
                }
                return true;
            }
            i = i + 1;
        }
        false
    }

    /// Makes a directory that is not yet present.
    pub fn create_dir(&mut self, name: String)
        requires
            old(self).wf(),
            !old(self).has_dir_named(name@),
        ensures
            final(self).wf(),
            final(self).dir_list() == old(self).dir_list().push(name@),
            final(self).file_map() == old(self).file_map(),
            final(self).listing(name@) == Seq::<Seq<char>>::empty(),
            forall|d: Seq<char>| final(self).listing(d) == old(self).listing(d),
    {
        let ghost pre = self.dirs.deep_view();
        self.dirs.push(name);
        proof {
            assert(self.dirs.deep_view() =~= pre.push(name@));
            assert(forall|j: int| 0 <= j < pre.len()
                ==> self.dirs.deep_view()[j] == pre[j]);
            assert(forall|d: Seq<char>| pre.contains(d)
                ==> #[trigger] self.dirs.deep_view().contains(d)) by {
                assert forall|d: Seq<char>| pre.contains(d)
                    implies #[trigger] self.dirs.deep_view().contains(d) by {
                    let j = choose|j: int| 0 <= j < pre.len() && pre[j] == d;
                    assert(self.dirs.deep_view()[j] == d);
                }
            }
            assert(forall|i: int| 0 <= i < self.files@.len() ==> self.files@[i].0@ != name@);
            lemma_listing_of_absent(self.files@, name@);
        }
    }

    /// Whether the named file is present in the named directory.
    #[verifier::loop_isolation(false)]
    pub fn has_file(&self, dir: &String, name: &String) -> (r: bool)
        ensures
            r == self.file_map().contains_key((dir@, name@)),
    {
        proof {
            lemma_files_model_member(self.files@, dir@, name@);
        }
        let mut i: usize = 0;
        while i < self.files.len()
            invariant
                i <= self.files@.len(),
                forall|j: int| 0 <= j < i
                    ==> !(self.files@[j].0@ == dir@ && self.files@[j].1@ == name@),
            decreases self.files@.len() - i,
        {
            if self.files[i].0 == *dir && self.files[i].1 == *name {
                return true;
            }
            i = i + 1;
        }
        false
    }

    /// Reads the whole content of a file, or nothing if it is absent.
    #[verifier::loop_isolation(false)]
    pub fn read_file(&self, dir: &String, name: &String) -> (r: Option<String>)
        ensures
            r is Some <==> self.file_map().contains_key((dir@, name@)),
            r matches Some(c) ==> c@ == self.file_map()[(dir@, name@)],
    {
        proof {
            lemma_files_model_member(self.files@, dir@, name@);
        }
        let mut i: usize = self.files.len();
        while i > 0
            invariant
                i <= self.files@.len(),
                forall|j: int| i <= j < self.files@.len()
                    ==> !(self.files@[j].0@ == dir@ && self.files@[j].1@ == name@),
            decreases i,
        {
            i = i - 1;
            if self.files[i].0 == *dir && self.files[i].1 == *name {
                proof {
                    lemma_files_model_last_value(self.files@, dir@, name@, i as int);
                }
                return Some(self.files[i].2.clone());
            }
        }
        None
    }

    /// Writes the whole content of a file, creating it if it is absent; the
    /// directory it sits in must be present.
    pub fn write_file(&mut self, dir: &String, name: &String, content: String)
        requires
            old(self).wf(),
            old(self).has_dir_named(dir@),
        ensures
            final(self).wf(),
            final(self).dir_list() == old(self).dir_list(),
            final(self).file_map() == old(self).file_map().insert((dir@, name@), content@),
            final(self).file_map().contains_key((dir@, name@)),
    {
        self.remove_file(dir, name);
        let entry = (dir.clone(), name.clone(), content);
        proof {
            lemma_files_model_push(self.files@, entry);
        }
        self.files.push(entry);
        proof {
            assert(self.file_map() =~= old(self).file_map().insert((dir@, name@), entry.2@));
        }
    }

    /// Deletes a file; doing so for an absent file changes nothing.
    #[verifier::loop_isolation(false)]
    pub fn remove_file(&mut self, dir: &String, name: &String)
        requires
            old(self).wf(),
        ensures
            final(self).wf(),
            final(self).dir_list() == old(self).dir_list(),
            final(self).file_map() == old(self).file_map().remove((dir@, name@)),
            !final(self).file_map().contains_key((dir@, name@)),
    {
        let mut out: Vec<FileEntry> = Vec::new();
        let mut i: usize = 0;
        while i < self.files.len()
            invariant
                i <= self.files@.len(),
                out@ == files_without(self.files@.subrange(0, i as int), dir@, name@),
            decreases self.files@.len() - i,
        {
            proof {
                assert(self.files@.subrange(0, i + 1).drop_last()
                    =~= self.files@.subrange(0, i as int));
                assert(self.files@.subrange(0, i + 1).last() == self.files@[i as int]);
            }
            if !(self.files[i].0 == *dir && self.files[i].1 == *name) {
                let e = (
                    self.files[i].0.clone(),
                    self.files[i].1.clone(),
                    self.files[i].2.clone(),
                );
                proof {
                    assert(e == self.files@[i as int]);
                }
                out.push(e);
            }
            i = i + 1;
        }
        proof {
            assert(self.files@.subrange(0, self.files@.len() as int) =~= self.files@);
            lemma_files_without_model(self.files@, dir@, name@);
            lemma_files_model_member(files_without(self.files@, dir@, name@), dir@, name@);
            lemma_files_without_subset(self.files@, dir@, name@);
            assert forall|k: int| 0 <= k < out@.len()
                implies self.dir_list().contains(#[trigger] out@[k].0@) by {
                assert(self.files@.contains(out@[k]));
                let m = choose|m: int| 0 <= m < self.files@.len() && self.files@[m] == out@[k];
                assert(self.dir_list().contains(self.files@[m].0@));
            }
        }
        self.files = out;
    }

    /// The names of the files inside the named directory.
    #[verifier::loop_isolation(false)]
    pub fn list_dir(&self, dir: &String) -> (r: Vec<String>)
        ensures
            r.deep_view() == self.listing(dir@),
    {
        let mut out: Vec<String> = Vec::new();
        let mut i: usize = 0;
        while i < self.files.len()
            invariant
                i <= self.files@.len(),
                out.deep_view() == listing_of(self.files@.subrange(0, i as int), dir@),
            decreases self.files@.len() - i,
        {
            proof {
                assert(self.files@.subrange(0, i + 1).drop_last()
                    =~= self.files@.subrange(0, i as int));
                assert(self.files@.subrange(0, i + 1).last() == self.files@[i as int]);
            }
            if self.files[i].0 == *dir {
                let n = self.files[i].1.clone();
                out.push(n);
                proof {
                    assert(out.deep_view()
                        =~= listing_of(self.files@.subrange(0, i + 1), dir@));
                }
            } else {
                proof {
                    assert(out.deep_view()
                        =~= listing_of(self.files@.subrange(0, i + 1), dir@));
                }
            }
            i = i + 1;
        }
        proof {
            assert(self.files@.subrange(0, self.files@.len() as int) =~= self.files@);
        }
        out
    }

    /// The names of the directories present.
    #[verifier::loop_isolation(false)]
    pub fn dir_names(&self) -> (r: Vec<String>)
        ensures
            r.deep_view() == self.dir_list(),
    {
        let mut out: Vec<String> = Vec::new();
        let mut i: usize = 0;
        while i < self.dirs.len()
            invariant
                i <= self.dirs@.len(),
                out.deep_view() == self.dir_list().subrange(0, i as int),
            decreases self.dirs@.len() - i,
        {
            let n = self.dirs[i].clone();
            out.push(n);
            proof {
                assert(out.deep_view() =~= self.dir_list().subrange(0, i + 1));
            }
            i = i + 1;
        }
        proof {
            assert(self.dir_list().subrange(0, self.dir_list().len() as int) =~= self.dir_list());
        }
        out
    }
}

/// A name stands in a directory's listing exactly when the file map holds
/// that file.
pub proof fn lemma_listing_member(disk: Disk, d: Seq<char>, f: Seq<char>)
    ensures
        disk.listing(d).contains(f) <==> disk.file_map().contains_key((d, f)),
{
    lemma_files_model_member(disk.files@, d, f);
    lemma_listing_of_member(disk.files@, d, f);
}

/// The file map holds a file exactly when some list entry names it.
proof fn lemma_files_model_member(fs: Seq<FileEntry>, d: Seq<char>, f: Seq<char>)
    ensures
        files_model(fs).contains_key((d, f))
            <==> exists|i: int| 0 <= i < fs.len() && fs[i].0@ == d && fs[i].1@ == f,
    decreases fs,
{
    if fs.len() > 0 {
        lemma_files_model_member(fs.drop_last(), d, f);
        assert(forall|i: int| 0 <= i < fs.len() - 1 ==> fs.drop_last()[i] == fs[i]);
        if fs.last().0@ == d && fs.last().1@ == f {
            assert(fs[fs.len() - 1].0@ == d && fs[fs.len() - 1].1@ == f);
        }
        if exists|i: int| 0 <= i < fs.len() && fs[i].0@ == d && fs[i].1@ == f {
            let i = choose|i: int| 0 <= i < fs.len() && fs[i].0@ == d && fs[i].1@ == f;
            if i < fs.len() - 1 {
                assert(fs.drop_last()[i].0@ == d && fs.drop_last()[i].1@ == f);
            }
        }
    }
}

/// The last entry that names a file gives the file's content.
proof fn lemma_files_model_last_value(fs: Seq<FileEntry>, d: Seq<char>, f: Seq<char>, i: int)
    requires
        0 <= i < fs.len(),
        fs[i].0@ == d && fs[i].1@ == f,
        forall|j: int| i < j < fs.len() ==> !(fs[j].0@ == d && fs[j].1@ == f),
    ensures
        files_model(fs).contains_key((d, f)),
        files_model(fs)[(d, f)] == fs[i].2@,
    decreases fs,
{
    if i < fs.len() - 1 {
        assert(forall|j: int| 0 <= j < fs.len() - 1 ==> fs.drop_last()[j] == fs[j]);
        lemma_files_model_last_value(fs.drop_last(), d, f, i);
        assert(!(fs.last().0@ == d && fs.last().1@ == f));
    }
}

/// Pushing an entry inserts its file into the map.
proof fn lemma_files_model_push(fs: Seq<FileEntry>, e: FileEntry)
    ensures
        files_model(fs.push(e)) == files_model(fs).insert((e.0@, e.1@), e.2@),
{
    assert(fs.push(e).drop_last() =~= fs);
    assert(fs.push(e).last() == e);
}

/// Taking a file's entries out removes exactly that file from the map.
proof fn lemma_files_without_model(fs: Seq<FileEntry>, d: Seq<char>, f: Seq<char>)
    ensures
        files_model(files_without(fs, d, f)) == files_model(fs).remove((d, f)),
    decreases fs,
{
    if fs.len() == 0 {
        assert(files_model(files_without(fs, d, f)) =~= files_model(fs).remove((d, f)));
    } else {
        lemma_files_without_model(fs.drop_last(), d, f);
        let rest = files_without(fs.drop_last(), d, f);
        if fs.last().0@ == d && fs.last().1@ == f {
            assert(files_model(files_without(fs, d, f)) =~= files_model(fs).remove((d, f)));
        } else {
            assert(rest.push(fs.last()).drop_last() =~= rest);
            assert(files_model(files_without(fs, d, f)) =~= files_model(fs).remove((d, f)));
        }
    }
}

/// A directory no entry names has an empty listing.
proof fn lemma_listing_of_absent(fs: Seq<FileEntry>, d: Seq<char>)
    requires
        forall|i: int| 0 <= i < fs.len() ==> fs[i].0@ != d,
    ensures
        listing_of(fs, d) == Seq::<Seq<char>>::empty(),
    decreases fs,
{
    if fs.len() > 0 {
        assert(forall|i: int| 0 <= i < fs.len() - 1 ==> fs.drop_last()[i] == fs[i]);
        lemma_listing_of_absent(fs.drop_last(), d);
        assert(fs[fs.len() - 1].0@ != d);
    }
}

/// Every entry kept by `files_without` was an entry of the original list.
proof fn lemma_files_without_subset(fs: Seq<FileEntry>, d: Seq<char>, f: Seq<char>)
    ensures
        forall|i: int| 0 <= i < files_without(fs, d, f).len()
            ==> fs.contains(#[trigger] files_without(fs, d, f)[i]),
    decreases fs,
{
    if fs.len() > 0 {
        lemma_files_without_subset(fs.drop_last(), d, f);
        assert(forall|i: int| 0 <= i < fs.len() - 1 ==> fs.drop_last()[i] == fs[i]);
        assert forall|e: FileEntry| fs.drop_last().contains(e) implies fs.contains(e) by {
            let k = choose|k: int| 0 <= k < fs.drop_last().len() && fs.drop_last()[k] == e;
            assert(fs[k] == e);
        }
        assert(fs[fs.len() - 1] == fs.last());
        assert(fs.contains(fs.last()));
        let out = files_without(fs, d, f);
        let rest = files_without(fs.drop_last(), d, f);
        if !(fs.last().0@ == d && fs.last().1@ == f) {
            assert(forall|i: int| 0 <= i < rest.len() ==> out[i] == rest[i]);
            assert(out[out.len() - 1] == fs.last());
        }
    }
}

/// A name stands in a listing exactly when some entry of that directory
/// bears it.
proof fn lemma_listing_of_member(fs: Seq<FileEntry>, d: Seq<char>, f: Seq<char>)
    ensures
        listing_of(fs, d).contains(f)
            <==> exists|i: int| 0 <= i < fs.len() && fs[i].0@ == d && fs[i].1@ == f,
    decreases fs,
{
    if fs.len() > 0 {
        lemma_listing_of_member(fs.drop_last(), d, f);
        assert(forall|i: int| 0 <= i < fs.len() - 1 ==> fs.drop_last()[i] == fs[i]);
        let rest = listing_of(fs.drop_last(), d);
        if fs.last().0@ == d {
            assert(listing_of(fs, d) == rest.push(fs.last().1@));
            if rest.contains(f) {
                let i = choose|i: int| 0 <= i < rest.len() && rest[i] == f;
                assert(rest.push(fs.last().1@)[i] == f);
            }
            if fs.last().1@ == f {
                assert(listing_of(fs, d)[rest.len() as int] == f);
                assert(fs[fs.len() - 1].0@ == d && fs[fs.len() - 1].1@ == f);
            }
            if listing_of(fs, d).contains(f) {
                let i = choose|i: int|
                    0 <= i < listing_of(fs, d).len() && listing_of(fs, d)[i] == f;
                if i < rest.len() {
                    assert(rest[i] == f);
                }
            }
        }
        if exists|i: int| 0 <= i < fs.len() && fs[i].0@ == d && fs[i].1@ == f {
            let i = choose|i: int| 0 <= i < fs.len() && fs[i].0@ == d && fs[i].1@ == f;
            if i < fs.len() - 1 {
                assert(fs.drop_last()[i].0@ == d && fs.drop_last()[i].1@ == f);
            }
        }
    }
}

} // verus!
