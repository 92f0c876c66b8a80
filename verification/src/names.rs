//! Table file names.
//!
//! A table named `t` is stored in the file `t.<ext>` inside its database's
//! directory, where the suffix `ext` is the engine's configured file
//! extension. Opening a database recovers each table name by stripping that
//! suffix off a file name; a file name that does not carry the suffix names
//! no table.

use vstd::prelude::*;
use vstd::string::StrSliceExecFns;
use vstd::string::StringExecFns;

verus! {

/// The file name that stores table `stem` under suffix `ext`.
pub open spec fn file_name_view(stem: Seq<char>, ext: Seq<char>) -> Seq<char> {
    stem + seq!['.'] + ext
}

/// The table name a file name denotes under suffix `ext`: the part before
/// the final `.<ext>`, or nothing if the file name does not end so.
pub open spec fn stem_view(file: Seq<char>, ext: Seq<char>) -> Option<Seq<char>> {
    if file.len() > ext.len() && file.subrange(
        file.len() - ext.len(),
        file.len() as int,
    ) == ext && file[file.len() - ext.len() - 1] == '.' {
        Some(file.subrange(0, file.len() - ext.len() - 1))
    } else {
        None
    }
}

/// Stripping the suffix undoes attaching it.
pub proof fn lemma_stem_of_file_name(stem: Seq<char>, ext: Seq<char>)
    ensures
        stem_view(file_name_view(stem, ext), ext) == Some(stem),
{
    let f = file_name_view(stem, ext);
    assert(f.len() == stem.len() + 1 + ext.len());
    assert(f.subrange(f.len() - ext.len(), f.len() as int) =~= ext);
    assert(f[f.len() - ext.len() - 1] == '.');
    assert(f.subrange(0, f.len() - ext.len() - 1) =~= stem);
}

/// A file name that yields a stem is exactly that stem with the suffix
/// attached.
pub proof fn lemma_stem_view_inverse(f: Seq<char>, ext: Seq<char>, s: Seq<char>)
    requires
        stem_view(f, ext) == Some(s),
    ensures
        f == file_name_view(s, ext),
{
    assert(s == f.subrange(0, f.len() - ext.len() - 1));
    assert(f.subrange(f.len() - ext.len(), f.len() as int) == ext);
    assert(f =~= s + seq!['.'] + ext);
}

/// Builds the file name `<stem>.<ext>`.
pub fn table_file_name(stem: &String, ext: &String) -> (r: String)
    ensures
        r@ == file_name_view(stem@, ext@),
{
    let mut r = stem.clone();
    r.append(".");
    r.append(ext.as_str());
    proof {
        reveal_strlit(".");
        assert(r@ =~= stem@ + seq!['.'] + ext@);
    }
    r
}

/// Strips `.<ext>` off a file name, or yields nothing if it does not end so.
#[verifier::loop_isolation(false)]
pub fn table_stem(file: &String, ext: &String) -> (r: Option<String>)
    ensures
        r is Some <==> stem_view(file@, ext@) is Some,
        r matches Some(s) ==> Some(s@) == stem_view(file@, ext@),
{
    let n = file.as_str().unicode_len();
    let m = ext.as_str().unicode_len();
    if n <= m {
        return None;
    }
    let c = file.as_str().get_char(n - m - 1);
    if c != '.' {
        return None;
    }
    let mut i: usize = 0;
    while i < m
        invariant
            i <= m,
            forall|j: int| 0 <= j < i ==> file@[n - m + j] == ext@[j],
        decreases m - i,
    {
        let a = file.as_str().get_char(n - m + i);
        let b = ext.as_str().get_char(i);
        if a != b {
            proof {
                if file@.subrange(n - m, n as int) == ext@ {
                    assert(file@.subrange(n - m, n as int)[i as int] == ext@[i as int]);
                }
            }
            return None;
        }
        i = i + 1;
    }
    proof {
        assert(file@.subrange(n - m, n as int) =~= ext@);
    }
    let stem = file.as_str().substring_char(0, n - m - 1);
    let r = String::from_str(stem);
    proof {
        assert(r@ == file@.subrange(0, n - m - 1));
    }
    Some(r)
}

} // verus!
