//! Where the cached facts of a database lie in the file system.
//!
//! The cache directory holds two files for each database: `{name}.meta.json`
//! with the program hash, the fingerprint of the sources and the time of the
//! computation, and `{name}.idb.mgr` with the derived facts.
use vstd::prelude::*;

verus! {

/// A file-based cache of derived facts.
pub struct FileIdbBackend {
    dir: String,
}

impl View for FileIdbBackend {
    type V = Seq<char>;

    closed spec fn view(&self) -> Seq<char> {
        self.dir@
    }
}

/// The path of `file` relative to `dir`: an absolute `file` stands for itself.
pub open spec fn join(dir: Seq<char>, file: Seq<char>) -> Seq<char> {
    if dir.len() == 0 || (file.len() > 0 && file[0] == '/') {
        file
    } else if dir[dir.len() - 1] == '/' {
        dir + file
    } else {
        dir.push('/') + file
    }
}

/// The path of `file` relative to `dir`.
fn join_path(dir: &str, file: &str) -> (r: String)
    ensures
        r@ == join(dir@, file@),
{
    let n = dir.unicode_len();
    if n == 0 || (file.unicode_len() > 0 && file.get_char(0) == '/') {
        return file.to_owned();
    }
    if dir.get_char(n - 1) == '/' {
        dir.to_owned().concat(file)
    } else {
        let s = dir.to_owned().concat("/");
        proof {
            reveal_strlit("/");
        }
        assert(s@ =~= dir@.push('/'));
        s.concat(file)
    }
}

impl FileIdbBackend {
    /// A cache in the directory `dir`.
    pub fn new(dir: String) -> (r: FileIdbBackend)
        ensures
            r@ == dir@,
    {
        FileIdbBackend { dir }
    }

    /// The directory of the cache.
    pub fn dir(&self) -> (r: &str)
        ensures
            r@ == self@,
    {
        self.dir.as_str()
    }

    /// The path of the metadata of a database.
    pub fn meta_path(&self, db_name: &str) -> (r: String)
        ensures
            r@ == join(self@, db_name@ + ".meta.json"@),
    {
        join_path(self.dir.as_str(), db_name.to_owned().concat(".meta.json").as_str())
    }

    /// The path of the derived facts of a database.
    pub fn idb_path(&self, db_name: &str) -> (r: String)
        ensures
            r@ == join(self@, db_name@ + ".idb.mgr"@),
    {
        join_path(self.dir.as_str(), db_name.to_owned().concat(".idb.mgr").as_str())
    }
}

} // verus!
