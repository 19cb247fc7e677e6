//! A file that has been read: its name, the directory it was read from, and
//! its bytes.  Reading is the caller's business; this type only holds what
//! was read.
use vstd::prelude::*;

verus! {

pub struct ParsedFile {
    file_name: String,
    relative_path: String,
    bytes: Vec<u8>,
}

impl ParsedFile {
    /// The file's name, as given when it was made.
    pub closed spec fn name_view(&self) -> Seq<char> {
        self.file_name@
    }

    /// The directory the file was read from, as given when it was made.
    pub closed spec fn path_view(&self) -> Seq<char> {
        self.relative_path@
    }

    /// The file's contents.
    pub closed spec fn bytes_view(&self) -> Seq<u8> {
        self.bytes@
    }

    /// A parsed file named `name` in directory `path`, holding `bytes`, the
    /// contents read from `full_path(path, name)`.
    pub fn new(name: &str, path: &str, bytes: Vec<u8>) -> (f: ParsedFile)
        ensures
            f.name_view() == name@,
            f.path_view() == path@,
            f.bytes_view() == bytes@,
    {
        ParsedFile {
            file_name: String::from_str(name),
            relative_path: String::from_str(path),
            bytes,
        }
    }

    /// The path of `name` in directory `path`: the two joined with nothing
    /// between them.
    pub fn full_path(path: &str, name: &str) -> (p: String)
        ensures
            p@ == path@ + name@,
    {
        String::from_str(path).concat(name)
    }

    pub fn bytes(&self) -> (b: &Vec<u8>)
        ensures
            b@ == self.bytes_view(),
    {
        &self.bytes
    }

    pub fn name(&self) -> (n: &str)
        ensures
            n@ == self.name_view(),
    {
        self.file_name.as_str()
    }
}

} // verus!
