use vstd::prelude::*;

verus! {

/// One file to be packed, or one file recovered by unpacking: a
/// root-relative path (UTF-8 text, with `/` as the separator) together with
/// the file's raw content bytes.
#[derive(Clone, Debug, PartialEq, Eq)]
pub struct FileEntry {
    pub path: Vec<u8>,
    pub content: Vec<u8>,
}

impl View for FileEntry {
    type V = (Seq<u8>, Seq<u8>);

    open spec fn view(&self) -> (Seq<u8>, Seq<u8>) {
        (self.path@, self.content@)
    }
}

/// The mathematical value of a list of entries: each entry abstracted to its
/// (path bytes, content bytes) pair.
pub open spec fn entry_views(es: Seq<FileEntry>) -> Seq<(Seq<u8>, Seq<u8>)> {
    es.map_values(|e: FileEntry| e@)
}

} // verus!
