use std::path::{Path, PathBuf};
use vstd::prelude::*;

verus! {

/// Declares `std::path::PathBuf`, the owned file path a buffer was read from.
#[verifier::external_type_specification]
#[verifier::external_body]
pub struct ExPathBuf(PathBuf);

/// Declares `std::path::Path`, the borrowed form of a file path.
#[verifier::external_type_specification]
#[verifier::external_body]
pub struct ExPath(Path);

/// Where the bytes of a buffer came from.
pub enum Backing {
    /// The contents of a file that was mapped into memory.
    Mapped(Vec<u8>),
    /// Bytes handed in by the caller.
    Owned(Vec<u8>),
}

/// An immutable source buffer: the original text a piece table edits.
pub struct MmapBuffer {
    path: Option<PathBuf>,
    backing: Backing,
}

/// The borrowed path that an owned path dereferences to.
pub uninterp spec fn path_buf_as_path(p: &PathBuf) -> &Path;

/// Calls `Option::<PathBuf>::as_deref`, which borrows the path inside the
/// option.  Trusted to keep `Some` and `None` apart and, for `Some`, to hand
/// out what the owned path dereferences to (std documents `as_deref` as
/// `Deref::deref` applied to the contents).
#[verifier::external_body]
fn path_as_deref(path: &Option<PathBuf>) -> (r: Option<&Path>)
    ensures
        r == match path {
            Some(q) => Some(path_buf_as_path(q)),
            None => None,
        },
{
    path.as_deref()
}

impl View for MmapBuffer {
    type V = Seq<u8>;

    closed spec fn view(&self) -> Seq<u8> {
        match &self.backing {
            Backing::Mapped(m) => m@,
            Backing::Owned(v) => v@,
        }
    }
}

impl MmapBuffer {
    /// The file the buffer was read from, if any.
    pub closed spec fn stored_path(&self) -> Option<PathBuf> {
        self.path
    }

    /// A buffer holding the contents of the file at `path`, as mapped into
    /// memory by the caller.
    pub fn from_mapped(path: PathBuf, contents: Vec<u8>) -> (r: Self)
        ensures
            r@ == contents@,
            r.stored_path() == Some(path),
    {
        Self { path: Some(path), backing: Backing::Mapped(contents) }
    }

    /// A buffer that owns `bytes` and has no file behind it.
    pub fn from_bytes(bytes: Vec<u8>) -> (r: Self)
        ensures
            r@ == bytes@,
            r.stored_path() is None,
    {
        Self { path: None, backing: Backing::Owned(bytes) }
    }

    /// The bytes of the buffer.
    pub fn as_slice(&self) -> (r: &[u8])
        ensures
            r@ == self@,
    {
        match &self.backing {
            Backing::Mapped(m) => m.as_slice(),
            Backing::Owned(v) => v.as_slice(),
        }
    }

    /// The file the buffer was read from, if any.
    pub fn path(&self) -> (r: Option<&Path>)
        ensures
            r == match self.stored_path() {
                Some(q) => Some(path_buf_as_path(&q)),
                None => None,
            },
    {
        path_as_deref(&self.path)
    }

    /// The number of bytes in the buffer.
    pub fn len(&self) -> (r: usize)
        ensures
            r == self@.len(),
    {
        self.as_slice().len()
    }

    /// Whether the buffer holds no bytes.
    pub fn is_empty(&self) -> (r: bool)
        ensures
            r <==> self@.len() == 0,
    {
        self.len() == 0
    }
}

} // verus!
