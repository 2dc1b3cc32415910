//! The header tree: files, directories and links, with each file's location,
//! size, executable flag and integrity data.

use vstd::prelude::*;
use crate::error::{Error, ErrorView};
use crate::reader::strings_equal;

verus! {

/// The cryptographic hash used for a file's integrity data.
#[derive(Debug, Clone, Copy, PartialEq, Eq, Hash, Structural)]
pub enum HashAlgorithm {
    Sha256,
}

/// `s` with leading and trailing white space removed, as `str::trim` does.
pub uninterp spec fn trimmed(s: Seq<char>) -> Seq<char>;

/// `s` in lower case, as `str::to_lowercase` does.
pub uninterp spec fn lowercased(s: Seq<char>) -> Seq<char>;

/// Relies on `str::trim`: the result depends on the characters of `s` alone.
#[verifier::external_body]
fn trim(s: &str) -> (r: &str)
    ensures
        r@ == trimmed(s@),
{
    s.trim()
}

/// Relies on `str::to_lowercase`: the result depends on the characters of `s`
/// alone.
#[verifier::external_body]
fn to_lowercase(s: &str) -> (r: String)
    ensures
        r@ == lowercased(s@),
{
    s.to_lowercase()
}

/// The names of SHA-256, once trimmed and in lower case.
pub open spec fn names_sha256(folded: Seq<char>) -> bool {
    folded == "sha256"@ || folded == "sha-256"@
}

impl HashAlgorithm {
    /// The name written in archives.
    pub fn name(&self) -> (r: &'static str)
        ensures
            r@ == "SHA256"@,
    {
        match self {
            HashAlgorithm::Sha256 => "SHA256",
        }
    }

    /// The algorithm that a trimmed, lower-case name stands for.
    pub fn from_folded_name(folded: &str) -> (r: Option<HashAlgorithm>)
        ensures
            r == (if names_sha256(folded@) {
                Some(HashAlgorithm::Sha256)
            } else {
                None
            }),
    {
        proof {
            reveal_strlit("sha256");
            reveal_strlit("sha-256");
        }
        if strings_equal(folded, "sha256") || strings_equal(folded, "sha-256") {
            Some(HashAlgorithm::Sha256)
        } else {
            None
        }
    }

    /// The algorithm named `s`, ignoring surrounding white space and case.
    pub fn from_name(s: &str) -> (r: Result<HashAlgorithm, Error>)
        ensures
            match r {
                Ok(a) => names_sha256(lowercased(trimmed(s@))) && a == HashAlgorithm::Sha256,
                Err(e) => !names_sha256(lowercased(trimmed(s@))) && e@
                    == ErrorView::InvalidHashAlgorithm(s@),
            },
    {
        let folded = to_lowercase(trim(s));
        match HashAlgorithm::from_folded_name(folded.as_str()) {
            Some(a) => Ok(a),
            None => Err(Error::InvalidHashAlgorithm(s.to_owned())),
        }
    }
}

impl std::str::FromStr for HashAlgorithm {
    type Err = Error;

    fn from_str(s: &str) -> Result<HashAlgorithm, Error> {
        HashAlgorithm::from_name(s)
    }
}

/// Where a file's content lives.
#[derive(Debug, Clone, Copy, PartialEq, Eq, Hash, Structural)]
pub enum FileLocation {
    /// In the archive's content blob, this many bytes after the end of the header.
    Offset { offset: usize },
    /// Outside the archive, in the sidecar directory next to it.
    Unpacked { unpacked: bool },
}

impl FileLocation {
    pub fn offset(offset: usize) -> (r: FileLocation)
        ensures
            r == (FileLocation::Offset { offset }),
    {
        FileLocation::Offset { offset }
    }

    pub fn unpacked() -> (r: FileLocation)
        ensures
            r == (FileLocation::Unpacked { unpacked: true }),
    {
        FileLocation::Unpacked { unpacked: true }
    }
}

/// Digests of a file's content: one over the whole content and one for each
/// `block_size`-byte block of it.
#[derive(Debug)]
pub struct FileIntegrity {
    pub algorithm: HashAlgorithm,
    pub hash: Vec<u8>,
    pub block_size: usize,
    pub blocks: Vec<Vec<u8>>,
}

/// The mathematical value of a [`FileIntegrity`].
pub struct IntegrityView {
    pub algorithm: HashAlgorithm,
    pub hash: Seq<u8>,
    pub block_size: nat,
    pub blocks: Seq<Seq<u8>>,
}

impl View for FileIntegrity {
    type V = IntegrityView;

    open spec fn view(&self) -> IntegrityView {
        IntegrityView {
            algorithm: self.algorithm,
            hash: self.hash@,
            block_size: self.block_size as nat,
            blocks: bytes_seqs(self.blocks@),
        }
    }
}

/// The contents of a sequence of byte vectors.
pub open spec fn bytes_seqs(v: Seq<Vec<u8>>) -> Seq<Seq<u8>> {
    Seq::new(v.len(), |i: int| v[i]@)
}

/// A copy of a byte vector.
pub(crate) fn copy_bytes(v: &[u8]) -> (r: Vec<u8>)
    ensures
        r@ == v@,
{
    vstd::slice::slice_to_vec(v)
}

impl FileIntegrity {
    pub fn new(algorithm: HashAlgorithm, hash: Vec<u8>, block_size: usize, blocks: Vec<Vec<u8>>) -> (r:
        FileIntegrity)
        ensures
            r.algorithm == algorithm,
            r.hash@ == hash@,
            r.block_size == block_size,
            bytes_seqs(r.blocks@) == bytes_seqs(blocks@),
    {
        FileIntegrity { algorithm, hash, block_size, blocks }
    }

    pub fn algorithm(&self) -> (r: HashAlgorithm)
        ensures
            r == self@.algorithm,
    {
        self.algorithm
    }

    pub fn hash(&self) -> (r: &[u8])
        ensures
            r@ == self@.hash,
    {
        self.hash.as_slice()
    }

    pub fn block_size(&self) -> (r: usize)
        ensures
            r == self@.block_size,
    {
        self.block_size
    }

    pub fn blocks(&self) -> (r: &[Vec<u8>])
        ensures
            bytes_seqs(r@) == self@.blocks,
    {
        self.blocks.as_slice()
    }

    /// A deep copy.
    pub fn duplicate(&self) -> (r: FileIntegrity)
        ensures
            r@ == self@,
    {
        let mut blocks: Vec<Vec<u8>> = Vec::new();
        let mut i: usize = 0;
        while i < self.blocks.len()
            invariant
                i <= self.blocks.len(),
                blocks@.len() == i,
                forall|j: int| 0 <= j < i ==> (#[trigger] blocks@[j])@ == self.blocks@[j]@,
            decreases self.blocks.len() - i,
        {
            let b = copy_bytes(self.blocks[i].as_slice());
            blocks.push(b);
            i += 1;
        }
        assert(bytes_seqs(blocks@) =~= bytes_seqs(self.blocks@));
        FileIntegrity {
            algorithm: self.algorithm,
            hash: copy_bytes(self.hash.as_slice()),
            block_size: self.block_size,
            blocks,
        }
    }
}

/// A file entry of the header tree.
#[derive(Debug)]
pub struct File {
    pub location: FileLocation,
    pub size: usize,
    pub executable: bool,
    pub integrity: Option<FileIntegrity>,
}

/// The mathematical value of a [`File`].
pub struct FileView {
    pub location: FileLocation,
    pub size: nat,
    pub executable: bool,
    pub integrity: Option<IntegrityView>,
}

pub open spec fn integrity_view(i: Option<FileIntegrity>) -> Option<IntegrityView> {
    match i {
        Some(x) => Some(x@),
        None => None,
    }
}

impl View for File {
    type V = FileView;

    open spec fn view(&self) -> FileView {
        FileView {
            location: self.location,
            size: self.size as nat,
            executable: self.executable,
            integrity: integrity_view(self.integrity),
        }
    }
}

/// A deep copy of optional integrity data.
pub(crate) fn copy_integrity(i: &Option<FileIntegrity>) -> (r: Option<FileIntegrity>)
    ensures
        integrity_view(r) == integrity_view(*i),
{
    match i {
        Some(x) => Some(x.duplicate()),
        None => None,
    }
}

impl File {
    pub fn new(location: FileLocation, size: usize, executable: bool, integrity: Option<
        FileIntegrity,
    >) -> (r: File)
        ensures
            r.location == location,
            r.size == size,
            r.executable == executable,
            integrity_view(r.integrity) == integrity_view(integrity),
    {
        File { location, size, executable, integrity }
    }

    pub fn location(&self) -> (r: FileLocation)
        ensures
            r == self.location,
    {
        self.location
    }

    /// The offset of the content after the end of the header, or `None` for an
    /// unpacked file.
    pub fn offset(&self) -> (r: Option<usize>)
        ensures
            r == (match self.location {
                FileLocation::Offset { offset } => Some(offset),
                FileLocation::Unpacked { .. } => None,
            }),
    {
        match self.location {
            FileLocation::Offset { offset } => Some(offset),
            FileLocation::Unpacked { .. } => None,
        }
    }

    pub fn unpacked(&self) -> (r: bool)
        ensures
            r == self.location is Unpacked,
    {
        match self.location {
            FileLocation::Offset { .. } => false,
            FileLocation::Unpacked { .. } => true,
        }
    }

    pub fn size(&self) -> (r: usize)
        ensures
            r == self.size,
    {
        self.size
    }

    pub fn executable(&self) -> (r: bool)
        ensures
            r == self.executable,
    {
        self.executable
    }

    pub fn integrity(&self) -> (r: Option<&FileIntegrity>)
        ensures
            match r {
                Some(x) => self.integrity == Some(*x),
                None => self.integrity is None,
            },
    {
        match &self.integrity {
            Some(x) => Some(x),
            None => None,
        }
    }

    /// A deep copy.
    pub fn duplicate(&self) -> (r: File)
        ensures
            r@ == self@,
    {
        File {
            location: self.location,
            size: self.size,
            executable: self.executable,
            integrity: copy_integrity(&self.integrity),
        }
    }
}

/// The header tree: a file, a directory of named children, or a symbolic link.
#[derive(Debug)]
pub enum Header {
    File(File),
    Directory { files: Vec<(String, Header)> },
    Link { link: String },
}

impl Header {
    /// An empty directory.
    pub fn new() -> (r: Header)
        ensures
            r matches Header::Directory { files } && files@.len() == 0,
    {
        Header::Directory { files: Vec::new() }
    }
}

} // verus!
