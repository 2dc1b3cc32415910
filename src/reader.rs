//! Reading an archive into flat tables of files, directories and links.

use vstd::prelude::*;
use vstd::string::*;
use crate::error::{Error, ErrorView};
use crate::header::{
    bytes_seqs, copy_bytes, copy_integrity, integrity_view, File, FileIntegrity, FileLocation,
    FileView, Header, IntegrityView,
};
use crate::frame::{frame_spec, read_frame};
use crate::integrity::{block_digests, digest_of};

verus! {

/// The path of the child `name` of the directory at `parent`; the root is the
/// empty path.
pub open spec fn join(parent: Seq<char>, name: Seq<char>) -> Seq<char> {
    if parent.len() == 0 {
        name
    } else {
        parent + seq!['/'] + name
    }
}

/// The file entries of the tree `h` at `path`, depth first, each with its path.
pub open spec fn file_leaves(h: Header, path: Seq<char>) -> Seq<(Seq<char>, FileView)>
    decreases h,
{
    match h {
        Header::File(f) => seq![(path, f@)],
        Header::Directory { files } => child_file_leaves(files@, path),
        Header::Link { .. } => Seq::empty(),
    }
}

/// The file entries below the children `s` of the directory at `path`.
pub open spec fn child_file_leaves(s: Seq<(String, Header)>, path: Seq<char>) -> Seq<
    (Seq<char>, FileView),
>
    decreases s,
{
    if s.len() == 0 {
        Seq::empty()
    } else {
        child_file_leaves(s.drop_last(), path) + file_leaves(s.last().1, join(path, s.last().0@))
    }
}

/// The paths of the children `s` of the directory at `path`.
pub open spec fn child_paths(s: Seq<(String, Header)>, path: Seq<char>) -> Seq<Seq<char>> {
    Seq::new(s.len(), |i: int| join(path, s[i].0@))
}

/// The non-empty directories of the tree `h` at `path`, depth first, each with
/// the paths of its children.
pub open spec fn dir_entries(h: Header, path: Seq<char>) -> Seq<(Seq<char>, Seq<Seq<char>>)>
    decreases h,
{
    match h {
        Header::File(_) => Seq::empty(),
        Header::Directory { files } => if files@.len() == 0 {
            Seq::empty()
        } else {
            seq![(path, child_paths(files@, path))] + child_dir_entries(files@, path)
        },
        Header::Link { .. } => Seq::empty(),
    }
}

/// The non-empty directories below the children `s` of the directory at `path`.
pub open spec fn child_dir_entries(s: Seq<(String, Header)>, path: Seq<char>) -> Seq<
    (Seq<char>, Seq<Seq<char>>),
>
    decreases s,
{
    if s.len() == 0 {
        Seq::empty()
    } else {
        child_dir_entries(s.drop_last(), path) + dir_entries(s.last().1, join(path, s.last().0@))
    }
}

/// The symbolic links of the tree `h` at `path`, depth first, each with its
/// target.
pub open spec fn link_leaves(h: Header, path: Seq<char>) -> Seq<(Seq<char>, Seq<char>)>
    decreases h,
{
    match h {
        Header::File(_) => Seq::empty(),
        Header::Directory { files } => child_link_leaves(files@, path),
        Header::Link { link } => seq![(path, link@)],
    }
}

/// The symbolic links below the children `s` of the directory at `path`.
pub open spec fn child_link_leaves(s: Seq<(String, Header)>, path: Seq<char>) -> Seq<
    (Seq<char>, Seq<char>),
>
    decreases s,
{
    if s.len() == 0 {
        Seq::empty()
    } else {
        child_link_leaves(s.drop_last(), path) + link_leaves(s.last().1, join(path, s.last().0@))
    }
}

/// The first supplied content for `path` in a table of unpacked files.
pub open spec fn lookup(t: Seq<(Seq<char>, Seq<u8>)>, path: Seq<char>) -> Option<Seq<u8>>
    decreases t.len(),
{
    if t.len() == 0 {
        None
    } else if t[0].0 == path {
        Some(t[0].1)
    } else {
        lookup(t.drop_first(), path)
    }
}

/// Where a reader takes content from: the archive bytes, the number of bytes
/// before the content blob, the unpacked files if they were supplied, and
/// whether digests are checked.
pub struct Source {
    pub data: Seq<u8>,
    pub offset: nat,
    pub unpacked: Option<Seq<(Seq<char>, Seq<u8>)>>,
    pub verify: bool,
}

/// The content of the file `f` at `path`.
pub open spec fn content_spec(src: Source, path: Seq<char>, f: FileView) -> Result<
    Seq<u8>,
    ErrorView,
> {
    match f.location {
        FileLocation::Offset { offset } => {
            let start = src.offset + offset;
            if start + f.size > src.data.len() {
                Err(ErrorView::Truncated)
            } else {
                Ok(src.data.subrange(start as int, start + f.size))
            }
        },
        FileLocation::Unpacked { .. } => match src.unpacked {
            None => Ok(Seq::empty()),
            Some(t) => match lookup(t, path) {
                Some(d) => Ok(d),
                None => Err(ErrorView::UnpackedMissing(path)),
            },
        },
    }
}

/// The first index below the shorter length at which `a` and `b` differ, or
/// that length.
pub open spec fn first_mismatch(a: Seq<Seq<u8>>, b: Seq<Seq<u8>>, k: nat) -> nat
    decreases (if a.len() < b.len() { a.len() } else { b.len() }) - k,
{
    let lim = if a.len() < b.len() { a.len() } else { b.len() };
    if k >= lim {
        lim
    } else if a[k as int] != b[k as int] {
        k
    } else {
        first_mismatch(a, b, k + 1)
    }
}

/// The digests of the blocks of `content` under `i`, none if its block size is 0.
pub open spec fn actual_blocks(i: IntegrityView, content: Seq<u8>) -> Seq<Seq<u8>> {
    if i.block_size > 0 {
        block_digests(i.algorithm, content, i.block_size)
    } else {
        Seq::empty()
    }
}

/// The mismatch between `content` of the file at `path` and its integrity data:
/// first the blocks, in order, as far as both the stored and the actual list
/// go, then the whole-content digest.
pub open spec fn integrity_error(path: Seq<char>, content: Seq<u8>, i: IntegrityView) -> Option<
    ErrorView,
> {
    let actual = actual_blocks(i, content);
    let k = first_mismatch(i.blocks, actual, 0);
    let whole = digest_of(i.algorithm, content);
    if i.block_size > 0 && i.blocks.len() > 0 && k < i.blocks.len() && k < actual.len() {
        Some(
            ErrorView::HashMismatch {
                file: path,
                block: Some(k + 1),
                expected: i.blocks[k as int],
                actual: actual[k as int],
            },
        )
    } else if whole != i.hash {
        Some(ErrorView::HashMismatch { file: path, block: None, expected: i.hash, actual: whole })
    } else {
        None
    }
}

/// A file as a reader records it.
pub struct FileEntry {
    pub path: Seq<char>,
    pub data: Seq<u8>,
    pub executable: bool,
    pub integrity: Option<IntegrityView>,
}

/// What a reader records for the file `f` at `path`: its path, content and
/// integrity data, or the error that stops the reader.
pub open spec fn resolve(src: Source, path: Seq<char>, f: FileView) -> Result<
    FileEntry,
    ErrorView,
> {
    match content_spec(src, path, f) {
        Err(e) => Err(e),
        Ok(content) => match f.integrity {
            Some(i) if src.verify => match integrity_error(path, content, i) {
                Some(e) => Err(e),
                None => Ok(FileEntry { path, data: content, executable: f.executable, integrity: f.integrity }),
            },
            _ => Ok(FileEntry { path, data: content, executable: f.executable, integrity: f.integrity }),
        },
    }
}

/// What a reader records for the files `s`, in order, or the first error.
pub open spec fn resolve_all(src: Source, s: Seq<(Seq<char>, FileView)>) -> Result<
    Seq<FileEntry>,
    ErrorView,
>
    decreases s.len(),
{
    if s.len() == 0 {
        Ok(Seq::empty())
    } else {
        match resolve_all(src, s.drop_last()) {
            Err(e) => Err(e),
            Ok(v) => match resolve(src, s.last().0, s.last().1) {
                Err(e) => Err(e),
                Ok(x) => Ok(v.push(x)),
            },
        }
    }
}

/// Once an error has stopped the reader, later files do not matter.
proof fn lemma_resolve_all_err(src: Source, a: Seq<(Seq<char>, FileView)>, b: Seq<(Seq<char>, FileView)>)
    requires
        resolve_all(src, a) is Err,
    ensures
        resolve_all(src, a + b) == resolve_all(src, a),
    decreases b.len(),
{
    if b.len() == 0 {
        assert(a + b =~= a);
    } else {
        lemma_resolve_all_err(src, a, b.drop_last());
        assert((a + b).drop_last() =~= a + b.drop_last());
    }
}

pub proof fn lemma_resolve_all_ok(src: Source, s: Seq<(Seq<char>, FileView)>)
    requires
        forall|j: int| 0 <= j < s.len() ==> (#[trigger] resolve(src, s[j].0, s[j].1)) is Ok,
    ensures
        resolve_all(src, s) == Ok::<Seq<FileEntry>, ErrorView>(
            Seq::new(s.len(), |j: int| resolve(src, s[j].0, s[j].1)->Ok_0),
        ),
    decreases s.len(),
{
    if s.len() > 0 {
        lemma_resolve_all_ok(src, s.drop_last());
        assert(resolve(src, s[s.len() - 1].0, s[s.len() - 1].1) is Ok);
        assert(Seq::new(s.len(), |j: int| resolve(src, s[j].0, s[j].1)->Ok_0) =~= Seq::new(
            s.drop_last().len(),
            |j: int| resolve(src, s.drop_last()[j].0, s.drop_last()[j].1)->Ok_0,
        ).push(resolve(src, s.last().0, s.last().1)->Ok_0));
    } else {
        assert(Seq::new(s.len(), |j: int| resolve(src, s[j].0, s[j].1)->Ok_0) =~= Seq::<FileEntry>::empty());
    }
}

/// A file whose declared range runs past the end of the archive stops the
/// reader with `Truncated`, once the files before it have been read.
pub proof fn lemma_truncation_detected(header: Header, src: Source, i: int)
    requires
        0 <= i < file_leaves(header, Seq::empty()).len(),
        file_leaves(header, Seq::empty())[i].1.location matches FileLocation::Offset { offset }
            && src.offset + offset + file_leaves(header, Seq::empty())[i].1.size > src.data.len(),
        forall|j: int|
            0 <= j < i ==> (#[trigger] resolve(
                src,
                file_leaves(header, Seq::empty())[j].0,
                file_leaves(header, Seq::empty())[j].1,
            )) is Ok,
    ensures
        reader_spec(header, src) == Err::<
            (Seq<FileEntry>, Seq<(Seq<char>, Seq<Seq<char>>)>, Seq<(Seq<char>, Seq<char>)>),
            ErrorView,
        >(ErrorView::Truncated),
{
    let leaves = file_leaves(header, Seq::empty());
    let pre = leaves.subrange(0, i);
    let upto = leaves.subrange(0, i + 1);
    assert forall|j: int| 0 <= j < pre.len() implies (#[trigger] resolve(src, pre[j].0, pre[j].1)) is Ok by {
        assert(pre[j] == leaves[j]);
    }
    lemma_resolve_all_ok(src, pre);
    assert(upto.drop_last() =~= pre);
    assert(resolve_all(src, upto) == Err::<Seq<FileEntry>, ErrorView>(ErrorView::Truncated));
    lemma_resolve_all_err(src, upto, leaves.subrange(i + 1, leaves.len() as int));
    assert(upto + leaves.subrange(i + 1, leaves.len() as int) =~= leaves);
}

proof fn lemma_resolve_all_truncated(src: Source, s: Seq<(Seq<char>, FileView)>)
    requires
        !src.verify,
        src.unpacked is None,
    ensures
        resolve_all(src, s) is Err <==> exists|j: int|
            0 <= j < s.len() && (#[trigger] resolve(src, s[j].0, s[j].1)) is Err,
        resolve_all(src, s) is Err ==> resolve_all(src, s) == Err::<Seq<FileEntry>, ErrorView>(
            ErrorView::Truncated,
        ),
    decreases s.len(),
{
    if s.len() > 0 {
        let p = s.drop_last();
        lemma_resolve_all_truncated(src, p);
        let l = s.len() - 1;
        assert(s[l] == s.last());
        if resolve_all(src, p) is Err {
            let j = choose|j: int| 0 <= j < p.len() && (#[trigger] resolve(src, p[j].0, p[j].1)) is Err;
            assert(s[j] == p[j]);
        } else if resolve(src, s[l].0, s[l].1) is Ok {
            assert forall|j: int| 0 <= j < s.len() implies (#[trigger] resolve(src, s[j].0, s[j].1)) is Ok by {
                if j < l {
                    assert(s[j] == p[j]);
                    if resolve(src, p[j].0, p[j].1) is Err {
                        assert(exists|j: int| 0 <= j < p.len() && (#[trigger] resolve(src, p[j].0, p[j].1)) is Err);
                    }
                }
            }
        }
    }
}

/// Whether the declared range of the file `f` runs past the end of the data.
pub open spec fn runs_past_end(src: Source, f: FileView) -> bool {
    match f.location {
        FileLocation::Offset { offset } => src.offset + offset + f.size > src.data.len(),
        FileLocation::Unpacked { .. } => false,
    }
}

/// Without digest checks and without unpacked files supplied, reading fails
/// exactly when some file's declared range runs past the end of the archive,
/// and then with `Truncated`.
pub proof fn lemma_truncated_iff(header: Header, src: Source)
    requires
        !src.verify,
        src.unpacked is None,
    ensures
        reader_spec(header, src) is Err <==> exists|j: int|
            0 <= j < file_leaves(header, Seq::empty()).len() && runs_past_end(
                src,
                #[trigger] file_leaves(header, Seq::empty())[j].1,
            ),
        reader_spec(header, src) is Err ==> reader_spec(header, src) == Err::<
            (Seq<FileEntry>, Seq<(Seq<char>, Seq<Seq<char>>)>, Seq<(Seq<char>, Seq<char>)>),
            ErrorView,
        >(ErrorView::Truncated),
{
    let leaves = file_leaves(header, Seq::empty());
    lemma_resolve_all_truncated(src, leaves);
    if reader_spec(header, src) is Err {
        let j = choose|j: int| 0 <= j < leaves.len() && (#[trigger] resolve(src, leaves[j].0, leaves[j].1)) is Err;
        assert(leaves[j] == file_leaves(header, Seq::empty())[j]);
    } else {
        assert forall|j: int| 0 <= j < leaves.len() implies !runs_past_end(
            src,
            #[trigger] file_leaves(header, Seq::empty())[j].1,
        ) by {
            if resolve(src, leaves[j].0, leaves[j].1) is Err {
                assert(exists|j: int| 0 <= j < leaves.len() && (#[trigger] resolve(src, leaves[j].0, leaves[j].1)) is Err);
            }
        }
    }
}

/// An unpacked file read without the unpacked files supplied has empty
/// content and does not stop the reader, unless its digests are checked.
pub proof fn lemma_unpacked_reads_empty(src: Source, path: Seq<char>, f: FileView)
    requires
        f.location is Unpacked,
        src.unpacked is None,
        !src.verify || f.integrity is None,
    ensures
        content_spec(src, path, f) == Ok::<Seq<u8>, ErrorView>(Seq::empty()),
        resolve(src, path, f) == Ok::<FileEntry, ErrorView>(
            FileEntry { path, data: Seq::empty(), executable: f.executable, integrity: f.integrity },
        ),
{
}

/// An empty root directory reads as no files, no directories and no links.
pub proof fn lemma_empty_tree_reads_empty(header: Header, src: Source)
    requires
        header matches Header::Directory { files } && files@.len() == 0,
    ensures
        reader_spec(header, src) == Ok::<
            (Seq<FileEntry>, Seq<(Seq<char>, Seq<Seq<char>>)>, Seq<(Seq<char>, Seq<char>)>),
            ErrorView,
        >((Seq::empty(), Seq::empty(), Seq::empty())),
{
}

proof fn lemma_child_decreases(h: Header, children: Vec<(String, Header)>, i: int)
    requires
        h == (Header::Directory { files: children }),
        0 <= i < children@.len(),
    ensures
        decreases_to!(h => children[i].1),
{
    vstd::std_specs::vec::axiom_vec_index_decreases(children, i);
    assert(decreases_to!(h => h->files));
    assert(decreases_to!(children => children[i]));
    assert(decreases_to!(children[i] => children[i].1));
}

/// The paths of the unpacked files among `s`, in order.
pub open spec fn unpacked_of(s: Seq<(Seq<char>, FileView)>) -> Seq<Seq<char>>
    decreases s.len(),
{
    if s.len() == 0 {
        Seq::empty()
    } else if s.last().1.location is Unpacked {
        unpacked_of(s.drop_last()).push(s.last().0)
    } else {
        unpacked_of(s.drop_last())
    }
}

proof fn lemma_unpacked_of_append(a: Seq<(Seq<char>, FileView)>, b: Seq<(Seq<char>, FileView)>)
    ensures
        unpacked_of(a + b) == unpacked_of(a) + unpacked_of(b),
    decreases b.len(),
{
    if b.len() == 0 {
        assert(a + b =~= a);
        assert(unpacked_of(a) + unpacked_of(b) =~= unpacked_of(a));
    } else {
        lemma_unpacked_of_append(a, b.drop_last());
        assert((a + b).drop_last() =~= a + b.drop_last());
        assert((a + b).last() == b.last());
        if b.last().1.location is Unpacked {
            assert(unpacked_of(a) + unpacked_of(b.drop_last()).push(b.last().0) =~= (unpacked_of(a)
                + unpacked_of(b.drop_last())).push(b.last().0));
        }
    }
}

/// Appends the paths of the unpacked files of the tree `header` at `path`.
fn collect_unpacked(path: &String, header: &Header, out: &mut Vec<String>)
    requires
        true,
    ensures
        Seq::new(final(out)@.len(), |i: int| final(out)@[i]@) == Seq::new(
            old(out)@.len(),
            |i: int| old(out)@[i]@,
        ) + unpacked_of(file_leaves(*header, path@)),
    decreases header,
{
    let ghost o = Seq::new(out@.len(), |i: int| out@[i]@);
    match header {
        Header::File(f) => {
            let ghost leaves = file_leaves(*header, path@);
            assert(leaves.drop_last() =~= Seq::<(Seq<char>, FileView)>::empty());
            assert(leaves.last() == (path@, f@));
            assert(unpacked_of(leaves.drop_last()) =~= Seq::<Seq<char>>::empty());
            if f.unpacked() {
                out.push(path.clone());
                assert(unpacked_of(leaves) == seq![path@]);
            } else {
                assert(unpacked_of(leaves) == Seq::<Seq<char>>::empty());
            }
            assert(Seq::new(out@.len(), |i: int| out@[i]@) =~= o + unpacked_of(leaves));
        },
        Header::Link { .. } => {
            assert(Seq::new(out@.len(), |i: int| out@[i]@) =~= o + unpacked_of(
                file_leaves(*header, path@),
            ));
        },
        Header::Directory { files: children } => {
            let mut i: usize = 0;
            assert(o + unpacked_of(child_file_leaves(children@.subrange(0, 0), path@)) =~= o);
            while i < children.len()
                invariant
                    *header == (Header::Directory { files: *children }),
                    i <= children@.len(),
                    Seq::new(out@.len(), |j: int| out@[j]@) == o + unpacked_of(
                        child_file_leaves(children@.subrange(0, i as int), path@),
                    ),
                decreases children@.len() - i,
            {
                let child_path = join_path(path, &children[i].0);
                let ghost sub = children@.subrange(0, i + 1);
                assert(sub.drop_last() =~= children@.subrange(0, i as int));
                proof {
                    lemma_child_decreases(*header, *children, i as int);
                                    }
                collect_unpacked(&child_path, &children[i].1, out);
                proof {
                    lemma_unpacked_of_append(
                        child_file_leaves(children@.subrange(0, i as int), path@),
                        file_leaves(children@[i as int].1, child_path@),
                    );
                }
                i += 1;
                assert(Seq::new(out@.len(), |j: int| out@[j]@) =~= o + unpacked_of(
                    child_file_leaves(children@.subrange(0, i as int), path@),
                ));
            }
            assert(children@.subrange(0, children@.len() as int) =~= children@);
        },
    }
}

/// The paths of the unpacked files of the tree `header`, in depth-first
/// order: the files whose content a reader takes from outside the archive.
pub fn unpacked_paths(header: &Header) -> (r: Vec<String>)
    ensures
        Seq::new(r@.len(), |i: int| r@[i]@) == unpacked_of(file_leaves(*header, Seq::empty())),
{
    let mut out: Vec<String> = Vec::new();
    let root = String::new();
    assert(root@ =~= Seq::<char>::empty());
    collect_unpacked(&root, header, &mut out);
    assert(Seq::new(0, |i: int| out@[i]@) + unpacked_of(file_leaves(*header, Seq::empty())) =~= unpacked_of(file_leaves(*header, Seq::empty())));
    out
}

/// The content of a file: a view into the archive's bytes, or bytes of its
/// own for an unpacked file.
#[derive(Debug)]
pub enum FileData<'a> {
    Borrowed(&'a [u8]),
    Owned(Vec<u8>),
}

impl<'a> View for FileData<'a> {
    type V = Seq<u8>;

    open spec fn view(&self) -> Seq<u8> {
        match self {
            FileData::Borrowed(s) => s@,
            FileData::Owned(v) => v@,
        }
    }
}

/// A file of an archive: its content and its integrity data.
#[derive(Debug)]
pub struct AsarFile<'a> {
    pub data: FileData<'a>,
    pub executable: bool,
    pub integrity: Option<FileIntegrity>,
}

impl<'a> AsarFile<'a> {
    pub open spec fn spec_entry(self, path: Seq<char>) -> FileEntry {
        FileEntry {
            path,
            data: self.data@,
            executable: self.executable,
            integrity: integrity_view(self.integrity),
        }
    }

    pub fn data(&self) -> (r: &[u8])
        ensures
            r@ == self.data@,
    {
        match &self.data {
            FileData::Borrowed(s) => s,
            FileData::Owned(v) => v.as_slice(),
        }
    }

    pub fn executable(&self) -> (r: bool)
        ensures
            r == self.executable,
    {
        self.executable
    }

    pub fn integrity(&self) -> (r: Option<&FileIntegrity>)
        ensures
            match r {
                Some(x) => self.integrity == Some(*x),
                None => self.integrity is None,
            },
    {
        match &self.integrity {
            Some(x) => Some(x),
            None => None,
        }
    }
}

/// The entries of a file table, as values.
pub open spec fn files_view(v: Seq<(String, AsarFile<'_>)>) -> Seq<FileEntry> {
    Seq::new(v.len(), |i: int| v[i].1.spec_entry(v[i].0@))
}

/// The entries of a directory table, as values.
pub open spec fn dirs_view(v: Seq<(String, Vec<String>)>) -> Seq<(Seq<char>, Seq<Seq<char>>)> {
    Seq::new(v.len(), |i: int| (v[i].0@, Seq::new(v[i].1@.len(), |j: int| v[i].1@[j]@)))
}

/// The entries of a link table, as values.
pub open spec fn links_view(v: Seq<(String, String)>) -> Seq<(Seq<char>, Seq<char>)> {
    Seq::new(v.len(), |i: int| (v[i].0@, v[i].1@))
}

/// The table of supplied unpacked files, as values.
pub open spec fn table_view(t: Option<Vec<(String, Vec<u8>)>>) -> Option<Seq<(Seq<char>, Seq<u8>)>> {
    match t {
        Some(v) => Some(Seq::new(v@.len(), |i: int| (v@[i].0@, v@[i].1@))),
        None => None,
    }
}

/// Whether two byte sequences are equal.
pub fn bytes_equal(a: &[u8], b: &[u8]) -> (r: bool)
    ensures
        r == (a@ == b@),
{
    if a.len() != b.len() {
        return false;
    }
    let mut i: usize = 0;
    while i < a.len()
        invariant
            a@.len() == b@.len(),
            i <= a@.len(),
            forall|j: int| 0 <= j < i ==> a@[j] == b@[j],
        decreases a@.len() - i,
    {
        if a[i] != b[i] {
            return false;
        }
        i += 1;
    }
    assert(a@ =~= b@);
    true
}

/// Whether two strings are equal.
pub fn strings_equal(x: &str, y: &str) -> (r: bool)
    ensures
        r == (x@ == y@),
{
    let ghost a = x@;
    let ghost b = y@;
    let n = x.unicode_len();
    if n != y.unicode_len() {
        return false;
    }
    let mut i: usize = 0;
    while i < n
        invariant
            n == a.len(),
            a.len() == b.len(),
            x@ == a,
            y@ == b,
            i <= n,
            forall|j: int| 0 <= j < i ==> a[j] == b[j],
        decreases n - i,
    {
        if x.get_char(i) != y.get_char(i) {
            return false;
        }
        i += 1;
    }
    assert(a =~= b);
    true
}

/// Checks `content` of the file at `path` against its integrity data.
fn check_integrity(path: &String, content: &[u8], integrity: &FileIntegrity) -> (r: Option<Error>)
    ensures
        match (r, integrity_error(path@, content@, integrity@)) {
            (Some(e), Some(se)) => e@ == se,
            (None, None) => true,
            _ => false,
        },
{
    let ghost iv = integrity@;
    let actual: Vec<Vec<u8>> = if integrity.block_size > 0 {
        integrity.algorithm.hash_blocks(integrity.block_size, content)
    } else {
        Vec::new()
    };
    assert(bytes_seqs(actual@) == actual_blocks(iv, content@));
    let ghost sa = actual_blocks(iv, content@);
    let lim: usize = if integrity.blocks.len() < actual.len() {
        integrity.blocks.len()
    } else {
        actual.len()
    };
    let mut k: usize = 0;
    while k < lim
        invariant
            iv == integrity@,
            sa == bytes_seqs(actual@),
            sa == actual_blocks(iv, content@),
            lim as nat == (if iv.blocks.len() < sa.len() { iv.blocks.len() } else { sa.len() }),
            k <= lim,
            first_mismatch(iv.blocks, sa, 0) == first_mismatch(iv.blocks, sa, k as nat),
        decreases lim - k,
    {
        assert(sa[k as int] == actual@[k as int]@);
        assert(iv.blocks[k as int] == integrity.blocks@[k as int]@);
        if !bytes_equal(integrity.blocks[k].as_slice(), actual[k].as_slice()) {
            assert(first_mismatch(iv.blocks, sa, k as nat) == k);
            assert(iv.block_size > 0);
            return Some(
                Error::HashMismatch {
                    file: path.clone(),
                    block: Some(k + 1),
                    expected: copy_bytes(integrity.blocks[k].as_slice()),
                    actual: copy_bytes(actual[k].as_slice()),
                },
            );
        }
        k += 1;
    }
    let whole = integrity.algorithm.hash(content);
    if !bytes_equal(whole.as_slice(), integrity.hash.as_slice()) {
        return Some(
            Error::HashMismatch {
                file: path.clone(),
                block: None,
                expected: copy_bytes(integrity.hash.as_slice()),
                actual: whole,
            },
        );
    }
    None
}

/// The path of the child `name` of the directory at `parent`.
pub fn join_path(parent: &String, name: &String) -> (r: String)
    ensures
        r@ == join(parent@, name@),
{
    if parent.as_str().is_empty() {
        name.clone()
    } else {
        proof {
            reveal_strlit("/");
        }
        parent.clone().concat("/").concat(name.as_str())
    }
}

/// The first supplied content for `path`.
fn lookup_unpacked(t: &Vec<(String, Vec<u8>)>, path: &String) -> (r: Option<Vec<u8>>)
    ensures
        match (r, lookup(table_view(Some(*t))->0, path@)) {
            (Some(d), Some(sd)) => d@ == sd,
            (None, None) => true,
            _ => false,
        },
{
    let ghost tv = table_view(Some(*t))->0;
    assert(tv.subrange(0, tv.len() as int) =~= tv);
    let mut i: usize = 0;
    while i < t.len()
        invariant
            tv == table_view(Some(*t))->0,
            i <= t@.len(),
            lookup(tv, path@) == lookup(tv.subrange(i as int, tv.len() as int), path@),
        decreases t@.len() - i,
    {
        let ghost rest = tv.subrange(i as int, tv.len() as int);
        assert(rest.drop_first() =~= tv.subrange(i + 1, tv.len() as int));
        if strings_equal(t[i].0.as_str(), path.as_str()) {
            return Some(copy_bytes(t[i].1.as_slice()));
        }
        i += 1;
    }
    None
}

/// The content of the file `f` at `path`.
fn read_content<'a>(
    path: &String,
    f: &File,
    offset: usize,
    data: &'a [u8],
    unpacked: &Option<Vec<(String, Vec<u8>)>>,
    Ghost(src): Ghost<Source>,
) -> (r: Result<FileData<'a>, Error>)
    requires
        src.data == data@,
        src.offset == offset,
        src.unpacked == table_view(*unpacked),
    ensures
        match (r, content_spec(src, path@, f@)) {
            (Ok(d), Ok(sd)) => d@ == sd,
            (Err(e), Err(se)) => e@ == se,
            _ => false,
        },
{
    match f.location {
        FileLocation::Offset { offset: o } => {
            if o > data.len() || offset > data.len() - o || f.size > data.len() - o - offset {
                return Err(Error::Truncated);
            }
            let start = offset + o;
            Ok(FileData::Borrowed(vstd::slice::slice_subrange(data, start, start + f.size)))
        },
        FileLocation::Unpacked { .. } => match unpacked {
            None => Ok(FileData::Borrowed(vstd::slice::slice_subrange(data, 0, 0))),
            Some(t) => match lookup_unpacked(t, path) {
                Some(d) => Ok(FileData::Owned(d)),
                None => Err(Error::UnpackedMissing(path.clone())),
            },
        },
    }
}

/// What the reader records for the file `f` at `path`.
fn resolve_file<'a>(
    path: &String,
    f: &File,
    offset: usize,
    data: &'a [u8],
    unpacked: &Option<Vec<(String, Vec<u8>)>>,
    verify: bool,
    Ghost(src): Ghost<Source>,
) -> (r: Result<AsarFile<'a>, Error>)
    requires
        src.data == data@,
        src.offset == offset,
        src.unpacked == table_view(*unpacked),
        src.verify == verify,
    ensures
        match (r, resolve(src, path@, f@)) {
            (Ok(a), Ok(x)) => a.spec_entry(path@) == x,
            (Err(e), Err(se)) => e@ == se,
            _ => false,
        },
{
    let content = match read_content(path, f, offset, data, unpacked, Ghost(src)) {
        Ok(c) => c,
        Err(e) => return Err(e),
    };
    if verify {
        if let Some(i) = &f.integrity {
            let bytes: &[u8] = match &content {
                FileData::Borrowed(s) => s,
                FileData::Owned(v) => v.as_slice(),
            };
            if let Some(e) = check_integrity(path, bytes, i) {
                return Err(e);
            }
        }
    }
    Ok(AsarFile { data: content, executable: f.executable, integrity: copy_integrity(&f.integrity) })
}

/// Sequence algebra used by the walk.
proof fn lemma_child_leaves_prefix(s: Seq<(String, Header)>, j: int, path: Seq<char>) -> (t: Seq<
    (Seq<char>, FileView),
>)
    requires
        0 <= j <= s.len(),
    ensures
        child_file_leaves(s, path) == child_file_leaves(s.subrange(0, j), path) + t,
    decreases s.len(),
{
    if j == s.len() {
        assert(s.subrange(0, j) =~= s);
        assert(child_file_leaves(s, path) + Seq::empty() =~= child_file_leaves(s, path));
        Seq::empty()
    } else {
        let t0 = lemma_child_leaves_prefix(s.drop_last(), j, path);
        assert(s.drop_last().subrange(0, j) =~= s.subrange(0, j));
        let t = t0 + file_leaves(s.last().1, join(path, s.last().0@));
        assert(child_file_leaves(s, path) =~= child_file_leaves(s.subrange(0, j), path) + t);
        t
    }
}

/// Walks the tree `header` at `path` depth first, appending its files,
/// non-empty directories and links to the tables.
fn recursive_read<'a>(
    path: &String,
    header: &Header,
    offset: usize,
    data: &'a [u8],
    unpacked: &Option<Vec<(String, Vec<u8>)>>,
    verify: bool,
    files: &mut Vec<(String, AsarFile<'a>)>,
    dirs: &mut Vec<(String, Vec<String>)>,
    links: &mut Vec<(String, String)>,
    Ghost(src): Ghost<Source>,
    Ghost(done): Ghost<Seq<(Seq<char>, FileView)>>,
) -> (r: Result<(), Error>)
    requires
        src.data == data@,
        src.offset == offset,
        src.unpacked == table_view(*unpacked),
        src.verify == verify,
        resolve_all(src, done) == Ok::<_, ErrorView>(files_view(old(files)@)),
    ensures
        match r {
            Ok(()) => {
                &&& resolve_all(src, done + file_leaves(*header, path@)) == Ok::<_, ErrorView>(
                    files_view(final(files)@),
                )
                &&& dirs_view(final(dirs)@) == dirs_view(old(dirs)@) + dir_entries(*header, path@)
                &&& links_view(final(links)@) == links_view(old(links)@) + link_leaves(
                    *header,
                    path@,
                )
            },
            Err(e) => resolve_all(src, done + file_leaves(*header, path@)) == Err::<
                Seq<FileEntry>,
                ErrorView,
            >(e@),
        },
    decreases header,
{
    match header {
        Header::File(f) => {
            match resolve_file(path, f, offset, data, unpacked, verify, Ghost(src)) {
                Ok(a) => {
                    let ghost before = files@;
                    files.push((path.clone(), a));
                    proof {
                        let all = done + file_leaves(*header, path@);
                        assert(all.drop_last() =~= done);
                        assert(files_view(files@) =~= files_view(before).push(
                            a.spec_entry(path@),
                        ));
                    }
                    Ok(())
                },
                Err(e) => {
                    proof {
                        let all = done + file_leaves(*header, path@);
                        assert(all.drop_last() =~= done);
                    }
                    Err(e)
                },
            }
        },
        Header::Link { link } => {
            let ghost before = links@;
            links.push((path.clone(), link.clone()));
            proof {
                assert(done + file_leaves(*header, path@) =~= done);
                assert(links_view(links@) =~= links_view(before) + link_leaves(*header, path@));
            }
            Ok(())
        },
        Header::Directory { files: children } => {
            let mut names: Vec<String> = Vec::new();
            let mut i: usize = 0;
            while i < children.len()
                invariant
                    i <= children@.len(),
                    names@.len() == i,
                    forall|j: int| 0 <= j < i ==> (#[trigger] names@[j])@ == join(path@, children@[j].0@),
                decreases children@.len() - i,
            {
                names.push(join_path(path, &children[i].0));
                i += 1;
            }
            let ghost dirs0 = dirs@;
            let ghost head: Seq<(Seq<char>, Seq<Seq<char>>)> = if children@.len() == 0 {
                Seq::empty()
            } else {
                seq![(path@, child_paths(children@, path@))]
            };
            assert(Seq::new(names@.len(), |j: int| names@[j]@) =~= child_paths(children@, path@));
            if children.len() > 0 {
                dirs.push((path.clone(), names));
                assert(dirs_view(dirs@) =~= dirs_view(dirs0) + head);
            } else {
                assert(dirs_view(dirs@) =~= dirs_view(dirs0) + head);
            }
            let ghost links0 = links@;
            let mut i: usize = 0;
            assert(children@.subrange(0, 0) =~= Seq::<(String, Header)>::empty());
            assert(done + child_file_leaves(children@.subrange(0, 0), path@) =~= done);
            assert(dirs_view(dirs@) + child_dir_entries(children@.subrange(0, 0), path@) =~= dirs_view(dirs@));
            assert(links_view(links@) + child_link_leaves(children@.subrange(0, 0), path@) =~= links_view(links@));
            while i < children.len()
                invariant
                    src.data == data@,
                    src.offset == offset,
                    src.unpacked == table_view(*unpacked),
                    src.verify == verify,
                    *header == (Header::Directory { files: *children }),
                    i <= children@.len(),
                    resolve_all(src, done + child_file_leaves(children@.subrange(0, i as int), path@))
                        == Ok::<_, ErrorView>(files_view(files@)),
                    dirs_view(dirs@) == dirs_view(dirs0) + head + child_dir_entries(
                        children@.subrange(0, i as int),
                        path@,
                    ),
                    links_view(links@) == links_view(links0) + child_link_leaves(
                        children@.subrange(0, i as int),
                        path@,
                    ),
                decreases children@.len() - i,
            {
                let child_path = join_path(path, &children[i].0);
                let ghost prev = done + child_file_leaves(children@.subrange(0, i as int), path@);
                let ghost sub = children@.subrange(0, i + 1);
                assert(sub.drop_last() =~= children@.subrange(0, i as int));
                assert(sub.last() == children@[i as int]);
                proof {
                    vstd::std_specs::vec::axiom_vec_index_decreases(*children, i as int);
                    assert(decreases_to!(*header => *children));
                    assert(decreases_to!(*children => children[i as int]));
                    assert(decreases_to!(children[i as int] => children[i as int].1));
                    assert(decreases_to!(*header => children[i as int].1));
                }
                let r = recursive_read(
                    &child_path,
                    &children[i].1,
                    offset,
                    data,
                    unpacked,
                    verify,
                    files,
                    dirs,
                    links,
                    Ghost(src),
                    Ghost(prev),
                );
                assert(prev + file_leaves(children@[i as int].1, child_path@) =~= done
                    + child_file_leaves(sub, path@));
                if let Err(e) = r {
                    proof {
                        let t = lemma_child_leaves_prefix(children@, i + 1, path@);
                        lemma_resolve_all_err(src, done + child_file_leaves(sub, path@), t);
                        assert(file_leaves(*header, path@) == child_file_leaves(children@, path@));
                        assert(done + child_file_leaves(sub, path@) + t =~= done + file_leaves(
                            *header,
                            path@,
                        ));
                    }
                    return Err(e);
                }
                assert(dirs_view(dirs@) =~= dirs_view(dirs0) + head + child_dir_entries(
                    sub,
                    path@,
                ));
                assert(links_view(links@) =~= links_view(links0) + child_link_leaves(sub, path@));
                i += 1;
            }
            proof {
                assert(children@.subrange(0, children@.len() as int) =~= children@);
                assert(links_view(links0) + child_link_leaves(children@, path@) =~= links_view(links0) + link_leaves(*header, path@));
                assert(dirs_view(dirs0) + head + child_dir_entries(children@, path@) =~= dirs_view(dirs0) + dir_entries(*header, path@));
            }
            Ok(())
        },
    }
}

/// An archive read into flat tables: its files with their content, its
/// non-empty directories with the paths of their children, and its symbolic
/// links with their targets, each in depth-first order of the header tree.
#[derive(Debug)]
pub struct AsarReader<'a> {
    pub header: Header,
    pub files: Vec<(String, AsarFile<'a>)>,
    pub directories: Vec<(String, Vec<String>)>,
    pub symlinks: Vec<(String, String)>,
}

/// What a reader over `header` records, or the first error: `Ok` holds the
/// files, directories and links.
pub open spec fn reader_spec(header: Header, src: Source) -> Result<
    (
        Seq<FileEntry>,
        Seq<(Seq<char>, Seq<Seq<char>>)>,
        Seq<(Seq<char>, Seq<char>)>,
    ),
    ErrorView,
> {
    match resolve_all(src, file_leaves(header, Seq::empty())) {
        Err(e) => Err(e),
        Ok(f) => Ok((f, dir_entries(header, Seq::empty()), link_leaves(header, Seq::empty()))),
    }
}

impl<'a> AsarReader<'a> {
    /// The tables of this reader, as values.
    pub open spec fn tables(self) -> (
        Seq<FileEntry>,
        Seq<(Seq<char>, Seq<Seq<char>>)>,
        Seq<(Seq<char>, Seq<char>)>,
    ) {
        (files_view(self.files@), dirs_view(self.directories@), links_view(self.symlinks@))
    }

    /// Reads the archive `data` whose header tree, decoded from the payload
    /// that [`read_frame`] returns, is `header`. `unpacked` supplies the
    /// content of unpacked files by path; without it they read as empty.
    /// With `verify`, each file's content is checked against its digests.
    pub fn new(
        data: &'a [u8],
        header: Header,
        unpacked: Option<Vec<(String, Vec<u8>)>>,
        verify: bool,
    ) -> (r: Result<AsarReader<'a>, Error>)
        ensures
            match frame_spec(data@) {
                Err(se) => r matches Err(e) && e@ == se,
                Ok((_, offset)) => {
                    let src = Source {
                        data: data@,
                        offset,
                        unpacked: table_view(unpacked),
                        verify,
                    };
                    match (r, reader_spec(header, src)) {
                        (Ok(rd), Ok(t)) => rd.tables() == t && rd.header == header,
                        (Err(e), Err(se)) => e@ == se,
                        _ => false,
                    }
                },
            },
    {
        let offset = match read_frame(data) {
            Ok((_, offset)) => offset,
            Err(e) => return Err(e),
        };
        AsarReader::new_from_header(header, offset, data, unpacked, verify)
    }

    /// Reads the archive `data` with the header tree `header`, whose content
    /// blob starts `offset` bytes into `data`.
    pub fn new_from_header(
        header: Header,
        offset: usize,
        data: &'a [u8],
        unpacked: Option<Vec<(String, Vec<u8>)>>,
        verify: bool,
    ) -> (r: Result<AsarReader<'a>, Error>)
        ensures
            ({
                let src = Source {
                    data: data@,
                    offset: offset as nat,
                    unpacked: table_view(unpacked),
                    verify,
                };
                match (r, reader_spec(header, src)) {
                    (Ok(rd), Ok(t)) => rd.tables() == t && rd.header == header,
                    (Err(e), Err(se)) => e@ == se,
                    _ => false,
                }
            }),
    {
        let ghost src = Source {
            data: data@,
            offset: offset as nat,
            unpacked: table_view(unpacked),
            verify,
        };
        let mut files: Vec<(String, AsarFile<'a>)> = Vec::new();
        let mut directories: Vec<(String, Vec<String>)> = Vec::new();
        let mut symlinks: Vec<(String, String)> = Vec::new();
        let root = String::new();
        assert(files_view(files@) =~= Seq::empty());
        let r = recursive_read(
            &root,
            &header,
            offset,
            data,
            &unpacked,
            verify,
            &mut files,
            &mut directories,
            &mut symlinks,
            Ghost(src),
            Ghost(Seq::empty()),
        );
        assert(Seq::<(Seq<char>, FileView)>::empty() + file_leaves(header, root@) =~= file_leaves(header, root@));
        assert(root@ =~= Seq::<char>::empty());
        match r {
            Ok(()) => {
                assert(dirs_view(directories@) =~= dir_entries(header, root@));
                assert(links_view(symlinks@) =~= link_leaves(header, root@));
                Ok(AsarReader { header, files, directories, symlinks })
            },
            Err(e) => Err(e),
        }
    }

    pub fn files(&self) -> (r: &Vec<(String, AsarFile<'a>)>)
        ensures
            r@ == self.files@,
    {
        &self.files
    }

    pub fn directories(&self) -> (r: &Vec<(String, Vec<String>)>)
        ensures
            r@ == self.directories@,
    {
        &self.directories
    }

    pub fn symlinks(&self) -> (r: &Vec<(String, String)>)
        ensures
            r@ == self.symlinks@,
    {
        &self.symlinks
    }

    /// The first file recorded at `path`.
    pub fn read(&self, path: &str) -> (r: Option<&AsarFile<'a>>)
        ensures
            match r {
                Some(a) => exists|i: int|
                    0 <= i < self.files@.len() && self.files@[i].0@ == path@ && *a
                        == self.files@[i].1 && forall|j: int|
                        0 <= j < i ==> self.files@[j].0@ != path@,
                None => forall|i: int| 0 <= i < self.files@.len() ==> self.files@[i].0@ != path@,
            },
    {
        let mut i: usize = 0;
        while i < self.files.len()
            invariant
                i <= self.files@.len(),
                forall|j: int| 0 <= j < i ==> self.files@[j].0@ != path@,
            decreases self.files@.len() - i,
        {
            if strings_equal(self.files[i].0.as_str(), path) {
                return Some(&self.files[i].1);
            }
            i += 1;
        }
        None
    }

    /// The children of the first directory recorded at `path`.
    pub fn read_dir(&self, path: &str) -> (r: Option<&[String]>)
        ensures
            match r {
                Some(c) => exists|i: int|
                    0 <= i < self.directories@.len() && self.directories@[i].0@ == path@ && c@
                        == self.directories@[i].1@ && forall|j: int|
                        0 <= j < i ==> self.directories@[j].0@ != path@,
                None => forall|i: int|
                    0 <= i < self.directories@.len() ==> self.directories@[i].0@ != path@,
            },
    {
        let mut i: usize = 0;
        while i < self.directories.len()
            invariant
                i <= self.directories@.len(),
                forall|j: int| 0 <= j < i ==> self.directories@[j].0@ != path@,
            decreases self.directories@.len() - i,
        {
            if strings_equal(self.directories[i].0.as_str(), path) {
                return Some(self.directories[i].1.as_slice());
            }
            i += 1;
        }
        None
    }
}

} // verus!
