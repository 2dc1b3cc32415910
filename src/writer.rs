//! Write sessions: adding files and links at clean paths, and building the
//! header tree and content blob of the archive.

use vstd::prelude::*;
use vstd::string::*;
use crate::error::{Error, ErrorView};
use crate::header::{
    bytes_seqs, copy_bytes, integrity_view, File, FileIntegrity, FileLocation, FileView,
    HashAlgorithm, Header, IntegrityView,
};
use crate::frame::{aligned, archive_spec, lemma_frame_round_trip};
use crate::integrity::{block_count, block_digests, block_of, digest_of};
use crate::reader::{
    actual_blocks, content_spec, file_leaves, first_mismatch, integrity_error,
    lemma_empty_tree_reads_empty, lemma_resolve_all_ok, reader_spec, resolve, strings_equal,
    AsarFile, AsarReader, FileEntry, Source, join,
};
use crate::tree::{
    add_to_header, build, lemma_build_finds_entries, lemma_build_leaves, lemma_file_leaves_node,
    lemma_lookup_in_leaves, lemma_nodes_of, leaf_entries, node_leaves, node_of, path_from, prefix_free,
    seg_views, Node,
};

verus! {

/// The size of the blocks that the writer hashes one by one: 4 MiB.
pub const BLOCK_SIZE: usize = 4194304;

/// Whether a segment of `p` starts at `i`.
pub open spec fn starts_segment(p: Seq<char>, i: int) -> bool {
    i == 0 || p[i - 1] == '/'
}

/// Whether a segment of `p` ends right before `i`.
pub open spec fn ends_segment(p: Seq<char>, i: int) -> bool {
    i == p.len() || p[i] == '/'
}

/// A clean relative path: non-empty, `/`-separated segments, none of them
/// empty, `.` or `..`.
pub open spec fn clean_path(p: Seq<char>) -> bool {
    &&& p.len() > 0
    &&& forall|i: int| 0 <= i < p.len() && #[trigger] p[i] == '/' ==> 0 < i && i + 1 < p.len() && p[i + 1] != '/'
    &&& forall|i: int|
        0 <= i < p.len() && starts_segment(p, i) && #[trigger] p[i] == '.' ==> !ends_segment(p, i + 1) && !(i
            + 1 < p.len() && p[i + 1] == '.' && ends_segment(p, i + 2))
}

/// Whether `path` is a clean relative path.
pub fn is_clean_path(path: &str) -> (r: bool)
    ensures
        r == clean_path(path@),
{
    let n = path.unicode_len();
    if n == 0 {
        return false;
    }
    let ghost p = path@;
    let mut i: usize = 0;
    while i < n
        invariant
            p == path@,
            n == p.len(),
            i <= n,
            forall|j: int| 0 <= j < i && #[trigger] p[j] == '/' ==> 0 < j && j + 1 < p.len() && p[j + 1] != '/',
            forall|j: int|
                0 <= j < i && starts_segment(p, j) && #[trigger] p[j] == '.' ==> !ends_segment(p, j + 1) && !(j
                    + 1 < p.len() && p[j + 1] == '.' && ends_segment(p, j + 2)),
        decreases n - i,
    {
        let c = path.get_char(i);
        if c == '/' {
            if i == 0 || i + 1 == n || path.get_char(i + 1) == '/' {
                return false;
            }
        }
        let starts = i == 0 || path.get_char(i - 1) == '/';
        if starts && c == '.' {
            if i + 1 == n || path.get_char(i + 1) == '/' {
                return false;
            }
            if path.get_char(i + 1) == '.' && (i + 2 == n || path.get_char(i + 2) == '/') {
                return false;
            }
        }
        i += 1;
    }
    true
}

/// The path made of the segments `segs`, joined with `/`.
pub open spec fn joined(segs: Seq<Seq<char>>) -> Seq<char>
    decreases segs.len(),
{
    if segs.len() == 0 {
        Seq::empty()
    } else if segs.len() == 1 {
        segs[0]
    } else {
        joined(segs.drop_last()) + seq!['/'] + segs.last()
    }
}

proof fn lemma_joined_cons(segs: Seq<Seq<char>>)
    requires
        segs.len() >= 2,
    ensures
        joined(segs) == segs[0] + seq!['/'] + joined(segs.drop_first()),
    decreases segs.len(),
{
    let d = segs.drop_first();
    if segs.len() == 2 {
        assert(segs.drop_last().len() == 1);
        assert(d.len() == 1);
        assert(joined(segs.drop_last()) == segs[0]);
        assert(joined(d) == d[0]);
    } else {
        lemma_joined_cons(segs.drop_last());
        assert(segs.drop_last().drop_first() =~= d.drop_last());
        assert(d.last() == segs.last());
        assert(joined(segs) =~= segs[0] + seq!['/'] + joined(d));
    }
}

/// Walking the non-empty segments `segs` from `path` reaches the path made of
/// them, below `path`.
pub proof fn lemma_path_from_joined(path: Seq<char>, segs: Seq<Seq<char>>)
    requires
        segs.len() > 0,
        forall|k: int| 0 <= k < segs.len() ==> (#[trigger] segs[k]).len() > 0,
    ensures
        path_from(path, segs) == join(path, joined(segs)),
    decreases segs.len(),
{
    let a = segs[0];
    let rest = segs.drop_first();
    assert(path_from(path, segs) == path_from(join(path, a), rest));
    if segs.len() == 1 {
        assert(rest.len() == 0);
        assert(path_from(join(path, a), rest) == join(path, a));
        assert(joined(segs) == a);
    } else {
        assert forall|k: int| 0 <= k < rest.len() implies (#[trigger] rest[k]).len() > 0 by {
            assert(rest[k] == segs[k + 1]);
        }
        lemma_path_from_joined(join(path, a), rest);
        lemma_joined_cons(segs);
        assert(join(path, a).len() > 0);
        assert(join(path, joined(segs)) =~= join(join(path, a), joined(rest)));
    }
}

/// Splits `path` at each `/`.
pub fn path_segments(path: &str) -> (r: Vec<String>)
    ensures
        joined(Seq::new(r@.len(), |i: int| r@[i]@)) == path@,
        r@.len() > 0,
        forall|i: int| 0 <= i < r@.len() ==> !(#[trigger] r@[i]@).contains('/'),
        clean_path(path@) ==> forall|i: int| 0 <= i < r@.len() ==> (#[trigger] r@[i]@).len() > 0,
{
    let ghost p = path@;
    let n = path.unicode_len();
    let mut segs: Vec<String> = Vec::new();
    let mut start: usize = 0;
    let mut i: usize = 0;
    while i < n
        invariant
            p == path@,
            n == p.len(),
            start <= i <= n,
            segs@.len() > 0 ==> joined(Seq::new(segs@.len(), |j: int| segs@[j]@)) + seq!['/'] == p.subrange(0, start as int),
            segs@.len() == 0 ==> start == 0,
            forall|j: int| 0 <= j < segs@.len() ==> !(#[trigger] segs@[j]@).contains('/'),
            forall|j: int| start <= j < i ==> p[j] != '/',
            start == 0 || p[start - 1] == '/',
            clean_path(p) ==> forall|j: int| 0 <= j < segs@.len() ==> (#[trigger] segs@[j]@).len() > 0,
        decreases n - i,
    {
        if path.get_char(i) == '/' {
            proof {
                if clean_path(p) && i == start {
                    if start > 0 {
                        assert(p[(start - 1) + 1] != '/');
                    }
                }
            }
            let seg = path.substring_char(start, i);
            let ghost old_segs = segs@;
            segs.push(seg.to_owned());
            proof {
                let sv = Seq::new(segs@.len(), |j: int| segs@[j]@);
                assert(sv.drop_last() =~= Seq::new(old_segs.len(), |j: int| old_segs[j]@));
                assert(!seg@.contains('/')) by {
                    assert forall|k: int| 0 <= k < seg@.len() implies seg@[k] != '/' by {
                        assert(seg@[k] == p[start + k]);
                    }
                }
                if old_segs.len() == 0 {
                    assert(joined(sv) == sv[0]);
                    assert(joined(sv) + seq!['/'] =~= p.subrange(0, i + 1));
                } else {
                    assert(joined(sv) + seq!['/'] =~= p.subrange(0, i + 1));
                }
            }
            start = i + 1;
        }
        i += 1;
    }
    proof {
        if clean_path(p) && start == n {
            if n > 0 {
                assert(p[n - 1] == '/');
            }
        }
    }
    let seg = path.substring_char(start, n);
    let ghost old_segs = segs@;
    segs.push(seg.to_owned());
    proof {
        let sv = Seq::new(segs@.len(), |j: int| segs@[j]@);
        assert(sv.drop_last() =~= Seq::new(old_segs.len(), |j: int| old_segs[j]@));
        assert(!seg@.contains('/')) by {
            assert forall|k: int| 0 <= k < seg@.len() implies seg@[k] != '/' by {
                assert(seg@[k] == p[start + k]);
            }
        }
        if old_segs.len() == 0 {
            assert(joined(sv) == sv[0]);
            assert(joined(sv) =~= p);
        } else {
            assert(joined(sv) =~= p);
        }
    }
    segs
}

/// The file entry that the writer records for `bytes` written at `offset`.
pub open spec fn written_file(alg: HashAlgorithm, offset: nat, bytes: Seq<u8>, executable: bool) -> Node {
    Node::File(
        FileView {
            location: FileLocation::Offset { offset: offset as usize },
            size: bytes.len(),
            executable,
            integrity: Some(
                IntegrityView {
                    algorithm: alg,
                    hash: digest_of(alg, bytes),
                    block_size: BLOCK_SIZE as nat,
                    blocks: block_digests(alg, bytes, BLOCK_SIZE as nat),
                },
            ),
        },
    )
}

/// The total content length of a file table.
pub open spec fn total_len(v: Seq<(String, AsarFile<'_>)>) -> nat
    decreases v.len(),
{
    if v.len() == 0 {
        0
    } else {
        total_len(v.drop_last()) + v.last().1.data@.len()
    }
}

/// The contents of a file table, concatenated.
pub open spec fn concat_data(v: Seq<(String, AsarFile<'_>)>) -> Seq<u8>
    decreases v.len(),
{
    if v.len() == 0 {
        Seq::empty()
    } else {
        concat_data(v.drop_last()) + v.last().1.data@
    }
}

/// The entries that writing the files `v`, in order, into a buffer of `base`
/// bytes adds.
pub open spec fn replayed(alg: HashAlgorithm, base: nat, v: Seq<(String, AsarFile<'_>)>) -> Seq<
    (Seq<char>, Node),
>
    decreases v.len(),
{
    if v.len() == 0 {
        Seq::empty()
    } else {
        replayed(alg, base, v.drop_last()).push(
            (
                v.last().0@,
                written_file(
                    alg,
                    base + total_len(v.drop_last()),
                    v.last().1.data@,
                    v.last().1.executable,
                ),
            ),
        )
    }
}

/// The entries that adding the links `v`, in order, adds.
pub open spec fn links_replayed(v: Seq<(String, String)>) -> Seq<(Seq<char>, Node)> {
    Seq::new(v.len(), |i: int| (v[i].0@, Node::Link(v[i].1@)))
}

/// The paths of a reader's files, then of its links.
pub open spec fn reader_paths(r: AsarReader<'_>) -> Seq<Seq<char>> {
    Seq::new(r.files@.len(), |i: int| r.files@[i].0@) + Seq::new(
        r.symlinks@.len(),
        |i: int| r.symlinks@[i].0@,
    )
}

proof fn lemma_total_len_prefix(v: Seq<(String, AsarFile<'_>)>, i: int)
    requires
        0 <= i <= v.len(),
    ensures
        total_len(v.subrange(0, i)) <= total_len(v),
        concat_data(v.subrange(0, i)).len() == total_len(v.subrange(0, i)),
    decreases v.len(),
{
    if i == v.len() {
        assert(v.subrange(0, i) =~= v);
        lemma_concat_len(v);
    } else {
        lemma_total_len_prefix(v.drop_last(), i);
        assert(v.drop_last().subrange(0, i) =~= v.subrange(0, i));
    }
}

proof fn lemma_concat_len(v: Seq<(String, AsarFile<'_>)>)
    ensures
        concat_data(v).len() == total_len(v),
    decreases v.len(),
{
    if v.len() > 0 {
        lemma_concat_len(v.drop_last());
    }
}

/// Whether the paths `ps` can all be added, in order, to `w`: each is clean,
/// not taken in `w`, and unlike the ones before it.
pub open spec fn fresh_paths(w: AsarWriter, ps: Seq<Seq<char>>) -> bool {
    forall|i: int|
        0 <= i < ps.len() ==> clean_path(#[trigger] ps[i]) && !w.has_path(ps[i]) && forall|j: int|
            0 <= j < i ==> ps[j] != ps[i]
}

/// Whether `n` is a link, or a file whose digests are those of the bytes of
/// `buffer` at its offset and size.
pub open spec fn consistent(alg: HashAlgorithm, buffer: Seq<u8>, n: Node) -> bool {
    match n {
        Node::File(f) => match f.location {
            FileLocation::Offset { offset } => offset + f.size <= buffer.len() && n == written_file(
                alg,
                offset as nat,
                buffer.subrange(offset as int, offset + f.size),
                f.executable,
            ),
            FileLocation::Unpacked { .. } => false,
        },
        Node::Link(_) => true,
        Node::Dir(_) => false,
    }
}

/// A file or a symbolic link added to a write session, with its path split
/// into segments.
#[derive(Debug)]
pub struct Entry {
    pub path: String,
    pub segments: Vec<String>,
    pub node: Header,
}

/// A write session: the entries added so far, each at a distinct clean path,
/// and the content of the files, concatenated in the order they were written.
#[derive(Debug)]
pub struct AsarWriter {
    pub entries: Vec<Entry>,
    pub buffer: Vec<u8>,
    pub offset: usize,
    pub hasher: HashAlgorithm,
}

impl AsarWriter {
    /// The entries, each as its path and its tree.
    pub open spec fn entries_view(self) -> Seq<(Seq<char>, Node)> {
        Seq::new(self.entries@.len(), |i: int| (self.entries@[i].path@, node_of(self.entries@[i].node)))
    }

    /// The entries, each as its path segments and its tree.
    pub open spec fn placed(self) -> Seq<(Seq<Seq<char>>, Node)> {
        Seq::new(
            self.entries@.len(),
            |i: int| (seg_views(self.entries@[i].segments@), node_of(self.entries@[i].node)),
        )
    }

    /// The paths of the entries.
    pub open spec fn paths(self) -> Seq<Seq<char>> {
        Seq::new(self.entries@.len(), |i: int| self.entries@[i].path@)
    }

    /// Whether entry `i` is a file.
    pub open spec fn is_file(self, i: int) -> bool {
        node_of(self.entries@[i].node) is File
    }

    /// The bytes of the buffer that file entry `i` stands for.
    pub open spec fn stored(self, i: int) -> Seq<u8> {
        match node_of(self.entries@[i].node) {
            Node::File(f) => match f.location {
                FileLocation::Offset { offset } => self.buffer@.subrange(
                    offset as int,
                    offset + f.size,
                ),
                FileLocation::Unpacked { .. } => Seq::empty(),
            },
            _ => Seq::empty(),
        }
    }

    /// Whether an entry is at `p`.
    pub open spec fn has_path(self, p: Seq<char>) -> bool {
        exists|i: int| 0 <= i < self.entries@.len() && #[trigger] self.entries@[i].path@ == p
    }

    pub open spec fn wf(self) -> bool {
        &&& self.offset == self.buffer@.len()
        &&& forall|i: int|
            0 <= i < self.entries@.len() ==> {
                let e = #[trigger] self.entries@[i];
                &&& clean_path(e.path@)
                &&& joined(seg_views(e.segments@)) == e.path@
                &&& e.segments@.len() > 0
                &&& forall|k: int| 0 <= k < e.segments@.len() ==> (#[trigger] e.segments@[k]@).len() > 0
                &&& consistent(self.hasher, self.buffer@, node_of(e.node))
            }
        &&& forall|i: int, j: int|
            0 <= i < j < self.entries@.len() ==> #[trigger] self.entries@[i].path@
                != #[trigger] self.entries@[j].path@
    }

    /// An empty session hashing with SHA-256.
    pub fn new() -> (r: AsarWriter)
        ensures
            r.wf(),
            r.entries@.len() == 0,
            r.buffer@.len() == 0,
            r.hasher == HashAlgorithm::Sha256,
    {
        AsarWriter::new_with_algorithm(HashAlgorithm::Sha256)
    }

    /// An empty session hashing with `hasher`.
    pub fn new_with_algorithm(hasher: HashAlgorithm) -> (r: AsarWriter)
        ensures
            r.wf(),
            r.entries@.len() == 0,
            r.buffer@.len() == 0,
            r.hasher == hasher,
    {
        AsarWriter { entries: Vec::new(), buffer: Vec::new(), offset: 0, hasher }
    }

    /// Whether an entry is at `path`.
    pub fn contains(&self, path: &str) -> (r: bool)
        ensures
            r == self.has_path(path@),
    {
        let mut i: usize = 0;
        while i < self.entries.len()
            invariant
                i <= self.entries@.len(),
                forall|j: int| 0 <= j < i ==> self.entries@[j].path@ != path@,
            decreases self.entries@.len() - i,
        {
            if strings_equal(self.entries[i].path.as_str(), path) {
                return true;
            }
            i += 1;
        }
        false
    }

    /// Checks that `path` may be added: it is clean and not taken yet.
    fn check_new_path(&self, path: &str) -> (r: Result<Vec<String>, Error>)
        ensures
            match r {
                Ok(segs) => clean_path(path@) && !self.has_path(path@) && joined(seg_views(segs@))
                    == path@ && segs@.len() > 0 && forall|k: int|
                    0 <= k < segs@.len() ==> (#[trigger] segs@[k]@).len() > 0,
                Err(e) => if !clean_path(path@) {
                    e@ == ErrorView::InvalidPath(path@)
                } else {
                    self.has_path(path@) && e@ == ErrorView::FileAlreadyWritten(path@)
                },
            },
    {
        if !is_clean_path(path) {
            return Err(Error::InvalidPath(path.to_owned()));
        }
        if self.contains(path) {
            return Err(Error::FileAlreadyWritten(path.to_owned()));
        }
        let segs = path_segments(path);
        assert(Seq::new(segs@.len(), |i: int| segs@[i]@) =~= seg_views(segs@));
        Ok(segs)
    }

    /// Adds the file `bytes` at `path`: its content goes to the end of the
    /// buffer and it is recorded with that offset, its size and its digests.
    /// Fails, changing nothing, where `path` is not clean or already taken.
    pub fn write_file(&mut self, path: &str, bytes: &[u8], executable: bool) -> (r: Result<(), Error>)
        requires
            old(self).wf(),
            old(self).buffer@.len() + bytes@.len() <= usize::MAX,
        ensures
            final(self).wf(),
            final(self).hasher == old(self).hasher,
            !clean_path(path@) ==> (r matches Err(e) && e@ == ErrorView::InvalidPath(path@)),
            clean_path(path@) && old(self).has_path(path@) ==> (r matches Err(e) && e@
                == ErrorView::FileAlreadyWritten(path@)),
            r is Err ==> final(self).entries_view() == old(self).entries_view() && final(self).placed()
                == old(self).placed() && final(self).buffer@ == old(self).buffer@,
            clean_path(path@) && !old(self).has_path(path@) ==> {
                &&& r is Ok
                &&& final(self).entries_view() == old(self).entries_view().push(
                    (path@, written_file(old(self).hasher, old(self).buffer@.len(), bytes@, executable)),
                )
                &&& final(self).buffer@ == old(self).buffer@ + bytes@
                &&& final(self).placed().drop_last() == old(self).placed()
                &&& final(self).placed().last().1 == written_file(
                    old(self).hasher,
                    old(self).buffer@.len(),
                    bytes@,
                    executable,
                )
                &&& final(self).is_file(old(self).entries@.len() as int)
                &&& final(self).stored(old(self).entries@.len() as int) == bytes@
            },
            forall|i: int|
                0 <= i < old(self).entries@.len() ==> final(self).is_file(i) == old(self).is_file(i)
                    && #[trigger] final(self).stored(i) == old(self).stored(i),
    {
        let segments = match self.check_new_path(path) {
            Ok(s) => s,
            Err(e) => return Err(e),
        };
        let hash = self.hasher.hash(bytes);
        let blocks = self.hasher.hash_blocks(BLOCK_SIZE, bytes);
        let integrity = FileIntegrity::new(self.hasher, hash, BLOCK_SIZE, blocks);
        let file = File::new(FileLocation::offset(self.offset), bytes.len(), executable, Some(integrity));
        let mut content = copy_bytes(bytes);
        self.buffer.append(&mut content);
        self.offset = self.offset + bytes.len();
        let ghost old_entries = self.entries@;
        self.entries.push(Entry { path: path.to_owned(), segments, node: Header::File(file) });
        proof {
            assert(self.entries_view() =~= old(self).entries_view().push(
                (path@, written_file(old(self).hasher, old(self).buffer@.len(), bytes@, executable)),
            ));
            assert(self.placed().drop_last() =~= old(self).placed());
            assert forall|i: int, j: int|
                0 <= i < j < self.entries@.len() implies #[trigger] self.entries@[i].path@
                != #[trigger] self.entries@[j].path@ by {
                if j == self.entries@.len() - 1 {
                    assert(old_entries[i].path@ != path@);
                }
            }
            let old_len = old(self).buffer@.len();
            assert forall|i: int| 0 <= i < self.entries@.len() implies consistent(
                self.hasher,
                self.buffer@,
                node_of(#[trigger] self.entries@[i].node),
            ) by {
                let n = node_of(self.entries@[i].node);
                if i < old_entries.len() {
                    assert(consistent(self.hasher, old(self).buffer@, n));
                    if let Node::File(f) = n {
                        if let FileLocation::Offset { offset } = f.location {
                            assert(self.buffer@.subrange(offset as int, offset + f.size)
                                =~= old(self).buffer@.subrange(offset as int, offset + f.size));
                        }
                    }
                } else {
                    assert(self.buffer@.subrange(old_len as int, old_len + bytes@.len() as int) =~= bytes@);
                    assert((old_len as usize) as nat == old_len);
                }
            }
            assert forall|i: int| 0 <= i < old_entries.len() implies self.is_file(i) == old(self).is_file(i)
                && #[trigger] self.stored(i) == old(self).stored(i) by {
                let n = node_of(self.entries@[i].node);
                assert(self.entries@[i] == old_entries[i]);
                assert(consistent(self.hasher, old(self).buffer@, n));
                if let Node::File(f) = n {
                    if let FileLocation::Offset { offset } = f.location {
                        assert(self.buffer@.subrange(offset as int, offset + f.size)
                            =~= old(self).buffer@.subrange(offset as int, offset + f.size));
                    }
                }
            }
            assert(self.buffer@.subrange(old_len as int, old_len + bytes@.len() as int) =~= bytes@);
            assert((old_len as usize) as nat == old_len);
        }
        Ok(())
    }

    /// Adds a symbolic link at `path` to `target`. Fails, changing nothing,
    /// where `path` is not clean or already taken.
    pub fn write_symlink(&mut self, path: &str, target: &str) -> (r: Result<(), Error>)
        requires
            old(self).wf(),
        ensures
            final(self).wf(),
            final(self).hasher == old(self).hasher,
            final(self).buffer@ == old(self).buffer@,
            !clean_path(path@) ==> (r matches Err(e) && e@ == ErrorView::InvalidPath(path@)),
            clean_path(path@) && old(self).has_path(path@) ==> (r matches Err(e) && e@
                == ErrorView::FileAlreadyWritten(path@)),
            r is Err ==> final(self).entries_view() == old(self).entries_view() && final(self).placed()
                == old(self).placed(),
            clean_path(path@) && !old(self).has_path(path@) ==> {
                &&& r is Ok
                &&& final(self).entries_view() == old(self).entries_view().push(
                    (path@, Node::Link(target@)),
                )
                &&& final(self).placed().drop_last() == old(self).placed()
                &&& final(self).placed().last().1 == Node::Link(target@)
                &&& !final(self).is_file(old(self).entries@.len() as int)
            },
            forall|i: int|
                0 <= i < old(self).entries@.len() ==> final(self).is_file(i) == old(self).is_file(i)
                    && #[trigger] final(self).stored(i) == old(self).stored(i),
    {
        let segments = match self.check_new_path(path) {
            Ok(s) => s,
            Err(e) => return Err(e),
        };
        let ghost old_entries = self.entries@;
        self.entries.push(
            Entry { path: path.to_owned(), segments, node: Header::Link { link: target.to_owned() } },
        );
        proof {
            assert(self.entries_view() =~= old(self).entries_view().push((path@, Node::Link(target@))));
            assert forall|i: int| 0 <= i < old_entries.len() implies self.is_file(i) == old(self).is_file(i)
                && #[trigger] self.stored(i) == old(self).stored(i) by {
                assert(self.entries@[i] == old_entries[i]);
            }
            assert(self.placed().drop_last() =~= old(self).placed());
            assert forall|i: int, j: int|
                0 <= i < j < self.entries@.len() implies #[trigger] self.entries@[i].path@
                != #[trigger] self.entries@[j].path@ by {
                if j == self.entries@.len() - 1 {
                    assert(old_entries[i].path@ != path@);
                }
            }
        }
        Ok(())
    }

    /// Adds every file of `reader`, with its content and executable flag, then
    /// every symbolic link, in the reader's order. Stops at the first path that
    /// is not clean or already taken.
    pub fn add_from_reader(&mut self, reader: &AsarReader) -> (r: Result<(), Error>)
        requires
            old(self).wf(),
            old(self).buffer@.len() + total_len(reader.files@) <= usize::MAX,
        ensures
            final(self).wf(),
            final(self).hasher == old(self).hasher,
            r is Ok ==> {
                &&& final(self).entries_view() == old(self).entries_view() + replayed(
                    old(self).hasher,
                    old(self).buffer@.len(),
                    reader.files@,
                ) + links_replayed(reader.symlinks@)
                &&& final(self).buffer@ == old(self).buffer@ + concat_data(reader.files@)
            },
            r matches Err(e) ==> exists|i: int|
                0 <= i < reader_paths(*reader).len() && (e@ == ErrorView::InvalidPath(
                    #[trigger] reader_paths(*reader)[i],
                ) || e@ == ErrorView::FileAlreadyWritten(reader_paths(*reader)[i])),
            fresh_paths(*old(self), reader_paths(*reader)) ==> r is Ok,
    {
        let ghost ev0 = self.entries_view();
        let ghost p0 = self.paths();
        let ghost w0 = *self;
        let ghost buf0 = self.buffer@;
        let ghost alg = self.hasher;
        let ghost files = reader.files@;
        let ghost paths = reader_paths(*reader);
        let mut i: usize = 0;
        proof {
            assert(files.subrange(0, 0) =~= Seq::<(String, AsarFile<'_>)>::empty());
            assert(ev0 + Seq::<(Seq<char>, Node)>::empty() =~= ev0);
            assert(buf0 + Seq::<u8>::empty() =~= buf0);
        }
        while i < reader.files.len()
            invariant
                self.wf(),
                self.hasher == alg,
                files == reader.files@,
                paths == reader_paths(*reader),
                buf0.len() + total_len(files) <= usize::MAX,
                i <= files.len(),
                self.entries_view() == ev0 + replayed(alg, buf0.len(), files.subrange(0, i as int)),
                self.buffer@ == buf0 + concat_data(files.subrange(0, i as int)),
                p0 == w0.paths(),
                w0 == *old(self),
                self.paths() == p0 + paths.subrange(0, i as int),
                files.len() <= paths.len(),
            decreases files.len() - i,
        {
            let ghost sub = files.subrange(0, i + 1);
            proof {
                assert(sub.drop_last() =~= files.subrange(0, i as int));
                lemma_total_len_prefix(files, i + 1);
                lemma_total_len_prefix(files, i as int);
            }
            let entry = &reader.files[i];
            assert(paths[i as int] == entry.0@);
            proof {
                lemma_fresh_step(w0, *self, paths, i as int);
            }
            let ghost before = *self;
            match self.write_file(entry.0.as_str(), entry.1.data(), entry.1.executable) {
                Ok(()) => {},
                Err(e) => {
                    return Err(e);
                },
            }
            proof {
                lemma_paths_push(before, *self, entry.0@);
                assert(paths.subrange(0, i + 1) =~= paths.subrange(0, i as int).push(entry.0@));
            }
            i += 1;
            proof {
                assert(self.entries_view() =~= ev0 + replayed(alg, buf0.len(), sub));
                assert(self.buffer@ =~= buf0 + concat_data(sub));
            }
        }
        let ghost ev1 = self.entries_view();
        proof {
            assert(files.subrange(0, files.len() as int) =~= files);
        }
        assert(paths.len() == files.len() + reader.symlinks@.len());
        let mut k: usize = 0;
        let nf = reader.files.len();
        assert(ev1 + links_replayed(reader.symlinks@.subrange(0, 0)) =~= ev1);
        assert(paths.len() == nf + reader.symlinks@.len());
        while k < reader.symlinks.len()
            invariant
                self.wf(),
                self.hasher == alg,
                paths == reader_paths(*reader),
                files == reader.files@,
                k <= reader.symlinks@.len(),
                self.entries_view() == ev1 + links_replayed(reader.symlinks@.subrange(0, k as int)),
                self.buffer@ == buf0 + concat_data(files),
                nf == files.len(),
                paths.len() == nf + reader.symlinks@.len(),
                p0 == w0.paths(),
                w0 == *old(self),
                self.paths() == p0 + paths.subrange(0, nf + k),
            decreases reader.symlinks@.len() - k,
        {
            let link = &reader.symlinks[k];
            assert(paths[nf + k] == link.0@);
            proof {
                lemma_fresh_step(w0, *self, paths, nf + k);
            }
            let ghost before = *self;
            match self.write_symlink(link.0.as_str(), link.1.as_str()) {
                Ok(()) => {},
                Err(e) => {
                    return Err(e);
                },
            }
            proof {
                lemma_paths_push(before, *self, link.0@);
                assert(paths.subrange(0, nf + k + 1) =~= paths.subrange(0, nf + k).push(link.0@));
            }
            k += 1;
            assert(self.entries_view() =~= ev1 + links_replayed(reader.symlinks@.subrange(0, k as int)));
        }
        assert(reader.symlinks@.subrange(0, k as int) =~= reader.symlinks@);
        assert(self.entries_view() =~= ev0 + replayed(alg, buf0.len(), files) + links_replayed(reader.symlinks@));
        Ok(())
    }

    /// Ends the session: the header tree holding every entry at its path, and
    /// the content blob.
    pub fn into_parts(self) -> (r: (Header, Vec<u8>))
        requires
            self.wf(),
        ensures
            node_of(r.0) == build(self.placed()),
            r.1@ == self.buffer@,
    {
        let ghost placed = self.placed();
        let AsarWriter { entries, buffer, offset: _, hasher: _ } = self;
        let mut entries = entries;
        let n = entries.len();
        let mut header = Header::new();
        proof {
            lemma_nodes_of(Seq::<(String, Header)>::empty());
            assert(placed.subrange(0, 0) =~= Seq::<(Seq<Seq<char>>, Node)>::empty());
        }
        let mut i: usize = 0;
        while i < n
            invariant
                n == placed.len(),
                i <= n,
                entries@.len() == n - i,
                forall|j: int|
                    0 <= j < entries@.len() ==> #[trigger] placed[i + j] == (
                        seg_views(entries@[j].segments@),
                        node_of(entries@[j].node),
                    ),
                forall|j: int|
                    0 <= j < entries@.len() ==> (#[trigger] entries@[j]).segments@.len() > 0,
                node_of(header) == build(placed.subrange(0, i as int)),
            decreases n - i,
        {
            let ghost e0 = entries@[0];
            assert(placed[i + 0] == (seg_views(e0.segments@), node_of(e0.node)));
            let e = entries.remove(0);
            assert(placed[i as int] == (seg_views(e.segments@), node_of(e.node)));
            assert(e.segments@.len() > 0);
            let ghost sub = placed.subrange(0, i + 1);
            assert(sub.drop_last() =~= placed.subrange(0, i as int));
            assert(seg_views(e.segments@).subrange(0, e.segments@.len() as int) =~= seg_views(e.segments@));
            header = add_to_header(header, &e.segments, 0, e.node);
            i += 1;
            assert forall|j: int| 0 <= j < entries@.len() implies #[trigger] placed[i + j] == (
                seg_views(entries@[j].segments@),
                node_of(entries@[j].node),
            ) by {
                assert(placed[(i - 1) + (j + 1)] == placed[i + j]);
            }
        }
        assert(placed.subrange(0, n as int) =~= placed);
        (header, buffer)
    }
}

impl Default for AsarWriter {
    fn default() -> (r: AsarWriter)
        ensures
            r.wf(),
            r.entries@.len() == 0,
            r.buffer@.len() == 0,
            r.hasher == HashAlgorithm::Sha256,
    {
        AsarWriter::new()
    }
}

proof fn lemma_paths_push(before: AsarWriter, after: AsarWriter, p: Seq<char>)
    requires
        exists|n: Node| after.entries_view() == #[trigger] before.entries_view().push((p, n)),
    ensures
        after.paths() == before.paths().push(p),
{
    let n = choose|n: Node| after.entries_view() == #[trigger] before.entries_view().push((p, n));
    assert(after.entries_view().len() == after.entries@.len());
    assert(before.entries_view().len() == before.entries@.len());
    assert forall|i: int| 0 <= i < after.entries@.len() implies after.paths()[i] == before.paths().push(p)[i] by {
        assert(after.entries_view()[i].0 == after.entries@[i].path@);
        if i < before.entries@.len() {
            assert(before.entries_view()[i].0 == before.entries@[i].path@);
        }
    }
    assert(after.paths() =~= before.paths().push(p));
}

/// With fresh paths, the next one is clean and not taken.
proof fn lemma_fresh_step(w0: AsarWriter, w: AsarWriter, ps: Seq<Seq<char>>, i: int)
    requires
        0 <= i < ps.len(),
        w.paths() == w0.paths() + ps.subrange(0, i),
    ensures
        fresh_paths(w0, ps) ==> clean_path(ps[i]) && !w.has_path(ps[i]),
{
    if fresh_paths(w0, ps) {
        assert(clean_path(ps[i]));
        assert(w.paths().len() == w.entries@.len());
        assert(w0.paths().len() == w0.entries@.len());
        if w.has_path(ps[i]) {
            let m = choose|m: int| 0 <= m < w.entries@.len() && #[trigger] w.entries@[m].path@ == ps[i];
            assert(w.paths()[m] == ps[i]);
            if m < w0.entries@.len() {
                assert(w0.paths()[m] == w0.entries@[m].path@);
                assert(w0.has_path(ps[i]));
            } else {
                let j = m - w0.entries@.len();
                assert(0 <= j < i);
                assert(w.paths()[m] == ps.subrange(0, i)[j]);
                assert(ps.subrange(0, i)[j] == ps[j]);
            }
        }
    }
}

/// Once a path has been written, it is taken: writing to it again is refused
/// with `FileAlreadyWritten` and leaves the session as it was.
pub proof fn lemma_written_path_is_taken(before: AsarWriter, after: AsarWriter, p: Seq<char>, n: Node)
    requires
        after.entries_view() == before.entries_view().push((p, n)),
    ensures
        after.has_path(p),
{
    let k = before.entries_view().len() as int;
    assert(after.entries_view().len() == after.entries@.len());
    assert(after.entries_view()[k] == (p, n));
    assert(after.entries@[k].path@ == p);
}

/// A session with no entries ends in an empty root directory, which reads back
/// as no files, no directories and no links.
pub proof fn lemma_empty_archive(w: AsarWriter, h: Header, src: Source)
    requires
        w.entries@.len() == 0,
        node_of(h) == build(w.placed()),
    ensures
        h matches Header::Directory { files } && files@.len() == 0,
        reader_spec(h, src) == Ok::<
            (Seq<FileEntry>, Seq<(Seq<char>, Seq<Seq<char>>)>, Seq<(Seq<char>, Seq<char>)>),
            ErrorView,
        >((Seq::empty(), Seq::empty(), Seq::empty())),
{
    assert(w.placed().len() == 0);
    match h {
        Header::Directory { files } => {
            lemma_nodes_of(files@);
        },
        _ => {},
    }
    lemma_empty_tree_reads_empty(h, src);
}

proof fn lemma_first_mismatch_equal(a: Seq<Seq<u8>>, k: nat)
    requires
        k <= a.len(),
    ensures
        first_mismatch(a, a, k) == a.len(),
    decreases a.len() - k,
{
    if k < a.len() {
        lemma_first_mismatch_equal(a, k + 1);
    }
}

proof fn lemma_first_mismatch_at(a: Seq<Seq<u8>>, b: Seq<Seq<u8>>, j: nat, k: nat)
    requires
        j <= k < a.len(),
        k < b.len(),
        forall|i: int| j <= i < k ==> a[i] == b[i],
        a[k as int] != b[k as int],
    ensures
        first_mismatch(a, b, j) == k,
    decreases k - j,
{
    if j < k {
        lemma_first_mismatch_at(a, b, j + 1, k);
    }
}

proof fn lemma_subrange_of_tail(s: Seq<u8>, a: int, b: int, c: int)
    requires
        0 <= a,
        0 <= b <= c,
        a + c <= s.len(),
    ensures
        s.subrange(a, s.len() as int).subrange(b, c) == s.subrange(a + b, a + c),
{
    assert(s.subrange(a, s.len() as int).subrange(b, c) =~= s.subrange(a + b, a + c));
}

proof fn lemma_archive_slice(json: Seq<u8>, buffer: Seq<u8>, base: nat, len: nat)
    requires
        base + len <= buffer.len(),
        json.len() + 19 <= usize::MAX,
        json.len() + 11 <= u32::MAX,
    ensures
        archive_spec(json, buffer).subrange(
            16 + aligned(json.len()) + base as int,
            16 + aligned(json.len()) + base + len as int,
        ) == buffer.subrange(base as int, base + len as int),
{
    lemma_frame_round_trip(json, buffer);
    let d = archive_spec(json, buffer);
    let h: int = 16 + aligned(json.len()) as int;
    assert(d.subrange(h, d.len() as int) == buffer);
    assert(d.subrange(h, d.len() as int).len() == buffer.len());
    lemma_subrange_of_tail(d, h, base as int, base + len as int);
}

/// A file that a session wrote at `base` in its buffer, read back from an
/// archive laid out around that buffer, has exactly the written bytes, and
/// its digests check out.
pub proof fn lemma_written_file_reads_back(
    alg: HashAlgorithm,
    base: nat,
    bytes: Seq<u8>,
    executable: bool,
    buffer: Seq<u8>,
    json: Seq<u8>,
    path: Seq<char>,
    unpacked: Option<Seq<(Seq<char>, Seq<u8>)>>,
    verify: bool,
)
    requires
        base + bytes.len() <= buffer.len(),
        buffer.subrange(base as int, (base + bytes.len()) as int) == bytes,
        base <= usize::MAX,
        json.len() + 19 <= usize::MAX,
        json.len() + 11 <= u32::MAX,
    ensures
        written_file(alg, base, bytes, executable) matches Node::File(f) && resolve(
            Source {
                data: archive_spec(json, buffer),
                offset: 16 + aligned(json.len()),
                unpacked,
                verify,
            },
            path,
            f,
        ) == Ok::<FileEntry, ErrorView>(
            FileEntry { path, data: bytes, executable, integrity: f.integrity },
        ),
{
    let src = Source {
        data: archive_spec(json, buffer),
        offset: 16 + aligned(json.len()),
        unpacked,
        verify,
    };
    lemma_archive_slice(json, buffer, base, bytes.len());
    lemma_frame_round_trip(json, buffer);
    assert((base as usize) as nat == base);
    if let Node::File(f) = written_file(alg, base, bytes, executable) {
        assert(content_spec(src, path, f) == Ok::<Seq<u8>, ErrorView>(bytes));
        let i = f.integrity->0;
        assert(actual_blocks(i, bytes) == i.blocks);
        lemma_first_mismatch_equal(i.blocks, 0);
        assert(integrity_error(path, bytes, i) is None);
    }
}

/// Changing one byte of a file that a session wrote changes the block holding
/// it; where that block's digest changes too, the integrity check names the
/// file and that block, counted from 1, since every block before it is
/// untouched.
pub proof fn lemma_flipped_byte_detected(
    alg: HashAlgorithm,
    base: nat,
    bytes: Seq<u8>,
    executable: bool,
    path: Seq<char>,
    p: int,
    b: u8,
)
    requires
        0 <= p < bytes.len(),
        digest_of(alg, block_of(bytes.update(p, b), BLOCK_SIZE as nat, p / BLOCK_SIZE as int))
            != digest_of(alg, block_of(bytes, BLOCK_SIZE as nat, p / BLOCK_SIZE as int)),
    ensures
        written_file(alg, base, bytes, executable) matches Node::File(f) && integrity_error(
            path,
            bytes.update(p, b),
            f.integrity->0,
        ) == Some(
            ErrorView::HashMismatch {
                file: path,
                block: Some((p / BLOCK_SIZE as int + 1) as nat),
                expected: digest_of(alg, block_of(bytes, BLOCK_SIZE as nat, p / BLOCK_SIZE as int)),
                actual: digest_of(
                    alg,
                    block_of(bytes.update(p, b), BLOCK_SIZE as nat, p / BLOCK_SIZE as int),
                ),
            },
        ),
{
    let n = BLOCK_SIZE as nat;
    let k = p / BLOCK_SIZE as int;
    let flipped = bytes.update(p, b);
    assert(k * n <= p < (k + 1) * n);
    assert(k >= 0);
    if let Node::File(f) = written_file(alg, base, bytes, executable) {
        let i = f.integrity->0;
        let stored = i.blocks;
        let actual = actual_blocks(i, flipped);
        assert(stored == block_digests(alg, bytes, n));
        assert(actual == block_digests(alg, flipped, n));
        assert(k < block_count(bytes.len(), n)) by {
            if k >= block_count(bytes.len(), n) {
                crate::integrity::lemma_block_digests_deterministic(alg, bytes, bytes, n);
                assert(block_count(bytes.len(), n) * n >= bytes.len());
            }
        }
        assert forall|j: int| 0 <= j < k implies stored[j] == actual[j] by {
            assert((j + 1) * n <= k * n);
            assert(block_of(flipped, n, j) =~= block_of(bytes, n, j));
        }
        lemma_first_mismatch_at(stored, actual, 0, k as nat);
    }
}

/// Where a reader of the archive laid out around `json` and `buffer` takes its
/// content from.
pub open spec fn archive_source(
    json: Seq<u8>,
    buffer: Seq<u8>,
    unpacked: Option<Seq<(Seq<char>, Seq<u8>)>>,
    verify: bool,
) -> Source {
    Source { data: archive_spec(json, buffer), offset: 16 + aligned(json.len()), unpacked, verify }
}

proof fn lemma_placed_leaves(w: AsarWriter)
    requires
        w.wf(),
    ensures
        leaf_entries(w.placed()),
        forall|i: int|
            0 <= i < w.entries@.len() ==> path_from(Seq::empty(), (#[trigger] w.placed()[i]).0)
                == w.entries@[i].path@,
{
    let es = w.placed();
    assert forall|i: int| 0 <= i < es.len() implies (#[trigger] es[i]).0.len() > 0 && !(es[i].1 is Dir) by {
        let e = w.entries@[i];
        assert(consistent(w.hasher, w.buffer@, node_of(e.node)));
    }
    assert forall|i: int| 0 <= i < w.entries@.len() implies path_from(
        Seq::empty(),
        (#[trigger] w.placed()[i]).0,
    ) == w.entries@[i].path@ by {
        let e = w.entries@[i];
        let sv = seg_views(e.segments@);
        assert(es[i].0 == sv);
        assert forall|k: int| 0 <= k < sv.len() implies (#[trigger] sv[k]).len() > 0 by {
            assert(sv[k] == e.segments@[k]@);
        }
        lemma_path_from_joined(Seq::empty(), sv);
    }
}

/// A file of the tree a session builds reads back as the bytes stored for one
/// of its file entries, at that entry's path.
proof fn lemma_leaf_reads_back(
    w: AsarWriter,
    json: Seq<u8>,
    unpacked: Option<Seq<(Seq<char>, Seq<u8>)>>,
    verify: bool,
    x: (Seq<char>, FileView),
) -> (i: int)
    requires
        w.wf(),
        json.len() + 19 <= usize::MAX,
        json.len() + 11 <= u32::MAX,
        node_leaves(build(w.placed()), Seq::empty()).contains(x),
    ensures
        0 <= i < w.entries@.len(),
        w.is_file(i),
        x.0 == w.entries@[i].path@,
        node_of(w.entries@[i].node) == Node::File(x.1),
        resolve(archive_source(json, w.buffer@, unpacked, verify), x.0, x.1) == Ok::<
            FileEntry,
            ErrorView,
        >(FileEntry { path: x.0, data: w.stored(i), executable: x.1.executable, integrity: x.1.integrity }),
{
    let es = w.placed();
    lemma_placed_leaves(w);
    lemma_build_leaves(es, Seq::empty(), x);
    let i = choose|i: int|
        0 <= i < es.len() && (#[trigger] es[i]).1 == Node::File(x.1) && x.0 == path_from(
            Seq::empty(),
            es[i].0,
        );
    let e = w.entries@[i];
    assert(es[i].1 == node_of(e.node));
    assert(consistent(w.hasher, w.buffer@, node_of(e.node)));
    let f = x.1;
    if let FileLocation::Offset { offset } = f.location {
        let content = w.buffer@.subrange(offset as int, offset + f.size);
        lemma_written_file_reads_back(
            w.hasher,
            offset as nat,
            content,
            f.executable,
            w.buffer@,
            json,
            x.0,
            unpacked,
            verify,
        );
    }
    i
}

/// Whether the file table `files` holds, for each file entry of `w`, a file at
/// its path with the bytes stored for it, and no file but such ones.
pub open spec fn files_match(w: AsarWriter, files: Seq<FileEntry>) -> bool {
    &&& forall|i: int|
        0 <= i < w.entries@.len() && w.is_file(i) ==> exists|k: int|
            0 <= k < files.len() && (#[trigger] files[k]).path == w.entries@[i].path@ && files[k].data
                == w.stored(i)
    &&& forall|k: int|
        0 <= k < files.len() ==> exists|i: int|
            0 <= i < w.entries@.len() && w.is_file(i) && (#[trigger] files[k]).path
                == w.entries@[i].path@ && files[k].data == w.stored(i)
}

/// Round trip: finalizing a session whose entry paths are none a prefix of
/// another, and reading the archive back, gives for each file entry a file at
/// its path with the bytes stored for it, and no file but such ones. The bytes
/// stored for an entry are those it was written with (see `write_file`).
pub proof fn lemma_round_trip(
    w: AsarWriter,
    h: Header,
    json: Seq<u8>,
    unpacked: Option<Seq<(Seq<char>, Seq<u8>)>>,
    verify: bool,
)
    requires
        w.wf(),
        prefix_free(w.placed()),
        node_of(h) == build(w.placed()),
        json.len() + 19 <= usize::MAX,
        json.len() + 11 <= u32::MAX,
    ensures
        reader_spec(h, archive_source(json, w.buffer@, unpacked, verify)) matches Ok((files, _, _))
            && files_match(w, files),
{
    let src = archive_source(json, w.buffer@, unpacked, verify);
    let es = w.placed();
    let leaves = file_leaves(h, Seq::empty());
    lemma_file_leaves_node(h, Seq::empty());
    lemma_placed_leaves(w);
    assert(leaves == node_leaves(build(es), Seq::empty()));
    assert forall|k: int| 0 <= k < leaves.len() implies (#[trigger] resolve(src, leaves[k].0, leaves[k].1)) is Ok by {
        assert(leaves.contains(leaves[k]));
        lemma_leaf_reads_back(w, json, unpacked, verify, leaves[k]);
    }
    lemma_resolve_all_ok(src, leaves);
    let files = Seq::new(leaves.len(), |k: int| resolve(src, leaves[k].0, leaves[k].1)->Ok_0);
    assert(reader_spec(h, src) == Ok::<
        (Seq<FileEntry>, Seq<(Seq<char>, Seq<Seq<char>>)>, Seq<(Seq<char>, Seq<char>)>),
        ErrorView,
    >((files, crate::reader::dir_entries(h, Seq::empty()), crate::reader::link_leaves(h, Seq::empty()))));
    assert forall|i: int| 0 <= i < w.entries@.len() && w.is_file(i) implies exists|k: int|
        0 <= k < files.len() && (#[trigger] files[k]).path == w.entries@[i].path@ && files[k].data
            == w.stored(i) by {
        let f = node_of(w.entries@[i].node)->File_0;
        assert(es[i].1 == Node::File(f));
        lemma_build_finds_entries(es, i);
        lemma_lookup_in_leaves(build(es), es[i].0, Seq::empty(), f);
        let x = (path_from(Seq::empty(), es[i].0), f);
        let k = choose|k: int| 0 <= k < leaves.len() && leaves[k] == x;
        let j = lemma_leaf_reads_back(w, json, unpacked, verify, x);
        assert(w.entries@[j].path@ == w.entries@[i].path@);
        if j != i {
            if j < i {
                assert(w.entries@[j].path@ != w.entries@[i].path@);
            } else {
                assert(w.entries@[i].path@ != w.entries@[j].path@);
            }
        }
        assert(files[k].path == w.entries@[i].path@);
    }
    assert forall|k: int| 0 <= k < files.len() implies exists|i: int|
        0 <= i < w.entries@.len() && w.is_file(i) && (#[trigger] files[k]).path
            == w.entries@[i].path@ && files[k].data == w.stored(i) by {
        assert(leaves.contains(leaves[k]));
        let i = lemma_leaf_reads_back(w, json, unpacked, verify, leaves[k]);
    }
    assert(files_match(w, files));
}

} // verus!
