use vstd::prelude::*;
use crate::keys::{
    child_prefix, copy_range, has_prefix, immediate_child_prefix, key_parent, parent_of,
    starts_with, stripped, strip_zip_path_prefix, valid_key, valid_prefix, validate_key,
    validate_prefix, SLASH,
};
use crate::order::{
    lemma_between_prefix, lemma_lex_le_total, lemma_lex_le_trans, lemma_prefix_le, lex_le, name_le,
};

verus! {

broadcast use vstd::seq_lib::group_to_multiset_ensures;

/// What an archive entry is.
#[derive(Clone, Copy, Debug, PartialEq, Eq, Structural)]
pub enum EntryKind {
    File,
    Directory,
    Symlink,
}

/// One entry of the archive's central directory, as the archive parser
/// reports it.
#[derive(Debug)]
pub struct ArchiveEntry {
    /// Path inside the archive, as UTF-8 bytes.
    pub name: Vec<u8>,
    pub kind: EntryKind,
    /// The entry's bytes are held verbatim (no compression).
    pub stored: bool,
    /// Offset of the entry's local header within the archive.
    pub header_offset: u64,
    pub compressed_size: u64,
    pub uncompressed_size: u64,
}

/// The plain values of an [`ArchiveEntry`].
pub struct EntryView {
    pub name: Seq<u8>,
    pub kind: EntryKind,
    pub stored: bool,
    pub header_offset: u64,
    pub compressed_size: u64,
    pub uncompressed_size: u64,
}

impl View for ArchiveEntry {
    type V = EntryView;

    open spec fn view(&self) -> EntryView {
        EntryView {
            name: self.name@,
            kind: self.kind,
            stored: self.stored,
            header_offset: self.header_offset,
            compressed_size: self.compressed_size,
            uncompressed_size: self.uncompressed_size,
        }
    }
}

/// A name in the index: a file key, or a directory prefix.
#[derive(Debug)]
pub struct IndexedKey {
    pub name: Vec<u8>,
    pub is_file: bool,
}

impl View for IndexedKey {
    type V = (Seq<u8>, bool);

    open spec fn view(&self) -> (Seq<u8>, bool) {
        (self.name@, self.is_file)
    }
}

/// Why an index could not be built.
#[derive(Debug)]
pub enum IndexError {
    /// A file's name under the root is not a well-formed store key.
    InvalidKey(Vec<u8>),
    /// A directory's name under the root is not a well-formed store prefix.
    InvalidPrefix(Vec<u8>),
}

/// The keys directly under a prefix, and the prefixes one segment below it.
#[derive(Debug)]
pub struct ListDir {
    pub keys: Vec<Vec<u8>>,
    pub prefixes: Vec<Vec<u8>>,
}

/// The index of an archive: its file entries, renamed relative to the root,
/// and all its names in sorted order.
#[derive(Debug)]
pub struct ZipIndex {
    /// File entries in archive order, named by their store key.
    pub files: Vec<ArchiveEntry>,
    /// Keys and prefixes, sorted by name.
    pub sorted: Vec<IndexedKey>,
    /// Total byte length of the archive.
    pub archive_size: u64,
}

pub open spec fn views(s: Seq<IndexedKey>) -> Seq<(Seq<u8>, bool)> {
    s.map_values(|k: IndexedKey| k@)
}

pub open spec fn entry_views(s: Seq<ArchiveEntry>) -> Seq<EntryView> {
    s.map_values(|e: ArchiveEntry| e@)
}

pub open spec fn byte_views(s: Seq<Vec<u8>>) -> Seq<Seq<u8>> {
    s.map_values(|v: Vec<u8>| v@)
}

/// Sorted by name, in the order of [`lex_le`].
pub open spec fn sorted_by_name(s: Seq<(Seq<u8>, bool)>) -> bool {
    forall|a: int, b: int| 0 <= a < b < s.len() ==> lex_le(s[a].0, s[b].0)
}

/// The index name an archive entry gets under `root`, if any: files become
/// keys, directories prefixes; symlinks and the root itself are left out.
pub open spec fn item_of(e: EntryView, root: Seq<u8>) -> Option<(Seq<u8>, bool)> {
    match stripped(e.name, root) {
        None => None,
        Some(n) => match e.kind {
            EntryKind::File => Some((n, true)),
            EntryKind::Directory => Some((n, false)),
            EntryKind::Symlink => None,
        },
    }
}

/// A name is well formed for its kind.
pub open spec fn item_ok(it: (Seq<u8>, bool)) -> bool {
    if it.1 {
        valid_key(it.0)
    } else {
        valid_prefix(it.0)
    }
}

/// Every entry of `es` that gets a name gets a well-formed one.
pub open spec fn entries_valid(es: Seq<EntryView>, root: Seq<u8>) -> bool {
    forall|i: int|
        0 <= i < es.len() ==> (#[trigger] item_of(es[i], root) matches Some(it) ==> item_ok(it))
}

/// The index names of `es`, in archive order.
pub open spec fn index_items(es: Seq<EntryView>, root: Seq<u8>) -> Seq<(Seq<u8>, bool)>
    decreases es.len(),
{
    if es.len() == 0 {
        Seq::empty()
    } else {
        let r = index_items(es.drop_last(), root);
        match item_of(es.last(), root) {
            Some(it) => r.push(it),
            None => r,
        }
    }
}

/// The file entries of `es`, in archive order, named by their key under `root`.
pub open spec fn file_records(es: Seq<EntryView>, root: Seq<u8>) -> Seq<EntryView>
    decreases es.len(),
{
    if es.len() == 0 {
        Seq::empty()
    } else {
        let r = file_records(es.drop_last(), root);
        let e = es.last();
        match item_of(e, root) {
            Some(it) => if it.1 {
                r.push(EntryView { name: it.0, ..e })
            } else {
                r
            },
            None => r,
        }
    }
}

/// The entry that a key stands for: the last file entry of that name.
pub open spec fn lookup(fs: Seq<EntryView>, k: Seq<u8>) -> Option<EntryView>
    decreases fs.len(),
{
    if fs.len() == 0 {
        None
    } else if fs.last().name == k {
        Some(fs.last())
    } else {
        lookup(fs.drop_last(), k)
    }
}

/// The file keys of `s` that start with `p`, in the order of `s`.
pub open spec fn file_keys(s: Seq<(Seq<u8>, bool)>, p: Seq<u8>) -> Seq<Seq<u8>>
    decreases s.len(),
{
    if s.len() == 0 {
        Seq::empty()
    } else {
        let r = file_keys(s.drop_last(), p);
        if s.last().1 && starts_with(s.last().0, p) {
            r.push(s.last().0)
        } else {
            r
        }
    }
}

/// The file keys of `s` that lie directly under `p`.
pub open spec fn dir_keys(s: Seq<(Seq<u8>, bool)>, p: Seq<u8>) -> Seq<Seq<u8>>
    decreases s.len(),
{
    if s.len() == 0 {
        Seq::empty()
    } else {
        let r = dir_keys(s.drop_last(), p);
        if s.last().1 && starts_with(s.last().0, p) && parent_of(s.last().0) == p {
            r.push(s.last().0)
        } else {
            r
        }
    }
}

/// `s` is one path segment, with any number of trailing separators.
pub open spec fn one_segment(s: Seq<u8>) -> bool {
    s.len() > 0 && forall|i: int| 0 <= i < s.len() - 1 ==> s[i] == SLASH ==> #[trigger] s[i + 1] == SLASH
}

/// The prefix one segment below `p` that index name `it` shows up as in a
/// listing of `p`, if any.
pub open spec fn dir_entry_of(it: (Seq<u8>, bool), p: Seq<u8>) -> Option<Seq<u8>> {
    if !starts_with(it.0, p) {
        None
    } else if it.1 {
        if parent_of(it.0) == p {
            None
        } else {
            child_prefix(it.0, p)
        }
    } else if one_segment(it.0.subrange(p.len() as int, it.0.len() as int)) {
        Some(it.0)
    } else {
        None
    }
}

/// The prefixes of a listing of `p`, in the order of `s`, with runs of equal
/// ones collapsed.
pub open spec fn dir_prefixes(s: Seq<(Seq<u8>, bool)>, p: Seq<u8>) -> Seq<Seq<u8>>
    decreases s.len(),
{
    if s.len() == 0 {
        Seq::empty()
    } else {
        let r = dir_prefixes(s.drop_last(), p);
        match dir_entry_of(s.last(), p) {
            Some(c) => if r.len() > 0 && r.last() == c {
                r
            } else {
                r.push(c)
            },
            None => r,
        }
    }
}

/// Sum of the compressed sizes of the files of `s` under `p`.
pub open spec fn compressed_total(s: Seq<(Seq<u8>, bool)>, fs: Seq<EntryView>, p: Seq<u8>) -> int
    decreases s.len(),
{
    if s.len() == 0 {
        0
    } else {
        let r = compressed_total(s.drop_last(), fs, p);
        if s.last().1 && starts_with(s.last().0, p) {
            match lookup(fs, s.last().0) {
                Some(e) => r + e.compressed_size,
                None => r,
            }
        } else {
            r
        }
    }
}

proof fn lemma_insert_sorted(s: Seq<(Seq<u8>, bool)>, pos: int, x: (Seq<u8>, bool))
    requires
        sorted_by_name(s),
        0 <= pos <= s.len(),
        forall|j: int| 0 <= j < pos ==> lex_le(#[trigger] s[j].0, x.0),
        pos < s.len() ==> lex_le(x.0, s[pos].0),
    ensures
        sorted_by_name(s.insert(pos, x)),
{
    assert forall|k: int| pos <= k < s.len() implies lex_le(x.0, #[trigger] s[k].0) by {
        if k > pos {
            lemma_lex_le_trans(x.0, s[pos].0, s[k].0);
        }
    }
    let t = s.insert(pos, x);
    assert forall|a: int, b: int| 0 <= a < b < t.len() implies lex_le(t[a].0, t[b].0) by {
        if b < pos {
        } else if b == pos {
            assert(t[a] == s[a]);
        } else if a < pos {
            assert(t[a] == s[a]);
            assert(t[b] == s[b - 1]);
            lemma_lex_le_trans(s[a].0, x.0, s[b - 1].0);
        } else if a == pos {
            assert(t[b] == s[b - 1]);
        } else {
            assert(t[a] == s[a - 1]);
            assert(t[b] == s[b - 1]);
        }
    }
}

/// Whether `a` and `b` hold the same bytes.
pub fn bytes_eq(a: &[u8], b: &[u8]) -> (r: bool)
    ensures
        r == (a@ == b@),
{
    if a.len() != b.len() {
        return false;
    }
    let mut i: usize = 0;
    while i < a.len()
        invariant
            a.len() == b.len(),
            i <= a.len(),
            forall|j: int| 0 <= j < i ==> a@[j] == b@[j],
        decreases a.len() - i,
    {
        if a[i] != b[i] {
            return false;
        }
        i += 1;
    }
    proof {
        assert(a@ =~= b@);
    }
    true
}

/// Whether `s[lo..]` is one path segment with any trailing separators.
fn one_segment_from(s: &[u8], lo: usize) -> (r: bool)
    requires
        lo <= s.len(),
    ensures
        r == one_segment(s@.subrange(lo as int, s.len() as int)),
{
    let ghost t = s@.subrange(lo as int, s.len() as int);
    if lo == s.len() {
        return false;
    }
    let mut i: usize = lo;
    while i + 1 < s.len()
        invariant
            lo <= i < s.len(),
            t == s@.subrange(lo as int, s.len() as int),
            forall|j: int| 0 <= j < i - lo ==> t[j] == SLASH ==> #[trigger] t[j + 1] == SLASH,
        decreases s.len() - i,
    {
        if s[i] == SLASH && s[i + 1] != SLASH {
            proof {
                assert(t[i - lo] == SLASH && t[i - lo + 1] != SLASH);
            }
            return false;
        }
        i += 1;
    }
    true
}

/// Names that do not start with `p` add nothing to what is listed or
/// summed under `p`.
proof fn lemma_tail_outside_prefix(
    s: Seq<(Seq<u8>, bool)>,
    fs: Seq<EntryView>,
    p: Seq<u8>,
    k: int,
)
    requires
        0 <= k <= s.len(),
        forall|i: int| k <= i < s.len() ==> !starts_with(#[trigger] s[i].0, p),
    ensures
        file_keys(s, p) == file_keys(s.subrange(0, k), p),
        dir_keys(s, p) == dir_keys(s.subrange(0, k), p),
        dir_prefixes(s, p) == dir_prefixes(s.subrange(0, k), p),
        compressed_total(s, fs, p) == compressed_total(s.subrange(0, k), fs, p),
    decreases s.len(),
{
    if s.len() > k {
        let t = s.drop_last();
        assert(!starts_with(s[s.len() - 1].0, p));
        lemma_tail_outside_prefix(t, fs, p, k);
        assert(t.subrange(0, k) =~= s.subrange(0, k));
    } else {
        assert(s.subrange(0, k) =~= s);
    }
}

proof fn lemma_none_under_prefix(s: Seq<(Seq<u8>, bool)>, fs: Seq<EntryView>, p: Seq<u8>)
    requires
        forall|i: int| 0 <= i < s.len() ==> !starts_with(#[trigger] s[i].0, p),
    ensures
        file_keys(s, p) == Seq::<Seq<u8>>::empty(),
        dir_keys(s, p) == Seq::<Seq<u8>>::empty(),
        dir_prefixes(s, p) == Seq::<Seq<u8>>::empty(),
        compressed_total(s, fs, p) == 0,
{
    lemma_tail_outside_prefix(s, fs, p, 0);
    assert(file_keys(s.subrange(0, 0), p) == Seq::<Seq<u8>>::empty());
    assert(dir_keys(s.subrange(0, 0), p) == Seq::<Seq<u8>>::empty());
    assert(dir_prefixes(s.subrange(0, 0), p) == Seq::<Seq<u8>>::empty());
}

impl ZipIndex {
    /// Names are sorted and well formed for their kind.
    pub open spec fn wf(&self) -> bool {
        &&& sorted_by_name(views(self.sorted@))
        &&& forall|i: int| 0 <= i < self.sorted@.len() ==> item_ok(#[trigger] self.sorted@[i]@)
    }

    /// Builds the index of an archive of `archive_size` bytes from its
    /// entries, exposing what lies under `root` relative to it. Fails on the
    /// first name that is not well formed for its kind.
    pub fn build(entries: Vec<ArchiveEntry>, root: &[u8], archive_size: u64) -> (r: Result<
        ZipIndex,
        IndexError,
    >)
        ensures
            r is Ok <==> entries_valid(entry_views(entries@), root@),
            r matches Ok(ix) ==> {
                &&& ix.wf()
                &&& ix.archive_size == archive_size
                &&& views(ix.sorted@).to_multiset() == index_items(
                    entry_views(entries@),
                    root@,
                ).to_multiset()
                &&& entry_views(ix.files@) == file_records(entry_views(entries@), root@)
            },
            r matches Err(IndexError::InvalidKey(n)) ==> exists|i: int|
                0 <= i < entries@.len() && #[trigger] item_of(entries@[i]@, root@) == Some(
                    (n@, true),
                ) && !valid_key(n@),
            r matches Err(IndexError::InvalidPrefix(n)) ==> exists|i: int|
                0 <= i < entries@.len() && #[trigger] item_of(entries@[i]@, root@) == Some(
                    (n@, false),
                ) && !valid_prefix(n@),
    {
        let ghost es = entry_views(entries@);
        let mut files: Vec<ArchiveEntry> = Vec::new();
        let mut sorted: Vec<IndexedKey> = Vec::new();
        let mut i: usize = 0;
        while i < entries.len()
            invariant
                es == entry_views(entries@),
                i <= entries.len(),
                sorted_by_name(views(sorted@)),
                forall|j: int| 0 <= j < sorted@.len() ==> item_ok(#[trigger] sorted@[j]@),
                views(sorted@).to_multiset() == index_items(es.subrange(0, i as int), root@).to_multiset(),
                entry_views(files@) == file_records(es.subrange(0, i as int), root@),
                forall|j: int| 0 <= j < i ==> (#[trigger] item_of(es[j], root@) matches Some(it) ==> item_ok(it)),
            decreases entries.len() - i,
        {
            let e = &entries[i];
            proof {
                assert(es.subrange(0, i + 1).drop_last() =~= es.subrange(0, i as int));
                assert(es[i as int] == e@);
            }
            let ghost before = views(sorted@);
            let ghost files_before = entry_views(files@);
            proof {
                assert(es.subrange(0, i + 1).last() == e@);
            }
            match strip_zip_path_prefix(&e.name, root) {
                None => {},
                Some(n) => {
                    if e.kind != EntryKind::Symlink {
                        let is_file = e.kind == EntryKind::File;
                        if is_file && !validate_key(&n) {
                            proof {
                                assert(item_of(es[i as int], root@) == Some((n@, true)));
                                assert(item_of(entries@[i as int]@, root@) == Some((n@, true)));
                            }
                            return Err(IndexError::InvalidKey(n));
                        }
                        if !is_file && !validate_prefix(&n) {
                            proof {
                                assert(item_of(es[i as int], root@) == Some((n@, false)));
                                assert(item_of(entries@[i as int]@, root@) == Some((n@, false)));
                            }
                            return Err(IndexError::InvalidPrefix(n));
                        }
                        let mut pos: usize = 0;
                        while pos < sorted.len() && name_le(&sorted[pos].name, &n)
                            invariant
                                pos <= sorted@.len(),
                                before == views(sorted@),
                                forall|j: int| 0 <= j < pos ==> lex_le(#[trigger] before[j].0, n@),
                            decreases sorted.len() - pos,
                        {
                            pos += 1;
                        }
                        proof {
                            if pos < sorted.len() {
                                lemma_lex_le_total(n@, before[pos as int].0);
                            }
                            lemma_insert_sorted(before, pos as int, (n@, is_file));
                        }
                        if is_file {
                            let copy = copy_range(&n, 0, n.len());
                            proof {
                                assert(copy@ =~= n@);
                            }
                            files.push(ArchiveEntry {
                                name: copy,
                                kind: e.kind,
                                stored: e.stored,
                                header_offset: e.header_offset,
                                compressed_size: e.compressed_size,
                                uncompressed_size: e.uncompressed_size,
                            });
                            proof {
                                assert(entry_views(files@) =~= files_before.push(
                                    EntryView { name: n@, ..e@ },
                                ));
                            }
                        }
                        sorted.insert(pos, IndexedKey { name: n, is_file });
                        proof {
                            assert(views(sorted@) =~= before.insert(pos as int, (n@, is_file)));
                        }
                    }
                },
            }
            proof {
                assert(entry_views(files@) =~= file_records(es.subrange(0, i + 1), root@));
            }
            i += 1;
        }
        proof {
            assert(es.subrange(0, i as int) =~= es);
        }
        Ok(ZipIndex { files, sorted, archive_size })
    }
    /// The run of sorted names that start with `prefix`, found by two binary
    /// searches: sorted names sharing a prefix stand together.
    pub fn entries_with_prefix(&self, prefix: &[u8]) -> (r: (usize, usize))
        requires
            self.wf(),
        ensures
            r.0 <= r.1 <= self.sorted@.len(),
            forall|i: int| 0 <= i < r.0 ==> !starts_with(#[trigger] self.sorted@[i].name@, prefix@),
            forall|i: int| r.0 <= i < r.1 ==> starts_with(#[trigger] self.sorted@[i].name@, prefix@),
            forall|i: int|
                r.1 <= i < self.sorted@.len() ==> !starts_with(#[trigger] self.sorted@[i].name@, prefix@),
    {
        let ghost s = views(self.sorted@);
        let n = self.sorted.len();
        assert(forall|i: int| 0 <= i < n ==> s[i].0 == #[trigger] self.sorted@[i].name@);
        let mut lo: usize = 0;
        let mut hi: usize = n;
        while lo < hi
            invariant
                s == views(self.sorted@),
                n == s.len(),
                sorted_by_name(s),
                lo <= hi <= n,
                forall|i: int| 0 <= i < lo ==> !lex_le(prefix@, #[trigger] s[i].0),
                forall|i: int| hi <= i < n ==> lex_le(prefix@, #[trigger] s[i].0),
            decreases hi - lo,
        {
            let mid = lo + (hi - lo) / 2;
            if !name_le(prefix, &self.sorted[mid].name) {
                assert forall|i: int| 0 <= i <= mid implies !lex_le(prefix@, #[trigger] s[i].0) by {
                    if i < mid && lex_le(prefix@, s[i].0) {
                        lemma_lex_le_trans(prefix@, s[i].0, s[mid as int].0);
                    }
                }
                lo = mid + 1;
            } else {
                assert forall|i: int| mid <= i < n implies lex_le(prefix@, #[trigger] s[i].0) by {
                    if i > mid {
                        lemma_lex_le_trans(prefix@, s[mid as int].0, s[i].0);
                    }
                }
                hi = mid;
            }
        }
        let start = lo;
        assert forall|i: int| 0 <= i < start implies !starts_with(#[trigger] s[i].0, prefix@) by {
            if starts_with(s[i].0, prefix@) {
                lemma_prefix_le(prefix@, s[i].0);
            }
        }
        let mut hi: usize = n;
        while lo < hi
            invariant
                s == views(self.sorted@),
                n == s.len(),
                sorted_by_name(s),
                start <= lo <= hi <= n,
                forall|i: int| start <= i < n ==> lex_le(prefix@, #[trigger] s[i].0),
                forall|i: int| start <= i < lo ==> starts_with(#[trigger] s[i].0, prefix@),
                forall|i: int| hi <= i < n ==> !starts_with(#[trigger] s[i].0, prefix@),
            decreases hi - lo,
        {
            let mid = lo + (hi - lo) / 2;
            if has_prefix(&self.sorted[mid].name, prefix) {
                assert forall|i: int| start <= i <= mid implies starts_with(#[trigger] s[i].0, prefix@) by {
                    if i < mid {
                        lemma_between_prefix(prefix@, s[i].0, s[mid as int].0);
                    }
                }
                lo = mid + 1;
            } else {
                assert forall|i: int| mid <= i < n implies !starts_with(#[trigger] s[i].0, prefix@) by {
                    if i > mid && starts_with(s[i].0, prefix@) {
                        lemma_between_prefix(prefix@, s[mid as int].0, s[i].0);
                    }
                }
                hi = mid;
            }
        }
        (start, lo)
    }

    /// Total byte length of the archive.
    pub fn size(&self) -> (r: u64)
        ensures
            r == self.archive_size,
    {
        self.archive_size
    }

    /// The file entry that `key` names, if any.
    pub fn get_entry(&self, key: &[u8]) -> (r: Option<&ArchiveEntry>)
        ensures
            r matches Some(e) ==> lookup(entry_views(self.files@), key@) == Some(e@),
            r is None ==> lookup(entry_views(self.files@), key@) is None,
    {
        let ghost fs = entry_views(self.files@);
        let mut i: usize = self.files.len();
        proof {
            assert(fs.subrange(0, i as int) =~= fs);
        }
        while i > 0
            invariant
                fs == entry_views(self.files@),
                i <= fs.len(),
                lookup(fs, key@) == lookup(fs.subrange(0, i as int), key@),
            decreases i,
        {
            proof {
                assert(fs.subrange(0, i as int).drop_last() =~= fs.subrange(0, i - 1));
            }
            if bytes_eq(&self.files[i - 1].name, key) {
                return Some(&self.files[i - 1]);
            }
            i -= 1;
        }
        None
    }

    /// The uncompressed size of the file that `key` names, if any.
    pub fn size_key(&self, key: &[u8]) -> (r: Option<u64>)
        ensures
            r == match lookup(entry_views(self.files@), key@) {
                Some(e) => Some(e.uncompressed_size),
                None => None,
            },
    {
        match self.get_entry(key) {
            Some(e) => Some(e.uncompressed_size),
            None => None,
        }
    }

    /// The file keys that start with `prefix`, in sorted order.
    pub fn list_prefix(&self, prefix: &[u8]) -> (r: Vec<Vec<u8>>)
        requires
            self.wf(),
        ensures
            byte_views(r@) == file_keys(views(self.sorted@), prefix@),
    {
        let ghost s = views(self.sorted@);
        let mut r: Vec<Vec<u8>> = Vec::new();
        let (lo, hi) = self.entries_with_prefix(prefix);
        proof {
            let fs0 = entry_views(self.files@);
            assert(forall|j: int| 0 <= j < s.len() ==> s[j].0 == #[trigger] self.sorted@[j].name@);
            let h = s.subrange(0, lo as int);
            assert forall|j: int| 0 <= j < h.len() implies !starts_with(#[trigger] h[j].0, prefix@) by {
                assert(h[j] == s[j]);
            }
            lemma_none_under_prefix(h, fs0, prefix@);
            assert forall|j: int| hi <= j < s.len() implies !starts_with(#[trigger] s[j].0, prefix@) by {}
            lemma_tail_outside_prefix(s, fs0, prefix@, hi as int);
        }
        let mut i: usize = lo;
        while i < hi
            invariant
                s == views(self.sorted@),
                lo <= i <= hi <= s.len(),
                byte_views(r@) == file_keys(s.subrange(0, i as int), prefix@),
            decreases s.len() - i,
        {
            let it = &self.sorted[i];
            proof {
                assert(s.subrange(0, i + 1).drop_last() =~= s.subrange(0, i as int));
                assert(s.subrange(0, i + 1).last() == it@);
            }
            if it.is_file && has_prefix(&it.name, prefix) {
                let k = copy_range(&it.name, 0, it.name.len());
                let ghost old_r = byte_views(r@);
                r.push(k);
                proof {
                    assert(k@ =~= it.name@);
                    assert(byte_views(r@) =~= old_r.push(it.name@));
                }
            }
            i += 1;
        }
        r
    }

    /// All file keys, in sorted order; directories are left out.
    pub fn list(&self) -> (r: Vec<Vec<u8>>)
        requires
            self.wf(),
        ensures
            byte_views(r@) == file_keys(views(self.sorted@), Seq::empty()),
    {
        let empty: Vec<u8> = Vec::new();
        proof {
            assert(empty@ =~= Seq::<u8>::empty());
        }
        self.list_prefix(empty.as_slice())
    }

    /// The keys directly under `prefix`, and the prefixes one segment below
    /// it: explicit directories, and those that deeper files lie under.
    pub fn list_dir(&self, prefix: &[u8]) -> (r: ListDir)
        requires
            self.wf(),
        ensures
            byte_views(r.keys@) == dir_keys(views(self.sorted@), prefix@),
            byte_views(r.prefixes@) == dir_prefixes(views(self.sorted@), prefix@),
    {
        let ghost s = views(self.sorted@);
        let mut keys: Vec<Vec<u8>> = Vec::new();
        let mut prefixes: Vec<Vec<u8>> = Vec::new();
        let (lo, hi) = self.entries_with_prefix(prefix);
        proof {
            let fs0 = entry_views(self.files@);
            assert(forall|j: int| 0 <= j < s.len() ==> s[j].0 == #[trigger] self.sorted@[j].name@);
            let h = s.subrange(0, lo as int);
            assert forall|j: int| 0 <= j < h.len() implies !starts_with(#[trigger] h[j].0, prefix@) by {
                assert(h[j] == s[j]);
            }
            lemma_none_under_prefix(h, fs0, prefix@);
            assert forall|j: int| hi <= j < s.len() implies !starts_with(#[trigger] s[j].0, prefix@) by {}
            lemma_tail_outside_prefix(s, fs0, prefix@, hi as int);
        }
        let mut i: usize = lo;
        while i < hi
            invariant
                s == views(self.sorted@),
                lo <= i <= hi <= s.len(),
                byte_views(keys@) == dir_keys(s.subrange(0, i as int), prefix@),
                byte_views(prefixes@) == dir_prefixes(s.subrange(0, i as int), prefix@),
            decreases s.len() - i,
        {
            let it = &self.sorted[i];
            proof {
                assert(s.subrange(0, i + 1).drop_last() =~= s.subrange(0, i as int));
                assert(s.subrange(0, i + 1).last() == it@);
            }
            let ghost old_k = byte_views(keys@);
            let ghost old_p = byte_views(prefixes@);
            if has_prefix(&it.name, prefix) {
                let mut found: Option<Vec<u8>> = None;
                if it.is_file {
                    let parent = key_parent(&it.name);
                    if bytes_eq(&parent, prefix) {
                        keys.push(copy_range(&it.name, 0, it.name.len()));
                        proof {
                            assert(it.name@.subrange(0, it.name@.len() as int) =~= it.name@);
                            assert(byte_views(keys@) =~= old_k.push(it.name@));
                        }
                    } else {
                        found = immediate_child_prefix(&it.name, prefix);
                    }
                } else if one_segment_from(&it.name, prefix.len()) {
                    let c = copy_range(&it.name, 0, it.name.len());
                    proof {
                        assert(c@ =~= it.name@);
                    }
                    found = Some(c);
                }
                match found {
                    Some(c) => {
                        let n = prefixes.len();
                        if n == 0 || !bytes_eq(&prefixes[n - 1], &c) {
                            prefixes.push(c);
                            proof {
                                assert(byte_views(prefixes@) =~= old_p.push(c@));
                            }
                        }
                    },
                    None => {},
                }
            }
            i += 1;
        }
        ListDir { keys, prefixes }
    }

    /// Sum of the compressed sizes of the files under `prefix`, saturating
    /// at `u64::MAX`.
    pub fn size_prefix(&self, prefix: &[u8]) -> (r: u64)
        requires
            self.wf(),
        ensures
            r as int == if compressed_total(views(self.sorted@), entry_views(self.files@), prefix@)
                > u64::MAX {
                u64::MAX as int
            } else {
                compressed_total(views(self.sorted@), entry_views(self.files@), prefix@)
            },
    {
        let ghost s = views(self.sorted@);
        let ghost fs = entry_views(self.files@);
        let mut acc: u64 = 0;
        let (lo, hi) = self.entries_with_prefix(prefix);
        proof {
            let fs0 = entry_views(self.files@);
            assert(forall|j: int| 0 <= j < s.len() ==> s[j].0 == #[trigger] self.sorted@[j].name@);
            let h = s.subrange(0, lo as int);
            assert forall|j: int| 0 <= j < h.len() implies !starts_with(#[trigger] h[j].0, prefix@) by {
                assert(h[j] == s[j]);
            }
            lemma_none_under_prefix(h, fs0, prefix@);
            assert forall|j: int| hi <= j < s.len() implies !starts_with(#[trigger] s[j].0, prefix@) by {}
            lemma_tail_outside_prefix(s, fs0, prefix@, hi as int);
        }
        let mut i: usize = lo;
        while i < hi
            invariant
                s == views(self.sorted@),
                fs == entry_views(self.files@),
                lo <= i <= hi <= s.len(),
                compressed_total(s.subrange(0, i as int), fs, prefix@) >= 0,
                acc as int == if compressed_total(s.subrange(0, i as int), fs, prefix@) > u64::MAX {
                    u64::MAX as int
                } else {
                    compressed_total(s.subrange(0, i as int), fs, prefix@)
                },
            decreases s.len() - i,
        {
            let it = &self.sorted[i];
            proof {
                assert(s.subrange(0, i + 1).drop_last() =~= s.subrange(0, i as int));
                assert(s.subrange(0, i + 1).last() == it@);
            }
            if it.is_file && has_prefix(&it.name, prefix) {
                match self.get_entry(&it.name) {
                    Some(e) => {
                        let x = e.compressed_size;
                        acc = if acc > u64::MAX - x {
                            u64::MAX
                        } else {
                            acc + x
                        };
                    },
                    None => {},
                }
            }
            i += 1;
        }
        acc
    }
}

} // verus!
