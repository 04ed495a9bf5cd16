//! The manifest of a namespace: which files it holds and how they are paged.
use crate::text;
use vstd::prelude::*;

verus! {

/// One page of a file, with the checksum of its bytes.
#[derive(Debug, Clone, PartialEq, Eq)]
pub struct PageInfo {
    pub page_id: u32,
    pub off: u64,
    pub len: u32,
    pub crc32c: u32,
}

/// Where the bytes of a file are stored.
#[derive(Debug, Clone, PartialEq, Eq)]
pub struct ObjectLoc {
    pub key: String,
    pub etag: Option<String>,
    /// `kms` or `none`.
    pub sse: Option<String>,
}

/// A file as a manifest lists it.
#[derive(Debug, Clone, PartialEq, Eq)]
pub struct FileEntry {
    pub path: String,
    pub size: u64,
    /// The SHA-256 of the content, which is the file's version.
    pub hash: String,
    pub page_table: Vec<PageInfo>,
    pub storage: ObjectLoc,
}

/// One immutable version of a namespace.
#[derive(Debug, Clone, PartialEq, Eq)]
pub struct Manifest {
    pub version: u64,
    pub files: Vec<FileEntry>,
    pub parents: Vec<u64>,
    pub tombstones: Vec<String>,
    pub created_at: u64,
}

/// What a [`FileEntry`] says.
pub struct FileEntryView {
    pub path: Seq<char>,
    pub size: u64,
    pub hash: Seq<char>,
    pub page_table: Seq<PageInfo>,
    pub key: Seq<char>,
    pub etag: Option<Seq<char>>,
    pub sse: Option<Seq<char>>,
}

impl View for FileEntry {
    type V = FileEntryView;

    open spec fn view(&self) -> FileEntryView {
        FileEntryView {
            path: self.path@,
            size: self.size,
            hash: self.hash@,
            page_table: self.page_table@,
            key: self.storage.key@,
            etag: text::opt_text(self.storage.etag),
            sse: text::opt_text(self.storage.sse),
        }
    }
}

/// What a [`Manifest`] says.
pub struct ManifestView {
    pub version: u64,
    pub files: Seq<FileEntryView>,
    pub parents: Seq<u64>,
    pub tombstones: Seq<Seq<char>>,
    pub created_at: u64,
}

impl View for Manifest {
    type V = ManifestView;

    open spec fn view(&self) -> ManifestView {
        ManifestView {
            version: self.version,
            files: Seq::new(self.files@.len(), |i: int| self.files@[i]@),
            parents: self.parents@,
            tombstones: Seq::new(self.tombstones@.len(), |i: int| self.tombstones@[i]@),
            created_at: self.created_at,
        }
    }
}

/// The place of the first file with this path.
pub open spec fn position(files: Seq<FileEntry>, path: Seq<char>) -> Option<int>
    decreases files.len(),
{
    if files.len() == 0 {
        None
    } else {
        match position(files.drop_last(), path) {
            Some(i) => Some(i),
            None => if files.last().path@ == path {
                Some(files.len() - 1)
            } else {
                None
            },
        }
    }
}

/// The first file with this path.
pub open spec fn file_of(files: Seq<FileEntry>, path: Seq<char>) -> Option<FileEntry> {
    match position(files, path) {
        Some(i) => Some(files[i]),
        None => None,
    }
}

/// The checksum of the first page with this id.
pub open spec fn crc_of(table: Seq<PageInfo>, page_id: u32) -> Option<u32>
    decreases table.len(),
{
    if table.len() == 0 {
        None
    } else {
        match crc_of(table.drop_last(), page_id) {
            Some(c) => Some(c),
            None => if table.last().page_id == page_id {
                Some(table.last().crc32c)
            } else {
                None
            },
        }
    }
}

/// The version that a HEAD file names: the number on its first line, behind `v-`,
/// `v` or nothing.
pub open spec fn head_version_of(s: Seq<char>) -> Option<nat> {
    let line = text::trim(text::first_line(s));
    if line.len() >= 2 && line[0] == 'v' && line[1] == '-' {
        text::parse_unsigned(line.skip(2), u64::MAX as nat)
    } else if line.len() >= 1 && line[0] == 'v' {
        text::parse_unsigned(line.skip(1), u64::MAX as nat)
    } else {
        text::parse_unsigned(line, u64::MAX as nat)
    }
}

/// What a found place means: the file there has the path, and none before it does.
pub proof fn lemma_position(files: Seq<FileEntry>, path: Seq<char>)
    ensures
        match position(files, path) {
            Some(i) => 0 <= i < files.len() && files[i].path@ == path && forall|j: int|
                0 <= j < i ==> (#[trigger] files[j]).path@ != path,
            None => forall|j: int| 0 <= j < files.len() ==> (#[trigger] files[j]).path@ != path,
        },
    decreases files.len(),
{
    if files.len() > 0 {
        lemma_position(files.drop_last(), path);
        assert forall|j: int| 0 <= j < files.len() - 1 implies files[j] == #[trigger] files.drop_last()[j] by {}
        match position(files.drop_last(), path) {
            Some(i) => {
                assert forall|j: int| 0 <= j < i implies (#[trigger] files[j]).path@ != path by {
                    assert(files.drop_last()[j].path@ != path);
                }
                assert(files.drop_last()[i] == files[i]);
            },
            None => {
                assert forall|j: int| 0 <= j < files.len() - 1 implies (#[trigger] files[j]).path@
                    != path by {
                    assert(files.drop_last()[j].path@ != path);
                }
            },
        }
    }
}

/// The place of the first file with this path.
pub fn find_position(m: &Manifest, path: &str) -> (r: Option<usize>)
    ensures
        match position(m.files@, path@) {
            Some(i) => r is Some && r->0 == i && 0 <= i < m.files@.len(),
            None => r is None,
        },
{
    let mut i: usize = 0;
    assert(m.files@.take(0) =~= Seq::<FileEntry>::empty());
    while i < m.files.len()
        invariant
            i <= m.files@.len(),
            position(m.files@.take(i as int), path@) is None,
        decreases m.files@.len() - i,
    {
        assert(m.files@.take(i + 1).drop_last() =~= m.files@.take(i as int));
        if text::same(m.files[i].path.as_str(), path) {
            proof {
                lemma_position_prefix(m.files@, path@, i + 1);
            }
            return Some(i);
        }
        i = i + 1;
    }
    assert(m.files@.take(i as int) =~= m.files@);
    None
}

proof fn lemma_position_prefix(files: Seq<FileEntry>, path: Seq<char>, k: int)
    requires
        0 <= k <= files.len(),
        position(files.take(k), path) is Some,
    ensures
        position(files, path) == position(files.take(k), path),
    decreases files.len() - k,
{
    if k < files.len() {
        assert(files.take(k + 1).drop_last() =~= files.take(k));
        lemma_position_prefix(files, path, k + 1);
    } else {
        assert(files.take(k) =~= files);
    }
}

/// The first file of the manifest with this path.
pub fn find_file<'a>(m: &'a Manifest, path: &str) -> (r: Option<&'a FileEntry>)
    ensures
        match file_of(m.files@, path@) {
            Some(f) => r == Some(&f),
            None => r is None,
        },
{
    match find_position(m, path) {
        Some(i) => Some(&m.files[i]),
        None => None,
    }
}

/// The checksum that the file's page table gives for a page.
pub fn page_crc_by_id(fe: &FileEntry, page_id: u32) -> (r: Option<u32>)
    ensures
        r == crc_of(fe.page_table@, page_id),
{
    let mut i: usize = 0;
    assert(fe.page_table@.take(0) =~= Seq::<PageInfo>::empty());
    while i < fe.page_table.len()
        invariant
            i <= fe.page_table@.len(),
            crc_of(fe.page_table@.take(i as int), page_id) is None,
        decreases fe.page_table@.len() - i,
    {
        assert(fe.page_table@.take(i + 1).drop_last() =~= fe.page_table@.take(i as int));
        if fe.page_table[i].page_id == page_id {
            proof {
                lemma_crc_prefix(fe.page_table@, page_id, i + 1);
            }
            return Some(fe.page_table[i].crc32c);
        }
        i = i + 1;
    }
    assert(fe.page_table@.take(i as int) =~= fe.page_table@);
    None
}

proof fn lemma_crc_prefix(table: Seq<PageInfo>, page_id: u32, k: int)
    requires
        0 <= k <= table.len(),
        crc_of(table.take(k), page_id) is Some,
    ensures
        crc_of(table, page_id) == crc_of(table.take(k), page_id),
    decreases table.len() - k,
{
    if k < table.len() {
        assert(table.take(k + 1).drop_last() =~= table.take(k));
        lemma_crc_prefix(table, page_id, k + 1);
    } else {
        assert(table.take(k) =~= table);
    }
}

/// The version that the content of a HEAD file names.
pub fn parse_head_version(s: &str) -> (r: Option<u64>)
    ensures
        match head_version_of(s@) {
            Some(v) => r is Some && r->0 == v,
            None => r is None,
        },
{
    let chars = text::chars_of(s);
    let (a, b) = text::first_line_bounds(&chars);
    let ghost line = s@.subrange(a as int, b as int);
    assert(line == text::trim(text::first_line(s@)));
    let start: usize = if b - a >= 2 && chars[a] == 'v' && chars[a + 1] == '-' {
        assert(line.skip(2) =~= s@.subrange(a + 2, b as int));
        a + 2
    } else if b - a >= 1 && chars[a] == 'v' {
        assert(line.skip(1) =~= s@.subrange(a + 1, b as int));
        a + 1
    } else {
        a
    };
    text::parse_digits(vstd::slice::slice_subrange(chars.as_slice(), start, b), u64::MAX)
}

/// A file is found by its path: the first of those that have it, and none if none has.
pub proof fn law_file(files: Seq<FileEntry>, path: Seq<char>)
    ensures
        match file_of(files, path) {
            Some(f) => exists|i: int|
                0 <= i < files.len() && (#[trigger] files[i]) == f && f.path@ == path && forall|j: int|
                    0 <= j < i ==> (#[trigger] files[j]).path@ != path,
            None => forall|j: int| 0 <= j < files.len() ==> (#[trigger] files[j]).path@ != path,
        },
{
    lemma_position(files, path);
}

/// The checksum of a page is that of the first entry of the table with its number, and none
/// if there is no such entry.
pub proof fn law_crc(table: Seq<PageInfo>, page_id: u32)
    ensures
        match crc_of(table, page_id) {
            Some(c) => exists|i: int|
                0 <= i < table.len() && (#[trigger] table[i]).page_id == page_id
                    && table[i].crc32c == c && forall|j: int|
                    0 <= j < i ==> (#[trigger] table[j]).page_id != page_id,
            None => forall|j: int| 0 <= j < table.len() ==> (#[trigger] table[j]).page_id != page_id,
        },
    decreases table.len(),
{
    if table.len() > 0 {
        let d = table.drop_last();
        law_crc(d, page_id);
        match crc_of(d, page_id) {
            Some(c) => {
                let i = choose|i: int|
                    0 <= i < d.len() && (#[trigger] d[i]).page_id == page_id && d[i].crc32c == c
                        && forall|j: int| 0 <= j < i ==> (#[trigger] d[j]).page_id != page_id;
                assert(table[i] == d[i]);
                assert forall|j: int| 0 <= j < i implies (#[trigger] table[j]).page_id != page_id by {
                    assert(d[j] == table[j]);
                }
            },
            None => {
                assert forall|j: int| 0 <= j < table.len() - 1 implies (
                #[trigger] table[j]).page_id != page_id by {
                    assert(d[j] == table[j]);
                }
                let n = table.len() - 1;
                assert(table[n] == table.last());
            },
        }
    }
}

/// A HEAD file names the number on its first line, whether `v-`, `v` or nothing stands
/// before it, whatever blanks stand around it, and whatever follows on other lines.
pub proof fn law_head_version(
    n: nat,
    before: Seq<char>,
    after: Seq<char>,
    rest: Seq<char>,
)
    requires
        n <= u64::MAX,
        forall|i: int| 0 <= i < before.len() ==> #[trigger] before[i] == ' ' || before[i] == '\t',
        forall|i: int|
            0 <= i < after.len() ==> #[trigger] after[i] == ' ' || after[i] == '\t' || after[i]
                == '\r',
    ensures
        head_version_of(before + text::decimal(n) + after) == Some(n),
        head_version_of(before + text::decimal(n) + after + seq!['\n'] + rest) == Some(n),
        head_version_of(before + seq!['v'] + text::decimal(n) + after + seq!['\n'] + rest) == Some(n),
        head_version_of(before + seq!['v', '-'] + text::decimal(n) + after) == Some(n),
        head_version_of(before + seq!['v', '-'] + text::decimal(n) + after + seq!['\n'] + rest)
            == Some(n),
{
    let d = text::decimal(n);
    text::lemma_decimal(n);
    text::law_parse_decimal(n, 0, u64::MAX as nat);
    assert(text::is_digit(d[0]) && text::is_digit(d.last()));
    lemma_head_line(d, before, after, rest);
    let v = seq!['v'] + d;
    lemma_head_line(v, before, after, rest);
    assert(before + seq!['v'] + d + after =~= before + v + after);
    assert(v.skip(1) =~= d);
    assert(v[1] == d[0]);
    let w = seq!['v', '-'] + d;
    lemma_head_line(w, before, after, rest);
    assert(before + seq!['v', '-'] + d + after =~= before + w + after);
    assert(w.skip(2) =~= d);
}

proof fn lemma_head_line(line: Seq<char>, before: Seq<char>, after: Seq<char>, rest: Seq<char>)
    requires
        line.len() > 0,
        forall|i: int| 0 <= i < line.len() ==> text::printed(#[trigger] line[i]),
        forall|i: int| 0 <= i < before.len() ==> #[trigger] before[i] == ' ' || before[i] == '\t',
        forall|i: int|
            0 <= i < after.len() ==> #[trigger] after[i] == ' ' || after[i] == '\t' || after[i]
                == '\r',
    ensures
        text::trim(text::first_line(before + line + after)) == line,
        text::trim(text::first_line(before + line + after + seq!['\n'] + rest)) == line,
{
    let s = before + line + after;
    assert forall|i: int| 0 <= i < s.len() implies #[trigger] s[i] != '\n' by {
        if i < before.len() {
            assert(s[i] == before[i]);
        } else if i < before.len() + line.len() {
            assert(s[i] == line[i - before.len()]);
        } else {
            assert(s[i] == after[i - before.len() - line.len()]);
        }
    }
    text::law_first_line(s, rest);
    text::law_trim(before, line, after);
}

/// Without any digit a HEAD file names no version.
pub proof fn law_head_names_none(s: Seq<char>)
    requires
        forall|i: int| 0 <= i < s.len() ==> !('0' as u32 <= (#[trigger] s[i]) as u32 <= '9' as u32),
    ensures
        head_version_of(s) is None,
{
    text::lemma_line_within(s);
    let line = text::trim(text::first_line(s));
    let t = if line.len() >= 2 && line[0] == 'v' && line[1] == '-' {
        line.skip(2)
    } else if line.len() >= 1 && line[0] == 'v' {
        line.skip(1)
    } else {
        line
    };
    let u = text::without_plus(t);
    if u.len() > 0 {
        assert(line.contains(u[0]));
        assert(text::is_digit(u[0]) ==> false);
    }
}

} // verus!
