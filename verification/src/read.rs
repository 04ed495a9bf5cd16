//! How a page that a read needs gets into the cache.
//!
//! A read alternates between decisions and outside work. Each decision names the next
//! piece of work as a [`ReadAction`]; what came of it is handed back as a [`ReadEvent`].
use crate::digest;
use crate::digest::crc32c_of;
use crate::l2::L2Error;
use crate::manifest::{crc_of, page_crc_by_id, FileEntry, PageInfo};
use crate::store::StoreError;
use crate::text;
use crate::text::decimal;
use crate::types::{CacheKey, CacheKeyView};
use vstd::prelude::*;

verus! {

/// A request that is turned down: the HTTP status and the text of the reply.
#[derive(Debug)]
pub struct Refusal {
    pub status: u16,
    pub message: String,
}

/// What a [`Refusal`] says.
pub struct RefusalView {
    pub status: u16,
    pub message: Seq<char>,
}

impl View for Refusal {
    type V = RefusalView;

    open spec fn view(&self) -> RefusalView {
        RefusalView { status: self.status, message: self.message@ }
    }
}

pub open spec fn refusal(status: u16, message: Seq<char>) -> RefusalView {
    RefusalView { status, message }
}

/// Outside work that a read waits for.
#[derive(Debug)]
pub enum ReadAction {
    /// Look the page up in the cache.
    Lookup(CacheKey),
    /// Open a stream of the bytes `start..end` of the stored object `key`.
    Open { key: String, start: u64, end: u64 },
    /// Take the next chunk off the open stream.
    NextChunk,
    /// Put the page into the cache.
    Store { key: CacheKey, page: Vec<u8> },
    /// Answer with these bytes.
    Reply(Vec<u8>),
    /// Turn the request down.
    Refuse(Refusal),
}

/// What a [`ReadAction`] asks for.
pub enum ActionView {
    Lookup(CacheKeyView),
    Open { key: Seq<char>, start: u64, end: u64 },
    NextChunk,
    Store { key: CacheKeyView, page: Seq<u8> },
    Reply(Seq<u8>),
    Refuse(RefusalView),
}

impl View for ReadAction {
    type V = ActionView;

    open spec fn view(&self) -> ActionView {
        match self {
            ReadAction::Lookup(k) => ActionView::Lookup(k@),
            ReadAction::Open { key, start, end } => ActionView::Open {
                key: key@,
                start: *start,
                end: *end,
            },
            ReadAction::NextChunk => ActionView::NextChunk,
            ReadAction::Store { key, page } => ActionView::Store { key: key@, page: page@ },
            ReadAction::Reply(b) => ActionView::Reply(b@),
            ReadAction::Refuse(r) => ActionView::Refuse(r@),
        }
    }
}

/// What came of a [`ReadAction`]; `Begin` comes before the first one.
#[derive(Debug)]
pub enum ReadEvent {
    Begin,
    Found(Vec<u8>),
    Absent,
    Opened,
    OpenFailed(StoreError),
    Chunk(Vec<u8>),
    ChunkFailed(StoreError),
    StreamEnd,
    Stored,
    PutStreamFailed(L2Error),
    WriteFailed(L2Error),
    CommitFailed(L2Error),
}

/// What a [`ReadEvent`] tells; of an error, its text.
pub enum EventView {
    Begin,
    Found(Seq<u8>),
    Absent,
    Opened,
    OpenFailed(Seq<char>),
    Chunk(Seq<u8>),
    ChunkFailed(Seq<char>),
    StreamEnd,
    Stored,
    PutStreamFailed(Seq<char>),
    WriteFailed(Seq<char>),
    CommitFailed(Seq<char>),
}

impl View for ReadEvent {
    type V = EventView;

    open spec fn view(&self) -> EventView {
        match self {
            ReadEvent::Begin => EventView::Begin,
            ReadEvent::Found(b) => EventView::Found(b@),
            ReadEvent::Absent => EventView::Absent,
            ReadEvent::Opened => EventView::Opened,
            ReadEvent::OpenFailed(e) => EventView::OpenFailed(e.text()),
            ReadEvent::Chunk(b) => EventView::Chunk(b@),
            ReadEvent::ChunkFailed(e) => EventView::ChunkFailed(e.text()),
            ReadEvent::StreamEnd => EventView::StreamEnd,
            ReadEvent::Stored => EventView::Stored,
            ReadEvent::PutStreamFailed(e) => EventView::PutStreamFailed(e.text()),
            ReadEvent::WriteFailed(e) => EventView::WriteFailed(e.text()),
            ReadEvent::CommitFailed(e) => EventView::CommitFailed(e.text()),
        }
    }
}

/// How far one page has come on its way into the cache.
#[derive(Debug)]
pub enum Fill {
    /// The cache is asked for it.
    Probe,
    /// A stream of its bytes is being opened.
    Opening,
    /// These of its bytes have come.
    Filling(Vec<u8>),
    /// It is being put into the cache.
    Storing,
}

/// How far a [`Fill`] is.
pub enum FillView {
    Probe,
    Opening,
    Filling(Seq<u8>),
    Storing,
}

impl View for Fill {
    type V = FillView;

    open spec fn view(&self) -> FillView {
        match self {
            Fill::Probe => FillView::Probe,
            Fill::Opening => FillView::Opening,
            Fill::Filling(b) => FillView::Filling(b@),
            Fill::Storing => FillView::Storing,
        }
    }
}

/// What to do next for a page.
#[derive(Debug)]
pub enum FillNext {
    /// Open a stream of its bytes.
    Open,
    /// Wait for more bytes behind these.
    Read(Vec<u8>),
    /// Put these bytes into the cache as the page.
    Store(Vec<u8>),
    /// The page is in the cache.
    Done,
    Refuse(Refusal),
}

pub enum FillNextView {
    Open,
    Read(Seq<u8>),
    Store(Seq<u8>),
    Done,
    Refuse(RefusalView),
}

impl View for FillNext {
    type V = FillNextView;

    open spec fn view(&self) -> FillNextView {
        match self {
            FillNext::Open => FillNextView::Open,
            FillNext::Read(b) => FillNextView::Read(b@),
            FillNext::Store(b) => FillNextView::Store(b@),
            FillNext::Done => FillNextView::Done,
            FillNext::Refuse(r) => FillNextView::Refuse(r@),
        }
    }
}

pub open spec fn mismatch_text(page_id: u32, got: u32, expected: u32) -> Seq<char> {
    "crc32c mismatch for page "@ + decimal(page_id as nat) + ": got "@ + decimal(got as nat)
        + ", expected "@ + decimal(expected as nat)
}

/// What becomes of a page that was read in full: it is kept unless its page table entry,
/// if there is one, gives another checksum.
pub open spec fn checked_page(entry: FileEntry, page_id: u32, page: Seq<u8>) -> FillNextView {
    match crc_of(entry.page_table@, page_id) {
        Some(expected) => if crc32c_of(page) != expected {
            FillNextView::Refuse(
                refusal(503, mismatch_text(page_id, crc32c_of(page), expected)),
            )
        } else {
            FillNextView::Store(page)
        },
        None => FillNextView::Store(page),
    }
}

/// What to do next for a page; nothing, if the event answers something else than what
/// was asked.
pub open spec fn fill_next(entry: FileEntry, page_id: u32, fill: FillView, e: EventView) -> Option<
    FillNextView,
> {
    match (fill, e) {
        (FillView::Probe, EventView::Found(_)) => Some(FillNextView::Done),
        (FillView::Probe, EventView::Absent) => Some(FillNextView::Open),
        (FillView::Opening, EventView::Opened) => Some(FillNextView::Read(Seq::empty())),
        (FillView::Opening, EventView::OpenFailed(t)) => Some(
            FillNextView::Refuse(refusal(503, "store stream error: "@ + t)),
        ),
        (FillView::Filling(page), EventView::Chunk(b)) => Some(FillNextView::Read(page + b)),
        (FillView::Filling(_), EventView::ChunkFailed(t)) => Some(
            FillNextView::Refuse(refusal(503, "store chunk: "@ + t)),
        ),
        (FillView::Filling(page), EventView::StreamEnd) => Some(checked_page(entry, page_id, page)),
        (FillView::Storing, EventView::Stored) => Some(FillNextView::Done),
        (FillView::Storing, EventView::PutStreamFailed(t)) => Some(
            FillNextView::Refuse(refusal(500, "l2 put_stream error: "@ + t)),
        ),
        (FillView::Storing, EventView::WriteFailed(t)) => Some(
            FillNextView::Refuse(refusal(500, "l2 write: "@ + t)),
        ),
        (FillView::Storing, EventView::CommitFailed(t)) => Some(
            FillNextView::Refuse(refusal(500, "l2 commit: "@ + t)),
        ),
        _ => None,
    }
}

/// Turns a request down because of an error.
pub fn refuse_for(status: u16, what: &str, error: &str) -> (r: Refusal)
    ensures
        r@ == refusal(status, what@ + error@),
{
    Refusal { status, message: text::join(what, error) }
}

/// Without an object store to read from, every read is turned down.
pub fn store_refused(store_configured: bool) -> (r: Option<Refusal>)
    ensures
        store_configured ==> r is None,
        !store_configured ==> r is Some && r->0@ == refusal(503, "ObjectStore not configured"@),
{
    if store_configured {
        None
    } else {
        Some(Refusal { status: 503, message: "ObjectStore not configured".to_string() })
    }
}

/// A read is turned down if the manifest of its namespace cannot be had.
pub fn manifest_refused(error: &StoreError) -> (r: Refusal)
    ensures
        r@ == refusal(503, "manifest load: "@ + error.text()),
{
    refuse_for(503, "manifest load: ", error.message().as_str())
}

/// Keeps a page that was read in full, or refuses it for its checksum.
pub fn check_page(entry: &FileEntry, page_id: u32, page: Vec<u8>) -> (r: FillNext)
    ensures
        r@ == checked_page(*entry, page_id, page@),
{
    match page_crc_by_id(entry, page_id) {
        Some(expected) => {
            let got = digest::crc32c(page.as_slice());
            if got != expected {
                let mut message = "crc32c mismatch for page ".to_string();
                text::push_decimal(&mut message, page_id as u64);
                message.append(": got ");
                text::push_decimal(&mut message, got as u64);
                message.append(", expected ");
                text::push_decimal(&mut message, expected as u64);
                FillNext::Refuse(Refusal { status: 503, message })
            } else {
                FillNext::Store(page)
            }
        },
        None => FillNext::Store(page),
    }
}

/// What to do next for a page of the file.
pub fn fill_step(entry: &FileEntry, page_id: u32, fill: Fill, event: ReadEvent) -> (r: Option<
    FillNext,
>)
    ensures
        match fill_next(*entry, page_id, fill@, event@) {
            Some(n) => r is Some && r->0@ == n,
            None => r is None,
        },
{
    match fill {
        Fill::Probe => match event {
            ReadEvent::Found(_) => Some(FillNext::Done),
            ReadEvent::Absent => Some(FillNext::Open),
            _ => None,
        },
        Fill::Opening => match event {
            ReadEvent::Opened => Some(FillNext::Read(Vec::new())),
            ReadEvent::OpenFailed(e) => Some(
                FillNext::Refuse(refuse_for(503, "store stream error: ", e.message().as_str())),
            ),
            _ => None,
        },
        Fill::Filling(page) => match event {
            ReadEvent::Chunk(b) => {
                let mut more = page;
                more.extend_from_slice(b.as_slice());
                assert(more@ =~= page@ + b@);
                Some(FillNext::Read(more))
            },
            ReadEvent::ChunkFailed(e) => Some(
                FillNext::Refuse(refuse_for(503, "store chunk: ", e.message().as_str())),
            ),
            ReadEvent::StreamEnd => Some(check_page(entry, page_id, page)),
            _ => None,
        },
        Fill::Storing => match event {
            ReadEvent::Stored => Some(FillNext::Done),
            ReadEvent::PutStreamFailed(e) => Some(
                FillNext::Refuse(refuse_for(500, "l2 put_stream error: ", e.message().as_str())),
            ),
            ReadEvent::WriteFailed(e) => Some(
                FillNext::Refuse(refuse_for(500, "l2 write: ", e.message().as_str())),
            ),
            ReadEvent::CommitFailed(e) => Some(
                FillNext::Refuse(refuse_for(500, "l2 commit: ", e.message().as_str())),
            ),
            _ => None,
        },
    }
}

/// Where a page begins in its file.
pub open spec fn page_start(slab: u64, page_id: u32) -> int {
    page_id * slab
}

/// Where a page of a file of `size` bytes ends.
pub open spec fn page_end(slab: u64, page_id: u32, size: int) -> int {
    if page_start(slab, page_id) + slab < size {
        page_start(slab, page_id) + slab
    } else {
        size
    }
}

/// The number of the page that a byte lies in, as far as 32 bits can tell.
pub open spec fn page_at(slab: u64, byte: u64) -> u32 {
    (byte / slab) as u32
}

/// The bytes of a page.
pub open spec fn page_of(content: Seq<u8>, slab: u64, page_id: u32) -> Seq<u8> {
    content.subrange(
        page_start(slab, page_id),
        page_end(slab, page_id, content.len() as int),
    )
}

/// Where a read of `len` bytes from `off` on ends in a file of `size` bytes.
pub open spec fn read_end(size: u64, off: u64, len: u64) -> u64 {
    if off + len < size {
        (off + len) as u64
    } else {
        size
    }
}

pub open spec fn key_of(
    ns: Seq<char>,
    path: Seq<char>,
    file_hash: Seq<char>,
    page_id: u32,
) -> CacheKeyView {
    CacheKeyView { ns, path, file_hash, page_id }
}

/// The request for the bytes of a page.
pub open spec fn open_page(entry: FileEntry, slab: u64, page_id: u32) -> ActionView {
    ActionView::Open {
        key: entry.storage.key@,
        start: page_start(slab, page_id) as u64,
        end: page_end(slab, page_id, entry.size as int) as u64,
    }
}

/// What a read that is at `cur` and goes to `end` takes from the page that begins at
/// `start`, and where it then is. A page that ends before `cur` has nothing to give.
pub open spec fn taken(start: int, cur: u64, end: u64, page: Seq<u8>) -> Option<(Seq<u8>, u64)> {
    let from = if cur > start {
        cur - start
    } else {
        0
    };
    let to = if end - start < page.len() {
        end - start
    } else {
        page.len() as int
    };
    if from > to {
        None
    } else {
        Some((page.subrange(from, to), (start + to) as u64))
    }
}

/// The page of a byte begins at or before it, and ends behind it if its number fits.
pub proof fn lemma_page_at(slab: u64, byte: u64)
    requires
        slab > 0,
    ensures
        page_start(slab, page_at(slab, byte)) <= byte,
        byte / slab <= u32::MAX ==> page_at(slab, byte) == byte / slab && byte < page_start(
            slab,
            page_at(slab, byte),
        ) + slab,
{
    let q = byte / slab;
    assert((q as u32) <= q) by (bit_vector);
    let p = page_at(slab, byte);
    vstd::arithmetic::div_mod::lemma_fundamental_div_mod(byte as int, slab as int);
    assert(q * slab <= byte < q * slab + slab) by {
        vstd::arithmetic::div_mod::lemma_mod_bound(byte as int, slab as int);
        vstd::arithmetic::mul::lemma_mul_is_commutative(q as int, slab as int);
    }
    vstd::arithmetic::mul::lemma_mul_inequality(p as int, q as int, slab as int);
}

/// A lower number means an earlier page.
pub proof fn lemma_page_start_monotone(slab: u64, a: u32, b: u32)
    requires
        a <= b,
    ensures
        page_start(slab, a) <= page_start(slab, b),
        a < b ==> page_start(slab, a) + slab <= page_start(slab, b),
{
    vstd::arithmetic::mul::lemma_mul_inequality(a as int, b as int, slab as int);
    if a < b {
        vstd::arithmetic::mul::lemma_mul_inequality(a + 1, b as int, slab as int);
        vstd::arithmetic::mul::lemma_mul_is_distributive_add_other_way(slab as int, a as int, 1);
    }
}

/// Where a read of `len` bytes from `off` on ends in a file of `size` bytes.
pub fn end_of(size: u64, off: u64, len: u64) -> (r: u64)
    ensures
        r == read_end(size, off, len),
{
    if size > off && size - off > len {
        off + len
    } else {
        size
    }
}

/// The request for the bytes of a page of the file.
pub fn open_page_action(entry: &FileEntry, slab: u64, page_id: u32) -> (r: ReadAction)
    requires
        page_start(slab, page_id) < entry.size,
    ensures
        r@ == open_page(*entry, slab, page_id),
{
    proof {
        vstd::arithmetic::mul::lemma_mul_nonnegative(page_id as int, slab as int);
    }
    let start: u64 = page_id as u64 * slab;
    let end: u64 = if entry.size - start > slab {
        start + slab
    } else {
        entry.size
    };
    ReadAction::Open { key: entry.storage.key.clone(), start, end }
}

/// Takes from a page what a read from `cur` to `end` needs of it, and says where the
/// read then is.
pub fn take_from(out: &mut Vec<u8>, start: u64, cur: u64, end: u64, page: &[u8]) -> (r: Option<u64>)
    requires
        start <= end,
    ensures
        match taken(start as int, cur, end, page@) {
            Some((b, next)) => r == Some(next) && final(out)@ == old(out)@ + b,
            None => r is None && final(out)@ == old(out)@,
        },
{
    let from: u64 = if cur > start {
        cur - start
    } else {
        0
    };
    let len: u64 = page.len() as u64;
    let to: u64 = if end - start < len {
        end - start
    } else {
        len
    };
    if from > to {
        None
    } else {
        let part = vstd::slice::slice_subrange(page, from as usize, to as usize);
        out.extend_from_slice(part);
        assert(out@ =~= old(out)@ + page@.subrange(from as int, to as int));
        Some(start + to)
    }
}

/// The bytes, with zeros behind them up to a length of `len`.
pub open spec fn zero_padded(b: Seq<u8>, len: int) -> Seq<u8> {
    if b.len() < len {
        b + Seq::new((len - b.len()) as nat, |i: int| 0u8)
    } else {
        b
    }
}

/// Appends zeros up to a length of `len`.
pub fn pad(out: &mut Vec<u8>, len: u64)
    ensures
        final(out)@ == zero_padded(old(out)@, len as int),
{
    let ghost b = out@;
    while (out.len() as u64) < len
        invariant
            out@ =~= zero_padded(b, out@.len() as int),
            b.len() <= out@.len(),
            out@.len() <= b.len() || out@.len() <= len,
        decreases len - out@.len(),
    {
        out.push(0);
    }
}

/// The cache and the object store around a read.
pub struct World {
    pub cache: Map<CacheKeyView, Seq<u8>>,
    pub objects: Map<Seq<char>, Seq<u8>>,
    /// What the open stream has yet to give.
    pub stream: Seq<u8>,
}

/// The event tells that the work failed.
pub open spec fn failed(e: EventView) -> bool {
    e is OpenFailed || e is ChunkFailed || e is PutStreamFailed || e is WriteFailed
        || e is CommitFailed
}

/// In the world `w` the event is a true answer to the action, and leaves the world `w2`:
/// the cache gives what was put into it, and a stream gives the bytes it was opened for,
/// in chunks of any size. Any work but a lookup may fail.
pub open spec fn answers(w: World, a: ActionView, e: EventView, w2: World) -> bool {
    match a {
        ActionView::Lookup(key) => {
            &&& w2 == w
            &&& e == if w.cache.contains_key(key) {
                EventView::Found(w.cache[key])
            } else {
                EventView::Absent
            }
        },
        ActionView::Open { key, start, end } => {
            ||| e is OpenFailed && w2 == w
            ||| {
                &&& w.objects.contains_key(key)
                &&& start <= end <= w.objects[key].len()
                &&& e is Opened
                &&& w2 == World { stream: w.objects[key].subrange(start as int, end as int), ..w }
            }
        },
        ActionView::NextChunk => {
            ||| e is ChunkFailed && w2 == w
            ||| e is StreamEnd && w.stream.len() == 0 && w2 == w
            ||| {
                &&& e matches EventView::Chunk(b)
                &&& b.len() <= w.stream.len()
                &&& b == w.stream.take(b.len() as int)
                &&& w2 == World { stream: w.stream.skip(b.len() as int), ..w }
            }
        },
        ActionView::Store { key, page } => {
            ||| (e is PutStreamFailed || e is WriteFailed || e is CommitFailed) && w2 == w
            ||| e is Stored && w2 == World { cache: w.cache.insert(key, page), ..w }
        },
        ActionView::Reply(_) | ActionView::Refuse(_) => false,
    }
}

/// What the cache holds of a file are pages of its content.
pub open spec fn sound(
    cache: Map<CacheKeyView, Seq<u8>>,
    ns: Seq<char>,
    path: Seq<char>,
    hash: Seq<char>,
    content: Seq<u8>,
    slab: u64,
) -> bool {
    forall|page_id: u32|
        #![trigger key_of(ns, path, hash, page_id)]
        page_start(slab, page_id) < content.len() && cache.contains_key(
            key_of(ns, path, hash, page_id),
        ) ==> cache[key_of(ns, path, hash, page_id)] == page_of(content, slab, page_id)
}

/// The size and the page table are those of the content: no page has another checksum
/// than the table gives for it.
pub open spec fn tabled(size: u64, table: Seq<PageInfo>, content: Seq<u8>, slab: u64) -> bool {
    &&& size == content.len()
    &&& forall|page_id: u32|
        #![trigger crc_of(table, page_id)]
        page_start(slab, page_id) < content.len() ==> match crc_of(table, page_id) {
            Some(c) => c == crc32c_of(page_of(content, slab, page_id)),
            None => true,
        }
}

/// The entry describes the content.
pub open spec fn describes(entry: FileEntry, content: Seq<u8>, slab: u64) -> bool {
    tabled(entry.size, entry.page_table@, content, slab)
}

/// The number of every page of a file of this size fits in 32 bits.
pub open spec fn numbered(size: u64, slab: u64) -> bool {
    size > 0 ==> (size - 1) / slab as int <= u32::MAX
}

/// The bytes that are requested for a page begin at a whole number of pages, are not more
/// than a page, and lie in the file.
pub proof fn law_page_range(entry: FileEntry, slab: u64, page_id: u32)
    requires
        slab > 0,
        page_id * slab < entry.size,
    ensures
        match open_page(entry, slab, page_id) {
            ActionView::Open { key, start, end } => {
                &&& key == entry.storage.key@
                &&& start == page_id * slab
                &&& start < end <= entry.size
                &&& end - start <= slab
                &&& end - start == slab || end == entry.size
            },
            _ => false,
        },
{
    vstd::arithmetic::mul::lemma_mul_nonnegative(page_id as int, slab as int);
}

/// At most `len` bytes of the content, from `from` on.
pub open spec fn bytes_from(content: Seq<u8>, from: int, len: int) -> Seq<u8> {
    content.subrange(
        from,
        if len < content.len() - from {
            from + len
        } else {
            content.len() as int
        },
    )
}

/// Whatever the cache has under keys with this namespace, path and hash, are the bytes of
/// the content that lie there when it is cut into pages of `slab` bytes.
pub open spec fn true_pages(
    cache: Map<CacheKeyView, Seq<u8>>,
    ns: Seq<char>,
    path: Seq<char>,
    hash: Seq<char>,
    content: Seq<u8>,
    slab: u64,
) -> bool {
    forall|k: CacheKeyView|
        #![trigger cache.contains_key(k)]
        cache.contains_key(k) && k.ns == ns && k.path == path && k.file_hash == hash && k.page_id
            * slab < content.len() ==> cache[k] == bytes_from(content, k.page_id * slab, slab as int)
}

/// The checksums of the table are those of the bytes of the content.
pub open spec fn true_table(table: Seq<PageInfo>, content: Seq<u8>, slab: u64) -> bool {
    forall|i: int|
        0 <= i < table.len() && (#[trigger] table[i]).page_id * slab < content.len()
            ==> table[i].crc32c == crc32c_of(
            bytes_from(content, table[i].page_id * slab, slab as int),
        )
}

/// A read ends `len` bytes behind its beginning, but not behind the end of the file: of a
/// file that goes on at `off` it takes the lesser of `len` and what there is.
pub proof fn law_read_end(size: u64, off: u64, len: u64)
    ensures
        off < size ==> {
            &&& off <= read_end(size, off, len) <= size
            &&& read_end(size, off, len) - off <= len
            &&& read_end(size, off, len) - off == len || read_end(size, off, len) == size
        },
        off >= size ==> read_end(size, off, len) == size,
{
}

/// Pages follow one another without a gap, each of `slab` bytes but for the last: a byte
/// lies in the page whose number is told for it, and a page has the bytes that lie in it.
pub proof fn law_pages(content: Seq<u8>, slab: u64, byte: u64, page_id: u32)
    requires
        slab > 0,
    ensures
        byte < slab * (u32::MAX + 1) ==> page_at(slab, byte) * slab <= byte < (page_at(slab, byte) + 1)
            * slab,
        page_id * slab < content.len() ==> page_of(content, slab, page_id) == bytes_from(
            content,
            page_id * slab,
            slab as int,
        ),
{
    lemma_page_at(slab, byte);
    if byte < slab * (u32::MAX + 1) {
        assert(byte / slab <= u32::MAX) by (nonlinear_arith)
            requires
                byte < slab * (u32::MAX + 1),
                slab > 0,
        ;
        let p = page_at(slab, byte);
        assert((p + 1) * slab == p * slab + slab) by (nonlinear_arith);
    }
    if page_id * slab < content.len() {
        vstd::arithmetic::mul::lemma_mul_nonnegative(page_id as int, slab as int);
        assert(page_of(content, slab, page_id) =~= bytes_from(
            content,
            page_id * slab,
            slab as int,
        ));
    }
}

/// From a page that begins at `start`, a read that is at `cur` takes the bytes from `cur` on
/// up to its own end or that of the page, and is then behind the last of them.
pub proof fn law_taken(start: int, cur: u64, end: u64, page: Seq<u8>)
    requires
        0 <= start <= cur < end,
        cur <= start + page.len(),
    ensures
        match taken(start, cur, end, page) {
            Some((b, next)) => {
                &&& next == cur + b.len()
                &&& next <= end
                &&& next == end || next == start + page.len()
                &&& forall|i: int| 0 <= i < b.len() ==> #[trigger] b[i] == page[cur - start + i]
            },
            None => false,
        },
{
}

/// Padding keeps the bytes and puts only zeros behind them.
pub proof fn law_zero_padded(b: Seq<u8>, len: int)
    ensures
        zero_padded(b, len).len() == if b.len() < len {
            len
        } else {
            b.len() as int
        },
        zero_padded(b, len).take(b.len() as int) == b,
        forall|i: int| b.len() <= i < len ==> #[trigger] zero_padded(b, len)[i] == 0,
{
    assert(zero_padded(b, len).take(b.len() as int) =~= b);
}

/// A page that came in full is kept if its checksum is the one that the table has for it, or
/// if the table has none; any other is refused as unavailable.
pub proof fn law_checked_page(entry: FileEntry, page_id: u32, page: Seq<u8>, i: int)
    ensures
        ({
            let t = entry.page_table@;
            &&& (forall|j: int| 0 <= j < t.len() ==> (#[trigger] t[j]).page_id != page_id)
                ==> checked_page(entry, page_id, page) == FillNextView::Store(page)
            &&& 0 <= i < t.len() && t[i].page_id == page_id && (forall|j: int|
                0 <= j < i ==> (#[trigger] t[j]).page_id != page_id) ==> {
                &&& t[i].crc32c == crc32c_of(page) ==> checked_page(entry, page_id, page)
                    == FillNextView::Store(page)
                &&& t[i].crc32c != crc32c_of(page) ==> {
                    &&& checked_page(entry, page_id, page) matches FillNextView::Refuse(r)
                    &&& r.status == 503
                    &&& r.message == "crc32c mismatch for page "@ + decimal(page_id as nat)
                        + ": got "@ + decimal(crc32c_of(page) as nat) + ", expected "@ + decimal(
                        t[i].crc32c as nat,
                    )
                }
            }
        }),
{
    crate::manifest::law_crc(entry.page_table@, page_id);
}

/// A page goes its way into the cache: one that is there is left alone, one that is not is
/// opened, read to the end of its stream, checked and put. Work that fails ends it with a
/// refusal that tells the error, as unavailable if the store failed, else as an error of
/// the server.
pub proof fn law_fill(
    entry: FileEntry,
    page_id: u32,
    page: Seq<u8>,
    b: Seq<u8>,
    t: Seq<char>,
)
    ensures
        fill_next(entry, page_id, FillView::Probe, EventView::Found(b)) == Some(FillNextView::Done),
        fill_next(entry, page_id, FillView::Probe, EventView::Absent) == Some(FillNextView::Open),
        fill_next(entry, page_id, FillView::Opening, EventView::Opened) == Some(
            FillNextView::Read(Seq::empty()),
        ),
        fill_next(entry, page_id, FillView::Filling(page), EventView::Chunk(b)) == Some(
            FillNextView::Read(page + b),
        ),
        fill_next(entry, page_id, FillView::Storing, EventView::Stored) == Some(FillNextView::Done),
        fill_next(entry, page_id, FillView::Filling(page), EventView::StreamEnd) matches Some(n) && (
        n == FillNextView::Store(page) || n is Refuse),
        fill_next(entry, page_id, FillView::Opening, EventView::OpenFailed(t)) matches Some(
            FillNextView::Refuse(r),
        ) && r.status == 503 && r.message == "store stream error: "@ + t,
        fill_next(entry, page_id, FillView::Filling(page), EventView::ChunkFailed(t)) matches Some(
            FillNextView::Refuse(r),
        ) && r.status == 503 && r.message == "store chunk: "@ + t,
        fill_next(entry, page_id, FillView::Storing, EventView::PutStreamFailed(t)) matches Some(
            FillNextView::Refuse(r),
        ) && r.status == 500 && r.message == "l2 put_stream error: "@ + t,
        fill_next(entry, page_id, FillView::Storing, EventView::WriteFailed(t)) matches Some(
            FillNextView::Refuse(r),
        ) && r.status == 500 && r.message == "l2 write: "@ + t,
        fill_next(entry, page_id, FillView::Storing, EventView::CommitFailed(t)) matches Some(
            FillNextView::Refuse(r),
        ) && r.status == 500 && r.message == "l2 commit: "@ + t,
{
}

/// A cache and a table that are true to the content are what a read needs.
pub proof fn lemma_true(
    entry: FileEntry,
    cache: Map<CacheKeyView, Seq<u8>>,
    ns: Seq<char>,
    path: Seq<char>,
    hash: Seq<char>,
    content: Seq<u8>,
    slab: u64,
)
    requires
        slab > 0,
    ensures
        entry.size == content.len() && true_table(entry.page_table@, content, slab) ==> describes(
            entry,
            content,
            slab,
        ),
        true_pages(cache, ns, path, hash, content, slab) <==> sound(
            cache,
            ns,
            path,
            hash,
            content,
            slab,
        ),
        0 < content.len() <= slab * (u32::MAX + 1) && entry.size == content.len() ==> numbered(
            entry.size,
            slab,
        ),
{
    if entry.size == content.len() && true_table(entry.page_table@, content, slab) {
        assert forall|page_id: u32|
            #![trigger crc_of(entry.page_table@, page_id)]
            page_start(slab, page_id) < content.len() implies match crc_of(
            entry.page_table@,
            page_id,
        ) {
            Some(c) => c == crc32c_of(page_of(content, slab, page_id)),
            None => true,
        } by {
            crate::manifest::law_crc(entry.page_table@, page_id);
            law_pages(content, slab, 0, page_id);
        }
    }
    if true_pages(cache, ns, path, hash, content, slab) {
        assert forall|page_id: u32|
            #![trigger key_of(ns, path, hash, page_id)]
            page_start(slab, page_id) < content.len() && cache.contains_key(
                key_of(ns, path, hash, page_id),
            ) implies cache[key_of(ns, path, hash, page_id)] == page_of(content, slab, page_id) by {
            law_pages(content, slab, 0, page_id);
        }
    }
    if sound(cache, ns, path, hash, content, slab) {
        assert forall|k: CacheKeyView|
            #![trigger cache.contains_key(k)]
            cache.contains_key(k) && k.ns == ns && k.path == path && k.file_hash == hash
                && k.page_id * slab < content.len() implies cache[k] == bytes_from(
            content,
            k.page_id * slab,
            slab as int,
        ) by {
            assert(k == key_of(ns, path, hash, k.page_id));
            law_pages(content, slab, 0, k.page_id);
        }
    }
    if 0 < content.len() <= slab * (u32::MAX + 1) && entry.size == content.len() {
        let n = content.len() as int;
        assert((n - 1) / (slab as int) <= u32::MAX) by (nonlinear_arith)
            requires
                0 < n <= slab * (u32::MAX + 1),
                slab > 0,
        ;
    }
}

/// A page that ends before a read stands has nothing to give, and is no reason to go on; from
/// a page that begins behind it, a read takes the bytes from the first on.
pub proof fn law_taken_aside(start: int, cur: u64, end: u64, page: Seq<u8>)
    requires
        0 <= start <= end,
    ensures
        cur > start + page.len() ==> taken(start, cur, end, page) is None,
        cur > end && cur > start ==> taken(start, cur, end, page) is None,
        cur <= start ==> {
            &&& taken(start, cur, end, page) matches Some((b, next))
            &&& b == bytes_from(page, 0, end - start)
            &&& next == start + b.len()
        },
{
    if let Some((b, _)) = taken(start, cur, end, page) {
        if cur <= start {
            assert(b =~= bytes_from(page, 0, end - start));
        }
    }
}

} // verus!
