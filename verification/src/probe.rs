//! Small requests that try the store and the cache out.
use crate::l2::{L2Error, PutOutcome};
use crate::layout;
use crate::layout::file_key_text;
use crate::read::key_of;
use crate::store::{HeadInfo, StoreError};
use crate::text;
use crate::text::{decimal, opt_text};
use crate::types::{CacheKey, CacheKeyView};
use vstd::prelude::*;

verus! {

/// The answer to a probe: the HTTP status and the text.
#[derive(Debug)]
pub struct Answer {
    pub status: u16,
    pub text: String,
}

/// What an [`Answer`] says.
pub struct AnswerView {
    pub status: u16,
    pub text: Seq<char>,
}

impl View for Answer {
    type V = AnswerView;

    open spec fn view(&self) -> AnswerView {
        AnswerView { status: self.status, text: self.text@ }
    }
}

pub open spec fn answer(status: u16, text: Seq<char>) -> AnswerView {
    AnswerView { status, text }
}

fn answer_for(status: u16, what: &str, detail: &str) -> (r: Answer)
    ensures
        r@ == answer(status, what@ + detail@),
{
    Answer { status, text: text::join(what, detail) }
}

/// Without an object store every probe is turned down.
pub fn probe_refused(store_configured: bool) -> (r: Option<Answer>)
    ensures
        store_configured ==> r is None,
        !store_configured ==> r is Some && r->0@ == answer(503, "ObjectStore not configured"@),
{
    if store_configured {
        None
    } else {
        Some(Answer { status: 503, text: "ObjectStore not configured".to_string() })
    }
}

/// A text, or what stands for it.
pub open spec fn text_or(s: Option<String>, other: Seq<char>) -> Seq<char> {
    match s {
        Some(t) => t@,
        None => other,
    }
}

fn or_text(s: Option<String>, other: &str) -> (r: String)
    ensures
        r@ == text_or(s, other@),
{
    match s {
        Some(t) => t,
        None => other.to_string(),
    }
}

/// The object that a probe is about: by its key, or by its namespace, path and hash.
#[derive(Debug)]
pub struct ObjectQuery {
    pub key: Option<String>,
    pub ns: Option<String>,
    pub path: Option<String>,
    pub hash: Option<String>,
}

/// The key of the object that a probe is about; without a namespace that of `dev`,
/// without a path the given one.
pub open spec fn object_key_text(q: ObjectQuery, path: Seq<char>) -> Seq<char> {
    match q.key {
        Some(k) => k@,
        None => file_key_text(text_or(q.ns, "dev"@), text_or(q.path, path), opt_text(q.hash)),
    }
}

fn object_key(q: ObjectQuery, path: &str) -> (r: String)
    ensures
        r@ == object_key_text(q, path@),
{
    match q.key {
        Some(k) => k,
        None => {
            let ns = or_text(q.ns, "dev");
            let path = or_text(q.path, path);
            match q.hash {
                Some(h) => layout::file_key(ns.as_str(), path.as_str(), Some(h.as_str())),
                None => layout::file_key(ns.as_str(), path.as_str(), None),
            }
        },
    }
}

/// A range to get from the store.
#[derive(Debug)]
pub struct RangeProbe {
    pub key: String,
    pub start: u64,
    pub end: u64,
}

/// What to get to try the store out: the first KiB of the object unless the request says
/// otherwise. There is nothing to get if the range has an end that no number tells.
pub fn range_probe(q: ObjectQuery, len: Option<u64>, off: Option<u64>) -> (r: Option<RangeProbe>)
    ensures
        ({
            let start = match off {
                Some(n) => n,
                None => 0,
            };
            let end = start + match len {
                Some(n) => n,
                None => 1024,
            };
            &&& end > u64::MAX ==> r is None
            &&& end <= u64::MAX ==> {
                &&& r is Some
                &&& r->0.key@ == object_key_text(q, "test-file"@)
                &&& r->0.start == start
                &&& r->0.end == end
            }
        }),
{
    let start: u64 = match off {
        Some(n) => n,
        None => 0,
    };
    let len: u64 = match len {
        Some(n) => n,
        None => 1024,
    };
    match start.checked_add(len) {
        Some(end) => Some(RangeProbe { key: object_key(q, "test-file"), start, end }),
        None => None,
    }
}

/// The answer once so many bytes were got from the store, or none were.
pub fn range_answer(store_name: &str, fetched: Result<u64, StoreError>) -> (r: Answer)
    ensures
        r@ == match fetched {
            Ok(n) => answer(
                200,
                "store="@ + store_name@ + ", fetched "@ + decimal(n as nat) + " bytes"@,
            ),
            Err(e) => answer(503, "fetch failed: "@ + e.text()),
        },
{
    match fetched {
        Ok(n) => {
            let mut t = "store=".to_string();
            t.append(store_name);
            t.append(", fetched ");
            text::push_decimal(&mut t, n);
            t.append(" bytes");
            Answer { status: 200, text: t }
        },
        Err(e) => answer_for(503, "fetch failed: ", e.message().as_str()),
    }
}

/// The key of the object to ask the store about.
pub fn head_probe(q: ObjectQuery) -> (r: String)
    ensures
        r@ == object_key_text(q, ""@),
{
    object_key(q, "")
}

/// A text as `Debug` shows it: in quotes, with escapes.
pub uninterp spec fn quoted_text(s: Seq<char>) -> Seq<char>;

/// The formatting `{:?}` of a `str`.
#[verifier::external_body]
fn quoted(s: &str) -> (r: String)
    ensures
        r@ == quoted_text(s@),
{
    format!("{:?}", s)
}

/// What is known of an object, for a reader.
pub open spec fn head_info_text(size: Option<u64>, etag: Option<Seq<char>>) -> Seq<char> {
    "size="@ + match size {
        Some(n) => "Some("@ + decimal(n as nat) + ")"@,
        None => "None"@,
    } + " etag="@ + match etag {
        Some(q) => "Some("@ + q + ")"@,
        None => "None"@,
    }
}

/// What is known of an object, for a reader; the tag already stands in quotes.
pub fn head_info(size: Option<u64>, quoted_etag: Option<String>) -> (r: String)
    ensures
        r@ == head_info_text(size, opt_text(quoted_etag)),
{
    let mut t = "size=".to_string();
    let mut s = "None".to_string();
    if let Some(n) = size {
        s = "Some(".to_string();
        text::push_decimal(&mut s, n);
        s.append(")");
    }
    t.append(s.as_str());
    t.append(" etag=");
    let mut e = "None".to_string();
    if let Some(q) = quoted_etag {
        e = "Some(".to_string();
        e.append(q.as_str());
        e.append(")");
    }
    t.append(e.as_str());
    t
}

/// The answer once the store was asked about an object.
pub fn head_answer(found: Result<Option<HeadInfo>, StoreError>) -> (r: Answer)
    ensures
        r@ == match found {
            Ok(Some(h)) => answer(
                200,
                head_info_text(
                    h.size,
                    match h.etag {
                        Some(t) => Some(quoted_text(t@)),
                        None => None,
                    },
                ),
            ),
            Ok(None) => answer(404, "not found"@),
            Err(e) => answer(503, "head failed: "@ + e.text()),
        },
{
    match found {
        Ok(Some(h)) => {
            let etag = match h.etag {
                Some(t) => Some(quoted(t.as_str())),
                None => None,
            };
            Answer { status: 200, text: head_info(h.size, etag) }
        },
        Ok(None) => Answer { status: 404, text: "not found".to_string() },
        Err(e) => answer_for(503, "head failed: ", e.message().as_str()),
    }
}

/// A range that is to be streamed from the store into the cache: of the object that the
/// key names, or, if any of them is given, of the file with this namespace, path and hash.
#[derive(Debug)]
pub struct StreamQuery {
    pub key: String,
    pub off: u64,
    pub len: u64,
    pub ns: Option<String>,
    pub path: Option<String>,
    pub hash: Option<String>,
    pub page_id: Option<u32>,
}

/// The page that the range is to be.
pub open spec fn stream_key(q: StreamQuery) -> CacheKeyView {
    key_of(
        text_or(q.ns, "default"@),
        text_or(q.path, q.key@),
        text_or(q.hash, "sha256-dev"@),
        match q.page_id {
            Some(p) => p,
            None => 0,
        },
    )
}

/// The object that the range is of.
pub open spec fn stream_object(q: StreamQuery) -> Seq<char> {
    if q.ns is None && q.path is None && q.hash is None {
        q.key@
    } else {
        let page = stream_key(q);
        file_key_text(page.ns, page.path, Some(page.file_hash))
    }
}

/// Outside work that streaming waits for.
#[derive(Debug)]
pub enum StreamAction {
    /// Begin a page of the cache that comes in chunks.
    BeginPut { key: CacheKey, expected_len: u64 },
    /// Open a stream of the bytes `start..end` of the stored object `key`.
    Open { key: String, start: u64, end: u64 },
    /// Take the next chunk off the open stream.
    NextChunk,
    /// Write the chunk into the page.
    Write(Vec<u8>),
    /// Put the page into the cache.
    Commit,
    Reply(Answer),
}

/// What a [`StreamAction`] asks for.
pub enum StreamActionView {
    BeginPut { key: CacheKeyView, expected_len: u64 },
    Open { key: Seq<char>, start: u64, end: u64 },
    NextChunk,
    Write(Seq<u8>),
    Commit,
    Reply(AnswerView),
}

impl View for StreamAction {
    type V = StreamActionView;

    open spec fn view(&self) -> StreamActionView {
        match self {
            StreamAction::BeginPut { key, expected_len } => StreamActionView::BeginPut {
                key: key@,
                expected_len: *expected_len,
            },
            StreamAction::Open { key, start, end } => StreamActionView::Open {
                key: key@,
                start: *start,
                end: *end,
            },
            StreamAction::NextChunk => StreamActionView::NextChunk,
            StreamAction::Write(b) => StreamActionView::Write(b@),
            StreamAction::Commit => StreamActionView::Commit,
            StreamAction::Reply(a) => StreamActionView::Reply(a@),
        }
    }
}

/// What came of a [`StreamAction`]; `Begin` comes before the first one.
#[derive(Debug)]
pub enum StreamEvent {
    Begin,
    /// The page has begun, the stream is open, or the chunk is written.
    Done,
    Chunk(Vec<u8>),
    StreamEnd,
    Committed(PutOutcome),
    StoreFailed(StoreError),
    CacheFailed(L2Error),
}

/// What a [`StreamEvent`] tells; of an error, its text.
pub enum StreamEventView {
    Begin,
    Done,
    Chunk(Seq<u8>),
    StreamEnd,
    Committed(PutOutcome),
    StoreFailed(Seq<char>),
    CacheFailed(Seq<char>),
}

impl View for StreamEvent {
    type V = StreamEventView;

    open spec fn view(&self) -> StreamEventView {
        match self {
            StreamEvent::Begin => StreamEventView::Begin,
            StreamEvent::Done => StreamEventView::Done,
            StreamEvent::Chunk(b) => StreamEventView::Chunk(b@),
            StreamEvent::StreamEnd => StreamEventView::StreamEnd,
            StreamEvent::Committed(o) => StreamEventView::Committed(*o),
            StreamEvent::StoreFailed(e) => StreamEventView::StoreFailed(e.text()),
            StreamEvent::CacheFailed(e) => StreamEventView::CacheFailed(e.text()),
        }
    }
}

/// How far streaming is, and how many bytes have come.
#[derive(Debug, Clone, Copy, PartialEq, Eq, Structural)]
pub enum StreamPhase {
    Start,
    Beginning,
    Opening,
    Reading { total: u64 },
    Writing { total: u64 },
    Committing { total: u64 },
    Over,
}

/// A range on its way from the store into the cache.
#[derive(Debug)]
pub struct StreamProbe {
    key: CacheKey,
    object: String,
    off: u64,
    len: u64,
    phase: StreamPhase,
}

/// What is known of a range on its way from the store into the cache.
pub struct StreamView {
    pub key: CacheKeyView,
    pub object: Seq<char>,
    pub off: u64,
    pub len: u64,
    pub phase: StreamPhase,
}

impl View for StreamProbe {
    type V = StreamView;

    closed spec fn view(&self) -> StreamView {
        StreamView {
            key: self.key@,
            object: self.object@,
            off: self.off,
            len: self.len,
            phase: self.phase,
        }
    }
}

impl StreamView {
    pub open spec fn at(self, phase: StreamPhase) -> StreamView {
        StreamView { phase, ..self }
    }
}

pub open spec fn stream_reply(v: StreamView, status: u16, text: Seq<char>) -> Option<
    (StreamView, StreamActionView),
> {
    Some((v.at(StreamPhase::Over), StreamActionView::Reply(answer(status, text))))
}

/// The outcome in words.
pub open spec fn outcome_text(o: PutOutcome) -> Seq<char> {
    match o {
        PutOutcome::Inserted => "Inserted"@,
        PutOutcome::Updated => "Updated"@,
    }
}

/// The next state and what is to be done. There is none if the event does not answer what
/// was asked, or if no number tells the end of the range or how many bytes have come.
pub open spec fn stream_next(v: StreamView, e: StreamEventView) -> Option<
    (StreamView, StreamActionView),
> {
    match (v.phase, e) {
        (StreamPhase::Start, StreamEventView::Begin) => Some(
            (
                v.at(StreamPhase::Beginning),
                StreamActionView::BeginPut { key: v.key, expected_len: v.len },
            ),
        ),
        (StreamPhase::Beginning, StreamEventView::CacheFailed(t)) => stream_reply(
            v,
            500,
            "l2 put_stream error: "@ + t,
        ),
        (StreamPhase::Beginning, StreamEventView::Done) => if v.off + v.len <= u64::MAX {
            Some(
                (
                    v.at(StreamPhase::Opening),
                    StreamActionView::Open {
                        key: v.object,
                        start: v.off,
                        end: (v.off + v.len) as u64,
                    },
                ),
            )
        } else {
            None
        },
        (StreamPhase::Opening, StreamEventView::StoreFailed(t)) => stream_reply(
            v,
            503,
            "store stream error: "@ + t,
        ),
        (StreamPhase::Opening, StreamEventView::Done) => Some(
            (v.at(StreamPhase::Reading { total: 0 }), StreamActionView::NextChunk),
        ),
        (StreamPhase::Reading { total }, StreamEventView::Chunk(b)) => if total + b.len()
            <= u64::MAX {
            Some(
                (
                    v.at(StreamPhase::Writing { total: (total + b.len()) as u64 }),
                    StreamActionView::Write(b),
                ),
            )
        } else {
            None
        },
        (StreamPhase::Reading { .. }, StreamEventView::StoreFailed(t)) => stream_reply(
            v,
            503,
            "store stream chunk error: "@ + t,
        ),
        (StreamPhase::Reading { total }, StreamEventView::StreamEnd) => Some(
            (v.at(StreamPhase::Committing { total }), StreamActionView::Commit),
        ),
        (StreamPhase::Writing { total }, StreamEventView::Done) => Some(
            (v.at(StreamPhase::Reading { total }), StreamActionView::NextChunk),
        ),
        (StreamPhase::Writing { .. }, StreamEventView::CacheFailed(t)) => stream_reply(
            v,
            500,
            "l2 write error: "@ + t,
        ),
        (StreamPhase::Committing { total }, StreamEventView::Committed(o)) => stream_reply(
            v,
            200,
            "streamed "@ + decimal(total as nat) + " bytes to L2 ("@ + outcome_text(o) + ")"@,
        ),
        (StreamPhase::Committing { .. }, StreamEventView::CacheFailed(t)) => stream_reply(
            v,
            500,
            "l2 commit error: "@ + t,
        ),
        _ => None,
    }
}

impl StreamProbe {
    /// Begins to stream the range.
    pub fn new(q: StreamQuery) -> (r: StreamProbe)
        ensures
            r@ == (StreamView {
                key: stream_key(q),
                object: stream_object(q),
                off: q.off,
                len: q.len,
                phase: StreamPhase::Start,
            }),
    {
        let by_key = q.ns.is_none() && q.path.is_none() && q.hash.is_none();
        let ns = or_text(q.ns, "default");
        let path = match q.path {
            Some(p) => p,
            None => q.key.clone(),
        };
        let hash = or_text(q.hash, "sha256-dev");
        let page_id: u32 = match q.page_id {
            Some(p) => p,
            None => 0,
        };
        let object = if by_key {
            q.key
        } else {
            layout::file_key(ns.as_str(), path.as_str(), Some(hash.as_str()))
        };
        let key = CacheKey::new(ns.as_str(), path.as_str(), hash.as_str(), page_id);
        StreamProbe { key, object, off: q.off, len: q.len, phase: StreamPhase::Start }
    }

    fn copy_of_key(&self) -> (r: CacheKey)
        ensures
            r@ == self@.key,
    {
        CacheKey::new(
            self.key.ns.0.as_str(),
            self.key.item.path.as_str(),
            self.key.item.file_hash.as_str(),
            self.key.page_id,
        )
    }

    /// Takes in what came of the last action and says what is to be done next; nothing,
    /// if the event does not answer it or no number tells what has to be told.
    pub fn step(&mut self, event: StreamEvent) -> (r: Option<StreamAction>)
        ensures
            match stream_next(old(self)@, event@) {
                Some((v, a)) => r is Some && r->0@ == a && final(self)@ == v,
                None => r is None && final(self)@ == old(self)@.at(StreamPhase::Over),
            },
    {
        let phase = self.phase;
        self.phase = StreamPhase::Over;
        match event {
            StreamEvent::Begin => match phase {
                StreamPhase::Start => {
                    self.phase = StreamPhase::Beginning;
                    Some(
                        StreamAction::BeginPut { key: self.copy_of_key(), expected_len: self.len },
                    )
                },
                _ => None,
            },
            StreamEvent::Done => match phase {
                StreamPhase::Beginning => match self.off.checked_add(self.len) {
                    Some(end) => {
                        self.phase = StreamPhase::Opening;
                        let key = self.object.clone();
                        Some(StreamAction::Open { key, start: self.off, end })
                    },
                    None => None,
                },
                StreamPhase::Opening => {
                    self.phase = StreamPhase::Reading { total: 0 };
                    Some(StreamAction::NextChunk)
                },
                StreamPhase::Writing { total } => {
                    self.phase = StreamPhase::Reading { total };
                    Some(StreamAction::NextChunk)
                },
                _ => None,
            },
            StreamEvent::Chunk(b) => match phase {
                StreamPhase::Reading { total } => match total.checked_add(b.len() as u64) {
                    Some(total) => {
                        self.phase = StreamPhase::Writing { total };
                        Some(StreamAction::Write(b))
                    },
                    None => None,
                },
                _ => None,
            },
            StreamEvent::StreamEnd => match phase {
                StreamPhase::Reading { total } => {
                    self.phase = StreamPhase::Committing { total };
                    Some(StreamAction::Commit)
                },
                _ => None,
            },
            StreamEvent::Committed(outcome) => match phase {
                StreamPhase::Committing { total } => {
                    let mut t = "streamed ".to_string();
                    text::push_decimal(&mut t, total);
                    t.append(" bytes to L2 (");
                    match outcome {
                        PutOutcome::Inserted => t.append("Inserted"),
                        PutOutcome::Updated => t.append("Updated"),
                    }
                    t.append(")");
                    Some(StreamAction::Reply(Answer { status: 200, text: t }))
                },
                _ => None,
            },
            StreamEvent::StoreFailed(e) => {
                let m = e.message();
                match phase {
                    StreamPhase::Opening => Some(
                        StreamAction::Reply(answer_for(503, "store stream error: ", m.as_str())),
                    ),
                    StreamPhase::Reading { .. } => Some(
                        StreamAction::Reply(
                            answer_for(503, "store stream chunk error: ", m.as_str()),
                        ),
                    ),
                    _ => None,
                }
            },
            StreamEvent::CacheFailed(e) => {
                let m = e.message();
                match phase {
                    StreamPhase::Beginning => Some(
                        StreamAction::Reply(answer_for(500, "l2 put_stream error: ", m.as_str())),
                    ),
                    StreamPhase::Writing { .. } => Some(
                        StreamAction::Reply(answer_for(500, "l2 write error: ", m.as_str())),
                    ),
                    StreamPhase::Committing { .. } => Some(
                        StreamAction::Reply(answer_for(500, "l2 commit error: ", m.as_str())),
                    ),
                    _ => None,
                }
            },
        }
    }
}

/// Where streaming is after these events, and what it then asks for.
pub open spec fn stream_run(v: StreamView, events: Seq<StreamEventView>) -> Option<
    (StreamView, StreamActionView),
>
    decreases events.len(),
{
    if events.len() == 0 {
        None
    } else if events.len() == 1 {
        stream_next(v, events[0])
    } else {
        match stream_run(v, events.drop_last()) {
            Some((u, _)) => stream_next(u, events.last()),
            None => None,
        }
    }
}

/// The bytes of the chunks that came, one behind the other.
pub open spec fn chunks(events: Seq<StreamEventView>) -> Seq<u8>
    decreases events.len(),
{
    if events.len() == 0 {
        Seq::empty()
    } else {
        match events.last() {
            StreamEventView::Chunk(b) => chunks(events.drop_last()) + b,
            _ => chunks(events.drop_last()),
        }
    }
}

/// The number of bytes that is told is the number of those that came in chunks.
pub proof fn law_stream_total(v: StreamView, events: Seq<StreamEventView>)
    requires
        v.phase == StreamPhase::Start,
    ensures
        match stream_run(v, events) {
            Some((u, a)) => {
                &&& u.phase matches StreamPhase::Reading { total } ==> total == chunks(events).len()
                &&& u.phase matches StreamPhase::Writing { total } ==> total == chunks(events).len()
                &&& u.phase matches StreamPhase::Committing { total } ==> total == chunks(
                    events,
                ).len()
                &&& u.phase == StreamPhase::Over && events.last() is Committed ==> a
                    == StreamActionView::Reply(
                    answer(
                        200,
                        "streamed "@ + decimal(chunks(events).len()) + " bytes to L2 ("@
                            + outcome_text(events.last()->Committed_0) + ")"@,
                    ),
                )
                &&& u.phase == StreamPhase::Beginning || u.phase == StreamPhase::Opening
                    ==> chunks(events).len() == 0
                &&& u.phase != StreamPhase::Start
            },
            None => true,
        },
    decreases events.len(),
{
    if events.len() == 1 {
        assert(events.drop_last() =~= Seq::<StreamEventView>::empty());
        assert(chunks(events.drop_last()) == Seq::<u8>::empty());
    } else if events.len() > 1 {
        law_stream_total(v, events.drop_last());
    }
}

/// The object of a probe is the one that the key names, if there is a key; else the file
/// with the path of the request, or the one that stands for it, in the namespace of the
/// request, or in `dev`, under the hash of the request, if it gives one.
pub proof fn law_probed_object(q: ObjectQuery, path: Seq<char>)
    ensures
        q.key is Some ==> object_key_text(q, path) == q.key->0@,
        q.key is None ==> object_key_text(q, path) == file_key_text(
            if q.ns is Some {
                q.ns->0@
            } else {
                "dev"@
            },
            if q.path is Some {
                q.path->0@
            } else {
                path
            },
            if q.hash is Some {
                Some(q.hash->0@)
            } else {
                None
            },
        ),
{
}

/// The page that a range is streamed into is named by the namespace, the path and the hash
/// of the request, by its key in the place of a path, and else by what stands for them. The
/// range is of the object that the key names, unless one of them is given: then it is of the
/// version of the file that the page is of.
pub proof fn law_streamed_object(q: StreamQuery)
    ensures
        stream_key(q).ns == if q.ns is Some {
            q.ns->0@
        } else {
            "default"@
        },
        stream_key(q).path == if q.path is Some {
            q.path->0@
        } else {
            q.key@
        },
        stream_key(q).file_hash == if q.hash is Some {
            q.hash->0@
        } else {
            "sha256-dev"@
        },
        stream_key(q).page_id == if q.page_id is Some {
            q.page_id->0
        } else {
            0
        },
        q.ns is None && q.path is None && q.hash is None ==> stream_object(q) == q.key@,
        q.ns is Some || q.path is Some || q.hash is Some ==> stream_object(q) == file_key_text(
            stream_key(q).ns,
            stream_key(q).path,
            Some(stream_key(q).file_hash),
        ),
{
}

/// Streaming goes its way: a page is begun, the range is opened, each chunk is written into
/// the page as it came, the page is put at the end of the stream, and the bytes are told.
/// Work that fails ends it with an answer that tells the error, as unavailable if the store
/// failed, else as an error of the server.
pub proof fn law_stream_goes_on(
    v: StreamView,
    total: u64,
    b: Seq<u8>,
    o: PutOutcome,
    t: Seq<char>,
)
    ensures
        v.phase == StreamPhase::Start ==> {
            &&& stream_next(v, StreamEventView::Begin) matches Some((u, a))
            &&& u.phase == StreamPhase::Beginning
            &&& a == (StreamActionView::BeginPut { key: v.key, expected_len: v.len })
        },
        v.phase == StreamPhase::Beginning && v.off + v.len <= u64::MAX ==> {
            &&& stream_next(v, StreamEventView::Done) matches Some((
                u,
                StreamActionView::Open { key, start, end },
            ))
            &&& u.phase == StreamPhase::Opening
            &&& key == v.object
            &&& start == v.off
            &&& end - start == v.len
        },
        v.phase == StreamPhase::Opening ==> {
            &&& stream_next(v, StreamEventView::Done) matches Some((u, a))
            &&& u.phase == (StreamPhase::Reading { total: 0 })
            &&& a is NextChunk
        },
        v.phase == (StreamPhase::Reading { total }) && total + b.len() <= u64::MAX ==> {
            &&& stream_next(v, StreamEventView::Chunk(b)) matches Some((u, a))
            &&& u.phase matches StreamPhase::Writing { total: more }
            &&& more == total + b.len()
            &&& a == StreamActionView::Write(b)
        },
        v.phase == (StreamPhase::Writing { total }) ==> {
            &&& stream_next(v, StreamEventView::Done) matches Some((u, a))
            &&& u.phase == (StreamPhase::Reading { total })
            &&& a is NextChunk
        },
        v.phase == (StreamPhase::Reading { total }) ==> {
            &&& stream_next(v, StreamEventView::StreamEnd) matches Some((u, a))
            &&& u.phase == (StreamPhase::Committing { total })
            &&& a is Commit
        },
        v.phase == (StreamPhase::Committing { total }) ==> {
            &&& stream_next(v, StreamEventView::Committed(o)) matches Some((
                _,
                StreamActionView::Reply(r),
            ))
            &&& r.status == 200
            &&& o is Inserted ==> r.text == "streamed "@ + decimal(total as nat)
                + " bytes to L2 ("@ + "Inserted"@ + ")"@
            &&& o is Updated ==> r.text == "streamed "@ + decimal(total as nat)
                + " bytes to L2 ("@ + "Updated"@ + ")"@
        },
        v.phase == StreamPhase::Beginning ==> (stream_next(v, StreamEventView::CacheFailed(t))
            matches Some((_, StreamActionView::Reply(r))) && r.status == 500 && r.text
            == "l2 put_stream error: "@ + t),
        v.phase == StreamPhase::Opening ==> (stream_next(v, StreamEventView::StoreFailed(t))
            matches Some((_, StreamActionView::Reply(r))) && r.status == 503 && r.text
            == "store stream error: "@ + t),
        v.phase == (StreamPhase::Reading { total }) ==> (stream_next(
            v,
            StreamEventView::StoreFailed(t),
        ) matches Some((_, StreamActionView::Reply(r))) && r.status == 503 && r.text
            == "store stream chunk error: "@ + t),
        v.phase == (StreamPhase::Writing { total }) ==> (stream_next(
            v,
            StreamEventView::CacheFailed(t),
        ) matches Some((_, StreamActionView::Reply(r))) && r.status == 500 && r.text
            == "l2 write error: "@ + t),
        v.phase == (StreamPhase::Committing { total }) ==> (stream_next(
            v,
            StreamEventView::CacheFailed(t),
        ) matches Some((_, StreamActionView::Reply(r))) && r.status == 500 && r.text
            == "l2 commit error: "@ + t),
{
}

/// Streaming is about the same page, object and range from its beginning to its end.
pub proof fn law_stream_same(v: StreamView, e: StreamEventView)
    ensures
        stream_next(v, e) matches Some((u, _)) ==> u.key == v.key && u.object == v.object && u.off
            == v.off && u.len == v.len,
{
}

/// What is known of an object is told in full: its size in decimal, and its tag, each as
/// something or as nothing.
pub proof fn law_head_info(size: Option<u64>, etag: Option<Seq<char>>)
    ensures
        ({
            let t = head_info_text(size, etag);
            let s = match size {
                Some(n) => "Some("@ + decimal(n as nat) + ")"@,
                None => "None"@,
            };
            let e = match etag {
                Some(q) => "Some("@ + q + ")"@,
                None => "None"@,
            };
            t == "size="@ + s + " etag="@ + e
        }),
{
}

} // verus!
