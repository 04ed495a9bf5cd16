//! Publishing a file: its manifest is made from its bytes, and HEAD is moved to it.
use crate::blob;
use crate::blob::BlobView;
use crate::codec;
use crate::codec::{bytes_or_text, gunzip_of, gzip_of, lossy_text};
use crate::config;
use crate::digest;
use crate::digest::{crc32c_of, hex_text, sha256_fed, sha256_of, MAX_HASHED};
use crate::layout;
use crate::manifest::{
    crc_of, head_version_of, parse_head_version, position, FileEntry, FileEntryView, Manifest,
    ManifestView, ObjectLoc, PageInfo,
};
use crate::plan;
use crate::read;
use crate::read::{page_end, page_of, page_start, tabled, World};
use crate::readv;
use crate::readv::ReadvView;
use crate::store::HeadInfo;
use crate::text;
use vstd::prelude::*;
use vstd::slice::slice_to_vec;
use vstd::utf8::{decode_utf8, encode_utf8, valid_utf8};

verus! {

/// How much of a HEAD file is read to tell the version to publish: the bytes before
/// this one.
pub const HEAD_PROBE_END: u64 = 65;

/// The version behind the one that the text of a HEAD file names, or behind zero if it
/// names none. There is none behind the last.
pub open spec fn version_behind(head: Seq<char>) -> Option<nat> {
    let v = match head_version_of(head) {
        Some(v) => v,
        None => 0,
    };
    if v < u64::MAX {
        Some(v + 1)
    } else {
        None
    }
}

/// The version behind the one that the text of a HEAD file names.
pub fn version_after(head: &str) -> (r: Option<u64>)
    ensures
        match version_behind(head@) {
            Some(v) => r is Some && r->0 == v,
            None => r is None,
        },
{
    let v: u64 = match parse_head_version(head) {
        Some(v) => v,
        None => 0,
    };
    v.checked_add(1)
}

/// The version to publish: the one that was asked for, else the one behind that of the
/// HEAD file, else, without a HEAD file, the first.
pub fn chosen_version(explicit: Option<u64>, head: Option<&[u8]>) -> (r: Option<u64>)
    ensures
        explicit is Some ==> r == explicit,
        explicit is None && head is None ==> r == Some(1u64),
        explicit is None && head is Some ==> match version_behind(lossy_text(head->0@)) {
            Some(v) => r is Some && r->0 == v,
            None => r is None,
        },
        explicit is None && head is Some && valid_utf8(head->0@) ==> lossy_text(head->0@)
            == decode_utf8(head->0@),
{
    match explicit {
        Some(v) => Some(v),
        None => match head {
            None => Some(1),
            Some(bytes) => {
                let s = codec::text_of(bytes);
                version_after(s.as_str())
            },
        },
    }
}

/// What a HEAD file says when this version is the current one.
pub open spec fn head_text(version: nat) -> Seq<char> {
    "v-"@ + text::decimal(version) + "\n"@
}

/// The bytes of the HEAD file for this version.
pub fn head_body(version: u64) -> (r: Vec<u8>)
    ensures
        r@ == encode_utf8(head_text(version as nat)),
{
    let mut s = "v-".to_string();
    text::push_decimal(&mut s, version);
    s.append("\n");
    slice_to_vec(s.as_str().as_bytes())
}

/// What is told once the manifest of this version and HEAD are written.
pub open spec fn written_text(ns: Seq<char>, version: nat) -> Seq<char> {
    "Wrote "@ + layout::manifest_head_key_text(ns) + " and "@ + layout::manifest_version_key_text(
        ns,
        version,
    )
}

/// What is told once the manifest of this version and HEAD are written.
pub fn wrote_text(ns: &str, version: u64) -> (r: String)
    ensures
        r@ == written_text(ns@, version as nat),
{
    let mut r = "Wrote ".to_string();
    r.append(layout::manifest_head_key(ns).as_str());
    r.append(" and ");
    r.append(layout::manifest_version_key(ns, version).as_str());
    r
}

/// What is told if the manifest of this version is there already.
pub open spec fn refused_text(version: nat) -> Seq<char> {
    "manifest v-"@ + text::decimal(version) + " is already published"@
}

/// A version is published once: it is refused if its manifest is found in the store.
pub fn publish_refused(version: u64, found: &Option<HeadInfo>) -> (r: Option<String>)
    ensures
        r is Some <==> found is Some,
        r is Some ==> r->0@ == refused_text(version as nat),
{
    match found {
        Some(_) => {
            let mut t = "manifest v-".to_string();
            text::push_decimal(&mut t, version);
            t.append(" is already published");
            Some(t)
        },
        None => None,
    }
}

/// Outside work that publishing waits for.
#[derive(Debug)]
pub enum PublishAction {
    /// Ask whether the store has the manifest `key`.
    FindManifest { key: String },
    /// Open a stream of the bytes `start..end` of the stored object `key`.
    Open { key: String, start: u64, end: u64 },
    /// Take the next chunk off the open stream.
    NextChunk,
    /// Tell the time.
    Stamp,
    /// Make the JSON of the manifest.
    Encode(Manifest),
    /// Store the manifest.
    PutManifest { key: String, body: Vec<u8> },
    /// Move HEAD.
    PutHead { key: String, body: Vec<u8> },
    /// The file is published; this is to be told.
    Done(String),
    Fail(String),
}

/// What a [`PublishAction`] asks for.
pub enum ActionView {
    FindManifest { key: Seq<char> },
    Open { key: Seq<char>, start: u64, end: u64 },
    NextChunk,
    Stamp,
    Encode(ManifestView),
    PutManifest { key: Seq<char>, body: Seq<u8> },
    PutHead { key: Seq<char>, body: Seq<u8> },
    Done(Seq<char>),
    Fail(Seq<char>),
}

impl View for PublishAction {
    type V = ActionView;

    open spec fn view(&self) -> ActionView {
        match self {
            PublishAction::FindManifest { key } => ActionView::FindManifest { key: key@ },
            PublishAction::Open { key, start, end } => ActionView::Open {
                key: key@,
                start: *start,
                end: *end,
            },
            PublishAction::NextChunk => ActionView::NextChunk,
            PublishAction::Stamp => ActionView::Stamp,
            PublishAction::Encode(m) => ActionView::Encode(m@),
            PublishAction::PutManifest { key, body } => ActionView::PutManifest {
                key: key@,
                body: body@,
            },
            PublishAction::PutHead { key, body } => ActionView::PutHead { key: key@, body: body@ },
            PublishAction::Done(t) => ActionView::Done(t@),
            PublishAction::Fail(t) => ActionView::Fail(t@),
        }
    }
}

/// What came of a [`PublishAction`]; `Begin` comes before the first one.
#[derive(Debug)]
pub enum PublishEvent {
    Begin,
    /// What the store knows of the manifest, if it has it.
    Info(Option<HeadInfo>),
    Opened,
    Chunk(Vec<u8>),
    StreamEnd,
    /// Seconds since the epoch.
    Now(u64),
    /// The JSON of the manifest.
    Encoded(Vec<u8>),
    Stored,
    /// The work failed, with this error.
    Failed(String),
}

/// What a [`PublishEvent`] tells; of the manifest, whether the store has it.
pub enum EventView {
    Begin,
    Info(bool),
    Opened,
    Chunk(Seq<u8>),
    StreamEnd,
    Now(u64),
    Encoded(Seq<u8>),
    Stored,
    Failed(Seq<char>),
}

impl View for PublishEvent {
    type V = EventView;

    open spec fn view(&self) -> EventView {
        match self {
            PublishEvent::Begin => EventView::Begin,
            PublishEvent::Info(h) => EventView::Info(h is Some),
            PublishEvent::Opened => EventView::Opened,
            PublishEvent::Chunk(b) => EventView::Chunk(b@),
            PublishEvent::StreamEnd => EventView::StreamEnd,
            PublishEvent::Now(t) => EventView::Now(*t),
            PublishEvent::Encoded(b) => EventView::Encoded(b@),
            PublishEvent::Stored => EventView::Stored,
            PublishEvent::Failed(t) => EventView::Failed(t@),
        }
    }
}

enum Phase {
    Start,
    Checking,
    Opening,
    Reading(Vec<u8>),
    Stamping,
    Encoding,
    PuttingManifest,
    PuttingHead,
    Over,
}

/// How far publishing is.
pub enum PhaseView {
    /// Nothing has been decided.
    Start,
    /// The store is asked for the manifest.
    Checking,
    /// A stream of the next page is being opened.
    Opening,
    /// These bytes of the next page have come.
    Reading(Seq<u8>),
    /// All pages were read; the time is asked for.
    Stamping,
    /// The JSON of the manifest is being made.
    Encoding,
    /// The manifest is being stored.
    PuttingManifest,
    /// The manifest is stored; HEAD is being moved.
    PuttingHead,
    Over,
}

/// A file that is being published.
pub struct Publish {
    ns: String,
    path: String,
    key: String,
    size: u64,
    etag: Option<String>,
    slab: u64,
    version: u64,
    sha: Option<sha2::Sha256>,
    fed: u64,
    table: Vec<PageInfo>,
    off: u64,
    phase: Phase,
}

/// What is known of a file that is being published.
pub struct PublishView {
    pub ns: Seq<char>,
    pub path: Seq<char>,
    pub key: Seq<char>,
    pub size: u64,
    pub etag: Option<Seq<char>>,
    pub slab: u64,
    pub version: u64,
    /// The bytes that were read, until the manifest is made.
    pub read: Seq<u8>,
    /// The pages that were read in full, until the manifest is made.
    pub table: Seq<PageInfo>,
    /// Where the next page begins.
    pub off: u64,
    pub phase: PhaseView,
}

impl View for Publish {
    type V = PublishView;

    closed spec fn view(&self) -> PublishView {
        PublishView {
            ns: self.ns@,
            path: self.path@,
            key: self.key@,
            size: self.size,
            etag: text::opt_text(self.etag),
            slab: self.slab,
            version: self.version,
            read: match self.sha {
                Some(h) => sha256_fed(h),
                None => Seq::empty(),
            },
            table: self.table@,
            off: self.off,
            phase: match self.phase {
                Phase::Start => PhaseView::Start,
                Phase::Checking => PhaseView::Checking,
                Phase::Opening => PhaseView::Opening,
                Phase::Reading(b) => PhaseView::Reading(b@),
                Phase::Stamping => PhaseView::Stamping,
                Phase::Encoding => PhaseView::Encoding,
                Phase::PuttingManifest => PhaseView::PuttingManifest,
                Phase::PuttingHead => PhaseView::PuttingHead,
                Phase::Over => PhaseView::Over,
            },
        }
    }
}

impl PublishView {
    pub open spec fn at(self, phase: PhaseView) -> PublishView {
        PublishView { phase, ..self }
    }

    /// Where the next page ends.
    pub open spec fn end(self) -> u64 {
        if self.off + self.slab < self.size {
            (self.off + self.slab) as u64
        } else {
            self.size
        }
    }

    /// The table entry of the next page, whose bytes are these.
    pub open spec fn page(self, bytes: Seq<u8>) -> PageInfo {
        PageInfo {
            page_id: self.table.len() as u32,
            off: self.off,
            len: (self.end() - self.off) as u32,
            crc32c: crc32c_of(bytes),
        }
    }

    pub open spec fn wf(self) -> bool {
        &&& self.off <= self.size
        &&& self.read.len() < MAX_HASHED
        &&& self.table.len() <= u32::MAX
        &&& self.phase is Opening || self.phase is Reading ==> self.off < self.size
    }

    /// The manifest of the file: one version with one file, whose parent, if there is
    /// one, is the version before.
    pub open spec fn manifest(self, created_at: u64) -> ManifestView {
        ManifestView {
            version: self.version,
            files: seq![
                FileEntryView {
                    path: self.path,
                    size: self.size,
                    hash: "sha256:"@ + hex_text(sha256_of(self.read)),
                    page_table: self.table,
                    key: self.key,
                    etag: self.etag,
                    sse: None,
                },
            ],
            parents: if self.version > 1 {
                seq![(self.version - 1) as u64]
            } else {
                Seq::empty()
            },
            tombstones: Seq::empty(),
            created_at,
        }
    }

    /// The key of the manifest.
    pub open spec fn manifest_key(self) -> Seq<char> {
        layout::manifest_version_key_text(self.ns, self.version as nat)
    }
}

/// Goes on to the next page, or to the manifest. A file with bytes cannot be cut into pages
/// of none.
pub open spec fn next_page(v: PublishView) -> Option<(PublishView, ActionView)> {
    if v.off >= v.size {
        Some((v.at(PhaseView::Stamping), ActionView::Stamp))
    } else if v.slab == 0 {
        None
    } else {
        Some(
            (
                v.at(PhaseView::Opening),
                ActionView::Open { key: v.key, start: v.off, end: v.end() },
            ),
        )
    }
}

pub open spec fn publish_failed(v: PublishView, t: Seq<char>) -> (PublishView, ActionView) {
    (v.at(PhaseView::Over), ActionView::Fail(t))
}

/// What follows from what the JSON was compressed to.
pub open spec fn zipped_decision(v: PublishView, zipped: Result<Seq<u8>, Seq<char>>) -> (
    PublishView,
    ActionView,
) {
    match zipped {
        Ok(gz) => (
            v.at(PhaseView::PuttingManifest),
            ActionView::PutManifest { key: v.manifest_key(), body: gz },
        ),
        Err(t) => publish_failed(v, t),
    }
}

/// The next state and what is to be done. There is none if the event does not answer
/// what was asked, if more bytes came than can be hashed, if the next page could not be
/// numbered, or if the pages have no bytes.
pub open spec fn publish_next(v: PublishView, e: EventView) -> Option<(PublishView, ActionView)> {
    match (v.phase, e) {
        (PhaseView::Start, EventView::Begin) => Some(
            (v.at(PhaseView::Checking), ActionView::FindManifest { key: v.manifest_key() }),
        ),
        (PhaseView::Checking, EventView::Info(found)) => if found {
            Some(publish_failed(v, refused_text(v.version as nat)))
        } else {
            next_page(v)
        },
        (PhaseView::Opening, EventView::Opened) => Some(
            (v.at(PhaseView::Reading(Seq::empty())), ActionView::NextChunk),
        ),
        (PhaseView::Reading(page), EventView::Chunk(b)) => if v.read.len() + b.len() < MAX_HASHED {
            Some(
                (
                    PublishView {
                        read: v.read + b,
                        phase: PhaseView::Reading(page + b),
                        ..v
                    },
                    ActionView::NextChunk,
                ),
            )
        } else {
            None
        },
        (PhaseView::Reading(page), EventView::StreamEnd) => if v.table.len() < u32::MAX {
            next_page(PublishView { table: v.table.push(v.page(page)), off: v.end(), ..v })
        } else {
            None
        },
        (PhaseView::Stamping, EventView::Now(t)) => Some(
            (
                PublishView {
                    read: Seq::empty(),
                    table: Seq::empty(),
                    phase: PhaseView::Encoding,
                    ..v
                },
                ActionView::Encode(v.manifest(t)),
            ),
        ),
        (PhaseView::Encoding, EventView::Encoded(json)) => Some(zipped_decision(v, gzip_of(json))),
        (PhaseView::PuttingManifest, EventView::Stored) => Some(
            (
                v.at(PhaseView::PuttingHead),
                ActionView::PutHead {
                    key: layout::manifest_head_key_text(v.ns),
                    body: encode_utf8(head_text(v.version as nat)),
                },
            ),
        ),
        (PhaseView::PuttingHead, EventView::Stored) => Some(
            (
                v.at(PhaseView::Over),
                ActionView::Done(written_text(v.ns, v.version as nat)),
            ),
        ),
        (
            PhaseView::Checking
            | PhaseView::Opening
            | PhaseView::Reading(_)
            | PhaseView::Encoding
            | PhaseView::PuttingManifest
            | PhaseView::PuttingHead,
            EventView::Failed(t),
        ) => Some(publish_failed(v, t)),
        _ => None,
    }
}

impl Publish {
    /// What is counted is what was hashed, and the hasher is there until the manifest is
    /// made.
    pub closed spec fn inv(&self) -> bool {
        &&& self@.wf()
        &&& self.sha is Some ==> self.fed == sha256_fed(self.sha->0).len()
        &&& self.phase is Start || self.phase is Checking || self.phase is Opening
            || self.phase is Reading || self.phase is Stamping ==> self.sha is Some
    }

    /// Begins to publish the file as this version, from what the store tells of its
    /// object, in pages of so many MiB.
    pub fn new(ns: &str, path: &str, head: HeadInfo, slab_size_mib: u32, version: u64) -> (r: Publish)
        ensures
            r@ == (PublishView {
                ns: ns@,
                path: path@,
                key: layout::file_key_text(ns@, path@, None),
                size: match head.size {
                    Some(n) => n,
                    None => 0,
                },
                etag: text::opt_text(head.etag),
                slab: config::mib(slab_size_mib),
                version,
                read: Seq::empty(),
                table: Seq::empty(),
                off: 0,
                phase: PhaseView::Start,
            }),
            r.inv(),
    {
        let size: u64 = match head.size {
            Some(n) => n,
            None => 0,
        };
        Publish {
            ns: ns.to_string(),
            path: path.to_string(),
            key: layout::file_key(ns, path, None),
            size,
            etag: head.etag,
            slab: config::slab_bytes(slab_size_mib),
            version,
            sha: Some(digest::sha256_new()),
            fed: 0,
            table: Vec::new(),
            off: 0,
            phase: Phase::Start,
        }
    }

    fn end(&self) -> (r: u64)
        requires
            self@.off <= self@.size,
        ensures
            r == self@.end(),
    {
        if self.size - self.off > self.slab {
            self.off + self.slab
        } else {
            self.size
        }
    }

    fn next_page(&mut self) -> (r: Option<PublishAction>)
        requires
            old(self).inv(),
            old(self).sha is Some,
            old(self)@.phase is Over,
        ensures
            match next_page(old(self)@) {
                Some((v, a)) => r is Some && r->0@ == a && final(self)@ == v,
                None => r is None && final(self)@ == old(self)@,
            },
            final(self).inv(),
    {
        if self.off >= self.size {
            self.phase = Phase::Stamping;
            Some(PublishAction::Stamp)
        } else if self.slab == 0 {
            None
        } else {
            let end = self.end();
            self.phase = Phase::Opening;
            Some(PublishAction::Open { key: self.key.clone(), start: self.off, end })
        }
    }

    fn read_chunk(&mut self, page: Vec<u8>, b: Vec<u8>) -> (r: Option<PublishAction>)
        requires
            old(self).inv(),
            old(self).sha is Some,
            old(self)@.phase is Over,
            old(self)@.off < old(self)@.size,
        ensures
            match publish_next(
                old(self)@.at(PhaseView::Reading(page@)),
                EventView::Chunk(b@),
            ) {
                Some((v, a)) => r is Some && r->0@ == a && final(self)@ == v,
                None => r is None && final(self)@ == old(self)@,
            },
            final(self).inv(),
    {
        let len = b.len() as u64;
        if len < MAX_HASHED - self.fed {
            match self.sha.take() {
                Some(sha) => {
                    let mut sha = sha;
                    let mut more = page;
                    digest::sha256_update(&mut sha, b.as_slice());
                    more.extend_from_slice(b.as_slice());
                    assert(more@ =~= page@ + b@);
                    self.sha = Some(sha);
                    self.fed = self.fed + len;
                    self.phase = Phase::Reading(more);
                    Some(PublishAction::NextChunk)
                },
                None => {
                    assert(false);
                    None
                },
            }
        } else {
            None
        }
    }

    /// The manifest, made from what was read, at this time.
    fn make_manifest(&mut self, created_at: u64) -> (r: Manifest)
        requires
            old(self).inv(),
            old(self).sha is Some,
        ensures
            r@ == old(self)@.manifest(created_at),
            final(self)@ == (PublishView {
                read: Seq::empty(),
                table: Seq::empty(),
                phase: PhaseView::Encoding,
                ..old(self)@
            }),
            final(self).inv(),
    {
        let ghost v = self@;
        let sum = match self.sha.take() {
            Some(sha) => digest::sha256_finalize(sha),
            None => {
                assert(false);
                Vec::new()
            },
        };
        let hash = text::join("sha256:", digest::hex_encode(sum.as_slice()).as_str());
        let mut parents: Vec<u64> = Vec::new();
        if self.version > 1 {
            parents.push(self.version - 1);
        }
        let mut page_table: Vec<PageInfo> = Vec::new();
        core::mem::swap(&mut page_table, &mut self.table);
        let etag = match &self.etag {
            Some(t) => Some(t.clone()),
            None => None,
        };
        let mut files: Vec<FileEntry> = Vec::new();
        files.push(
            FileEntry {
                path: self.path.clone(),
                size: self.size,
                hash,
                page_table,
                storage: ObjectLoc { key: self.key.clone(), etag, sse: None },
            },
        );
        self.phase = Phase::Encoding;
        let r = Manifest {
            version: self.version,
            files,
            parents,
            tombstones: Vec::new(),
            created_at,
        };
        assert(r@.files =~= v.manifest(created_at).files);
        assert(r@.parents =~= v.manifest(created_at).parents);
        assert(r@.tombstones =~= Seq::<Seq<char>>::empty());
        assert(self@.table =~= Seq::<PageInfo>::empty());
        r
    }

    /// Decides by what the JSON of the manifest was compressed to: the manifest is stored,
    /// or the publishing fails.
    pub fn zipped(&mut self, zipped: Result<Vec<u8>, String>) -> (r: PublishAction)
        requires
            old(self).inv(),
        ensures
            (final(self)@, r@) == zipped_decision(old(self)@, bytes_or_text(zipped)),
            final(self).inv(),
    {
        match zipped {
            Ok(gz) => {
                self.phase = Phase::PuttingManifest;
                PublishAction::PutManifest {
                    key: layout::manifest_version_key(self.ns.as_str(), self.version),
                    body: gz,
                }
            },
            Err(t) => {
                self.phase = Phase::Over;
                PublishAction::Fail(t)
            },
        }
    }

    /// Takes in what came of the last action and says what is to be done next; nothing,
    /// if the event does not answer it or the manifest cannot be made.
    pub fn step(&mut self, event: PublishEvent) -> (r: Option<PublishAction>)
        requires
            old(self).inv(),
        ensures
            match publish_next(old(self)@, event@) {
                Some((v, a)) => r is Some && r->0@ == a && final(self)@ == v,
                None => r is None && final(self)@.phase is Over,
            },
            old(self)@.phase is Encoding && event@ is Encoded && gzip_of(event@->Encoded_0) is Ok
                ==> gunzip_of(gzip_of(event@->Encoded_0)->Ok_0) is Ok && gunzip_of(
                gzip_of(event@->Encoded_0)->Ok_0,
            )->Ok_0 == event@->Encoded_0,
            final(self).inv(),
    {
        let mut phase = Phase::Over;
        core::mem::swap(&mut phase, &mut self.phase);
        match phase {
            Phase::Start => match event {
                PublishEvent::Begin => {
                    self.phase = Phase::Checking;
                    Some(
                        PublishAction::FindManifest {
                            key: layout::manifest_version_key(self.ns.as_str(), self.version),
                        },
                    )
                },
                _ => None,
            },
            Phase::Checking => match event {
                PublishEvent::Info(found) => match publish_refused(self.version, &found) {
                    Some(t) => Some(PublishAction::Fail(t)),
                    None => self.next_page(),
                },
                PublishEvent::Failed(t) => Some(PublishAction::Fail(t)),
                _ => None,
            },
            Phase::Opening => match event {
                PublishEvent::Opened => {
                    self.phase = Phase::Reading(Vec::new());
                    Some(PublishAction::NextChunk)
                },
                PublishEvent::Failed(t) => Some(PublishAction::Fail(t)),
                _ => None,
            },
            Phase::Reading(page) => match event {
                PublishEvent::Chunk(b) => self.read_chunk(page, b),
                PublishEvent::StreamEnd => {
                    if (self.table.len() as u64) < u32::MAX as u64 {
                        let end = self.end();
                        let info = PageInfo {
                            page_id: self.table.len() as u32,
                            off: self.off,
                            len: (end - self.off) as u32,
                            crc32c: digest::crc32c(page.as_slice()),
                        };
                        self.table.push(info);
                        self.off = end;
                        self.next_page()
                    } else {
                        None
                    }
                },
                PublishEvent::Failed(t) => Some(PublishAction::Fail(t)),
                _ => None,
            },
            Phase::Stamping => match event {
                PublishEvent::Now(t) => Some(PublishAction::Encode(self.make_manifest(t))),
                _ => None,
            },
            Phase::Encoding => match event {
                PublishEvent::Encoded(json) => {
                    let zipped = codec::gzip(json.as_slice());
                    Some(self.zipped(zipped))
                },
                PublishEvent::Failed(t) => Some(PublishAction::Fail(t)),
                _ => None,
            },
            Phase::PuttingManifest => match event {
                PublishEvent::Stored => {
                    self.phase = Phase::PuttingHead;
                    Some(
                        PublishAction::PutHead {
                            key: layout::manifest_head_key(self.ns.as_str()),
                            body: head_body(self.version),
                        },
                    )
                },
                PublishEvent::Failed(t) => Some(PublishAction::Fail(t)),
                _ => None,
            },
            Phase::PuttingHead => match event {
                PublishEvent::Stored => Some(
                    PublishAction::Done(wrote_text(self.ns.as_str(), self.version)),
                ),
                PublishEvent::Failed(t) => Some(PublishAction::Fail(t)),
                _ => None,
            },
            Phase::Over => None,
        }
    }
}

/// The HEAD file of a version names that version when it is read, and is short enough to
/// be read whole.
pub proof fn law_head_names_version(version: u64)
    ensures
        valid_utf8(encode_utf8(head_text(version as nat))),
        decode_utf8(encode_utf8(head_text(version as nat))) == head_text(version as nat),
        head_version_of(head_text(version as nat)) == Some(version as nat),
        encode_utf8(head_text(version as nat)).len() <= HEAD_PROBE_END,
{
    let n = version as nat;
    let d = text::decimal(n);
    let s = head_text(n);
    vstd::utf8::encode_utf8_valid_utf8(s);
    vstd::utf8::encode_utf8_decode_utf8(s);
    reveal_strlit("v-");
    reveal_strlit("\n");
    text::lemma_decimal(n);
    let line = "v-"@ + d;
    assert(s =~= line + "\n"@);
    assert forall|i: int| 0 <= i < line.len() implies #[trigger] line[i] != '\n' by {
        if i >= 2 {
            assert(text::is_digit(d[i - 2]));
        }
    }
    lemma_first_line(line, "\n"@);
    assert(text::trim_start(line) == line);
    assert(text::is_digit(d[d.len() - 1]));
    assert(line.last() == d[d.len() - 1]);
    assert(text::trim_end(line) == line);
    assert(line.skip(2) =~= d);
    text::law_parse_decimal(n, 0, u64::MAX as nat);
    lemma_decimal_len(n, 20);
    assert forall|i: int| 0 <= i < s.len() implies '\0' <= #[trigger] s[i] <= '\u{7f}' by {
        if 2 <= i < s.len() - 1 {
            assert(text::is_digit(d[i - 2]));
            assert(s[i] == d[i - 2]);
            lemma_digit_is_ascii(s[i]);
        } else if i == 0 {
            assert(s[0] == 'v');
        } else if i == 1 {
            assert(s[1] == '-');
        } else {
            assert(s[i] == "\n"@[0]);
        }
    }
    vstd::utf8::is_ascii_chars_encode_utf8(s);
}

proof fn lemma_digit_is_ascii(c: char)
    requires
        text::is_digit(c),
    ensures
        '\0' <= c <= '\u{7f}',
{
}

/// Ten to the power of `count`.
spec fn ten_to(count: nat) -> nat
    decreases count,
{
    if count == 0 {
        1
    } else {
        10 * ten_to((count - 1) as nat)
    }
}

proof fn lemma_decimal_len(n: nat, count: nat)
    requires
        n <= u64::MAX,
        count == 20 || n < ten_to(count),
        1 <= count <= 20,
    ensures
        text::decimal(n).len() <= count,
    decreases count,
{
    assert(ten_to(20) > u64::MAX) by {
        reveal_with_fuel(ten_to, 21);
    }
    assert(ten_to(1) == 10) by {
        reveal_with_fuel(ten_to, 2);
    }
    if n >= 10 {
        lemma_decimal_len(n / 10, (count - 1) as nat);
    }
}

proof fn lemma_first_line(line: Seq<char>, rest: Seq<char>)
    requires
        forall|i: int| 0 <= i < line.len() ==> #[trigger] line[i] != '\n',
        rest.len() > 0,
        rest[0] == '\n',
    ensures
        text::first_line(line + rest) == line,
    decreases line.len(),
{
    let s = line + rest;
    if line.len() == 0 {
        assert(s =~= rest);
        assert(line =~= Seq::<char>::empty());
    } else {
        assert forall|i: int| 0 <= i < line.drop_first().len() implies #[trigger] line.drop_first()[i]
            != '\n' by {
            assert(line[i + 1] != '\n');
        }
        lemma_first_line(line.drop_first(), rest);
        assert(s.drop_first() =~= line.drop_first() + rest);
        assert(line =~= seq![line[0]] + line.drop_first());
    }
}

/// A version that is published without being asked for is higher than the one that HEAD
/// names, and its manifest has that one as its parent.
pub proof fn law_version_grows(v: PublishView, head: Seq<char>, created_at: u64)
    requires
        version_behind(head) == Some(v.version as nat),
        head_version_of(head) is Some,
    ensures
        v.version == head_version_of(head)->0 + 1,
        head_version_of(head)->0 > 0 ==> v.manifest(created_at).parents =~= seq![
            head_version_of(head)->0 as u64,
        ],
{
}

/// The first `count` entries of the page table of some content.
pub open spec fn table_of(content: Seq<u8>, slab: u64, count: nat) -> Seq<PageInfo> {
    Seq::new(
        count,
        |i: int|
            PageInfo {
                page_id: i as u32,
                off: page_start(slab, i as u32) as u64,
                len: (page_end(slab, i as u32, content.len() as int) - page_start(
                    slab,
                    i as u32,
                )) as u32,
                crc32c: crc32c_of(page_of(content, slab, i as u32)),
            },
    )
}

/// How many pages some content has.
pub open spec fn page_count(len: int, slab: u64) -> int {
    if len == 0 {
        0
    } else {
        (len - 1) / slab as int + 1
    }
}

/// Where publishing is after these events, and what it then asks for.
pub open spec fn publish_run(v: PublishView, events: Seq<EventView>) -> Option<
    (PublishView, ActionView),
>
    decreases events.len(),
{
    if events.len() == 0 {
        None
    } else if events.len() == 1 {
        publish_next(v, events[0])
    } else {
        match publish_run(v, events.drop_last()) {
            Some((u, _)) => publish_next(u, events.last()),
            None => None,
        }
    }
}

/// What is published.
pub open spec fn same_file(v: PublishView, u: PublishView) -> bool {
    &&& u.ns == v.ns
    &&& u.path == v.path
    &&& u.key == v.key
    &&& u.size == v.size
    &&& u.etag == v.etag
    &&& u.slab == v.slab
    &&& u.version == v.version
}

/// A step changes nothing of what is published.
proof fn lemma_same_file(v: PublishView, e: EventView)
    ensures
        match publish_next(v, e) {
            Some((u, _)) => same_file(v, u),
            None => true,
        },
{
}

/// Where a publishing is that was not found to be a second one.
spec fn checked(v: PublishView) -> bool {
    !(v.phase is Start || v.phase is Checking || v.phase is Over)
}

/// What the action asks to be written, if it does: the key.
pub open spec fn written_key(a: ActionView) -> Option<Seq<char>> {
    match a {
        ActionView::PutManifest { key, .. } => Some(key),
        ActionView::PutHead { key, .. } => Some(key),
        _ => None,
    }
}

/// Publishing writes at most two objects, the manifest and HEAD. The manifest is written
/// only if the store was found not to have it: a published version stays as it is. HEAD is
/// moved only once the manifest of the version that it then names is stored. When anything
/// failed, nothing more is done.
pub proof fn law_writes(v: PublishView, events: Seq<EventView>)
    requires
        v.phase is Start,
        publish_run(v, events) is Some,
    ensures
        match publish_run(v, events) {
            Some((u, a)) => {
                &&& a matches ActionView::PutManifest { key, body } ==> {
                    &&& key == v.manifest_key()
                    &&& events.len() > 2
                    &&& events[1] == EventView::Info(false)
                    &&& events.last() matches EventView::Encoded(json)
                    &&& gzip_of(json) == Ok::<Seq<u8>, Seq<char>>(body)
                }
                &&& a matches ActionView::PutHead { key, body } ==> {
                    &&& key == layout::manifest_head_key_text(v.ns)
                    &&& body == encode_utf8(head_text(v.version as nat))
                    &&& events.last() is Stored
                    &&& events.len() > 1
                    &&& publish_run(v, events.drop_last()) matches Some((_, before))
                    &&& before is PutManifest
                    &&& written_key(before) == Some(v.manifest_key())
                }
                &&& a is Done ==> {
                    &&& events.last() is Stored
                    &&& events.len() > 1
                    &&& publish_run(v, events.drop_last()) matches Some((_, before))
                    &&& before is PutHead
                }
                &&& a is Fail || a is Done ==> forall|e: EventView| #[trigger]
                    publish_next(u, e) is None
            },
            None => false,
        },
{
    lemma_writes(v, events);
    if events.len() > 1 {
        lemma_writes(v, events.drop_last());
    }
}

#[verifier::rlimit(30)]
#[verifier::spinoff_prover]
proof fn lemma_writes(v: PublishView, events: Seq<EventView>)
    requires
        v.phase is Start,
        publish_run(v, events) is Some,
    ensures
        match publish_run(v, events) {
            Some((u, a)) => {
                &&& same_file(v, u)
                &&& u.phase is Checking <==> events.len() == 1
                &&& !(u.phase is Start)
                &&& checked(u) ==> events.len() > 1 && events[1] == EventView::Info(false)
                &&& a is PutManifest <==> u.phase is PuttingManifest
                &&& a is PutHead <==> u.phase is PuttingHead
                &&& a matches ActionView::PutManifest { key, body } ==> {
                    &&& key == v.manifest_key()
                    &&& events.len() > 2
                    &&& events.last() matches EventView::Encoded(json)
                    &&& gzip_of(json) == Ok::<Seq<u8>, Seq<char>>(body)
                }
                &&& a matches ActionView::PutHead { key, body } ==> {
                    &&& key == layout::manifest_head_key_text(v.ns)
                    &&& body == encode_utf8(head_text(v.version as nat))
                    &&& events.last() is Stored
                    &&& events.len() > 1
                    &&& publish_run(v, events.drop_last()) is Some
                }
                &&& a is Fail || a is Done ==> u.phase is Over
            },
            None => false,
        },
    decreases events.len(),
{
    if events.len() == 1 {
        lemma_same_file(v, events[0]);
    } else {
        let before = events.drop_last();
        assert(publish_run(v, before) is Some);
        lemma_writes(v, before);
        let (m, _) = publish_run(v, before)->0;
        lemma_same_file(m, events.last());
        assert(before.len() > 1 ==> before[1] == events[1]);
        assert(before.len() == 1 ==> events.last() == events[1]);
    }
}

/// The event is a true answer of a store that has this content: a stream gives the bytes
/// it was opened for, in chunks of any size. Any work but to tell the time may fail. `s`
/// and `s2` are what the open stream has yet to give, before and after.
pub open spec fn answers(
    content: Seq<u8>,
    a: ActionView,
    e: EventView,
    s: Seq<u8>,
    s2: Seq<u8>,
) -> bool {
    match a {
        ActionView::FindManifest { .. } => e is Info || e is Failed,
        ActionView::Open { start, end, .. } => {
            ||| e is Failed
            ||| {
                &&& e is Opened
                &&& start <= end <= content.len()
                &&& s2 == content.subrange(start as int, end as int)
            }
        },
        ActionView::NextChunk => {
            ||| e is Failed
            ||| e is StreamEnd && s.len() == 0 && s2 == s
            ||| {
                &&& e matches EventView::Chunk(b)
                &&& b.len() <= s.len()
                &&& b == s.take(b.len() as int)
                &&& s2 == s.skip(b.len() as int)
            }
        },
        ActionView::Stamp => e is Now,
        ActionView::Encode(_) => e is Encoded || e is Failed,
        ActionView::PutManifest { .. } | ActionView::PutHead { .. } => e is Stored || e is Failed,
        ActionView::Done(_) | ActionView::Fail(_) => false,
    }
}

/// The event at `i` is a true answer to what was asked before it; `streams` is what the
/// open stream has yet to give after each event.
pub open spec fn answered_at(
    v: PublishView,
    content: Seq<u8>,
    events: Seq<EventView>,
    streams: Seq<Seq<u8>>,
    i: int,
) -> bool {
    match publish_run(v, events.take(i)) {
        Some((_, a)) => answers(content, a, events[i], streams[i - 1], streams[i]),
        None => false,
    }
}

/// Every event behind the first is a true answer to what was asked before it.
pub open spec fn answered(
    v: PublishView,
    content: Seq<u8>,
    events: Seq<EventView>,
    streams: Seq<Seq<u8>>,
) -> bool {
    &&& events.len() > 0
    &&& events[0] is Begin
    &&& streams.len() == events.len()
    &&& forall|i: int|
        0 < i < events.len() ==> #[trigger] answered_at(v, content, events, streams, i)
}

/// The manifest describes the content, which is the file's only one.
pub open spec fn describes(m: ManifestView, v: PublishView, content: Seq<u8>) -> bool {
    let entry = m.files[0];
    &&& m.version == v.version
    &&& m.files.len() == 1
    &&& entry.path == v.path
    &&& entry.key == v.key
    &&& entry.size == content.len()
    &&& entry.hash == "sha256:"@ + hex_text(sha256_of(content))
    &&& entry.page_table == table_of(
        content,
        v.slab,
        page_count(content.len() as int, v.slab) as nat,
    )
    &&& tabled(entry.size, entry.page_table, content, v.slab)
}

/// What holds at every point of a publishing over a store that gives true answers.
#[verifier::opaque]
spec fn on_course(v: PublishView, a: ActionView, s: Seq<u8>, content: Seq<u8>) -> bool {
    let n = v.table.len();
    &&& v.size == content.len()
    &&& v.slab > 0
    &&& content.len() < MAX_HASHED
    &&& page_count(content.len() as int, v.slab) <= u32::MAX
    &&& match v.phase {
        PhaseView::Start => false,
        PhaseView::Checking => {
            &&& v.off == 0
            &&& n == 0
            &&& v.read == Seq::<u8>::empty()
            &&& a is FindManifest
        },
        PhaseView::Opening => {
            &&& v.table == table_of(content, v.slab, n)
            &&& v.off == n * v.slab
            &&& v.off < v.size
            &&& v.read == content.take(v.off as int)
            &&& a == ActionView::Open { key: v.key, start: v.off, end: v.end() }
        },
        PhaseView::Reading(b) => {
            &&& v.table == table_of(content, v.slab, n)
            &&& v.off == n * v.slab
            &&& v.off < v.size
            &&& v.read == content.take(v.off as int) + b
            &&& b + s == content.subrange(v.off as int, v.end() as int)
            &&& a is NextChunk
        },
        PhaseView::Stamping => {
            &&& v.table == table_of(content, v.slab, n)
            &&& n == page_count(content.len() as int, v.slab)
            &&& v.read == content
            &&& a is Stamp
        },
        PhaseView::Encoding => a matches ActionView::Encode(m) && describes(m, v, content),
        PhaseView::PuttingManifest => a is PutManifest,
        PhaseView::PuttingHead => a is PutHead,
        PhaseView::Over => a is Done || a is Fail,
    }
}

proof fn lemma_page_count(len: int, slab: u64, n: int)
    requires
        slab > 0,
        len >= 0,
        n >= 0,
    ensures
        n * slab < len ==> n < page_count(len, slab),
        n * slab >= len && (n == 0 || (n - 1) * slab < len) ==> n == page_count(len, slab),
        page_count(len, slab) >= 0,
{
    if len > 0 {
        let q = (len - 1) / slab as int;
        vstd::arithmetic::div_mod::lemma_fundamental_div_mod(len - 1, slab as int);
        vstd::arithmetic::div_mod::lemma_mod_bound(len - 1, slab as int);
        assert(q >= 0) by {
            vstd::arithmetic::div_mod::lemma_div_pos_is_pos(len - 1, slab as int);
        }
        assert(slab * q <= len - 1 < slab * q + slab);
        assert(n * slab < len ==> n <= q) by (nonlinear_arith)
            requires
                slab > 0,
                slab * q <= len - 1 < slab * q + slab,
        ;
        assert(n * slab >= len ==> n > q) by (nonlinear_arith)
            requires
                slab > 0,
                slab * q <= len - 1 < slab * q + slab,
        ;
        assert((n - 1) * slab < len ==> n - 1 <= q) by (nonlinear_arith)
            requires
                slab > 0,
                slab * q <= len - 1 < slab * q + slab,
        ;
        if n == 0 {
            assert(n * slab == 0) by (nonlinear_arith)
                requires
                    n == 0,
            ;
        }
    } else if n > 0 {
        assert((n - 1) * slab >= 0) by (nonlinear_arith)
            requires
                n > 0,
                slab > 0,
        ;
    }
}

proof fn lemma_next_page(v: PublishView, s: Seq<u8>, content: Seq<u8>)
    requires
        v.size == content.len(),
        v.slab > 0,
        content.len() < MAX_HASHED,
        page_count(content.len() as int, v.slab) <= u32::MAX,
        v.table == table_of(content, v.slab, v.table.len()),
        v.table.len() <= page_count(content.len() as int, v.slab),
        v.off < v.size ==> v.off == v.table.len() * v.slab,
        v.off >= v.size ==> v.off == v.size && v.table.len() == page_count(
            content.len() as int,
            v.slab,
        ),
        v.read == content.take(v.off as int),
    ensures
        match next_page(v) {
            Some((u, a)) => on_course(u, a, s, content),
            None => false,
        },
{
    reveal(on_course);
    if v.off >= v.size {
        assert(content.take(v.off as int) =~= content);
    }
}

proof fn lemma_checked(v: PublishView, s: Seq<u8>, content: Seq<u8>)
    requires
        v.phase is Checking,
        v.off == 0,
        v.table.len() == 0,
        v.read == Seq::<u8>::empty(),
        v.size == content.len(),
        v.slab > 0,
        content.len() < MAX_HASHED,
        page_count(content.len() as int, v.slab) <= u32::MAX,
    ensures
        match next_page(v) {
            Some((u, a)) => on_course(u, a, s, content),
            None => false,
        },
{
    assert(v.table =~= table_of(content, v.slab, 0));
    assert(v.read =~= content.take(0));
    assert(0 * v.slab == 0);
    lemma_page_count(content.len() as int, v.slab, 0);
    lemma_next_page(v, s, content);
}

proof fn lemma_described(v: PublishView, content: Seq<u8>, t: u64)
    requires
        v.size == content.len(),
        v.slab > 0,
        v.table == table_of(content, v.slab, v.table.len()),
        v.table.len() == page_count(content.len() as int, v.slab),
        v.table.len() <= u32::MAX,
        v.read == content,
    ensures
        describes(v.manifest(t), v, content),
{
    let count = v.table.len();
    assert forall|page_id: u32|
        #![trigger crc_of(v.table, page_id)]
        page_start(v.slab, page_id) < content.len() implies match crc_of(v.table, page_id) {
        Some(c) => c == crc32c_of(page_of(content, v.slab, page_id)),
        None => true,
    } by {
        lemma_crc_of_table(content, v.slab, count, page_id);
    }
}

#[verifier::rlimit(40)]
#[verifier::spinoff_prover]
proof fn lemma_step(
    v: PublishView,
    a: ActionView,
    s: Seq<u8>,
    e: EventView,
    s2: Seq<u8>,
    content: Seq<u8>,
)
    requires
        on_course(v, a, s, content),
        answers(content, a, e, s, s2),
    ensures
        match publish_next(v, e) {
            Some((u, b)) => on_course(u, b, s2, content),
            None => false,
        },
{
    reveal(on_course);
    let n = v.table.len();
    match v.phase {
        PhaseView::Checking => {
            lemma_checked(v, s2, content);
        },
        PhaseView::Opening => {
            if e is Opened {
                assert(Seq::<u8>::empty() + s2 =~= content.subrange(v.off as int, v.end() as int));
                assert(content.take(v.off as int) + Seq::<u8>::empty() =~= content.take(
                    v.off as int,
                ));
            }
        },
        PhaseView::Reading(page) => match e {
            EventView::Chunk(b) => {
                assert(page + b + s2 =~= page + s);
                assert(v.read + b =~= content.take(v.off as int) + (page + b));
                assert((page + s).len() == v.end() - v.off);
            },
            EventView::StreamEnd => {
                assert(page + s =~= page);
                lemma_page_count(content.len() as int, v.slab, n as int);
                assert(n < page_count(content.len() as int, v.slab));
                assert(page_start(v.slab, n as u32) == v.off);
                assert(page =~= page_of(content, v.slab, n as u32));
                let u = PublishView { table: v.table.push(v.page(page)), off: v.end(), ..v };
                assert(u.table =~= table_of(content, v.slab, (n + 1) as nat)) by {
                    assert(v.table =~= table_of(content, v.slab, n));
                }
                assert((n + 1) * v.slab == v.off + v.slab) by {
                    vstd::arithmetic::mul::lemma_mul_is_distributive_add_other_way(
                        v.slab as int,
                        n as int,
                        1,
                    );
                }
                lemma_page_count(content.len() as int, v.slab, n as int + 1);
                assert(v.read =~= content.take(v.end() as int));
                lemma_next_page(u, s2, content);
            },
            _ => {},
        },
        PhaseView::Stamping => {
            if let EventView::Now(t) = e {
                lemma_described(v, content, t);
            }
        },
        _ => {},
    }
}

#[verifier::rlimit(30)]
#[verifier::spinoff_prover]
proof fn lemma_run(
    v: PublishView,
    content: Seq<u8>,
    events: Seq<EventView>,
    streams: Seq<Seq<u8>>,
)
    requires
        fresh(v, content),
        answered(v, content, events, streams),
    ensures
        match publish_run(v, events) {
            Some((u, a)) => on_course(u, a, streams.last(), content) && same_file(v, u),
            None => false,
        },
    decreases events.len(),
{
    if events.len() == 1 {
        reveal(on_course);
        lemma_same_file(v, events[0]);
    } else {
        let before = events.drop_last();
        let earlier = streams.drop_last();
        let n = events.len() - 1;
        assert(events.take(n as int) =~= before);
        assert(before[0] == events[0]);
        assert forall|i: int| 0 < i < before.len() implies #[trigger] answered_at(
            v,
            content,
            before,
            earlier,
            i,
        ) by {
            assert(answered_at(v, content, events, streams, i));
            assert(before.take(i) =~= events.take(i));
            assert(events[i] == before[i]);
        }
        lemma_run(v, content, before, earlier);
        assert(events[n as int] == events.last());
        assert(answered_at(v, content, events, streams, n as int));
        let (u, a) = publish_run(v, before)->0;
        assert(answers(content, a, events.last(), streams[n - 1], streams[n as int]));
        lemma_step(u, a, streams[n - 1], events.last(), streams[n as int], content);
        lemma_same_file(u, events.last());
    }
}

/// Nothing of the file was read; its size is that of the content, and its pages can be
/// numbered and hashed.
pub open spec fn fresh(v: PublishView, content: Seq<u8>) -> bool {
    &&& v.phase is Start
    &&& v.off == 0
    &&& v.read == Seq::<u8>::empty()
    &&& v.table == Seq::<PageInfo>::empty()
    &&& v.size == content.len()
    &&& v.slab > 0
    &&& content.len() < MAX_HASHED
    &&& page_count(content.len() as int, v.slab) <= u32::MAX
}

proof fn lemma_crc_of_table(content: Seq<u8>, slab: u64, count: nat, page_id: u32)
    requires
        count <= u32::MAX,
    ensures
        crc_of(table_of(content, slab, count), page_id) == if page_id < count {
            Some(crc32c_of(page_of(content, slab, page_id)))
        } else {
            None
        },
    decreases count,
{
    if count > 0 {
        let t = table_of(content, slab, count);
        assert(t.drop_last() =~= table_of(content, slab, (count - 1) as nat));
        lemma_crc_of_table(content, slab, (count - 1) as nat, page_id);
    }
}

/// Publishing a file over a store that gives true answers goes on to its end, unless work
/// fails or the version is there. The manifest that is made has the SHA-256 of the content
/// and a page table whose pages follow one another from the first byte to the last, each
/// with its checksum: a read of the content in pages of the same size passes every check
/// against it.
pub proof fn law_published(
    v: PublishView,
    content: Seq<u8>,
    events: Seq<EventView>,
    streams: Seq<Seq<u8>>,
)
    requires
        fresh(v, content),
        answered(v, content, events, streams),
    ensures
        match publish_run(v, events) {
            Some((_, a)) => a matches ActionView::Encode(m) ==> describes(m, v, content),
            None => false,
        },
{
    lemma_run(v, content, events, streams);
    reveal(on_course);
}

/// A file that was published, while its object stayed as it was, is read back: a read of
/// a range of it, in pages of the same size and by the entry of its manifest, is answered
/// with the range of the content, unless outside work fails.
pub proof fn law_published_is_read_back(
    v: PublishView,
    content: Seq<u8>,
    events: Seq<EventView>,
    streams: Seq<Seq<u8>>,
    m: ManifestView,
    b: BlobView,
    read_events: Seq<read::EventView>,
    worlds: Seq<World>,
)
    requires
        fresh(v, content),
        answered(v, content, events, streams),
        publish_run(v, events) matches Some((_, a)) && a == ActionView::Encode(m),
        b.phase is Start,
        b.slab == v.slab,
        b.admitted(),
        b.entry->0@ == m.files[0],
        blob::answered(b, read_events, worlds),
        worlds[0].objects.contains_key(v.key),
        worlds[0].objects[v.key] == content,
        read::sound(worlds[0].cache, b.ns, b.path, b.hash, content, b.slab),
    ensures
        match blob::blob_run(b, read_events) {
            Some((_, a)) => {
                &&& a matches read::ActionView::Reply(bytes) ==> bytes == content.subrange(
                    b.off as int,
                    b.end() as int,
                )
                &&& a is Refuse ==> read::failed(read_events.last())
            },
            None => false,
        },
{
    law_published(v, content, events, streams);
    blob::law_blob_reply(b, read_events, worlds, content);
}

/// A file that was published, while its object stayed as it was, is read back by a
/// vectored read, too: in pages of the same size and by its manifest, the read is answered
/// with the ranges of the content in the order of the request, unless outside work fails.
pub proof fn law_published_is_read_back_in_parts(
    v: PublishView,
    content: Seq<u8>,
    events: Seq<EventView>,
    streams: Seq<Seq<u8>>,
    m: ManifestView,
    r: ReadvView,
    read_events: Seq<read::EventView>,
    worlds: Seq<World>,
)
    requires
        fresh(v, content),
        answered(v, content, events, streams),
        publish_run(v, events) matches Some((_, a)) && a == ActionView::Encode(m),
        r.phase is Start,
        r.slab == v.slab,
        r.files.len() == 1,
        r.files[0]@ == m.files[0],
        forall|i: int|
            0 <= i < r.items.len() ==> {
                &&& (#[trigger] r.items[i]).path == v.path
                &&& r.items[i].off < content.len()
                &&& r.items[i].off > 0 || r.items[i].len > 0
            },
        readv::answered(r, read_events, worlds),
        worlds[0].objects.contains_key(v.key),
        worlds[0].objects[v.key] == content,
        read::sound(worlds[0].cache, r.ns, v.path, m.files[0].hash, content, r.slab),
    ensures
        match readv::readv_run(r, read_events) {
            Some((_, a)) => {
                &&& a matches read::ActionView::Reply(bytes) ==> bytes == readv::gathered(
                    r,
                    map![v.path => content],
                    r.items.len() as int,
                )
                &&& a is Refuse ==> read::failed(read_events.last())
            },
            None => false,
        },
{
    law_published(v, content, events, streams);
    let contents = map![v.path => content];
    assert(position(r.files.drop_last(), v.path) is None);
    assert(position(r.files, v.path) == Some(0int));
    assert forall|i: int| 0 <= i < r.items.len() implies plan::readable(
        r.files,
        #[trigger] r.items[i],
        r.slab,
    ) && readv::holds_file(r, worlds[0], contents[r.items[i].path], i) by {
        assert(r.entry(i) == r.files[0]);
    }
    readv::law_readv_reply(r, read_events, worlds, contents);
}

/// A HEAD file that names `n`, the one that was written for it among them, leads to `n + 1`,
/// for every `n` that has one behind it; a HEAD file that names none leads to the first
/// version.
pub proof fn law_next_version(n: u64, head: Seq<char>)
    ensures
        n < u64::MAX ==> version_behind(head_text(n as nat)) == Some((n + 1) as nat),
        n == u64::MAX ==> version_behind(head_text(n as nat)) is None,
        head_version_of(head) == Some(n as nat) && n < u64::MAX ==> version_behind(head) == Some(
            (n + 1) as nat,
        ),
        head_version_of(head) is None ==> version_behind(head) == Some(1nat),
        n < u64::MAX ==> version_behind(
            decode_utf8(encode_utf8(head_text(n as nat))),
        ) == Some((n + 1) as nat),
{
    law_head_names_version(n);
}

/// A HEAD file has one line: `v-`, and the version in decimal.
pub proof fn law_head_text(n: nat)
    ensures
        ({
            let s = head_text(n);
            &&& s.len() > 3
            &&& s[0] == 'v'
            &&& s[1] == '-'
            &&& s.last() == '\n'
            &&& text::parse_unsigned(s.subrange(2, s.len() - 1), n) == Some(n)
            &&& text::all_digits(s.subrange(2, s.len() - 1))
        }),
{
    reveal_strlit("v-");
    reveal_strlit("\n");
    text::lemma_decimal(n);
    text::law_parse_decimal(n, 0, n);
    let s = head_text(n);
    assert(s.subrange(2, s.len() - 1) =~= text::decimal(n));
}

/// The manifest of the first version has no parent; that of any other has the version
/// before it. Nothing is deleted by it, and it has the time that was told.
pub proof fn law_manifest(v: PublishView, created_at: u64)
    ensures
        ({
            let m = v.manifest(created_at);
            &&& m.version == v.version
            &&& m.created_at == created_at
            &&& m.tombstones.len() == 0
            &&& v.version <= 1 ==> m.parents.len() == 0
            &&& v.version > 1 ==> m.parents.len() == 1 && m.parents[0] + 1 == v.version
            &&& m.files.len() == 1
            &&& m.files[0].path == v.path
            &&& m.files[0].size == v.size
            &&& m.files[0].key == v.key
            &&& m.files[0].etag == v.etag
            &&& m.files[0].sse is None
            &&& m.files[0].page_table == v.table
        }),
{
}

/// Publishing a file that has this content makes a manifest of one file, with its size, its
/// SHA-256, and a page table: the pages are numbered from zero on, begin at a multiple of
/// the size of a page, follow one another without a gap up to the end of the content, and
/// each has the checksum of its bytes.
pub proof fn law_published_table(
    v: PublishView,
    content: Seq<u8>,
    events: Seq<EventView>,
    streams: Seq<Seq<u8>>,
)
    requires
        v.phase is Start,
        v.off == 0,
        v.read.len() == 0,
        v.table.len() == 0,
        v.size == content.len(),
        0 < v.slab <= u32::MAX,
        content.len() < MAX_HASHED,
        content.len() <= v.slab * u32::MAX,
        answered(v, content, events, streams),
    ensures
        match publish_run(v, events) {
            Some((_, a)) => a matches ActionView::Encode(m) ==> {
                let entry = m.files[0];
                let table = entry.page_table;
                &&& m.version == v.version
                &&& v.version <= 1 ==> m.parents.len() == 0
                &&& v.version > 1 ==> m.parents.len() == 1 && m.parents[0] + 1 == v.version
                &&& m.tombstones.len() == 0
                &&& events.last() == EventView::Now(m.created_at)
                &&& m.files.len() == 1
                &&& entry.path == v.path
                &&& entry.key == v.key
                &&& entry.etag == v.etag
                &&& entry.size == content.len()
                &&& entry.hash == "sha256:"@ + hex_text(sha256_of(content))
                &&& content.len() == 0 ==> table.len() == 0
                &&& content.len() > 0 ==> table.len() > 0 && table.last().off + table.last().len
                    == content.len()
                &&& forall|i: int|
                    0 <= i < table.len() ==> {
                        &&& (#[trigger] table[i]).page_id == i
                        &&& table[i].off == i * v.slab
                        &&& 0 < table[i].len <= v.slab
                        &&& i + 1 < table.len() ==> table[i].len == v.slab
                        &&& table[i].crc32c == crc32c_of(
                            content.subrange(
                                table[i].off as int,
                                table[i].off + table[i].len,
                            ),
                        )
                    }
                &&& read::true_table(table, content, v.slab)
            },
            None => false,
        },
{
    let n = content.len() as int;
    let count = page_count(n, v.slab);
    assert(count <= u32::MAX) by {
        if n > 0 {
            let s = v.slab as int;
            assert((n - 1) / s < u32::MAX) by (nonlinear_arith)
                requires
                    0 < n <= s * u32::MAX,
                    s > 0,
            ;
        }
    }
    assert(v.read =~= Seq::<u8>::empty());
    assert(v.table =~= Seq::<PageInfo>::empty());
    law_published(v, content, events, streams);
    lemma_run(v, content, events, streams);
    reveal(on_course);
    if let Some((u, ActionView::Encode(m))) = publish_run(v, events) {
        lemma_encodes(v, events);
        let t = m.files[0].page_table;
        assert(describes(m, v, content));
        assert forall|i: int| 0 <= i < t.len() implies {
            &&& (#[trigger] t[i]).page_id == i
            &&& t[i].off == i * v.slab
            &&& 0 < t[i].len <= v.slab
            &&& i + 1 < t.len() ==> t[i].len == v.slab
            &&& t[i].crc32c == crc32c_of(content.subrange(t[i].off as int, t[i].off + t[i].len))
            &&& i + 1 == t.len() ==> t[i].off + t[i].len == content.len()
        } by {
            lemma_page_bounds(n, v.slab, i);
            if i + 1 < t.len() {
                lemma_page_bounds(n, v.slab, i + 1);
                assert((i + 1) * v.slab == i * v.slab + v.slab) by (nonlinear_arith);
            }
            assert(content.subrange(t[i].off as int, t[i].off + t[i].len) =~= page_of(
                content,
                v.slab,
                i as u32,
            ));
        }
        assert forall|i: int| 0 <= i < t.len() && (#[trigger] t[i]).page_id * v.slab
            < content.len() implies t[i].crc32c == crc32c_of(
            read::bytes_from(content, t[i].page_id * v.slab, v.slab as int),
        ) by {
            assert(content.subrange(t[i].off as int, t[i].off + t[i].len) =~= read::bytes_from(
                content,
                t[i].page_id * v.slab,
                v.slab as int,
            ));
        }
    }
}

/// A page below the number of pages begins inside the content, and the last one ends it.
proof fn lemma_page_bounds(n: int, slab: u64, i: int)
    requires
        slab > 0,
        0 <= i < page_count(n, slab),
        n >= 0,
    ensures
        0 <= i * slab < n,
        i + 1 == page_count(n, slab) ==> i * slab + slab >= n,
{
    let s = slab as int;
    let q = (n - 1) / s;
    vstd::arithmetic::div_mod::lemma_fundamental_div_mod(n - 1, s);
    vstd::arithmetic::div_mod::lemma_mod_bound(n - 1, s);
    assert(0 <= i * s <= q * s) by (nonlinear_arith)
        requires
            0 <= i <= q,
            s > 0,
    ;
    assert(s * q == q * s) by (nonlinear_arith);
    if i == q {
        assert(i * s == q * s);
    }
}

/// The manifest is made when the time is told.
proof fn lemma_encodes(v: PublishView, events: Seq<EventView>)
    requires
        v.phase is Start,
    ensures
        match publish_run(v, events) {
            Some((u, ActionView::Encode(m))) => {
                &&& events.last() == EventView::Now(m.created_at)
                &&& m.tombstones.len() == 0
                &&& v.version <= 1 ==> m.parents.len() == 0
                &&& v.version > 1 ==> m.parents.len() == 1 && m.parents[0] + 1 == v.version
                &&& m.files[0].etag == v.etag
            },
            _ => true,
        },
{
    if events.len() > 1 {
        if publish_run(v, events.drop_last()) is Some {
            lemma_writes(v, events.drop_last());
            let (m, _) = publish_run(v, events.drop_last())->0;
            lemma_same_file(m, events.last());
        }
    }
}

/// Publishing fails only when work failed, and then tells its error; when the version was
/// found; or when the JSON could not be compressed.
pub proof fn law_publish_fails(v: PublishView, events: Seq<EventView>)
    requires
        v.phase is Start,
    ensures
        match publish_run(v, events) {
            Some((_, ActionView::Fail(t))) => {
                ||| events.last() == EventView::Failed(t)
                ||| events.len() == 2 && events[1] == EventView::Info(true) && t == "manifest v-"@
                    + text::decimal(v.version as nat) + " is already published"@
                ||| events.last() matches EventView::Encoded(json) && gzip_of(json) matches Err(
                    why,
                ) && t == why
            },
            _ => true,
        },
{
    if events.len() > 1 {
        if publish_run(v, events.drop_last()) is Some {
            lemma_writes(v, events.drop_last());
            if events.len() == 2 {
                assert(events.last() == events[1]);
            }
        }
    }
}

/// Publishing goes its way: it asks for the manifest of its version, reads the file page by
/// page, asks for the time, has the manifest encoded, stores it under its key, moves HEAD to
/// it, and tells what was written.
pub proof fn law_publish_goes_on(v: PublishView, page: Seq<u8>, t: u64, json: Seq<u8>)
    ensures
        v.phase is Start ==> (publish_next(v, EventView::Begin) matches Some((u, a)) && u.phase
            is Checking && a == ActionView::FindManifest {
            key: layout::manifest_version_key_text(v.ns, v.version as nat),
        }),
        v.phase is Checking && v.off < v.size && v.slab > 0 ==> {
            &&& publish_next(v, EventView::Info(false)) matches Some((
                u,
                ActionView::Open { key, start, end },
            ))
            &&& key == v.key
            &&& start == v.off
            &&& start < end <= v.size
            &&& end - start == v.slab || (end == v.size && end - start <= v.slab)
        },
        v.phase is Checking && v.off >= v.size ==> (publish_next(v, EventView::Info(false)) matches
            Some((u, a)) && u.phase is Stamping && a is Stamp),
        v.phase is Checking ==> (publish_next(v, EventView::Info(true)) matches Some((u, a))
            && a is Fail),
        v.phase is Stamping ==> (publish_next(v, EventView::Now(t)) matches Some((u, a))
            && u.phase is Encoding && a is Encode),
        v.phase is Opening ==> (publish_next(v, EventView::Opened) matches Some((u, a))
            && u.phase == PhaseView::Reading(Seq::empty()) && a is NextChunk),
        v.phase == PhaseView::Reading(page) && v.off < v.size && v.slab > 0 && v.table.len()
            < u32::MAX ==> {
            &&& publish_next(v, EventView::StreamEnd) matches Some((u, a))
            &&& v.off < u.off <= v.size
            &&& u.off - v.off == v.slab || (u.off == v.size && u.off - v.off <= v.slab)
            &&& u.table.len() == v.table.len() + 1
            &&& u.table.last().crc32c == crc32c_of(page)
            &&& u.off < v.size ==> (a matches ActionView::Open { key, start, end } && key == v.key
                && start == u.off)
            &&& u.off == v.size ==> a is Stamp
        },
        v.phase == PhaseView::Reading(page) && v.read.len() + json.len() < MAX_HASHED ==> {
            &&& publish_next(v, EventView::Chunk(json)) matches Some((u, a))
            &&& u.phase == PhaseView::Reading(page + json)
            &&& u.read == v.read + json
            &&& a is NextChunk
        },
        v.phase is Encoding && gzip_of(json) is Err ==> {
            &&& publish_next(v, EventView::Encoded(json)) matches Some((_, a))
            &&& a == ActionView::Fail(gzip_of(json)->Err_0)
        },
        v.phase is Encoding && gzip_of(json) is Ok ==> (publish_next(v, EventView::Encoded(json))
            matches Some((u, a)) && u.phase is PuttingManifest && a == (ActionView::PutManifest {
            key: layout::manifest_version_key_text(v.ns, v.version as nat),
            body: gzip_of(json)->Ok_0,
        })),
        v.phase is PuttingManifest ==> (publish_next(v, EventView::Stored) matches Some((u, a))
            && u.phase is PuttingHead && a == (ActionView::PutHead {
            key: layout::manifest_head_key_text(v.ns),
            body: encode_utf8(head_text(v.version as nat)),
        })),
        v.phase is PuttingHead ==> (publish_next(v, EventView::Stored) matches Some((
            u,
            ActionView::Done(said),
        )) && said == "Wrote "@ + layout::manifest_head_key_text(v.ns) + " and "@
            + layout::manifest_version_key_text(v.ns, v.version as nat)),
{
}

/// Work that fails ends a publishing with its error, whatever the work was.
pub proof fn law_publish_gives_up(v: PublishView, t: Seq<char>)
    ensures
        v.phase is Checking || v.phase is Opening || v.phase is Reading || v.phase is Encoding
            || v.phase is PuttingManifest || v.phase is PuttingHead ==> {
            &&& publish_next(v, EventView::Failed(t)) matches Some((u, a))
            &&& u.phase is Over
            &&& a == ActionView::Fail(t)
        },
{
}

/// A file that was published is read back, though the cache holds what it will of other
/// files and of other versions of this one: a read of the file by its manifest, in pages of
/// the same size, is answered with the bytes of the content from `off` on, `len` of them or
/// as many as there are, unless outside work fails.
pub proof fn law_published_is_answered(
    v: PublishView,
    content: Seq<u8>,
    events: Seq<EventView>,
    streams: Seq<Seq<u8>>,
    m: ManifestView,
    files: Seq<FileEntry>,
    ns: Seq<char>,
    off: u64,
    len: u64,
    read_events: Seq<read::EventView>,
    worlds: Seq<World>,
)
    requires
        v.phase is Start,
        v.off == 0,
        v.read.len() == 0,
        v.table.len() == 0,
        v.size == content.len(),
        0 < v.slab <= u32::MAX,
        content.len() < MAX_HASHED,
        content.len() <= v.slab * u32::MAX,
        answered(v, content, events, streams),
        publish_run(v, events) matches Some((_, a)) && a == ActionView::Encode(m),
        files.len() == 1,
        files[0]@ == m.files[0],
        off < content.len(),
        len > 0,
        blob::answered(
            blob::blob_start(files, ns, v.path, off, len, None, v.slab),
            read_events,
            worlds,
        ),
        worlds[0].objects.contains_key(v.key),
        worlds[0].objects[v.key] == content,
        read::true_pages(
            worlds[0].cache,
            ns,
            v.path,
            "sha256:"@ + hex_text(sha256_of(content)),
            content,
            v.slab,
        ),
    ensures
        match blob::blob_run(
            blob::blob_start(files, ns, v.path, off, len, None, v.slab),
            read_events,
        ) {
            Some((_, a)) => {
                &&& a matches read::ActionView::Reply(b) ==> {
                    &&& b.len() == if len < content.len() - off {
                        len as int
                    } else {
                        content.len() - off
                    }
                    &&& forall|j: int| 0 <= j < b.len() ==> #[trigger] b[j] == content[off + j]
                }
                &&& a is Refuse ==> read::failed(read_events.last())
            },
            None => false,
        },
{
    law_published_table(v, content, events, streams);
    assert(blob::found_at(files, v.path, 0));
    assert(content.len() <= v.slab * (u32::MAX + 1)) by (nonlinear_arith)
        requires
            content.len() <= v.slab * u32::MAX,
    ;
    blob::law_blob_answer(
        files,
        0,
        ns,
        v.path,
        off,
        len,
        None,
        v.slab,
        read_events,
        worlds,
        content,
    );
}

} // verus!
