//! The manifests that were loaded, and how one is loaded.
use crate::codec;
use crate::codec::{bytes_or_text, gunzip_of, lossy_text};
use crate::layout;
use crate::layout::{manifest_head_key_text, manifest_version_key_text};
use crate::manifest::{head_version_of, parse_head_version, Manifest};
use crate::publish::{head_text, law_head_names_version};
use crate::store::{HeadInfo, StoreError};
use crate::text;
use std::sync::Arc;
use vstd::prelude::*;
use vstd::utf8::{decode_utf8, encode_utf8, valid_utf8};

verus! {

/// How much of a HEAD file is read: the bytes before this one.
pub const HEAD_READ_END: u64 = 1024;

/// For how many nanoseconds the daemon takes a manifest for fresh: ten seconds.
pub const MANIFEST_TTL: u64 = 10_000_000_000;

/// A manifest that was loaded; the time is in nanoseconds.
pub struct ManifestState {
    pub version: u64,
    pub manifest: Arc<Manifest>,
    pub loaded_at: u64,
}

/// What a [`ManifestState`] holds.
pub struct StateView {
    pub version: u64,
    pub manifest: Manifest,
    pub loaded_at: u64,
}

impl View for ManifestState {
    type V = StateView;

    open spec fn view(&self) -> StateView {
        StateView { version: self.version, manifest: *self.manifest, loaded_at: self.loaded_at }
    }
}

/// `Arc::clone`: one more pointer to the same manifest.
#[verifier::external_body]
fn shared(m: &Arc<Manifest>) -> (r: Arc<Manifest>)
    ensures
        *r == **m,
{
    Arc::clone(m)
}

impl ManifestState {
    /// The same state, with the manifest shared.
    pub fn share(&self) -> (r: ManifestState)
        ensures
            r@ == self@,
    {
        ManifestState {
            version: self.version,
            manifest: shared(&self.manifest),
            loaded_at: self.loaded_at,
        }
    }
}

/// The manifests that were loaded, each for its namespace, and for how many nanoseconds
/// one is fresh.
pub struct ManifestCache {
    entries: Vec<(String, ManifestState)>,
    ttl: u64,
}

/// What a [`ManifestCache`] holds.
#[verifier::ext_equal]
pub struct CacheView {
    pub states: Map<Seq<char>, StateView>,
    pub ttl: u64,
}

impl CacheView {
    /// The manifest of the namespace, if it was loaded less than the time to live ago.
    pub open spec fn fresh(self, ns: Seq<char>, now: u64) -> Option<StateView> {
        if self.states.contains_key(ns) && now - self.states[ns].loaded_at < self.ttl && self.ttl
            > 0 {
            Some(self.states[ns])
        } else {
            None
        }
    }
}

spec fn states_of(s: Seq<(String, ManifestState)>) -> Map<Seq<char>, StateView>
    decreases s.len(),
{
    if s.len() == 0 {
        Map::empty()
    } else {
        states_of(s.drop_last()).insert(s.last().0@, s.last().1@)
    }
}

spec fn distinct(s: Seq<(String, ManifestState)>) -> bool {
    forall|i: int, j: int|
        0 <= i < j < s.len() ==> (#[trigger] s[i]).0@ != (#[trigger] s[j]).0@
}

proof fn lemma_states(s: Seq<(String, ManifestState)>)
    requires
        distinct(s),
    ensures
        forall|i: int|
            0 <= i < s.len() ==> states_of(s).contains_key((#[trigger] s[i]).0@)
                && states_of(s)[s[i].0@] == s[i].1@,
        forall|k: Seq<char>| #[trigger]
            states_of(s).contains_key(k) ==> exists|i: int|
                0 <= i < s.len() && (#[trigger] s[i]).0@ == k,
    decreases s.len(),
{
    if s.len() > 0 {
        let d = s.drop_last();
        assert forall|i: int, j: int| 0 <= i < j < d.len() implies (#[trigger] d[i]).0@ != (
        #[trigger] d[j]).0@ by {
            assert(s[i].0@ != s[j].0@);
        }
        lemma_states(d);
        assert forall|i: int| 0 <= i < s.len() implies states_of(s).contains_key(
            (#[trigger] s[i]).0@,
        ) && states_of(s)[s[i].0@] == s[i].1@ by {
            if i < d.len() {
                assert(d[i] == s[i]);
                assert(s[i].0@ != s[s.len() - 1].0@);
            }
        }
        assert forall|k: Seq<char>| #[trigger] states_of(s).contains_key(k) implies exists|i: int|
            0 <= i < s.len() && (#[trigger] s[i]).0@ == k by {
            if states_of(d).contains_key(k) {
                let i = choose|i: int| 0 <= i < d.len() && (#[trigger] d[i]).0@ == k;
                assert(s[i].0@ == k);
            } else {
                assert(s[s.len() - 1].0@ == k);
            }
        }
    }
}

impl View for ManifestCache {
    type V = CacheView;

    closed spec fn view(&self) -> CacheView {
        CacheView { states: states_of(self.entries@), ttl: self.ttl }
    }
}

impl ManifestCache {
    /// No namespace comes twice.
    pub closed spec fn inv(&self) -> bool {
        distinct(self.entries@)
    }

    /// An empty cache; the time to live is in nanoseconds.
    pub fn new(ttl: u64) -> (r: ManifestCache)
        ensures
            r.inv(),
            r@ == (CacheView { states: Map::empty(), ttl }),
    {
        ManifestCache { entries: Vec::new(), ttl }
    }

    fn position(&self, ns: &str) -> (r: Option<usize>)
        requires
            self.inv(),
        ensures
            match r {
                Some(i) => i < self.entries@.len() && self.entries@[i as int].0@ == ns@
                    && self@.states.contains_key(ns@) && self@.states[ns@]
                    == self.entries@[i as int].1@,
                None => !self@.states.contains_key(ns@),
            },
    {
        proof {
            lemma_states(self.entries@);
        }
        let mut i: usize = 0;
        while i < self.entries.len()
            invariant
                self.inv(),
                i <= self.entries@.len(),
                forall|j: int| 0 <= j < i ==> (#[trigger] self.entries@[j]).0@ != ns@,
            decreases self.entries@.len() - i,
        {
            if text::same(self.entries[i].0.as_str(), ns) {
                proof {
                    lemma_states(self.entries@);
                }
                return Some(i);
            }
            i = i + 1;
        }
        None
    }

    /// The manifest of the namespace, if it is fresh at this time.
    pub fn try_get_fresh(&self, ns: &str, now: u64) -> (r: Option<&ManifestState>)
        requires
            self.inv(),
        ensures
            match self@.fresh(ns@, now) {
                Some(st) => r is Some && r->0@ == st,
                None => r is None,
            },
    {
        match self.position(ns) {
            Some(i) => {
                let st = &self.entries[i].1;
                if now.saturating_sub(st.loaded_at) < self.ttl {
                    Some(st)
                } else {
                    None
                }
            },
            None => None,
        }
    }

    /// Keeps the manifest of a namespace, in the place of the one that is there.
    pub fn insert(&mut self, ns: String, state: ManifestState)
        requires
            old(self).inv(),
        ensures
            final(self).inv(),
            final(self)@ == (CacheView {
                states: old(self)@.states.insert(ns@, state@),
                ttl: old(self)@.ttl,
            }),
    {
        let ghost s = self.entries@;
        proof {
            lemma_states(s);
        }
        match self.position(ns.as_str()) {
            Some(i) => {
                self.entries.set(i, (ns, state));
                proof {
                    let t = self.entries@;
                    assert forall|a: int, b: int| 0 <= a < b < t.len() implies (#[trigger] t[a]).0@
                        != (#[trigger] t[b]).0@ by {
                        assert(s[a].0@ != s[b].0@);
                    }
                    lemma_states(t);
                    let m = states_of(s).insert(ns@, state@);
                    assert forall|k: Seq<char>|
                        #![trigger states_of(t).contains_key(k)]
                        #![trigger m.contains_key(k)]
                        #![trigger states_of(t)[k]]
                        states_of(t).contains_key(k) == m.contains_key(k) && (m.contains_key(k)
                            ==> states_of(t)[k] == m[k]) by {
                        if states_of(t).contains_key(k) {
                            let a = choose|a: int| 0 <= a < t.len() && (#[trigger] t[a]).0@ == k;
                            if a != i {
                                assert(s[a] == t[a]);
                                assert(k != ns@) by {
                                    if a < i {
                                        assert(s[a].0@ != s[i as int].0@);
                                    } else {
                                        assert(s[i as int].0@ != s[a].0@);
                                    }
                                }
                            }
                        }
                        if m.contains_key(k) {
                            if k == ns@ {
                                assert(t[i as int].0@ == k);
                            } else {
                                let a = choose|a: int| 0 <= a < s.len() && (#[trigger] s[a]).0@ == k;
                                assert(t[a] == s[a]);
                            }
                        }
                    }
                    assert(states_of(t) =~= m);
                }
            },
            None => {
                self.entries.push((ns, state));
                proof {
                    let t = self.entries@;
                    assert(t.drop_last() =~= s);
                    assert forall|a: int, b: int| 0 <= a < b < t.len() implies (#[trigger] t[a]).0@
                        != (#[trigger] t[b]).0@ by {
                        if b < s.len() {
                            assert(s[a].0@ != s[b].0@);
                        } else {
                            assert(states_of(s).contains_key(s[a].0@));
                        }
                    }
                }
            },
        }
    }
}

/// A manifest that was kept is given until its time has passed or another is kept for
/// its namespace; what is kept for other namespaces does not bear on it.
pub proof fn law_fresh(
    v: CacheView,
    ns: Seq<char>,
    other: Seq<char>,
    state: StateView,
    now: u64,
)
    requires
        other != ns,
    ensures
        ({
            let w = CacheView { states: v.states.insert(ns, state), ttl: v.ttl };
            &&& now - state.loaded_at < v.ttl && v.ttl > 0 ==> w.fresh(ns, now) == Some(state)
            &&& now - state.loaded_at >= v.ttl ==> w.fresh(ns, now) is None
            &&& w.fresh(other, now) == v.fresh(other, now)
        }),
{
}

/// Outside work that loading a manifest waits for.
#[derive(Debug)]
pub enum LoadAction {
    /// Get the bytes `start..end` of the object `key`.
    Get { key: String, start: u64, end: u64 },
    /// Ask what is known of the object `key`.
    Head { key: String },
    /// Take the bytes for the JSON of a manifest.
    Parse(Vec<u8>),
    /// Keep the manifest that was parsed, as this version.
    Keep { version: u64 },
    Fail(StoreError),
}

/// What a [`LoadAction`] asks for; of an error, its text.
pub enum LoadActionView {
    Get { key: Seq<char>, start: u64, end: u64 },
    Head { key: Seq<char> },
    Parse(Seq<u8>),
    Keep { version: u64 },
    Fail(Seq<char>),
}

impl View for LoadAction {
    type V = LoadActionView;

    open spec fn view(&self) -> LoadActionView {
        match self {
            LoadAction::Get { key, start, end } => LoadActionView::Get {
                key: key@,
                start: *start,
                end: *end,
            },
            LoadAction::Head { key } => LoadActionView::Head { key: key@ },
            LoadAction::Parse(b) => LoadActionView::Parse(b@),
            LoadAction::Keep { version } => LoadActionView::Keep { version: *version },
            LoadAction::Fail(e) => LoadActionView::Fail(e.text()),
        }
    }
}

/// What came of a [`LoadAction`]; `Begin` comes before the first one.
#[derive(Debug)]
pub enum LoadEvent {
    Begin,
    Bytes(Vec<u8>),
    /// What is known of the object, if there is one.
    Info(Option<HeadInfo>),
    /// A request to the store failed.
    StoreFailed(StoreError),
    Parsed,
    /// The bytes are not the JSON of a manifest.
    ParseFailed(String),
}

/// What a [`LoadEvent`] tells: of what is known of an object its size, of an error its
/// text.
pub enum LoadEventView {
    Begin,
    Bytes(Seq<u8>),
    Info(Option<u64>),
    StoreFailed(Seq<char>),
    Parsed,
    ParseFailed(Seq<char>),
}

impl View for LoadEvent {
    type V = LoadEventView;

    open spec fn view(&self) -> LoadEventView {
        match self {
            LoadEvent::Begin => LoadEventView::Begin,
            LoadEvent::Bytes(b) => LoadEventView::Bytes(b@),
            LoadEvent::Info(h) => LoadEventView::Info(
                match h {
                    Some(h) => h.size,
                    None => None,
                },
            ),
            LoadEvent::StoreFailed(e) => LoadEventView::StoreFailed(e.text()),
            LoadEvent::Parsed => LoadEventView::Parsed,
            LoadEvent::ParseFailed(t) => LoadEventView::ParseFailed(t@),
        }
    }
}

/// How far loading is.
#[derive(Debug, Clone, Copy, PartialEq, Eq, Structural)]
pub enum LoadPhase {
    Start,
    /// The HEAD file is being read.
    ReadingHead,
    /// The size of the manifest of this version is being asked for.
    Sizing { version: u64 },
    /// The manifest is being read.
    Reading { version: u64 },
    /// The manifest is being parsed.
    Parsing { version: u64 },
    Over,
}

/// The manifest of a namespace that is being loaded.
#[derive(Debug)]
pub struct ManifestLoad {
    ns: String,
    phase: LoadPhase,
}

/// What is known of a manifest that is being loaded.
pub struct LoadView {
    pub ns: Seq<char>,
    pub phase: LoadPhase,
}

impl View for ManifestLoad {
    type V = LoadView;

    closed spec fn view(&self) -> LoadView {
        LoadView { ns: self.ns@, phase: self.phase }
    }
}

impl LoadView {
    pub open spec fn at(self, phase: LoadPhase) -> LoadView {
        LoadView { phase, ..self }
    }
}

pub open spec fn load_failed(v: LoadView, message: Seq<char>) -> (LoadView, LoadActionView) {
    (v.at(LoadPhase::Over), LoadActionView::Fail(message))
}

/// What follows from the text of the HEAD file.
pub open spec fn head_decision(v: LoadView, head: Seq<char>) -> (LoadView, LoadActionView) {
    match head_version_of(head) {
        Some(n) => (
            v.at(LoadPhase::Sizing { version: n as u64 }),
            LoadActionView::Head { key: manifest_version_key_text(v.ns, n) },
        ),
        None => load_failed(v, "head error: "@ + ("invalid HEAD content: "@ + head)),
    }
}

/// What follows from what was found in the gzip member.
pub open spec fn unzipped_decision(
    v: LoadView,
    version: u64,
    found: Result<Seq<u8>, Seq<char>>,
) -> (LoadView, LoadActionView) {
    match found {
        Ok(json) => (v.at(LoadPhase::Parsing { version }), LoadActionView::Parse(json)),
        Err(t) => load_failed(v, "client error: "@ + ("gzip decode: "@ + t)),
    }
}

/// The next state and what is to be done; nothing, if the event does not answer what was
/// asked.
pub open spec fn load_next(v: LoadView, e: LoadEventView) -> Option<(LoadView, LoadActionView)> {
    match (v.phase, e) {
        (LoadPhase::Start, LoadEventView::Begin) => Some(
            (
                v.at(LoadPhase::ReadingHead),
                LoadActionView::Get {
                    key: manifest_head_key_text(v.ns),
                    start: 0,
                    end: HEAD_READ_END,
                },
            ),
        ),
        (LoadPhase::ReadingHead, LoadEventView::Bytes(b)) => Some(head_decision(v, lossy_text(b))),
        (LoadPhase::Sizing { version }, LoadEventView::Info(size)) => match size {
            Some(n) => Some(
                (
                    v.at(LoadPhase::Reading { version }),
                    LoadActionView::Get {
                        key: manifest_version_key_text(v.ns, version as nat),
                        start: 0,
                        end: n,
                    },
                ),
            ),
            None => Some(load_failed(v, "head error: "@ + "manifest size unknown"@)),
        },
        (LoadPhase::Reading { version }, LoadEventView::Bytes(b)) => Some(
            unzipped_decision(v, version, gunzip_of(b)),
        ),
        (LoadPhase::Parsing { version }, LoadEventView::Parsed) => Some(
            (v.at(LoadPhase::Over), LoadActionView::Keep { version }),
        ),
        (LoadPhase::Parsing { .. }, LoadEventView::ParseFailed(t)) => Some(
            load_failed(v, "client error: "@ + ("json: "@ + t)),
        ),
        (
            LoadPhase::ReadingHead | LoadPhase::Sizing { .. } | LoadPhase::Reading { .. },
            LoadEventView::StoreFailed(t),
        ) => Some(load_failed(v, t)),
        _ => None,
    }
}

impl ManifestLoad {
    /// Begins to load the manifest of the namespace.
    pub fn new(ns: &str) -> (r: ManifestLoad)
        ensures
            r@ == (LoadView { ns: ns@, phase: LoadPhase::Start }),
    {
        ManifestLoad { ns: ns.to_string(), phase: LoadPhase::Start }
    }

    /// Whether something was asked for.
    fn begun(&self) -> (r: bool)
        ensures
            r == (self@.phase != LoadPhase::Start),
    {
        match self.phase {
            LoadPhase::Start => false,
            _ => true,
        }
    }

    fn end(&mut self)
        ensures
            final(self)@ == old(self)@.at(LoadPhase::Over),
    {
        self.phase = LoadPhase::Over;
    }

    /// Decides by the text of the HEAD file: which manifest to ask for, or that the text
    /// names none.
    pub fn head_read(&mut self, head: &str) -> (r: LoadAction)
        ensures
            (final(self)@, r@) == head_decision(old(self)@, head@),
    {
        match parse_head_version(head) {
            Some(version) => {
                self.phase = LoadPhase::Sizing { version };
                LoadAction::Head { key: layout::manifest_version_key(self.ns.as_str(), version) }
            },
            None => {
                self.phase = LoadPhase::Over;
                LoadAction::Fail(StoreError::Head(text::join("invalid HEAD content: ", head)))
            },
        }
    }

    /// Decides by what was found in the gzip member of the manifest of this version.
    pub fn unzipped(&mut self, version: u64, found: Result<Vec<u8>, String>) -> (r: LoadAction)
        ensures
            (final(self)@, r@) == unzipped_decision(old(self)@, version, bytes_or_text(found)),
    {
        match found {
            Ok(json) => {
                self.phase = LoadPhase::Parsing { version };
                LoadAction::Parse(json)
            },
            Err(t) => {
                self.phase = LoadPhase::Over;
                LoadAction::Fail(StoreError::Client(text::join("gzip decode: ", t.as_str())))
            },
        }
    }

    /// Takes in what came of the last action and says what is to be done next; nothing,
    /// if the event does not answer it.
    pub fn step(&mut self, event: LoadEvent) -> (r: Option<LoadAction>)
        ensures
            match load_next(old(self)@, event@) {
                Some((v, a)) => r is Some && r->0@ == a && final(self)@ == v,
                None => r is None && final(self)@ == old(self)@.at(LoadPhase::Over),
            },
            old(self)@.phase == LoadPhase::ReadingHead && event@ is Bytes && valid_utf8(
                event@->Bytes_0,
            ) ==> lossy_text(event@->Bytes_0) == decode_utf8(event@->Bytes_0),
    {
        let phase = self.phase;
        self.phase = LoadPhase::Over;
        match event {
            LoadEvent::Begin => match phase {
                LoadPhase::Start => {
                    self.phase = LoadPhase::ReadingHead;
                    Some(
                        LoadAction::Get {
                            key: layout::manifest_head_key(self.ns.as_str()),
                            start: 0,
                            end: HEAD_READ_END,
                        },
                    )
                },
                _ => None,
            },
            LoadEvent::Bytes(b) => match phase {
                LoadPhase::ReadingHead => {
                    let head = codec::text_of(b.as_slice());
                    Some(self.head_read(head.as_str()))
                },
                LoadPhase::Reading { version } => {
                    let found = codec::gunzip(b.as_slice());
                    Some(self.unzipped(version, found))
                },
                _ => None,
            },
            LoadEvent::Info(info) => match phase {
                LoadPhase::Sizing { version } => {
                    let size = match info {
                        Some(h) => h.size,
                        None => None,
                    };
                    match size {
                        Some(n) => {
                            self.phase = LoadPhase::Reading { version };
                            Some(
                                LoadAction::Get {
                                    key: layout::manifest_version_key(self.ns.as_str(), version),
                                    start: 0,
                                    end: n,
                                },
                            )
                        },
                        None => Some(
                            LoadAction::Fail(
                                StoreError::Head("manifest size unknown".to_string()),
                            ),
                        ),
                    }
                },
                _ => None,
            },
            LoadEvent::StoreFailed(e) => match phase {
                LoadPhase::ReadingHead | LoadPhase::Sizing { .. } | LoadPhase::Reading { .. } => {
                    Some(LoadAction::Fail(e))
                },
                _ => None,
            },
            LoadEvent::Parsed => match phase {
                LoadPhase::Parsing { version } => Some(LoadAction::Keep { version }),
                _ => None,
            },
            LoadEvent::ParseFailed(t) => match phase {
                LoadPhase::Parsing { .. } => Some(
                    LoadAction::Fail(StoreError::Client(text::join("json: ", t.as_str()))),
                ),
                _ => None,
            },
        }
    }
}

/// Where loading is after these events, and what it then asks for.
pub open spec fn load_run(v: LoadView, events: Seq<LoadEventView>) -> Option<
    (LoadView, LoadActionView),
>
    decreases events.len(),
{
    if events.len() == 0 {
        None
    } else if events.len() == 1 {
        load_next(v, events[0])
    } else {
        match load_run(v, events.drop_last()) {
            Some((u, _)) => load_next(u, events.last()),
            None => None,
        }
    }
}

/// What was published is loaded: with the HEAD file of a version, and at the key of that
/// version bytes in whose gzip member the JSON is found, loading asks for both, hands the
/// JSON on, and keeps the manifest as that version.
pub proof fn law_published_is_loaded(
    ns: Seq<char>,
    version: u64,
    head: Seq<u8>,
    gz: Seq<u8>,
    json: Seq<u8>,
)
    requires
        head == encode_utf8(head_text(version as nat)),
        lossy_text(head) == decode_utf8(head),
        gunzip_of(gz) is Ok,
        gunzip_of(gz)->Ok_0 == json,
        gz.len() <= u64::MAX,
    ensures
        ({
            let v = LoadView { ns, phase: LoadPhase::Start };
            let e1 = seq![LoadEventView::Begin];
            let e2 = e1.push(LoadEventView::Bytes(head));
            let e3 = e2.push(LoadEventView::Info(Some(gz.len() as u64)));
            let e4 = e3.push(LoadEventView::Bytes(gz));
            let e5 = e4.push(LoadEventView::Parsed);
            let key = manifest_version_key_text(ns, version as nat);
            &&& load_run(v, e1) == Some(
                (
                    v.at(LoadPhase::ReadingHead),
                    LoadActionView::Get {
                        key: manifest_head_key_text(ns),
                        start: 0,
                        end: HEAD_READ_END,
                    },
                ),
            )
            &&& head.len() <= HEAD_READ_END
            &&& load_run(v, e2) == Some(
                (v.at(LoadPhase::Sizing { version }), LoadActionView::Head { key }),
            )
            &&& load_run(v, e3) == Some(
                (
                    v.at(LoadPhase::Reading { version }),
                    LoadActionView::Get { key, start: 0, end: gz.len() as u64 },
                ),
            )
            &&& load_run(v, e4) == Some(
                (v.at(LoadPhase::Parsing { version }), LoadActionView::Parse(json)),
            )
            &&& load_run(v, e5) == Some((v.at(LoadPhase::Over), LoadActionView::Keep { version }))
        }),
{
    law_head_names_version(version);
    let v = LoadView { ns, phase: LoadPhase::Start };
    let e1 = seq![LoadEventView::Begin];
    let e2 = e1.push(LoadEventView::Bytes(head));
    let e3 = e2.push(LoadEventView::Info(Some(gz.len() as u64)));
    let e4 = e3.push(LoadEventView::Bytes(gz));
    let e5 = e4.push(LoadEventView::Parsed);
    assert(e2.drop_last() =~= e1);
    assert(e3.drop_last() =~= e2);
    assert(e4.drop_last() =~= e3);
    assert(e5.drop_last() =~= e4);
}

/// Outside work that getting a manifest waits for.
pub enum ManifestAction {
    /// Get the bytes `start..end` of the object `key`.
    Get { key: String, start: u64, end: u64 },
    /// Ask what is known of the object `key`.
    Head { key: String },
    /// Take the bytes for the JSON of a manifest.
    Parse(Vec<u8>),
    /// The manifest is had.
    Answer(ManifestState),
    Fail(StoreError),
}

/// What a [`ManifestAction`] asks for; of an error, its text.
pub enum ManifestActionView {
    /// Work that loading waits for.
    Load(LoadActionView),
    Answer(StateView),
    Fail(Seq<char>),
}

impl View for ManifestAction {
    type V = ManifestActionView;

    open spec fn view(&self) -> ManifestActionView {
        match self {
            ManifestAction::Get { key, start, end } => ManifestActionView::Load(
                LoadActionView::Get { key: key@, start: *start, end: *end },
            ),
            ManifestAction::Head { key } => ManifestActionView::Load(
                LoadActionView::Head { key: key@ },
            ),
            ManifestAction::Parse(b) => ManifestActionView::Load(LoadActionView::Parse(b@)),
            ManifestAction::Answer(st) => ManifestActionView::Answer(st@),
            ManifestAction::Fail(e) => ManifestActionView::Fail(e.text()),
        }
    }
}

/// What came of a [`ManifestAction`]; `Begin` comes before the first one. Times are in
/// nanoseconds.
pub enum ManifestEvent {
    Begin { now: u64 },
    Bytes(Vec<u8>),
    /// What is known of the object, if there is one.
    Info(Option<HeadInfo>),
    /// A request to the store failed.
    StoreFailed(StoreError),
    /// The manifest that the JSON tells.
    Parsed { manifest: Manifest, now: u64 },
    /// The bytes are not the JSON of a manifest.
    ParseFailed(String),
}

/// What a [`ManifestEvent`] tells.
pub enum ManifestEventView {
    Begin { now: u64 },
    /// What came of work that loading waits for.
    Load(LoadEventView),
    Parsed { manifest: Manifest, now: u64 },
}

impl View for ManifestEvent {
    type V = ManifestEventView;

    open spec fn view(&self) -> ManifestEventView {
        match self {
            ManifestEvent::Begin { now } => ManifestEventView::Begin { now: *now },
            ManifestEvent::Bytes(b) => ManifestEventView::Load(LoadEventView::Bytes(b@)),
            ManifestEvent::Info(h) => ManifestEventView::Load(
                LoadEventView::Info(
                    match h {
                        Some(h) => h.size,
                        None => None,
                    },
                ),
            ),
            ManifestEvent::StoreFailed(e) => ManifestEventView::Load(
                LoadEventView::StoreFailed(e.text()),
            ),
            ManifestEvent::Parsed { manifest, now } => ManifestEventView::Parsed {
                manifest: *manifest,
                now: *now,
            },
            ManifestEvent::ParseFailed(t) => ManifestEventView::Load(
                LoadEventView::ParseFailed(t@),
            ),
        }
    }
}

/// What a step of loading means for who wants the manifest.
pub open spec fn load_means(c: CacheView, next: Option<(LoadView, LoadActionView)>) -> Option<
    (LoadView, CacheView, ManifestActionView),
> {
    match next {
        Some((u, LoadActionView::Fail(t))) => Some((u, c, ManifestActionView::Fail(t))),
        Some((u, a)) => Some((u, c, ManifestActionView::Load(a))),
        None => None,
    }
}

/// The next state of the request and of the cache, and what is to be done: a fresh manifest
/// is answered at once; else it is loaded, kept, and answered. There is none if the event
/// does not answer what was asked.
pub open spec fn get_or_load_next(v: LoadView, c: CacheView, e: ManifestEventView) -> Option<
    (LoadView, CacheView, ManifestActionView),
> {
    match e {
        ManifestEventView::Begin { now } => if v.phase != LoadPhase::Start {
            None
        } else {
            match c.fresh(v.ns, now) {
                Some(st) => Some((v.at(LoadPhase::Over), c, ManifestActionView::Answer(st))),
                None => load_means(c, load_next(v, LoadEventView::Begin)),
            }
        },
        ManifestEventView::Load(e) => load_means(c, load_next(v, e)),
        ManifestEventView::Parsed { manifest, now } => match load_next(v, LoadEventView::Parsed) {
            Some((u, LoadActionView::Keep { version })) => {
                let st = StateView { version, manifest, loaded_at: now };
                Some(
                    (
                        u,
                        CacheView { states: c.states.insert(v.ns, st), ttl: c.ttl },
                        ManifestActionView::Answer(st),
                    ),
                )
            },
            _ => None,
        },
    }
}

/// A manifest that is wanted: from the cache if it is fresh there, else from the store.
pub struct GetOrLoad {
    load: ManifestLoad,
}

impl View for GetOrLoad {
    type V = LoadView;

    closed spec fn view(&self) -> LoadView {
        self.load@
    }
}

impl GetOrLoad {
    /// Begins to get the manifest of the namespace.
    pub fn new(ns: &str) -> (r: GetOrLoad)
        ensures
            r@ == (LoadView { ns: ns@, phase: LoadPhase::Start }),
    {
        GetOrLoad { load: ManifestLoad::new(ns) }
    }

    fn load(&mut self, event: LoadEvent) -> (r: Option<ManifestAction>)
        requires
            !(event@ is Parsed),
        ensures
            match load_next(old(self)@, event@) {
                Some((v, LoadActionView::Fail(t))) => r is Some && r->0@
                    == ManifestActionView::Fail(t) && final(self)@ == v,
                Some((v, a)) => r is Some && r->0@ == ManifestActionView::Load(a) && final(self)@
                    == v,
                None => r is None && final(self)@ == old(self)@.at(LoadPhase::Over),
            },
    {
        match self.load.step(event) {
            Some(LoadAction::Get { key, start, end }) => Some(
                ManifestAction::Get { key, start, end },
            ),
            Some(LoadAction::Head { key }) => Some(ManifestAction::Head { key }),
            Some(LoadAction::Parse(b)) => Some(ManifestAction::Parse(b)),
            Some(LoadAction::Fail(e)) => Some(ManifestAction::Fail(e)),
            Some(LoadAction::Keep { .. }) => {
                assert(false);
                None
            },
            None => None,
        }
    }

    /// Takes in what came of the last action and says what is to be done next; nothing, if
    /// the event does not answer it.
    pub fn step(&mut self, cache: &mut ManifestCache, event: ManifestEvent) -> (r: Option<
        ManifestAction,
    >)
        requires
            old(cache).inv(),
        ensures
            match get_or_load_next(old(self)@, old(cache)@, event@) {
                Some((v, c, a)) => r is Some && r->0@ == a && final(self)@ == v && final(cache)@
                    == c,
                None => r is None && final(self)@ == old(self)@.at(LoadPhase::Over)
                    && final(cache)@ == old(cache)@,
            },
            final(cache).inv(),
    {
        match event {
            ManifestEvent::Begin { now } => {
                let begun = self.load.begun();
                if begun {
                    self.load.end();
                    return None;
                }
                match cache.try_get_fresh(self.load.ns.as_str(), now) {
                    Some(st) => {
                        let st = st.share();
                        self.load.end();
                        Some(ManifestAction::Answer(st))
                    },
                    None => self.load(LoadEvent::Begin),
                }
            },
            ManifestEvent::Bytes(b) => self.load(LoadEvent::Bytes(b)),
            ManifestEvent::Info(h) => self.load(LoadEvent::Info(h)),
            ManifestEvent::StoreFailed(x) => self.load(LoadEvent::StoreFailed(x)),
            ManifestEvent::ParseFailed(t) => self.load(LoadEvent::ParseFailed(t)),
            ManifestEvent::Parsed { manifest, now } => match self.load.step(LoadEvent::Parsed) {
                Some(LoadAction::Keep { version }) => {
                    let st = ManifestState {
                        version,
                        manifest: Arc::new(manifest),
                        loaded_at: now,
                    };
                    cache.insert(self.load.ns.clone(), st.share());
                    Some(ManifestAction::Answer(st))
                },
                Some(_) => {
                    assert(false);
                    None
                },
                None => None,
            },
        }
    }
}

/// Where a request is after these events, and what it then asks for; `caches` are the
/// caches that it finds at each event, which other requests may have changed.
pub open spec fn get_or_load_run(
    v: LoadView,
    caches: Seq<CacheView>,
    events: Seq<ManifestEventView>,
) -> Option<(LoadView, CacheView, ManifestActionView)>
    decreases events.len(),
{
    if events.len() == 0 {
        None
    } else if events.len() == 1 {
        get_or_load_next(v, caches[0], events[0])
    } else {
        match get_or_load_run(v, caches, events.drop_last()) {
            Some((u, _, _)) => get_or_load_next(u, caches[events.len() - 1], events.last()),
            None => None,
        }
    }
}

/// A manifest that is fresh when the request comes is answered at once, without the store,
/// and the request is then over. Any other answer is the manifest that was parsed in this
/// request, and only it changes the cache: a load that fails is told as its error, never
/// covered by what the cache had.
pub proof fn law_get_or_load(
    v: LoadView,
    caches: Seq<CacheView>,
    events: Seq<ManifestEventView>,
    now: u64,
)
    requires
        v.phase == LoadPhase::Start,
        events.len() > 0,
        caches.len() == events.len(),
        events[0] == (ManifestEventView::Begin { now }),
        get_or_load_run(v, caches, events) is Some,
    ensures
        match (caches[0].fresh(v.ns, now), get_or_load_run(v, caches, events)) {
            (Some(st), Some((_, c, a))) => {
                &&& events.len() == 1
                &&& a == ManifestActionView::Answer(st)
                &&& c == caches[0]
            },
            (None, Some((_, c, a))) => match a {
                ManifestActionView::Answer(st) => {
                    &&& events.last() == (ManifestEventView::Parsed {
                        manifest: st.manifest,
                        now: st.loaded_at,
                    })
                    &&& c.states == caches.last().states.insert(v.ns, st)
                },
                _ => c == caches.last(),
            },
            _ => false,
        },
{
    lemma_get_or_load(v, caches, events, now);
}

proof fn lemma_get_or_load(
    v: LoadView,
    caches: Seq<CacheView>,
    events: Seq<ManifestEventView>,
    now: u64,
)
    requires
        v.phase == LoadPhase::Start,
        events.len() > 0,
        caches.len() >= events.len(),
        events[0] == (ManifestEventView::Begin { now }),
        get_or_load_run(v, caches, events) is Some,
    ensures
        match (caches[0].fresh(v.ns, now), get_or_load_run(v, caches, events)) {
            (Some(st), Some((u, c, a))) => {
                &&& events.len() == 1
                &&& a == ManifestActionView::Answer(st)
                &&& c == caches[0]
                &&& u.phase == LoadPhase::Over
            },
            (None, Some((u, c, a))) => {
                &&& u.ns == v.ns
                &&& u.phase != LoadPhase::Start
                &&& match a {
                    ManifestActionView::Answer(st) => {
                        &&& events.last() == (ManifestEventView::Parsed {
                            manifest: st.manifest,
                            now: st.loaded_at,
                        })
                        &&& c.states == caches[events.len() - 1].states.insert(v.ns, st)
                    },
                    _ => c == caches[events.len() - 1],
                }
            },
            _ => false,
        },
    decreases events.len(),
{
    if events.len() > 1 {
        let before = events.drop_last();
        assert(before[0] == events[0]);
        lemma_get_or_load(v, caches, before, now);
    }
}

/// A manifest is given only if one was kept for the namespace, less than the time to live
/// before; a time that lies before that of the keeping counts as none.
pub proof fn law_given_is_kept(v: CacheView, ns: Seq<char>, now: u64)
    ensures
        v.fresh(ns, now) is Some <==> v.states.contains_key(ns) && v.ttl > 0 && (
        now < v.states[ns].loaded_at || now - v.states[ns].loaded_at < v.ttl),
        v.fresh(ns, now) matches Some(st) ==> st == v.states[ns],
{
}

/// Loading goes its way: the HEAD file of the namespace is read whole, the manifest of the
/// version that it names is sized, read whole, unpacked, parsed, and kept as that version.
pub proof fn law_load_goes_on(v: LoadView, b: Seq<u8>, n: u64, size: u64, t: Seq<char>)
    ensures
        v.phase == LoadPhase::Start ==> {
            &&& load_next(v, LoadEventView::Begin) matches Some((
                u,
                LoadActionView::Get { key, start, end },
            ))
            &&& u.phase == LoadPhase::ReadingHead
            &&& key == manifest_head_key_text(v.ns)
            &&& start == 0
            &&& end == 1024
        },
        v.phase == LoadPhase::ReadingHead && head_version_of(lossy_text(b)) == Some(n as nat) ==> {
            &&& load_next(v, LoadEventView::Bytes(b)) matches Some((u, LoadActionView::Head { key }))
            &&& u.phase == (LoadPhase::Sizing { version: n })
            &&& key == manifest_version_key_text(v.ns, n as nat)
        },
        v.phase == LoadPhase::ReadingHead && head_version_of(lossy_text(b)) is None ==> {
            &&& load_next(v, LoadEventView::Bytes(b)) matches Some((_, LoadActionView::Fail(m)))
            &&& m == "head error: "@ + ("invalid HEAD content: "@ + lossy_text(b))
        },
        v.phase == (LoadPhase::Sizing { version: n }) ==> {
            &&& load_next(v, LoadEventView::Info(Some(size))) matches Some((
                u,
                LoadActionView::Get { key, start, end },
            ))
            &&& u.phase == (LoadPhase::Reading { version: n })
            &&& key == manifest_version_key_text(v.ns, n as nat)
            &&& start == 0
            &&& end == size
            &&& load_next(v, LoadEventView::Info(None)) matches Some((_, LoadActionView::Fail(m)))
            &&& m == "head error: "@ + "manifest size unknown"@
        },
        v.phase == (LoadPhase::Reading { version: n }) ==> {
            &&& load_next(v, LoadEventView::Bytes(b)) matches Some((u, a))
            &&& match gunzip_of(b) {
                Ok(json) => u.phase == (LoadPhase::Parsing { version: n }) && a
                    == LoadActionView::Parse(json),
                Err(e) => a == LoadActionView::Fail("client error: "@ + ("gzip decode: "@ + e)),
            }
        },
        v.phase == (LoadPhase::Parsing { version: n }) ==> {
            &&& load_next(v, LoadEventView::Parsed) matches Some((_, a))
            &&& a == (LoadActionView::Keep { version: n })
            &&& load_next(v, LoadEventView::ParseFailed(t)) matches Some((_, LoadActionView::Fail(m)))
            &&& m == "client error: "@ + ("json: "@ + t)
        },
        v.phase is ReadingHead || v.phase is Sizing || v.phase is Reading ==> {
            &&& load_next(v, LoadEventView::StoreFailed(t)) matches Some((_, LoadActionView::Fail(m)))
            &&& m == t
        },
        load_next(v, LoadEventView::Begin) matches Some((u, _)) ==> u.ns == v.ns,
        load_next(v, LoadEventView::Bytes(b)) matches Some((u, _)) ==> u.ns == v.ns,
        load_next(v, LoadEventView::Info(Some(size))) matches Some((u, _)) ==> u.ns == v.ns,
        load_next(v, LoadEventView::Parsed) matches Some((u, _)) ==> u.ns == v.ns,
{
}

/// What a request for a manifest does, by what came of its work: it loads as it is told to,
/// answers with the manifest that was parsed, as the version that HEAD named and as of the
/// time that was told, keeps just that, and passes an error on.
pub proof fn law_get_or_load_goes_on(
    v: LoadView,
    c: CacheView,
    e: LoadEventView,
    manifest: Manifest,
    now: u64,
    n: u64,
)
    ensures
        v.phase == LoadPhase::Start && c.fresh(v.ns, now) is None ==> {
            &&& get_or_load_next(v, c, ManifestEventView::Begin { now }) matches Some((
                u,
                d,
                ManifestActionView::Load(LoadActionView::Get { key, start, end }),
            ))
            &&& key == manifest_head_key_text(v.ns)
            &&& d == c
        },
        v.phase == LoadPhase::Start && c.fresh(v.ns, now) is Some ==> {
            &&& get_or_load_next(v, c, ManifestEventView::Begin { now }) matches Some((_, d, a))
            &&& a == ManifestActionView::Answer(c.states[v.ns])
            &&& d == c
        },
        match (load_next(v, e), get_or_load_next(v, c, ManifestEventView::Load(e))) {
            (Some((u, LoadActionView::Fail(t))), Some((w, d, a))) => a == ManifestActionView::Fail(
                t,
            ) && w == u && d == c,
            (Some((u, b)), Some((w, d, a))) => a == ManifestActionView::Load(b) && w == u && d == c,
            (None, None) => true,
            _ => false,
        },
        v.phase == (LoadPhase::Parsing { version: n }) ==> {
            &&& get_or_load_next(v, c, ManifestEventView::Parsed { manifest, now }) matches Some((
                _,
                d,
                ManifestActionView::Answer(st),
            ))
            &&& st.version == n
            &&& st.manifest == manifest
            &&& st.loaded_at == now
            &&& d.ttl == c.ttl
            &&& d.states == c.states.insert(v.ns, st)
        },
{
}

/// The daemon takes a manifest for fresh for ten seconds, of a thousand million nanoseconds
/// each.
pub proof fn law_manifest_ttl()
    ensures
        MANIFEST_TTL == 10 * 1000 * 1000 * 1000,
{
}

} // verus!
