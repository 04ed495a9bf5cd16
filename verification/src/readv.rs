//! Reading many ranges of many files at once.
//!
//! The pages that the ranges touch are brought into the cache as the plan says; then
//! the ranges are put together from the cached pages, in the order of the request.
use crate::blob::{asked_key, found_at, lemma_found};
use crate::manifest::{crc_of, file_of, find_file, FileEntry, Manifest};
use crate::plan;
use crate::plan::{item_views, plan_of, Plan, PlanEnd, PlanEndView, PlanView};
use crate::proto::{ReadvItem, ReadvItemView};
use crate::read;
use crate::read::{
    key_of, open_page, page_at, page_of, page_start, read_end, refusal, taken, ActionView,
    EventView, Fill, FillNext, FillNextView, FillView, ReadAction, ReadEvent, Refusal, World,
};
use crate::types::{CacheKey, CacheKeyView};
use vstd::prelude::*;

verus! {

/// A vectored read without items, or without a store to read from, is turned down
/// before the manifest is looked at.
pub fn readv_refused(items: &Vec<ReadvItem>, store_configured: bool) -> (r: Option<Refusal>)
    ensures
        items@.len() == 0 ==> r is Some && r->0@ == refusal(400, "empty readv"@),
        items@.len() > 0 && !store_configured ==> r is Some && r->0@ == refusal(
            503,
            "ObjectStore not configured"@,
        ),
        items@.len() > 0 && store_configured ==> r is None,
{
    if items.len() == 0 {
        Some(Refusal { status: 400, message: "empty readv".to_string() })
    } else {
        read::store_refused(store_configured)
    }
}

#[derive(Debug)]
enum Phase {
    Start,
    Fill { next: usize, fill: Fill },
    Copy { item: usize, cur: u64, out: Vec<u8> },
    Done,
}

/// A vectored read under way.
#[derive(Debug)]
pub struct ReadvRead<'a> {
    manifest: &'a Manifest,
    ns: String,
    items: Vec<ReadvItem>,
    slab: u64,
    plan: Plan,
    phase: Phase,
}

/// What a vectored read is about, and how far it is.
pub struct ReadvView {
    pub files: Seq<FileEntry>,
    pub ns: Seq<char>,
    pub items: Seq<ReadvItemView>,
    pub slab: u64,
    pub phase: PhaseView,
}

/// How far a vectored read is.
pub enum PhaseView {
    /// Nothing has been decided.
    Start,
    /// The page of the plan at `next` is on its way into the cache; those before it are
    /// there.
    Fill { next: int, fill: FillView },
    /// The item is to be copied from its file offset `cur` on; the answer so far is `out`.
    Copy { item: int, cur: u64, out: Seq<u8> },
    /// The answer was given.
    Done,
}

impl<'a> View for ReadvRead<'a> {
    type V = ReadvView;

    closed spec fn view(&self) -> ReadvView {
        ReadvView {
            files: self.manifest.files@,
            ns: self.ns@,
            items: item_views(self.items@),
            slab: self.slab,
            phase: match self.phase {
                Phase::Start => PhaseView::Start,
                Phase::Fill { next, fill } => PhaseView::Fill { next: next as int, fill: fill@ },
                Phase::Copy { item, cur, out } => PhaseView::Copy {
                    item: item as int,
                    cur,
                    out: out@,
                },
                Phase::Done => PhaseView::Done,
            },
        }
    }
}

impl ReadvView {
    pub open spec fn at(self, phase: PhaseView) -> ReadvView {
        ReadvView { phase, ..self }
    }

    pub open spec fn plan(self) -> PlanView {
        plan_of(self.files, self.items, self.slab)
    }

    /// The file of an item.
    pub open spec fn entry(self, item: int) -> FileEntry {
        file_of(self.files, self.items[item].path)->0
    }

    /// Where an item ends: where the request says, but not behind the end of its file.
    pub open spec fn end(self, item: int) -> u64 {
        read_end(self.entry(item).size, self.items[item].off, self.items[item].len as u64)
    }

    pub open spec fn wf(self) -> bool {
        match self.phase {
            PhaseView::Start | PhaseView::Done => true,
            PhaseView::Fill { next, .. } => 0 <= next < self.plan().pages.len(),
            PhaseView::Copy { item, cur, .. } => {
                &&& self.plan().end is Complete
                &&& 0 <= item < self.items.len()
                &&& cur < self.end(item)
            },
        }
    }
}

/// Begins to copy an item from its file offset `cur` on.
pub open spec fn copy_at(v: ReadvView, item: int, cur: u64, out: Seq<u8>) -> (
    ReadvView,
    ActionView,
) {
    let entry = v.entry(item);
    (
        v.at(PhaseView::Copy { item, cur, out }),
        ActionView::Lookup(
            key_of(v.ns, v.items[item].path, entry.hash@, page_at(v.slab, cur)),
        ),
    )
}

/// Goes on to the first item from `item` on that has bytes, or answers.
pub open spec fn copy_from(v: ReadvView, item: int, out: Seq<u8>) -> (ReadvView, ActionView)
    decreases v.items.len() - item,
{
    if item >= v.items.len() {
        (v.at(PhaseView::Done), ActionView::Reply(out))
    } else if v.items[item].off < v.end(item) {
        copy_at(v, item, v.items[item].off, out)
    } else {
        copy_from(v, item + 1, out)
    }
}

/// Goes on to the page of the plan at `next`; behind the last, to what the plan ends with.
pub open spec fn ensure_from(v: ReadvView, next: int) -> Option<(ReadvView, ActionView)> {
    if next < v.plan().pages.len() {
        let (entry, page_id) = v.plan().pages[next];
        Some(
            (
                v.at(PhaseView::Fill { next, fill: FillView::Probe }),
                ActionView::Lookup(key_of(v.ns, entry.path@, entry.hash@, page_id)),
            ),
        )
    } else {
        match v.plan().end {
            PlanEndView::Complete => Some(copy_from(v, 0, Seq::empty())),
            PlanEndView::Refuse(r) => Some((v.at(PhaseView::Done), ActionView::Refuse(r))),
            PlanEndView::Stuck => None,
        }
    }
}

/// The decision while a page is on its way into the cache.
pub open spec fn readv_filled(v: ReadvView, next: int, n: FillNextView) -> Option<
    (ReadvView, ActionView),
> {
    let (entry, page_id) = v.plan().pages[next];
    match n {
        FillNextView::Open => Some(
            (
                v.at(PhaseView::Fill { next, fill: FillView::Opening }),
                open_page(entry, v.slab, page_id),
            ),
        ),
        FillNextView::Read(b) => Some(
            (v.at(PhaseView::Fill { next, fill: FillView::Filling(b) }), ActionView::NextChunk),
        ),
        FillNextView::Store(b) => Some(
            (
                v.at(PhaseView::Fill { next, fill: FillView::Storing }),
                ActionView::Store {
                    key: key_of(v.ns, entry.path@, entry.hash@, page_id),
                    page: b,
                },
            ),
        ),
        FillNextView::Done => ensure_from(v, next + 1),
        FillNextView::Refuse(r) => Some((v.at(PhaseView::Done), ActionView::Refuse(r))),
    }
}

/// The next state and what is to be done. There is none if the event does not answer
/// what was asked, if a page ends before the place where it is to be read, or if the
/// plan leads nowhere.
pub open spec fn readv_next(v: ReadvView, e: EventView) -> Option<(ReadvView, ActionView)> {
    match v.phase {
        PhaseView::Start => match e {
            EventView::Begin => ensure_from(v, 0),
            _ => None,
        },
        PhaseView::Fill { next, fill } => match read::fill_next(
            v.plan().pages[next].0,
            v.plan().pages[next].1,
            fill,
            e,
        ) {
            Some(n) => readv_filled(v, next, n),
            None => None,
        },
        PhaseView::Copy { item, cur, out } => match e {
            EventView::Absent => Some(
                (
                    v.at(PhaseView::Done),
                    ActionView::Refuse(refusal(500, "l2 missing after fetch"@)),
                ),
            ),
            EventView::Found(page) => match taken(
                page_start(v.slab, page_at(v.slab, cur)),
                cur,
                v.end(item),
                page,
            ) {
                Some((b, now)) => if now < v.end(item) {
                    Some(copy_at(v, item, now, out + b))
                } else {
                    Some(copy_from(v, item + 1, out + b))
                },
                None => None,
            },
            _ => None,
        },
        PhaseView::Done => None,
    }
}

/// Every page of the plan begins inside its file.
proof fn lemma_planned_page(v: ReadvView, next: int)
    requires
        0 <= next < v.plan().pages.len(),
    ensures
        v.slab > 0,
        0 <= page_start(v.slab, v.plan().pages[next].1) < v.plan().pages[next].0.size,
        file_of(v.files, v.plan().pages[next].0.path@) == Some(v.plan().pages[next].0),
        exists|i: int|
            0 <= i < v.items.len() && (#[trigger] v.items[i]).path
                == v.plan().pages[next].0.path@,
{
    plan::law_plan(v.files, v.items, v.slab);
    let (entry, page_id) = v.plan().pages[next];
    assert(plan::touched(entry, entry.path@, v.items, v.slab, page_id));
    let i = choose|i: int|
        0 <= i < v.items.len() && (#[trigger] v.items[i]).path == entry.path@ && plan::touches(
            entry,
            v.items[i],
            v.slab,
            page_id,
        );
    let end = read_end(entry.size, v.items[i].off, v.items[i].len as u64);
    read::lemma_page_at(v.slab, (end - 1) as u64);
    read::lemma_page_start_monotone(v.slab, page_id, page_at(v.slab, (end - 1) as u64));
    vstd::arithmetic::mul::lemma_mul_nonnegative(page_id as int, v.slab as int);
}

/// In a complete plan every item has a file.
proof fn lemma_item_file(v: ReadvView, item: int)
    requires
        v.plan().end is Complete,
        0 <= item < v.items.len(),
    ensures
        v.slab > 0,
        file_of(v.files, v.items[item].path) == Some(v.entry(item)),
        v.entry(item).path@ == v.items[item].path,
        v.items[item].off < v.entry(item).size,
        v.end(item) <= v.entry(item).size,
{
    plan::law_plan(v.files, v.items, v.slab);
    assert(plan::item_covered(v.files, v.items[item], v.slab, v.plan()));
    crate::manifest::lemma_position(v.files, v.items[item].path);
}

impl<'a> ReadvRead<'a> {
    /// The plan is the one for this read.
    pub closed spec fn inv(&self) -> bool {
        &&& self@.wf()
        &&& self.plan.places(self.manifest.files@)
        &&& self.plan.over(self.manifest.files@) == self@.plan()
    }

    /// A read of these ranges of files of the manifest, in pages of `slab` bytes.
    pub fn new(manifest: &'a Manifest, ns: String, items: Vec<ReadvItem>, slab: u64) -> (r:
        ReadvRead<'a>)
        ensures
            r@ == (ReadvView {
                files: manifest.files@,
                ns: ns@,
                items: item_views(items@),
                slab,
                phase: PhaseView::Start,
            }),
            r.inv(),
    {
        let plan = Plan::new(manifest, &items, slab);
        ReadvRead { manifest, ns, items, slab, plan, phase: Phase::Start }
    }

    fn lookup(&self, path: &str, hash: &str, page_id: u32) -> (r: ReadAction)
        ensures
            r@ == ActionView::Lookup(key_of(self@.ns, path@, hash@, page_id)),
    {
        ReadAction::Lookup(CacheKey::new(self.ns.as_str(), path, hash, page_id))
    }

    /// The file of an item, and where the item ends.
    fn file_of_item(&self, item: usize) -> (r: (&'a FileEntry, u64))
        requires
            self@.plan().end is Complete,
            item < self@.items.len(),
        ensures
            self@.slab > 0,
            *r.0 == self@.entry(item as int),
            r.1 == self@.end(item as int),
    {
        proof {
            lemma_item_file(self@, item as int);
        }
        let it = &self.items[item];
        match find_file(self.manifest, it.path.as_str()) {
            Some(entry) => (entry, read::end_of(entry.size, it.off, it.len as u64)),
            None => {
                assert(false);
                (&self.manifest.files[0], 0)
            },
        }
    }

    fn copy_at(&mut self, item: usize, cur: u64, out: Vec<u8>) -> (r: ReadAction)
        requires
            old(self).inv(),
            old(self)@.plan().end is Complete,
            item < old(self)@.items.len(),
            cur < old(self)@.end(item as int),
        ensures
            (final(self)@, r@) == copy_at(old(self)@, item as int, cur, out@),
            final(self).inv(),
    {
        let (entry, _) = self.file_of_item(item);
        let page_id = (cur / self.slab) as u32;
        let r = self.lookup(self.items[item].path.as_str(), entry.hash.as_str(), page_id);
        self.phase = Phase::Copy { item, cur, out };
        r
    }

    fn copy_from(&mut self, item: usize, out: Vec<u8>) -> (r: ReadAction)
        requires
            old(self).inv(),
            old(self)@.plan().end is Complete,
            item <= old(self)@.items.len(),
        ensures
            (final(self)@, r@) == copy_from(old(self)@, item as int, out@),
            final(self).inv(),
    {
        let mut k = item;
        while k < self.items.len()
            invariant
                self.inv(),
                *self == *old(self),
                self@.plan().end is Complete,
                k <= self@.items.len(),
                copy_from(self@, item as int, out@) == copy_from(self@, k as int, out@),
            decreases self.items@.len() - k,
        {
            let (_, end) = self.file_of_item(k);
            if self.items[k].off < end {
                let off = self.items[k].off;
                return self.copy_at(k, off, out);
            }
            k = k + 1;
        }
        self.phase = Phase::Done;
        ReadAction::Reply(out)
    }

    fn ensure_from(&mut self, next: usize) -> (r: Option<ReadAction>)
        requires
            old(self).inv(),
            old(self)@.phase is Done,
            next <= old(self)@.plan().pages.len(),
        ensures
            match ensure_from(old(self)@, next as int) {
                Some((v, a)) => r is Some && r->0@ == a && final(self)@ == v,
                None => r is None && final(self)@ == old(self)@,
            },
            final(self).inv(),
    {
        if next < self.plan.pages.len() {
            let (place, page_id) = self.plan.pages[next];
            let entry = &self.manifest.files[place];
            assert(self@.plan().pages[next as int] == (*entry, page_id));
            self.phase = Phase::Fill { next, fill: Fill::Probe };
            Some(self.lookup(entry.path.as_str(), entry.hash.as_str(), page_id))
        } else {
            let refused = match &self.plan.end {
                PlanEnd::Complete => None,
                PlanEnd::Refuse(r) => Some(Refusal { status: r.status, message: r.message.clone() }),
                PlanEnd::Stuck => {
                    return None;
                },
            };
            match refused {
                None => Some(self.copy_from(0, Vec::new())),
                Some(r) => Some(ReadAction::Refuse(r)),
            }
        }
    }

    fn filled(&mut self, next: usize, n: FillNext) -> (r: Option<ReadAction>)
        requires
            old(self).inv(),
            old(self)@.phase is Done,
            next < old(self)@.plan().pages.len(),
        ensures
            match readv_filled(old(self)@, next as int, n@) {
                Some((v, a)) => r is Some && r->0@ == a && final(self)@ == v,
                None => r is None && final(self)@ == old(self)@,
            },
            final(self).inv(),
    {
        let (place, page_id) = self.plan.pages[next];
        let entry = &self.manifest.files[place];
        assert(self@.plan().pages[next as int] == (*entry, page_id));
        proof {
            lemma_planned_page(self@, next as int);
        }
        match n {
            FillNext::Open => {
                self.phase = Phase::Fill { next, fill: Fill::Opening };
                Some(read::open_page_action(entry, self.slab, page_id))
            },
            FillNext::Read(b) => {
                self.phase = Phase::Fill { next, fill: Fill::Filling(b) };
                Some(ReadAction::NextChunk)
            },
            FillNext::Store(b) => {
                self.phase = Phase::Fill { next, fill: Fill::Storing };
                let key = CacheKey::new(
                    self.ns.as_str(),
                    entry.path.as_str(),
                    entry.hash.as_str(),
                    page_id,
                );
                Some(ReadAction::Store { key, page: b })
            },
            FillNext::Done => {
                assert(next < self.plan.pages.len());
                self.ensure_from(next + 1)
            },
            FillNext::Refuse(r) => Some(ReadAction::Refuse(r)),
        }
    }

    fn copied(&mut self, item: usize, cur: u64, out: Vec<u8>, page: &[u8]) -> (r: Option<
        ReadAction,
    >)
        requires
            old(self).inv(),
            old(self)@.phase is Done,
            old(self)@.at(PhaseView::Copy { item: item as int, cur, out: out@ }).wf(),
        ensures
            match readv_next(
                old(self)@.at(PhaseView::Copy { item: item as int, cur, out: out@ }),
                EventView::Found(page@),
            ) {
                Some((v, a)) => r is Some && r->0@ == a && final(self)@ == v,
                None => r is None && final(self)@ == old(self)@,
            },
            final(self).inv(),
    {
        let ghost v = self@.at(PhaseView::Copy { item: item as int, cur, out: out@ });
        let (entry, end) = self.file_of_item(item);
        let page_id = (cur / self.slab) as u32;
        proof {
            read::lemma_page_at(self.slab, cur);
            vstd::arithmetic::mul::lemma_mul_nonnegative(page_id as int, self.slab as int);
            assert(forall|o: Seq<u8>| #[trigger]
                copy_from(v, item + 1, o) == copy_from(self@, item + 1, o)) by {
                assert forall|o: Seq<u8>| #[trigger]
                    copy_from(v, item + 1, o) == copy_from(self@, item + 1, o) by {
                    lemma_copy_from_phase(v, self@.phase, item + 1, o);
                }
            }
        }
        let start = page_id as u64 * self.slab;
        let mut out = out;
        match read::take_from(&mut out, start, cur, end, page) {
            Some(now) => if now < end {
                Some(self.copy_at(item, now, out))
            } else {
                assert(item < self.items.len());
                Some(self.copy_from(item + 1, out))
            },
            None => None,
        }
    }

    /// Takes in what came of the last action and says what is to be done next. There is
    /// no next action if the event does not answer the last one, if a page ends before
    /// the place where it is to be read, or if the plan leads nowhere; the read then is
    /// over.
    pub fn step(&mut self, event: ReadEvent) -> (r: Option<ReadAction>)
        requires
            old(self).inv(),
        ensures
            match readv_next(old(self)@, event@) {
                Some((v, a)) => r is Some && r->0@ == a && final(self)@ == v,
                None => r is None && final(self)@ == old(self)@.at(PhaseView::Done),
            },
            final(self).inv(),
    {
        let ghost v = self@;
        let mut phase = Phase::Done;
        core::mem::swap(&mut phase, &mut self.phase);
        proof {
            assert(self@ == v.at(PhaseView::Done));
            assert forall|next: int| #[trigger] ensure_from(v, next) == ensure_from(self@, next) by {
                lemma_copy_from_phase(v, PhaseView::Done, 0, Seq::empty());
            }
        }
        match phase {
            Phase::Start => match event {
                ReadEvent::Begin => self.ensure_from(0),
                _ => None,
            },
            Phase::Fill { next, fill } => {
                let (place, page_id) = self.plan.pages[next];
                let entry = &self.manifest.files[place];
                assert(self@.plan().pages[next as int] == (*entry, page_id));
                match read::fill_step(entry, page_id, fill, event) {
                    Some(n) => self.filled(next, n),
                    None => None,
                }
            },
            Phase::Copy { item, cur, out } => match event {
                ReadEvent::Absent => Some(
                    ReadAction::Refuse(
                        Refusal { status: 500, message: "l2 missing after fetch".to_string() },
                    ),
                ),
                ReadEvent::Found(page) => self.copied(item, cur, out, page.as_slice()),
                _ => None,
            },
            Phase::Done => None,
        }
    }
}

/// Where copying goes on does not depend on the phase it comes from.
proof fn lemma_copy_from_phase(v: ReadvView, phase: PhaseView, item: int, out: Seq<u8>)
    ensures
        copy_from(v.at(phase), item, out) == copy_from(v, item, out),
    decreases v.items.len() - item,
{
    if item < v.items.len() && !(v.items[item].off < v.end(item)) {
        lemma_copy_from_phase(v, phase, item + 1, out);
    }
}

/// Where a vectored read is after these events, and what it then asks for.
pub open spec fn readv_run(v: ReadvView, events: Seq<EventView>) -> Option<(ReadvView, ActionView)>
    decreases events.len(),
{
    if events.len() == 0 {
        None
    } else if events.len() == 1 {
        readv_next(v, events[0])
    } else {
        match readv_run(v, events.drop_last()) {
            Some((u, _)) => readv_next(u, events.last()),
            None => None,
        }
    }
}

/// The event at `i` is a true answer to what was asked before it; `worlds` are the worlds
/// after each event.
pub open spec fn answered_at(
    v: ReadvView,
    events: Seq<EventView>,
    worlds: Seq<World>,
    i: int,
) -> bool {
    match readv_run(v, events.take(i)) {
        Some((_, a)) => read::answers(worlds[i - 1], a, events[i], worlds[i]),
        None => false,
    }
}

/// Every event behind the first is a true answer to what was asked before it.
pub open spec fn answered(v: ReadvView, events: Seq<EventView>, worlds: Seq<World>) -> bool {
    &&& events.len() > 0
    &&& events[0] is Begin
    &&& worlds.len() == events.len()
    &&& forall|i: int|
        0 < i < events.len() ==> #[trigger] answered_at(v, events, worlds, i)
}

/// The ranges of the first `count` items, one behind the other.
pub open spec fn gathered(v: ReadvView, contents: Map<Seq<char>, Seq<u8>>, count: int) -> Seq<u8>
    decreases count,
{
    if count <= 0 {
        Seq::empty()
    } else {
        let it = v.items[count - 1];
        gathered(v, contents, count - 1) + contents[it.path].subrange(
            it.off as int,
            v.end(count - 1) as int,
        )
    }
}

/// The world holds the file of the item: the store has its content, the manifest
/// describes it, and the cache has only pages of it.
pub open spec fn holds_file(v: ReadvView, w: World, content: Seq<u8>, item: int) -> bool {
    let entry = v.entry(item);
    &&& read::describes(entry, content, v.slab)
    &&& read::numbered(entry.size, v.slab)
    &&& w.objects.contains_key(entry.storage.key@)
    &&& w.objects[entry.storage.key@] == content
    &&& read::sound(w.cache, v.ns, v.items[item].path, entry.hash@, content, v.slab)
}

/// The world holds the files of all items.
pub open spec fn holds_files(v: ReadvView, w: World, contents: Map<Seq<char>, Seq<u8>>) -> bool {
    forall|i: int|
        0 <= i < v.items.len() ==> holds_file(v, w, contents[(#[trigger] v.items[i]).path], i)
}

/// The page of the plan is in the cache.
spec fn cached(cache: Map<CacheKeyView, Seq<u8>>, ns: Seq<char>, page: (FileEntry, u32)) -> bool {
    cache.contains_key(key_of(ns, page.0.path@, page.0.hash@, page.1))
}

/// What holds at every point of a vectored read in a world that gives true answers.
#[verifier::opaque]
spec fn on_course(
    v: ReadvView,
    a: ActionView,
    w: World,
    contents: Map<Seq<char>, Seq<u8>>,
) -> bool {
    let pages = v.plan().pages;
    &&& v.wf()
    &&& v.plan().end is Complete
    &&& holds_files(v, w, contents)
    &&& match v.phase {
        PhaseView::Start => false,
        PhaseView::Fill { next, fill } => {
            let (entry, page_id) = pages[next];
            let key = key_of(v.ns, entry.path@, entry.hash@, page_id);
            let page = page_of(contents[entry.path@], v.slab, page_id);
            &&& forall|j: int| 0 <= j < next ==> cached(w.cache, v.ns, #[trigger] pages[j])
            &&& match fill {
                FillView::Probe => a == ActionView::Lookup(key),
                FillView::Opening => a == open_page(entry, v.slab, page_id),
                FillView::Filling(b) => a is NextChunk && b + w.stream == page,
                FillView::Storing => a == ActionView::Store { key, page },
            }
        },
        PhaseView::Copy { item, cur, out } => {
            let it = v.items[item];
            &&& forall|j: int| 0 <= j < pages.len() ==> cached(w.cache, v.ns, #[trigger] pages[j])
            &&& a == ActionView::Lookup(
                key_of(v.ns, it.path, v.entry(item).hash@, page_at(v.slab, cur)),
            )
            &&& it.off <= cur
            &&& out == gathered(v, contents, item) + contents[it.path].subrange(
                it.off as int,
                cur as int,
            )
        },
        PhaseView::Done => {
            &&& forall|j: int| 0 <= j < pages.len() ==> cached(w.cache, v.ns, #[trigger] pages[j])
            &&& a == ActionView::Reply(gathered(v, contents, v.items.len() as int))
        },
    }
}

/// What a phase adds to a read does not bear on its files or its answer.
proof fn lemma_phase(
    v: ReadvView,
    phase: PhaseView,
    w: World,
    contents: Map<Seq<char>, Seq<u8>>,
    count: int,
)
    ensures
        holds_files(v.at(phase), w, contents) == holds_files(v, w, contents),
        gathered(v.at(phase), contents, count) == gathered(v, contents, count),
    decreases count,
{
    let u = v.at(phase);
    if holds_files(v, w, contents) {
        assert forall|i: int| 0 <= i < u.items.len() implies holds_file(
            u,
            w,
            contents[(#[trigger] u.items[i]).path],
            i,
        ) by {
            assert(holds_file(v, w, contents[v.items[i].path], i));
        }
    }
    if holds_files(u, w, contents) {
        assert forall|i: int| 0 <= i < v.items.len() implies holds_file(
            v,
            w,
            contents[(#[trigger] v.items[i]).path],
            i,
        ) by {
            assert(holds_file(u, w, contents[u.items[i].path], i));
        }
    }
    if count > 0 {
        lemma_phase(v, phase, w, contents, count - 1);
    }
}

proof fn lemma_copy_from(
    v: ReadvView,
    item: int,
    w: World,
    contents: Map<Seq<char>, Seq<u8>>,
)
    requires
        v.plan().end is Complete,
        holds_files(v, w, contents),
        forall|j: int|
            0 <= j < v.plan().pages.len() ==> cached(w.cache, v.ns, #[trigger] v.plan().pages[j]),
        0 <= item <= v.items.len(),
    ensures
        ({
            let (u, a) = copy_from(v, item, gathered(v, contents, item));
            on_course(u, a, w, contents)
        }),
    decreases v.items.len() - item,
{
    reveal(on_course);
    let out = gathered(v, contents, item);
    let (u, a) = copy_from(v, item, out);
    if item == v.items.len() {
        lemma_phase(v, PhaseView::Done, w, contents, item);
    } else {
        lemma_item_file(v, item);
        let it = v.items[item];
        let content = contents[it.path];
        assert(holds_file(v, w, content, item));
        if it.off < v.end(item) {
            let phase = PhaseView::Copy { item, cur: it.off, out };
            lemma_phase(v, phase, w, contents, item);
            assert(out + content.subrange(it.off as int, it.off as int) =~= out);
        } else {
            assert(out + content.subrange(it.off as int, v.end(item) as int) =~= out);
            lemma_copy_from(v, item + 1, w, contents);
        }
    }
}

proof fn lemma_ensure_from(
    v: ReadvView,
    next: int,
    w: World,
    contents: Map<Seq<char>, Seq<u8>>,
)
    requires
        v.plan().end is Complete,
        holds_files(v, w, contents),
        0 <= next <= v.plan().pages.len(),
        forall|j: int| 0 <= j < next ==> cached(w.cache, v.ns, #[trigger] v.plan().pages[j]),
    ensures
        match ensure_from(v, next) {
            Some((u, a)) => on_course(u, a, w, contents),
            None => false,
        },
{
    reveal(on_course);
    if next < v.plan().pages.len() {
        lemma_phase(v, PhaseView::Fill { next, fill: FillView::Probe }, w, contents, 0);
    } else {
        lemma_copy_from(v, 0, w, contents);
    }
}

/// The world holds the file of a page of the plan.
proof fn lemma_planned_file(
    v: ReadvView,
    next: int,
    w: World,
    contents: Map<Seq<char>, Seq<u8>>,
)
    requires
        holds_files(v, w, contents),
        0 <= next < v.plan().pages.len(),
    ensures
        ({
            let (entry, page_id) = v.plan().pages[next];
            let content = contents[entry.path@];
            &&& read::describes(entry, content, v.slab)
            &&& w.objects.contains_key(entry.storage.key@)
            &&& w.objects[entry.storage.key@] == content
            &&& read::sound(w.cache, v.ns, entry.path@, entry.hash@, content, v.slab)
            &&& 0 <= page_start(v.slab, page_id) < entry.size
            &&& file_of(v.files, entry.path@) == Some(entry)
        }),
{
    lemma_planned_page(v, next);
    let entry = v.plan().pages[next].0;
    let i = choose|i: int| 0 <= i < v.items.len() && (#[trigger] v.items[i]).path == entry.path@;
    assert(holds_file(v, w, contents[v.items[i].path], i));
    assert(v.entry(i) == entry);
}

/// Storing a page of a file, under its key, leaves the caches of all files sound.
proof fn lemma_store(
    v: ReadvView,
    next: int,
    w: World,
    w2: World,
    contents: Map<Seq<char>, Seq<u8>>,
)
    requires
        holds_files(v, w, contents),
        0 <= next < v.plan().pages.len(),
        ({
            let (entry, page_id) = v.plan().pages[next];
            w2.objects == w.objects && w2.cache == w.cache.insert(
                key_of(v.ns, entry.path@, entry.hash@, page_id),
                page_of(contents[entry.path@], v.slab, page_id),
            )
        }),
    ensures
        holds_files(v, w2, contents),
{
    lemma_planned_file(v, next, w, contents);
    let (entry, page_id) = v.plan().pages[next];
    assert forall|i: int| 0 <= i < v.items.len() implies holds_file(
        v,
        w2,
        contents[(#[trigger] v.items[i]).path],
        i,
    ) by {
        assert(holds_file(v, w, contents[v.items[i].path], i));
    }
}

proof fn lemma_fill_step(
    v: ReadvView,
    a: ActionView,
    w: World,
    e: EventView,
    w2: World,
    contents: Map<Seq<char>, Seq<u8>>,
)
    requires
        on_course(v, a, w, contents),
        v.phase is Fill,
        read::answers(w, a, e, w2),
    ensures
        stays(v, e, w2, contents),
{
    reveal(on_course);
    if let PhaseView::Fill { next, fill } = v.phase {
        lemma_planned_file(v, next, w, contents);
        let pages = v.plan().pages;
        let (entry, page_id) = pages[next];
        let page = page_of(contents[entry.path@], v.slab, page_id);
        if !(e is Stored) {
            assert forall|i: int| 0 <= i < v.items.len() implies holds_file(
                v,
                w2,
                contents[(#[trigger] v.items[i]).path],
                i,
            ) by {
                assert(holds_file(v, w, contents[v.items[i].path], i));
            }
        }
        match fill {
            FillView::Probe => {
                if e is Found {
                    assert forall|j: int| 0 <= j < next + 1 implies cached(
                        w2.cache,
                        v.ns,
                        #[trigger] pages[j],
                    ) by {
                        if j < next {
                            assert(cached(w.cache, v.ns, pages[j]));
                        }
                    }
                    lemma_ensure_from(v, next + 1, w2, contents);
                } else {
                    lemma_phase(
                        v,
                        PhaseView::Fill { next, fill: FillView::Opening },
                        w2,
                        contents,
                        0,
                    );
                }
            },
            FillView::Opening => {
                if e is Opened {
                    assert(Seq::<u8>::empty() + w2.stream =~= page);
                    lemma_phase(
                        v,
                        PhaseView::Fill { next, fill: FillView::Filling(Seq::empty()) },
                        w2,
                        contents,
                        0,
                    );
                }
            },
            FillView::Filling(b) => match e {
                EventView::Chunk(c) => {
                    assert(b + c + w2.stream =~= b + w.stream);
                    lemma_phase(
                        v,
                        PhaseView::Fill { next, fill: FillView::Filling(b + c) },
                        w2,
                        contents,
                        0,
                    );
                },
                EventView::StreamEnd => {
                    assert(b + w.stream =~= b);
                    assert(crc_of(entry.page_table@, page_id) is Some ==> crc_of(
                        entry.page_table@,
                        page_id,
                    )->0 == crate::digest::crc32c_of(page));
                    lemma_phase(
                        v,
                        PhaseView::Fill { next, fill: FillView::Storing },
                        w2,
                        contents,
                        0,
                    );
                },
                _ => {},
            },
            FillView::Storing => {
                if e is Stored {
                    lemma_store(v, next, w, w2, contents);
                    assert forall|j: int| 0 <= j < next + 1 implies cached(
                        w2.cache,
                        v.ns,
                        #[trigger] pages[j],
                    ) by {
                        if j < next {
                            assert(cached(w.cache, v.ns, pages[j]));
                        }
                    }
                    lemma_ensure_from(v, next + 1, w2, contents);
                }
            },
        }
    }
}

proof fn lemma_copy_step(
    v: ReadvView,
    a: ActionView,
    w: World,
    e: EventView,
    w2: World,
    contents: Map<Seq<char>, Seq<u8>>,
)
    requires
        on_course(v, a, w, contents),
        v.phase is Copy,
        read::answers(w, a, e, w2),
    ensures
        stays(v, e, w2, contents),
{
    reveal(on_course);
    if let PhaseView::Copy { item, cur, out } = v.phase {
        let pages = v.plan().pages;
        let it = v.items[item];
        let entry = v.entry(item);
        let content = contents[it.path];
        let end = v.end(item);
        let page_id = page_at(v.slab, cur);
        let start = page_start(v.slab, page_id);
        lemma_item_file(v, item);
        assert(holds_file(v, w, content, item));
        plan::law_plan(v.files, v.items, v.slab);
        assert(plan::item_covered(v.files, v.items[item], v.slab, v.plan()));
        vstd::arithmetic::div_mod::lemma_div_is_ordered(it.off as int, cur as int, v.slab as int);
        vstd::arithmetic::div_mod::lemma_div_is_ordered(cur as int, end - 1, v.slab as int);
        vstd::arithmetic::div_mod::lemma_div_is_ordered(end - 1, entry.size - 1, v.slab as int);
        read::lemma_page_at(v.slab, it.off);
        read::lemma_page_at(v.slab, cur);
        read::lemma_page_at(v.slab, (end - 1) as u64);
        assert(plan::touches(entry, it, v.slab, page_id));
        assert(pages.contains((entry, page_id)));
        let j = choose|j: int| 0 <= j < pages.len() && pages[j] == (entry, page_id);
        assert(cached(w.cache, v.ns, pages[j]));
        let page = page_of(content, v.slab, page_id);
        vstd::arithmetic::mul::lemma_mul_nonnegative(page_id as int, v.slab as int);
        assert(w.cache[key_of(v.ns, it.path, entry.hash@, page_id)] == page);
        assert(e == EventView::Found(page));
        let to = if end - start < page.len() {
            end - start
        } else {
            page.len() as int
        };
        let now = (start + to) as u64;
        let b = page.subrange(cur - start, to);
        assert(taken(start, cur, end, page) == Some((b, now)));
        assert(out + b =~= gathered(v, contents, item) + content.subrange(
            it.off as int,
            now as int,
        ));
        if now < end {
            lemma_phase(
                v,
                PhaseView::Copy { item, cur: now, out: out + b },
                w2,
                contents,
                item,
            );
        } else {
            assert(out + b == gathered(v, contents, item + 1));
            lemma_copy_from(v, item + 1, w2, contents);
        }
    }
}

/// A step keeps a vectored read on its course, or ends it because of a failure.
spec fn stays(
    v: ReadvView,
    e: EventView,
    w2: World,
    contents: Map<Seq<char>, Seq<u8>>,
) -> bool {
    match readv_next(v, e) {
        Some((v2, a2)) => {
            ||| on_course(v2, a2, w2, contents)
            ||| a2 is Refuse && read::failed(e) && holds_files(v, w2, contents)
        },
        None => false,
    }
}

/// A vectored read whose items all begin inside their files, in a cache that holds only
/// pages of the files and over a store that gives true answers: the reply, when it comes,
/// is the ranges of the contents in the order of the request, and all pages of the plan are
/// then in the cache; the request is refused only right after some outside work failed; and
/// the cache still holds only pages of the files.
pub proof fn law_readv_reply(
    v: ReadvView,
    events: Seq<EventView>,
    worlds: Seq<World>,
    contents: Map<Seq<char>, Seq<u8>>,
)
    requires
        v.phase is Start,
        forall|i: int|
            0 <= i < v.items.len() ==> plan::readable(v.files, #[trigger] v.items[i], v.slab),
        answered(v, events, worlds),
        holds_files(v, worlds[0], contents),
    ensures
        match readv_run(v, events) {
            Some((_, a)) => {
                &&& a matches ActionView::Reply(b) ==> b == gathered(
                    v,
                    contents,
                    v.items.len() as int,
                )
                &&& a is Reply ==> plan_cached(v, worlds.last())
                &&& a is Refuse ==> read::failed(events.last())
                &&& holds_files(v, worlds.last(), contents)
            },
            None => false,
        },
{
    reveal(on_course);
    plan::law_plan_complete(v.files, v.items, v.slab);
    lemma_on_course(v, events, worlds, contents);
    let (u, a) = readv_run(v, events)->0;
    lemma_phase(v, u.phase, worlds.last(), contents, v.items.len() as int);
    if a is Reply {
        let w = worlds.last();
        assert forall|j: int| 0 <= j < v.plan().pages.len() implies w.cache.contains_key(
            page_key(v.ns, #[trigger] v.plan().pages[j]),
        ) by {
            assert(cached(w.cache, v.ns, u.plan().pages[j]));
        }
    }
}

/// The key of a page of the plan.
pub open spec fn page_key(ns: Seq<char>, page: (FileEntry, u32)) -> CacheKeyView {
    key_of(ns, page.0.path@, page.0.hash@, page.1)
}

/// All pages of the plan are in the cache.
pub open spec fn plan_cached(v: ReadvView, w: World) -> bool {
    forall|j: int|
        0 <= j < v.plan().pages.len() ==> w.cache.contains_key(
            page_key(v.ns, #[trigger] v.plan().pages[j]),
        )
}

/// A vectored read whose pages are all in the cache, as they are after the same read was
/// answered, asks nothing of the store: it only looks pages up and then replies.
pub proof fn law_readv_cached(
    v: ReadvView,
    events: Seq<EventView>,
    worlds: Seq<World>,
    contents: Map<Seq<char>, Seq<u8>>,
)
    requires
        v.phase is Start,
        forall|i: int|
            0 <= i < v.items.len() ==> plan::readable(v.files, #[trigger] v.items[i], v.slab),
        answered(v, events, worlds),
        holds_files(v, worlds[0], contents),
        plan_cached(v, worlds[0]),
    ensures
        match readv_run(v, events) {
            Some((_, a)) => {
                &&& a is Lookup || a == ActionView::Reply(
                    gathered(v, contents, v.items.len() as int),
                )
                &&& worlds.last() == worlds[0]
            },
            None => false,
        },
{
    plan::law_plan_complete(v.files, v.items, v.slab);
    lemma_cached_run(v, events, worlds, contents);
    law_readv_reply(v, events, worlds, contents);
    reveal(on_course);
}

#[verifier::spinoff_prover]
proof fn lemma_cached_run(
    v: ReadvView,
    events: Seq<EventView>,
    worlds: Seq<World>,
    contents: Map<Seq<char>, Seq<u8>>,
)
    requires
        v.phase is Start,
        v.plan().end is Complete,
        answered(v, events, worlds),
        holds_files(v, worlds[0], contents),
        plan_cached(v, worlds[0]),
    ensures
        match readv_run(v, events) {
            Some((u, a)) => {
                &&& on_course(u, a, worlds[0], contents)
                &&& v.at(u.phase) == u
                &&& worlds.last() == worlds[0]
                &&& !(u.phase is Fill) || u.phase->fill is Probe
            },
            None => false,
        },
    decreases events.len(),
{
    lemma_on_course(v, events, worlds, contents);
    if events.len() == 1 {
        lemma_ensure_from(v, 0, worlds[0], contents);
        lemma_ensured(v, 0);
    } else {
        let before = events.drop_last();
        let n = events.len() - 1;
        assert(events.take(n as int) =~= before);
        lemma_answered_prefix(v, events, worlds);
        lemma_cached_run(v, before, worlds.drop_last(), contents);
        assert(events[n as int] == events.last());
        assert(answered_at(v, events, worlds, n as int));
        let (u, a) = readv_run(v, before)->0;
        assert(worlds.drop_last().last() == worlds[n - 1]);
        assert(read::answers(worlds[n - 1], a, events.last(), worlds[n as int]));
        lemma_cached_step(v, u, a, worlds[0], events.last(), worlds[n as int], contents);
    }
}

#[verifier::spinoff_prover]
proof fn lemma_cached_step(
    v: ReadvView,
    u: ReadvView,
    a: ActionView,
    w: World,
    e: EventView,
    w2: World,
    contents: Map<Seq<char>, Seq<u8>>,
)
    requires
        v.at(u.phase) == u,
        plan_cached(v, w),
        on_course(u, a, w, contents),
        !(u.phase is Fill) || u.phase->fill is Probe,
        read::answers(w, a, e, w2),
    ensures
        match readv_next(u, e) {
            Some((u2, a2)) => {
                &&& on_course(u2, a2, w2, contents)
                &&& w2 == w
                &&& !(u2.phase is Fill) || u2.phase->fill is Probe
            },
            None => false,
        },
{
    lemma_any_step(v, u, a, w, e, w2, contents);
    reveal(on_course);
    if let PhaseView::Fill { next, .. } = u.phase {
        assert(w.cache.contains_key(page_key(v.ns, v.plan().pages[next])));
        lemma_ensured(u, next + 1);
    } else if let PhaseView::Copy { item, .. } = u.phase {
        assert forall|k: int, out: Seq<u8>| !((#[trigger] copy_from(u, k, out)).0.phase is Fill) by {
            lemma_copy_phase(u, k, out);
        }
    }
}

/// Going on to a page of the plan begins with a lookup.
proof fn lemma_ensured(v: ReadvView, next: int)
    ensures
        match ensure_from(v, next) {
            Some((u, _)) => !(u.phase is Fill) || u.phase->fill is Probe,
            None => true,
        },
{
    lemma_copy_phase(v, 0, Seq::empty());
}

proof fn lemma_copy_phase(v: ReadvView, item: int, out: Seq<u8>)
    ensures
        copy_from(v, item, out).0.phase is Copy || copy_from(v, item, out).0.phase is Done,
    decreases v.items.len() - item,
{
    if item < v.items.len() && !(v.items[item].off < v.end(item)) {
        lemma_copy_phase(v, item + 1, out);
    }
}

/// What was answered truly was answered truly before the last event, too.
proof fn lemma_answered_prefix(v: ReadvView, events: Seq<EventView>, worlds: Seq<World>)
    requires
        answered(v, events, worlds),
        events.len() > 1,
    ensures
        answered(v, events.drop_last(), worlds.drop_last()),
{
    let before = events.drop_last();
    let earlier = worlds.drop_last();
    assert(before[0] == events[0]);
    assert forall|i: int| 0 < i < before.len() implies #[trigger] answered_at(
        v,
        before,
        earlier,
        i,
    ) by {
        assert(answered_at(v, events, worlds, i));
        assert(before.take(i) =~= events.take(i));
        assert(events[i] == before[i]);
    }
}

/// Which page of the plan a read is at, and how far it is with it; more than any, once the
/// pages are brought in.
spec fn rank(v: ReadvView) -> int {
    let n = v.plan().pages.len();
    match v.phase {
        PhaseView::Start => -1,
        PhaseView::Fill { next, fill } => 4 * next + match fill {
            FillView::Probe => 0int,
            FillView::Opening => 1,
            FillView::Filling(_) => 2,
            FillView::Storing => 3,
        },
        PhaseView::Copy { .. } | PhaseView::Done => 4 * n as int,
    }
}

proof fn lemma_rank_step(v: ReadvView, e: EventView)
    requires
        v.wf(),
    ensures
        match readv_next(v, e) {
            Some((u, a)) => {
                &&& u.wf()
                &&& v.at(u.phase) == u
                &&& rank(u) >= rank(v)
                &&& v.phase is Fill && v.phase->fill is Opening ==> rank(u) > rank(v)
                &&& a is Open ==> u.phase is Fill && u.phase->fill is Opening
            },
            None => true,
        },
{
    lemma_same_read(v, e);
    assert forall|k: int, out: Seq<u8>|
        v.plan().end is Complete && 0 <= k <= v.items.len() implies (#[trigger] copy_from(
        v,
        k,
        out,
    )).0.wf() && !(copy_from(v, k, out).1 is Open) && !(copy_from(v, k, out).0.phase is Fill)
        && !(copy_from(v, k, out).0.phase is Start) by {
        lemma_copy_wf(v, k, out);
        lemma_copy_asks(v, k, out);
        lemma_copy_phase(v, k, out);
    }
}

proof fn lemma_copy_wf(v: ReadvView, item: int, out: Seq<u8>)
    requires
        v.plan().end is Complete,
        0 <= item <= v.items.len(),
    ensures
        copy_from(v, item, out).0.wf(),
    decreases v.items.len() - item,
{
    if item < v.items.len() && !(v.items[item].off < v.end(item)) {
        lemma_copy_wf(v, item + 1, out);
    }
}

proof fn lemma_wf_run(v: ReadvView, events: Seq<EventView>)
    requires
        v.wf(),
        readv_run(v, events) is Some,
    ensures
        match readv_run(v, events) {
            Some((u, a)) => {
                &&& u.wf()
                &&& v.at(u.phase) == u
                &&& a is Open ==> u.phase is Fill && u.phase->fill is Opening
            },
            None => false,
        },
    decreases events.len(),
{
    if events.len() == 1 {
        lemma_rank_step(v, events[0]);
    } else {
        lemma_wf_run(v, events.drop_last());
        let (m, _) = readv_run(v, events.drop_last())->0;
        lemma_rank_step(m, events.last());
    }
}

proof fn lemma_rank_run(v: ReadvView, events: Seq<EventView>, i: int)
    requires
        v.wf(),
        0 < i < events.len(),
        readv_run(v, events) is Some,
    ensures
        match (readv_run(v, events.take(i)), readv_run(v, events)) {
            (Some((u, a)), Some((w, _))) => {
                &&& rank(w) >= rank(u)
                &&& a is Open ==> rank(w) > rank(u)
            },
            _ => false,
        },
    decreases events.len(),
{
    let before = events.drop_last();
    lemma_wf_run(v, before);
    let (m, _) = readv_run(v, before)->0;
    lemma_rank_step(m, events.last());
    if i < before.len() {
        assert(before.take(i) =~= events.take(i));
        lemma_rank_run(v, before, i);
    } else {
        assert(events.take(i) =~= before);
    }
}

/// A vectored read requests no page twice: of two requests, the later is for a later page
/// of the plan, and no page is twice in a plan.
pub proof fn law_readv_fetches_once(v: ReadvView, events: Seq<EventView>, i: int)
    requires
        v.wf(),
        0 < i < events.len(),
        readv_run(v, events) is Some,
    ensures
        match (readv_run(v, events.take(i)), readv_run(v, events)) {
            (
                Some((u, ActionView::Open { .. })),
                Some((w, ActionView::Open { .. })),
            ) => match (u.phase, w.phase) {
                (PhaseView::Fill { next: p, .. }, PhaseView::Fill { next: q, .. }) => {
                    &&& 0 <= p < q < v.plan().pages.len()
                    &&& v.plan().pages[p] != v.plan().pages[q]
                },
                _ => false,
            },
            _ => true,
        },
{
    lemma_rank_run(v, events, i);
    lemma_wf_run(v, events);
    lemma_prefix_runs(v, events, i);
    lemma_wf_run(v, events.take(i));
    plan::law_plan(v.files, v.items, v.slab);
}

proof fn lemma_prefix_runs(v: ReadvView, events: Seq<EventView>, i: int)
    requires
        0 < i <= events.len(),
        readv_run(v, events) is Some,
    ensures
        readv_run(v, events.take(i)) is Some,
    decreases events.len() - i,
{
    if i < events.len() {
        lemma_prefix_runs(v, events, i + 1);
        assert(events.take(i + 1).drop_last() =~= events.take(i));
    } else {
        assert(events.take(i) =~= events);
    }
}

/// A read that is on its course, or refused, and that is given a true answer.
#[verifier::spinoff_prover]
proof fn lemma_any_step(
    v: ReadvView,
    u: ReadvView,
    a: ActionView,
    w: World,
    e: EventView,
    w2: World,
    contents: Map<Seq<char>, Seq<u8>>,
)
    requires
        u == v.at(u.phase),
        on_course(u, a, w, contents) || a is Refuse,
        read::answers(w, a, e, w2),
    ensures
        match readv_next(u, e) {
            Some((u2, a2)) => {
                &&& v.at(u2.phase) == u2
                &&& {
                    ||| on_course(u2, a2, w2, contents)
                    ||| {
                        &&& a2 is Refuse
                        &&& read::failed(e)
                        &&& holds_files(v, w2, contents)
                        &&& u2.phase is Done
                    }
                }
            },
            None => false,
        },
{
    reveal(on_course);
    lemma_same_read(u, e);
    lemma_phase(v, u.phase, w2, contents, 0);
    if u.phase is Fill {
        lemma_fill_step(u, a, w, e, w2, contents);
    } else if u.phase is Copy {
        lemma_copy_step(u, a, w, e, w2, contents);
    }
}

#[verifier::rlimit(40)]
#[verifier::spinoff_prover]
proof fn lemma_on_course(
    v: ReadvView,
    events: Seq<EventView>,
    worlds: Seq<World>,
    contents: Map<Seq<char>, Seq<u8>>,
)
    requires
        v.phase is Start,
        v.plan().end is Complete,
        answered(v, events, worlds),
        holds_files(v, worlds[0], contents),
    ensures
        match readv_run(v, events) {
            Some((u, a)) => {
                &&& v.at(u.phase) == u
                &&& {
                    ||| on_course(u, a, worlds.last(), contents)
                    ||| {
                        &&& a is Refuse
                        &&& read::failed(events.last())
                        &&& holds_files(v, worlds.last(), contents)
                        &&& u.phase is Done
                    }
                }
            },
            None => false,
        },
    decreases events.len(),
{
    if events.len() == 1 {
        lemma_ensure_from(v, 0, worlds[0], contents);
        lemma_same_read(v, events[0]);
    } else {
        let before = events.drop_last();
        let n = events.len() - 1;
        assert(events.take(n as int) =~= before);
        lemma_answered_prefix(v, events, worlds);
        lemma_on_course(v, before, worlds.drop_last(), contents);
        assert(events[n as int] == events.last());
        assert(answered_at(v, events, worlds, n as int));
        let (u, a) = readv_run(v, before)->0;
        assert(read::answers(worlds[n - 1], a, events.last(), worlds[n as int]));
        lemma_any_step(v, u, a, worlds[n - 1], events.last(), worlds[n as int], contents);
    }
}

/// A step changes only how far a read is; a request that is refused is over.
proof fn lemma_same_read(v: ReadvView, e: EventView)
    ensures
        match readv_next(v, e) {
            Some((u, a)) => v.at(u.phase) == u && (a is Refuse ==> u.phase is Done),
            None => true,
        },
{
    assert forall|item: int, out: Seq<u8>|
        v.at((#[trigger] copy_from(v, item, out)).0.phase) == copy_from(v, item, out).0 && !(
        copy_from(v, item, out).1 is Refuse) by {
        lemma_same_copy(v, item, out);
    }
}

proof fn lemma_same_copy(v: ReadvView, item: int, out: Seq<u8>)
    ensures
        v.at(copy_from(v, item, out).0.phase) == copy_from(v, item, out).0,
        !(copy_from(v, item, out).1 is Refuse),
    decreases v.items.len() - item,
{
    if item < v.items.len() && !(v.items[item].off < v.end(item)) {
        lemma_same_copy(v, item + 1, out);
    }
}

/// A page that is put into the cache has the checksum that the page table of its file
/// gives for it, whatever the store sent.
pub proof fn law_readv_stores_checked(v: ReadvView, e: EventView)
    requires
        v.wf(),
    ensures
        match readv_next(v, e) {
            Some((_, ActionView::Store { key, page })) => match file_of(v.files, key.path) {
                Some(entry) => {
                    &&& key == key_of(v.ns, key.path, entry.hash@, key.page_id)
                    &&& match crc_of(entry.page_table@, key.page_id) {
                        Some(c) => crate::digest::crc32c_of(page) == c,
                        None => true,
                    }
                },
                None => false,
            },
            _ => true,
        },
{
    if let PhaseView::Fill { next, .. } = v.phase {
        lemma_planned_page(v, next);
    }
    assert forall|item: int, out: Seq<u8>| !((#[trigger] copy_from(v, item, out)).1 is Store) by {
        lemma_copy_asks(v, item, out);
    }
}

proof fn lemma_copy_asks(v: ReadvView, item: int, out: Seq<u8>)
    ensures
        copy_from(v, item, out).1 is Lookup || copy_from(v, item, out).1 is Reply,
    decreases v.items.len() - item,
{
    if item < v.items.len() && !(v.items[item].off < v.end(item)) {
        lemma_copy_asks(v, item + 1, out);
    }
}

/// Bytes are requested from the store only for a page of the plan that the cache was
/// asked for and does not have.
pub proof fn law_readv_fetches_missing(v: ReadvView, e: EventView)
    requires
        v.wf(),
    ensures
        match readv_next(v, e) {
            Some((_, ActionView::Open { key, start, end })) => {
                &&& e is Absent
                &&& v.phase matches PhaseView::Fill { next, fill: FillView::Probe }
                &&& ActionView::Open { key, start, end } == open_page(
                    v.plan().pages[next].0,
                    v.slab,
                    v.plan().pages[next].1,
                )
            },
            _ => true,
        },
{
    assert forall|item: int, out: Seq<u8>| !((#[trigger] copy_from(v, item, out)).1 is Open) by {
        lemma_copy_asks(v, item, out);
    }
}

/// The key is that of a page of the plan.
pub open spec fn planned(v: ReadvView, key: CacheKeyView) -> bool {
    exists|j: int|
        0 <= j < v.plan().pages.len() && page_key(v.ns, #[trigger] v.plan().pages[j]) == key
}

/// A vectored read puts only pages of its plan into the cache.
proof fn lemma_stores_planned(v: ReadvView, e: EventView)
    requires
        v.wf(),
    ensures
        match readv_next(v, e) {
            Some((_, ActionView::Store { key, .. })) => planned(v, key),
            _ => true,
        },
{
    assert forall|item: int, out: Seq<u8>| !((#[trigger] copy_from(v, item, out)).1 is Store) by {
        lemma_copy_asks(v, item, out);
    }
    if let PhaseView::Fill { next, .. } = v.phase {
        if let Some((_, ActionView::Store { key, .. })) = readv_next(v, e) {
            assert(page_key(v.ns, v.plan().pages[next]) == key);
        }
    }
}

/// Over a whole vectored read, however far it came and whatever the store gave, the pages
/// that are not in its plan stay as they were: those of other files and namespaces, and
/// those of the same files under other hashes.
pub proof fn law_readv_leaves_others(
    v: ReadvView,
    events: Seq<EventView>,
    worlds: Seq<World>,
    key: CacheKeyView,
)
    requires
        v.phase is Start,
        answered(v, events, worlds),
        !planned(v, key),
    ensures
        worlds.last().cache.contains_key(key) == worlds[0].cache.contains_key(key),
        worlds.last().cache[key] == worlds[0].cache[key],
        worlds.last().objects == worlds[0].objects,
    decreases events.len(),
{
    if events.len() > 1 {
        let n = events.len() - 1;
        let before = events.drop_last();
        lemma_answered_prefix(v, events, worlds);
        law_readv_leaves_others(v, before, worlds.drop_last(), key);
        assert(events.take(n as int) =~= before);
        assert(answered_at(v, events, worlds, n as int));
        if before.len() == 1 {
            lemma_stores_planned(v, before[0]);
        } else {
            lemma_wf_run(v, before.drop_last());
            let (u, _) = readv_run(v, before.drop_last())->0;
            lemma_stores_planned(u, before.last());
            assert(v.plan() == u.plan());
        }
    }
}

/// The ranges that the first `count` items ask for, one behind the other: of each the bytes
/// from its offset on, as many as it asks for or as there are.
pub open spec fn ranges_of(
    items: Seq<ReadvItemView>,
    contents: Map<Seq<char>, Seq<u8>>,
    count: int,
) -> Seq<u8>
    decreases count,
{
    if count <= 0 {
        Seq::empty()
    } else {
        let it = items[count - 1];
        ranges_of(items, contents, count - 1) + read::bytes_from(
            contents[it.path],
            it.off as int,
            it.len as int,
        )
    }
}

/// The item asks for bytes of the file at `place`, and the store, the manifest and the cache
/// are true to the content of the file.
pub open spec fn true_item(
    v: ReadvView,
    w: World,
    it: ReadvItemView,
    place: int,
    content: Seq<u8>,
) -> bool {
    let entry = v.files[place];
    &&& found_at(v.files, it.path, place)
    &&& entry.size == content.len()
    &&& content.len() <= v.slab * (u32::MAX + 1)
    &&& it.off < content.len()
    &&& it.off > 0 || it.len > 0
    &&& read::true_table(entry.page_table@, content, v.slab)
    &&& w.objects.contains_key(entry.storage.key@)
    &&& w.objects[entry.storage.key@] == content
    &&& read::true_pages(w.cache, v.ns, it.path, entry.hash@, content, v.slab)
}

proof fn lemma_ranges(v: ReadvView, contents: Map<Seq<char>, Seq<u8>>, count: int)
    requires
        0 <= count <= v.items.len(),
        forall|i: int|
            0 <= i < v.items.len() ==> {
                &&& v.entry(i).size == contents[(#[trigger] v.items[i]).path].len()
                &&& v.items[i].off < v.entry(i).size
            },
    ensures
        gathered(v, contents, count) == ranges_of(v.items, contents, count),
    decreases count,
{
    if count > 0 {
        lemma_ranges(v, contents, count - 1);
        let it = v.items[count - 1];
        let content = contents[it.path];
        read::law_read_end(v.entry(count - 1).size, it.off, it.len as u64);
        assert(content.subrange(it.off as int, v.end(count - 1) as int) =~= read::bytes_from(
            content,
            it.off as int,
            it.len as int,
        ));
    }
}

/// A vectored read is answered with the ranges that were asked for, in the order in which
/// they were, of each as many bytes as were asked for or as there are; and it is refused
/// only right after outside work failed.
pub proof fn law_readv_answer(
    v: ReadvView,
    places: Seq<int>,
    events: Seq<EventView>,
    worlds: Seq<World>,
    contents: Map<Seq<char>, Seq<u8>>,
)
    requires
        v.phase is Start,
        v.slab > 0,
        answered(v, events, worlds),
        forall|i: int|
            0 <= i < v.items.len() ==> true_item(
                v,
                worlds[0],
                #[trigger] v.items[i],
                places[i],
                contents[v.items[i].path],
            ),
    ensures
        match readv_run(v, events) {
            Some((_, a)) => {
                &&& a matches ActionView::Reply(b) ==> b == ranges_of(
                    v.items,
                    contents,
                    v.items.len() as int,
                )
                &&& a is Refuse ==> read::failed(events.last())
            },
            None => false,
        },
{
    assert forall|i: int| 0 <= i < v.items.len() implies plan::readable(
        v.files,
        #[trigger] v.items[i],
        v.slab,
    ) && v.entry(i) == v.files[places[i]] && holds_file(
        v,
        worlds[0],
        contents[v.items[i].path],
        i,
    ) by {
        let it = v.items[i];
        assert(true_item(v, worlds[0], it, places[i], contents[it.path]));
        lemma_found(v.files, it.path, places[i]);
        read::lemma_true(
            v.files[places[i]],
            worlds[0].cache,
            v.ns,
            it.path,
            v.files[places[i]].hash@,
            contents[it.path],
            v.slab,
        );
    }
    law_readv_reply(v, events, worlds, contents);
    assert forall|i: int| 0 <= i < v.items.len() implies {
        &&& v.entry(i).size == contents[(#[trigger] v.items[i]).path].len()
        &&& v.items[i].off < v.entry(i).size
    } by {
        assert(true_item(v, worlds[0], v.items[i], places[i], contents[v.items[i].path]));
        assert(plan::readable(v.files, v.items[i], v.slab));
    }
    lemma_ranges(v, contents, v.items.len() as int);
}

/// The page has bytes that some item asks for, and its key has the namespace of the
/// request, and the path and the whole hash of the file's entry.
pub open spec fn asked_by(v: ReadvView, key: CacheKeyView, i: int, place: int) -> bool {
    let it = v.items[i];
    &&& 0 <= i < v.items.len()
    &&& key.path == it.path
    &&& found_at(v.files, it.path, place)
    &&& key.ns == v.ns
    &&& key.file_hash == v.files[place].hash@
    &&& key.page_id * v.slab < v.files[place].size
    &&& it.off < key.page_id * v.slab + v.slab
    &&& key.page_id * v.slab < it.off + it.len
}

/// Every page that a vectored read looks up or puts is one that some item asks for, under
/// the whole hash of its file.
pub proof fn law_readv_keys(v: ReadvView, events: Seq<EventView>)
    requires
        v.phase is Start,
        forall|j: int|
            0 <= j < v.files.len() ==> (#[trigger] v.files[j]).size <= v.slab * (u32::MAX + 1),
    ensures
        match readv_run(v, events) {
            Some((_, a)) => asked_key(a) matches Some(key) ==> exists|i: int, place: int| #[trigger]
                asked_by(v, key, i, place),
            None => true,
        },
{
    lemma_keys_run(v, events);
    if let Some((u, a)) = readv_run(v, events) {
        if let Some(key) = asked_key(a) {
            assert(touched_key(v, key));
            let i = choose|i: int| #[trigger] touched_by(v, key, i);
            let it = v.items[i];
            crate::manifest::lemma_position(v.files, it.path);
            let place = crate::manifest::position(v.files, it.path)->0;
            let size = v.files[place].size;
            let end = read_end(size, it.off, it.len as u64);
            read::law_read_end(size, it.off, it.len as u64);
            read::lemma_page_at(v.slab, (end - 1) as u64);
            read::lemma_page_start_monotone(v.slab, key.page_id, page_at(v.slab, (end - 1) as u64));
            read::law_pages(Seq::empty(), v.slab, it.off, 0);
            read::lemma_page_start_monotone(v.slab, page_at(v.slab, it.off), key.page_id);
            let q = page_at(v.slab, it.off);
            assert((q + 1) * v.slab == q * v.slab + v.slab) by (nonlinear_arith);
            assert(asked_by(v, key, i, place));
        }
    }
}

spec fn touched_by(v: ReadvView, key: CacheKeyView, i: int) -> bool {
    &&& 0 <= i < v.items.len()
    &&& key.path == v.items[i].path
    &&& key.ns == v.ns
    &&& file_of(v.files, key.path) is Some
    &&& key.file_hash == v.entry(i).hash@
    &&& plan::touches(v.entry(i), v.items[i], v.slab, key.page_id)
}

spec fn touched_key(v: ReadvView, key: CacheKeyView) -> bool {
    exists|i: int| #[trigger] touched_by(v, key, i)
}

/// A vectored read is at or behind the beginning of the item that it copies.
spec fn in_item(v: ReadvView) -> bool {
    &&& v.wf()
    &&& v.phase matches PhaseView::Copy { item, cur, .. } ==> v.items[item].off <= cur
}

proof fn lemma_touched_page(v: ReadvView, next: int)
    requires
        0 <= next < v.plan().pages.len(),
    ensures
        touched_key(v, page_key(v.ns, v.plan().pages[next])),
{
    lemma_planned_page(v, next);
    plan::law_plan(v.files, v.items, v.slab);
    let (entry, page_id) = v.plan().pages[next];
    assert(plan::touched(entry, entry.path@, v.items, v.slab, page_id));
    let i = choose|i: int|
        0 <= i < v.items.len() && (#[trigger] v.items[i]).path == entry.path@ && plan::touches(
            entry,
            v.items[i],
            v.slab,
            page_id,
        );
    assert(touched_by(v, page_key(v.ns, v.plan().pages[next]), i));
}

proof fn lemma_touched_copy(v: ReadvView, item: int, cur: u64)
    requires
        v.plan().end is Complete,
        0 <= item < v.items.len(),
        v.items[item].off <= cur < v.end(item),
        v.entry(item).size <= v.slab * (u32::MAX + 1),
    ensures
        touched_key(
            v,
            key_of(v.ns, v.items[item].path, v.entry(item).hash@, page_at(v.slab, cur)),
        ),
{
    lemma_item_file(v, item);
    let key = key_of(v.ns, v.items[item].path, v.entry(item).hash@, page_at(v.slab, cur));
    let (off, last) = (v.items[item].off, (v.end(item) - 1) as u64);
    let slab = v.slab;
    let size = v.entry(item).size;
    assert(last / slab <= u32::MAX) by (nonlinear_arith)
        requires
            last < size <= slab * (u32::MAX + 1),
            slab > 0,
    ;
    vstd::arithmetic::div_mod::lemma_div_is_ordered(off as int, cur as int, slab as int);
    vstd::arithmetic::div_mod::lemma_div_is_ordered(cur as int, last as int, slab as int);
    assert(touched_by(v, key, item));
}

proof fn lemma_copy_key(v: ReadvView, item: int, out: Seq<u8>)
    requires
        v.plan().end is Complete,
        0 <= item <= v.items.len(),
        forall|j: int|
            0 <= j < v.files.len() ==> (#[trigger] v.files[j]).size <= v.slab * (u32::MAX + 1),
    ensures
        ({
            let (u, a) = copy_from(v, item, out);
            &&& in_item(u)
            &&& asked_key(a) matches Some(key) ==> touched_key(v, key)
        }),
    decreases v.items.len() - item,
{
    if item < v.items.len() {
        lemma_item_file(v, item);
        crate::manifest::lemma_position(v.files, v.items[item].path);
        let place = crate::manifest::position(v.files, v.items[item].path)->0;
        assert(v.files[place] == v.entry(item));
        if v.items[item].off < v.end(item) {
            lemma_touched_copy(v, item, v.items[item].off);
        } else {
            lemma_copy_key(v, item + 1, out);
        }
    }
}

#[verifier::spinoff_prover]
proof fn lemma_key_step(v: ReadvView, e: EventView)
    requires
        in_item(v),
        forall|j: int|
            0 <= j < v.files.len() ==> (#[trigger] v.files[j]).size <= v.slab * (u32::MAX + 1),
    ensures
        match readv_next(v, e) {
            Some((u, a)) => {
                &&& in_item(u)
                &&& v.at(u.phase) == u
                &&& asked_key(a) matches Some(key) ==> touched_key(v, key)
            },
            None => true,
        },
{
    lemma_rank_step(v, e);
    assert forall|k: int, out: Seq<u8>|
        v.plan().end is Complete && 0 <= k <= v.items.len() implies in_item(
        (#[trigger] copy_from(v, k, out)).0,
    ) && (asked_key(copy_from(v, k, out).1) matches Some(key) ==> touched_key(v, key)) by {
        lemma_copy_key(v, k, out);
    }
    assert forall|n: int| 0 <= n < v.plan().pages.len() implies touched_key(
        v,
        page_key(v.ns, #[trigger] v.plan().pages[n]),
    ) by {
        lemma_touched_page(v, n);
    }
    match v.phase {
        PhaseView::Copy { item, cur, out } => {
            lemma_item_file(v, item);
            read::lemma_page_at(v.slab, cur);
            if let EventView::Found(page) = e {
                if let Some((b, now)) = taken(
                    page_start(v.slab, page_at(v.slab, cur)),
                    cur,
                    v.end(item),
                    page,
                ) {
                    assert(now >= cur);
                    if now < v.end(item) {
                        crate::manifest::lemma_position(v.files, v.items[item].path);
                        let place = crate::manifest::position(v.files, v.items[item].path)->0;
                        assert(v.files[place] == v.entry(item));
                        lemma_touched_copy(v, item, now);
                    }
                }
            }
        },
        PhaseView::Fill { next, fill } => {
            assert(touched_key(v, page_key(v.ns, v.plan().pages[next])));
            if next + 1 < v.plan().pages.len() {
                assert(touched_key(v, page_key(v.ns, v.plan().pages[next + 1])));
            }
        },
        PhaseView::Start => {
            if v.plan().pages.len() > 0 {
                assert(touched_key(v, page_key(v.ns, v.plan().pages[0])));
            }
        },
        PhaseView::Done => {},
    }
}

proof fn lemma_keys_run(v: ReadvView, events: Seq<EventView>)
    requires
        v.phase is Start,
        forall|j: int|
            0 <= j < v.files.len() ==> (#[trigger] v.files[j]).size <= v.slab * (u32::MAX + 1),
    ensures
        match readv_run(v, events) {
            Some((u, a)) => {
                &&& in_item(u)
                &&& v.at(u.phase) == u
                &&& asked_key(a) matches Some(key) ==> touched_key(v, key)
            },
            None => true,
        },
    decreases events.len(),
{
    if events.len() == 1 {
        lemma_key_step(v, events[0]);
    } else if events.len() > 1 {
        lemma_keys_run(v, events.drop_last());
        if let Some((u, _)) = readv_run(v, events.drop_last()) {
            lemma_key_step(u, events.last());
            if let Some((_, a)) = readv_run(v, events) {
                if let Some(key) = asked_key(a) {
                    let i = choose|i: int| #[trigger] touched_by(u, key, i);
                    assert(touched_by(v, key, i));
                }
            }
        }
    }
}

/// A vectored read is answered only if each of its items can be read.
pub proof fn law_readv_answers_all(v: ReadvView, events: Seq<EventView>, i: int)
    requires
        v.phase is Start,
        0 <= i < v.items.len(),
    ensures
        match readv_run(v, events) {
            Some((_, ActionView::Reply(_))) => exists|place: int| #[trigger]
                found_at(v.files, v.items[i].path, place) && v.items[i].off < v.files[place].size,
            _ => true,
        },
{
    if let Some((_, ActionView::Reply(_))) = readv_run(v, events) {
        lemma_reply_complete(v, events);
        lemma_item_file(v, i);
        crate::manifest::lemma_position(v.files, v.items[i].path);
        let place = crate::manifest::position(v.files, v.items[i].path)->0;
        assert(found_at(v.files, v.items[i].path, place));
    }
}

proof fn lemma_reply_complete(v: ReadvView, events: Seq<EventView>)
    requires
        v.wf(),
    ensures
        match readv_run(v, events) {
            Some((_, ActionView::Reply(_))) => v.plan().end is Complete,
            _ => true,
        },
{
    if readv_run(v, events) is Some && events.len() > 1 {
        lemma_wf_run(v, events.drop_last());
    }
}

/// How far a page is on its way.
pub open spec fn fill_stage(f: FillView) -> int {
    match f {
        FillView::Probe => 0,
        FillView::Opening => 1,
        FillView::Filling(_) => 2,
        FillView::Storing => 3,
    }
}

/// A vectored read is further at `q` than at `p`: at a later page of the plan or further
/// with the same, copying, at a later item or further in the same, or done.
pub open spec fn further(p: PhaseView, q: PhaseView) -> bool {
    match (p, q) {
        (PhaseView::Start, PhaseView::Start) => false,
        (PhaseView::Start, _) => true,
        (PhaseView::Fill { next, fill }, PhaseView::Fill { next: n, fill: f }) => next < n || (next
            == n && fill_stage(fill) < fill_stage(f)),
        (PhaseView::Fill { .. }, PhaseView::Start) => false,
        (PhaseView::Fill { .. }, _) => true,
        (PhaseView::Copy { item, cur, .. }, PhaseView::Copy { item: i, cur: c, .. }) => item < i || (
        item == i && cur < c),
        (PhaseView::Copy { .. }, PhaseView::Done) => true,
        _ => false,
    }
}

/// A vectored read gets on: every answer takes it further, but for a chunk of a page that
/// is being read, as long as the pages of the cache go on where it looks into them. Only a
/// reply or a refusal ends it.
pub proof fn law_readv_gets_on(v: ReadvView, e: EventView)
    requires
        v.wf(),
        match (v.phase, e) {
            (PhaseView::Copy { cur, .. }, EventView::Found(page)) => v.slab > 0 && page_at(v.slab, cur)
                * v.slab + page.len() > cur,
            _ => true,
        },
    ensures
        match readv_next(v, e) {
            Some((u, a)) => {
                &&& further(v.phase, u.phase) || e is Chunk
                &&& a is Reply || a is Refuse <==> u.phase is Done
            },
            None => true,
        },
{
    assert forall|k: int, out: Seq<u8>|
        #![trigger copy_from(v, k, out)]
        copied_to(copy_from(v, k, out), k) by {
        lemma_copied_to(v, k, out);
    }
    if let PhaseView::Copy { item, cur, out } = v.phase {
        lemma_item_file(v, item);
        read::lemma_page_at(v.slab, cur);
    }
}

spec fn copied_to(r: (ReadvView, ActionView), item: int) -> bool {
    match r.0.phase {
        PhaseView::Copy { item: i, .. } => item <= i && r.1 is Lookup,
        PhaseView::Done => r.1 is Reply,
        _ => false,
    }
}

proof fn lemma_copied_to(v: ReadvView, item: int, out: Seq<u8>)
    ensures
        copied_to(copy_from(v, item, out), item),
    decreases v.items.len() - item,
{
    if item < v.items.len() && !(v.items[item].off < v.end(item)) {
        lemma_copied_to(v, item + 1, out);
    }
}

/// A page that was brought in and is not there any more when it is to be copied from makes
/// the read fail as an error of the server. A plan that is refused ends the read with that
/// refusal, once the pages before it are brought in.
pub proof fn law_readv_gives_up(v: ReadvView, e: EventView)
    ensures
        v.phase is Copy ==> {
            &&& readv_next(v, EventView::Absent) matches Some((u, ActionView::Refuse(r)))
            &&& r.status == 500
            &&& r.message == "l2 missing after fetch"@
            &&& u.phase is Done
        },
        v.phase is Start && v.plan().pages.len() == 0 && v.plan().end is Refuse ==> {
            &&& readv_next(v, EventView::Begin) matches Some((_, ActionView::Refuse(r)))
            &&& v.plan().end == PlanEndView::Refuse(r)
        },
        v.phase matches PhaseView::Fill { next, fill } && next + 1 == v.plan().pages.len() && v.plan().end
            is Refuse && ((fill is Probe && e is Found) || (fill is Storing && e is Stored)) ==> {
            &&& readv_next(v, e) matches Some((_, ActionView::Refuse(r)))
            &&& v.plan().end == PlanEndView::Refuse(r)
        },
        v.phase is Done ==> readv_next(v, e) is None,
{
}

} // verus!
