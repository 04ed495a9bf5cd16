//! Which pages a vectored read needs, and in what order they are brought in.
//!
//! The files come in the order of their paths, and of each file the pages in the order
//! of their numbers; no page comes twice.
use crate::manifest::{file_of, find_position, FileEntry, Manifest};
use crate::proto::{ReadvItem, ReadvItemView};
use crate::read;
use crate::read::{page_at, read_end, refusal, Refusal, RefusalView};
use crate::text;
use crate::text::text_lt;
use vstd::prelude::*;

verus! {

/// What the items say.
pub open spec fn item_views(items: Seq<ReadvItem>) -> Seq<ReadvItemView> {
    Seq::new(items.len(), |i: int| items[i]@)
}

/// `p` put into its place among the paths `s`, unless it is one of them.
pub open spec fn insert_path(s: Seq<Seq<char>>, p: Seq<char>) -> Seq<Seq<char>>
    decreases s.len(),
{
    if s.len() == 0 || text_lt(s.last(), p) {
        s.push(p)
    } else if s.last() == p {
        s
    } else {
        insert_path(s.drop_last(), p).push(s.last())
    }
}

/// The paths of the items, in order, each once.
pub open spec fn paths_of(items: Seq<ReadvItemView>) -> Seq<Seq<char>>
    decreases items.len(),
{
    if items.len() == 0 {
        Seq::empty()
    } else {
        insert_path(paths_of(items.drop_last()), items.last().path)
    }
}

/// `p` put into its place among the pages `s`, unless it is one of them.
pub open spec fn insert_page(s: Seq<u32>, p: u32) -> Seq<u32>
    decreases s.len(),
{
    if s.len() == 0 || s.last() < p {
        s.push(p)
    } else if s.last() == p {
        s
    } else {
        insert_page(s.drop_last(), p).push(s.last())
    }
}

/// The pages from `first` to `last` put into their places.
pub open spec fn insert_pages(s: Seq<u32>, first: u32, last: u32) -> Seq<u32>
    decreases last - first,
{
    if first > last {
        s
    } else if first == last {
        insert_page(s, last)
    } else {
        insert_page(insert_pages(s, first, (last - 1) as u32), last)
    }
}

/// What the items want of one file.
pub enum Need {
    /// These pages.
    Pages(Seq<u32>),
    /// A byte behind the end of the file.
    Beyond,
    /// No page that could be told: no byte at all, at the very beginning of the file, or
    /// any byte, of a file that is cut into pages of none.
    Nothing,
}

/// What the items with this path want of the file.
pub open spec fn need_of(
    entry: FileEntry,
    path: Seq<char>,
    items: Seq<ReadvItemView>,
    slab: u64,
) -> Need
    decreases items.len(),
{
    if items.len() == 0 {
        Need::Pages(Seq::empty())
    } else {
        match need_of(entry, path, items.drop_last(), slab) {
            Need::Pages(s) => {
                let it = items.last();
                let end = read_end(entry.size, it.off, it.len as u64);
                if it.path != path {
                    Need::Pages(s)
                } else if it.off >= entry.size {
                    Need::Beyond
                } else if slab == 0 || end == 0 {
                    Need::Nothing
                } else {
                    Need::Pages(
                        insert_pages(s, page_at(slab, it.off), page_at(slab, (end - 1) as u64)),
                    )
                }
            },
            n => n,
        }
    }
}

/// How a plan ends.
pub enum PlanEndView {
    /// With the answer.
    Complete,
    Refuse(RefusalView),
    /// Nowhere: there is a range whose pages cannot be told.
    Stuck,
}

/// The pages to bring in, and what comes then.
pub struct PlanView {
    pub pages: Seq<(FileEntry, u32)>,
    pub end: PlanEndView,
}

/// The pages of one file.
pub open spec fn pages_in(entry: FileEntry, pages: Seq<u32>) -> Seq<(FileEntry, u32)> {
    Seq::new(pages.len(), |i: int| (entry, pages[i]))
}

/// The plan for the files with these paths, one after the other.
pub open spec fn plan_for(
    files: Seq<FileEntry>,
    items: Seq<ReadvItemView>,
    paths: Seq<Seq<char>>,
    slab: u64,
) -> PlanView
    decreases paths.len(),
{
    if paths.len() == 0 {
        PlanView { pages: Seq::empty(), end: PlanEndView::Complete }
    } else {
        let before = plan_for(files, items, paths.drop_last(), slab);
        let path = paths.last();
        if before.end is Complete {
            match file_of(files, path) {
                None => PlanView {
                    end: PlanEndView::Refuse(refusal(404, "file not in manifest: "@ + path)),
                    ..before
                },
                Some(entry) => match need_of(entry, path, items, slab) {
                    Need::Pages(s) => PlanView { pages: before.pages + pages_in(entry, s), ..before },
                    Need::Beyond => PlanView {
                        end: PlanEndView::Refuse(refusal(416, path + ": offset beyond EOF"@)),
                        ..before
                    },
                    Need::Nothing => PlanView { end: PlanEndView::Stuck, ..before },
                },
            }
        } else {
            before
        }
    }
}

/// The plan of a vectored read.
pub open spec fn plan_of(
    files: Seq<FileEntry>,
    items: Seq<ReadvItemView>,
    slab: u64,
) -> PlanView {
    plan_for(files, items, paths_of(items), slab)
}

/// How a plan ends.
#[derive(Debug)]
pub enum PlanEnd {
    Complete,
    Refuse(Refusal),
    Stuck,
}

impl View for PlanEnd {
    type V = PlanEndView;

    open spec fn view(&self) -> PlanEndView {
        match self {
            PlanEnd::Complete => PlanEndView::Complete,
            PlanEnd::Refuse(r) => PlanEndView::Refuse(r@),
            PlanEnd::Stuck => PlanEndView::Stuck,
        }
    }
}

/// The pages to bring in, each with the place of its file in the manifest, and what
/// comes then.
#[derive(Debug)]
pub struct Plan {
    pub pages: Vec<(usize, u32)>,
    pub end: PlanEnd,
}

impl Plan {
    /// The plan, with the files it speaks of.
    pub open spec fn over(&self, files: Seq<FileEntry>) -> PlanView {
        PlanView {
            pages: Seq::new(
                self.pages@.len(),
                |i: int| (files[self.pages@[i].0 as int], self.pages@[i].1),
            ),
            end: self.end@,
        }
    }

    /// Every place is one of the manifest.
    pub open spec fn places(&self, files: Seq<FileEntry>) -> bool {
        forall|i: int| 0 <= i < self.pages@.len() ==> (#[trigger] self.pages@[i]).0 < files.len()
    }
}

/// What the items want of one file.
enum Wanted {
    Pages(Vec<u32>),
    Beyond,
    Nothing,
}

impl View for Wanted {
    type V = Need;

    closed spec fn view(&self) -> Need {
        match self {
            Wanted::Pages(s) => Need::Pages(s@),
            Wanted::Beyond => Need::Beyond,
            Wanted::Nothing => Need::Nothing,
        }
    }
}

pub open spec fn texts(s: Seq<String>) -> Seq<Seq<char>> {
    Seq::new(s.len(), |i: int| s[i]@)
}

fn add_path(s: &mut Vec<String>, p: &str)
    ensures
        texts(final(s)@) == insert_path(texts(old(s)@), p@),
{
    let mut k = s.len();
    let ghost t = texts(s@);
    assert(t.take(k as int) =~= t);
    assert(t.skip(k as int) =~= Seq::<Seq<char>>::empty());
    while k > 0 && !text::before(s[k - 1].as_str(), p)
        invariant
            k <= s@.len(),
            s@ == old(s)@,
            t == texts(s@),
            insert_path(t, p@) =~= insert_path(t.take(k as int), p@) + t.skip(k as int),
        decreases k,
    {
        assert(t.take(k as int).drop_last() =~= t.take(k - 1));
        assert(t.take(k as int).last() == t[k - 1]);
        assert(t.skip(k - 1) =~= seq![t[k - 1]] + t.skip(k as int));
        if text::same(s[k - 1].as_str(), p) {
            assert(t.take(k as int) + t.skip(k as int) =~= t);
            return;
        }
        k = k - 1;
    }
    s.insert(k, p.to_string());
    assert(texts(s@) =~= t.take(k as int).push(p@) + t.skip(k as int));
}

fn sorted_paths(items: &Vec<ReadvItem>) -> (r: Vec<String>)
    ensures
        texts(r@) == paths_of(item_views(items@)),
{
    let mut r: Vec<String> = Vec::new();
    let mut i: usize = 0;
    let ghost v = item_views(items@);
    assert(v.take(0) =~= Seq::<ReadvItemView>::empty());
    assert(texts(r@) =~= Seq::<Seq<char>>::empty());
    while i < items.len()
        invariant
            i <= items@.len(),
            v == item_views(items@),
            texts(r@) == paths_of(v.take(i as int)),
        decreases items@.len() - i,
    {
        assert(v.take(i + 1).drop_last() =~= v.take(i as int));
        add_path(&mut r, items[i].path.as_str());
        i = i + 1;
    }
    assert(v.take(i as int) =~= v);
    r
}

fn add_page(s: &mut Vec<u32>, p: u32)
    ensures
        final(s)@ == insert_page(old(s)@, p),
{
    let mut k = s.len();
    assert(s@.take(k as int) =~= s@);
    assert(s@.skip(k as int) =~= Seq::<u32>::empty());
    while k > 0 && s[k - 1] >= p
        invariant
            k <= s@.len(),
            s@ == old(s)@,
            insert_page(s@, p) =~= insert_page(s@.take(k as int), p) + s@.skip(k as int),
        decreases k,
    {
        assert(s@.take(k as int).drop_last() =~= s@.take(k - 1));
        assert(s@.take(k as int).last() == s@[k - 1]);
        assert(s@.skip(k - 1) =~= seq![s@[k - 1]] + s@.skip(k as int));
        if s[k - 1] == p {
            assert(s@.take(k as int) + s@.skip(k as int) =~= s@);
            return;
        }
        k = k - 1;
    }
    s.insert(k, p);
    assert(s@ =~= old(s)@.take(k as int).push(p) + old(s)@.skip(k as int));
}

fn add_pages(s: &mut Vec<u32>, first: u32, last: u32)
    ensures
        final(s)@ == insert_pages(old(s)@, first, last),
{
    if first > last {
        return;
    }
    let mut p = first;
    add_page(s, p);
    while p < last
        invariant
            first <= p <= last,
            s@ == insert_pages(old(s)@, first, p),
        decreases last - p,
    {
        p = p + 1;
        add_page(s, p);
    }
}

proof fn lemma_need_stays(
    entry: FileEntry,
    path: Seq<char>,
    items: Seq<ReadvItemView>,
    slab: u64,
    k: int,
)
    requires
        0 <= k <= items.len(),
        !(need_of(entry, path, items.take(k), slab) is Pages),
    ensures
        need_of(entry, path, items, slab) == need_of(entry, path, items.take(k), slab),
    decreases items.len() - k,
{
    if k < items.len() {
        assert(items.take(k + 1).drop_last() =~= items.take(k));
        lemma_need_stays(entry, path, items, slab, k + 1);
    } else {
        assert(items.take(k) =~= items);
    }
}

fn wanted(entry: &FileEntry, path: &str, items: &Vec<ReadvItem>, slab: u64) -> (r: Wanted)
    ensures
        r@ == need_of(*entry, path@, item_views(items@), slab),
{
    let mut s: Vec<u32> = Vec::new();
    let mut i: usize = 0;
    let ghost v = item_views(items@);
    assert(v.take(0) =~= Seq::<ReadvItemView>::empty());
    while i < items.len()
        invariant
            i <= items@.len(),
            v == item_views(items@),
            need_of(*entry, path@, v.take(i as int), slab) == Need::Pages(s@),
        decreases items@.len() - i,
    {
        assert(v.take(i + 1).drop_last() =~= v.take(i as int));
        let it = &items[i];
        if text::same(it.path.as_str(), path) {
            let end = read::end_of(entry.size, it.off, it.len as u64);
            if it.off >= entry.size {
                proof {
                    lemma_need_stays(*entry, path@, v, slab, i + 1);
                }
                return Wanted::Beyond;
            }
            if slab == 0 || end == 0 {
                proof {
                    lemma_need_stays(*entry, path@, v, slab, i + 1);
                }
                return Wanted::Nothing;
            }
            add_pages(&mut s, (it.off / slab) as u32, ((end - 1) / slab) as u32);
        }
        i = i + 1;
    }
    assert(v.take(i as int) =~= v);
    Wanted::Pages(s)
}

proof fn lemma_plan_stays(
    files: Seq<FileEntry>,
    items: Seq<ReadvItemView>,
    paths: Seq<Seq<char>>,
    slab: u64,
    k: int,
)
    requires
        0 <= k <= paths.len(),
        !(plan_for(files, items, paths.take(k), slab).end is Complete),
    ensures
        plan_for(files, items, paths, slab) == plan_for(files, items, paths.take(k), slab),
    decreases paths.len() - k,
{
    if k < paths.len() {
        assert(paths.take(k + 1).drop_last() =~= paths.take(k));
        lemma_plan_stays(files, items, paths, slab, k + 1);
    } else {
        assert(paths.take(k) =~= paths);
    }
}

/// Appends the pages of the file at `place`.
fn push_pages(pages: &mut Vec<(usize, u32)>, place: usize, s: &Vec<u32>)
    ensures
        final(pages)@ == old(pages)@ + Seq::new(s@.len(), |i: int| (place, s@[i])),
{
    let mut i: usize = 0;
    while i < s.len()
        invariant
            i <= s@.len(),
            pages@ =~= old(pages)@ + Seq::new(i as nat, |j: int| (place, s@[j])),
        decreases s@.len() - i,
    {
        pages.push((place, s[i]));
        i = i + 1;
    }
}

impl Plan {
    /// The plan of a vectored read of files of the manifest, in pages of `slab` bytes.
    pub fn new(m: &Manifest, items: &Vec<ReadvItem>, slab: u64) -> (r: Plan)
        ensures
            r.over(m.files@) == plan_of(m.files@, item_views(items@), slab),
            r.places(m.files@),
    {
        let paths = sorted_paths(items);
        let ghost v = item_views(items@);
        let ghost t = texts(paths@);
        let mut plan = Plan { pages: Vec::new(), end: PlanEnd::Complete };
        let mut k: usize = 0;
        assert(t.take(0) =~= Seq::<Seq<char>>::empty());
        assert(plan.over(m.files@).pages =~= Seq::<(FileEntry, u32)>::empty());
        while k < paths.len()
            invariant
                k <= paths@.len(),
                v == item_views(items@),
                t == texts(paths@),
                t == paths_of(v),
                plan.end is Complete,
                plan.places(m.files@),
                plan.over(m.files@) == plan_for(m.files@, v, t.take(k as int), slab),
            decreases paths@.len() - k,
        {
            let ghost before = plan.over(m.files@);
            assert(t.take(k + 1).drop_last() =~= t.take(k as int));
            assert(t.take(k + 1).last() == paths@[k as int]@);
            let path = paths[k].as_str();
            match find_position(m, path) {
                None => {
                    plan.end = PlanEnd::Refuse(read::refuse_for(404, "file not in manifest: ", path));
                    proof {
                        assert(plan.over(m.files@).pages =~= before.pages);
                        lemma_plan_stays(m.files@, v, t, slab, k + 1);
                    }
                    return plan;
                },
                Some(place) => match wanted(&m.files[place], path, items, slab) {
                    Wanted::Beyond => {
                        plan.end = PlanEnd::Refuse(
                            read::refuse_for(416, path, ": offset beyond EOF"),
                        );
                        proof {
                            assert(plan.over(m.files@).pages =~= before.pages);
                            lemma_plan_stays(m.files@, v, t, slab, k + 1);
                        }
                        return plan;
                    },
                    Wanted::Nothing => {
                        plan.end = PlanEnd::Stuck;
                        proof {
                            assert(plan.over(m.files@).pages =~= before.pages);
                            lemma_plan_stays(m.files@, v, t, slab, k + 1);
                        }
                        return plan;
                    },
                    Wanted::Pages(s) => {
                        push_pages(&mut plan.pages, place, &s);
                        assert(plan.over(m.files@).pages =~= before.pages + pages_in(
                            m.files@[place as int],
                            s@,
                        ));
                    },
                },
            }
            k = k + 1;
        }
        assert(t.take(k as int) =~= t);
        plan
    }
}

/// No page comes twice, and the lower number comes first.
pub open spec fn ascending(s: Seq<u32>) -> bool {
    forall|i: int, j: int| 0 <= i < j < s.len() ==> #[trigger] s[i] < #[trigger] s[j]
}

/// No path comes twice, and the paths are in order.
pub open spec fn paths_ascend(s: Seq<Seq<char>>) -> bool {
    forall|i: int, j: int|
        0 <= i < j < s.len() ==> text_lt(#[trigger] s[i], #[trigger] s[j])
}

/// The item reads from this page of its file.
pub open spec fn touches(entry: FileEntry, it: ReadvItemView, slab: u64, page_id: u32) -> bool {
    let end = read_end(entry.size, it.off, it.len as u64);
    &&& slab > 0
    &&& it.off < entry.size
    &&& end > 0
    &&& page_at(slab, it.off) <= page_id <= page_at(slab, (end - 1) as u64)
}

/// Some of the items with this path reads from this page of the file.
pub open spec fn touched(
    entry: FileEntry,
    path: Seq<char>,
    items: Seq<ReadvItemView>,
    slab: u64,
    page_id: u32,
) -> bool {
    exists|i: int|
        0 <= i < items.len() && (#[trigger] items[i]).path == path && touches(
            entry,
            items[i],
            slab,
            page_id,
        )
}

proof fn lemma_insert_page(s: Seq<u32>, p: u32)
    requires
        ascending(s),
    ensures
        ascending(insert_page(s, p)),
        forall|x: u32| #[trigger]
            insert_page(s, p).contains(x) <==> s.contains(x) || x == p,
    decreases s.len(),
{
    let t = insert_page(s, p);
    if s.len() == 0 || s.last() < p {
        assert forall|x: u32| #[trigger] t.contains(x) <==> s.contains(x) || x == p by {
            assert(t[s.len() as int] == p);
            if s.contains(x) {
                let k = choose|k: int| 0 <= k < s.len() && s[k] == x;
                assert(t[k] == x);
            }
        }
    } else if s.last() == p {
        assert(s[s.len() - 1] == p);
    } else {
        let d = s.drop_last();
        lemma_insert_page(d, p);
        let u = insert_page(d, p);
        assert forall|i: int, j: int| 0 <= i < j < t.len() implies #[trigger] t[i] < #[trigger] t[j] by {
            if j == t.len() - 1 {
                assert(u.contains(u[i]));
                if d.contains(u[i]) {
                    let k = choose|k: int| 0 <= k < d.len() && d[k] == u[i];
                    assert(s[k] < s[s.len() - 1]);
                }
            } else {
                assert(u[i] < u[j]);
            }
        }
        assert forall|x: u32| #[trigger] t.contains(x) <==> s.contains(x) || x == p by {
            assert(t[t.len() - 1] == s.last());
            assert(s[s.len() - 1] == s.last());
            if t.contains(x) {
                let k = choose|k: int| 0 <= k < t.len() && t[k] == x;
                if k < u.len() {
                    assert(u[k] == x);
                    assert(u.contains(x));
                    if d.contains(x) {
                        let l = choose|l: int| 0 <= l < d.len() && d[l] == x;
                        assert(s[l] == x);
                    }
                }
            }
            if s.contains(x) || x == p {
                if s.contains(x) && x != s.last() {
                    let k = choose|k: int| 0 <= k < s.len() && s[k] == x;
                    assert(d[k] == x);
                }
                if x != s.last() {
                    assert(u.contains(x));
                    let l = choose|l: int| 0 <= l < u.len() && u[l] == x;
                    assert(t[l] == x);
                }
            }
        }
    }
}

proof fn lemma_insert_pages(s: Seq<u32>, first: u32, last: u32)
    requires
        ascending(s),
    ensures
        ascending(insert_pages(s, first, last)),
        forall|x: u32| #[trigger]
            insert_pages(s, first, last).contains(x) <==> s.contains(x) || first <= x <= last,
    decreases last - first,
{
    if first == last {
        lemma_insert_page(s, last);
    } else if first < last {
        let t = insert_pages(s, first, (last - 1) as u32);
        lemma_insert_pages(s, first, (last - 1) as u32);
        lemma_insert_page(t, last);
        assert forall|x: u32| #[trigger]
            insert_pages(s, first, last).contains(x) <==> s.contains(x) || first <= x <= last by {
            assert(insert_page(t, last).contains(x) <==> t.contains(x) || x == last);
        }
    }
}

proof fn lemma_insert_path(s: Seq<Seq<char>>, p: Seq<char>)
    requires
        paths_ascend(s),
    ensures
        paths_ascend(insert_path(s, p)),
        forall|x: Seq<char>| #[trigger]
            insert_path(s, p).contains(x) <==> s.contains(x) || x == p,
    decreases s.len(),
{
    let t = insert_path(s, p);
    if s.len() == 0 || text_lt(s.last(), p) {
        assert forall|i: int, j: int| 0 <= i < j < t.len() implies text_lt(
            #[trigger] t[i],
            #[trigger] t[j],
        ) by {
            if j == t.len() - 1 && i < s.len() - 1 {
                assert(text_lt(s[i], s[s.len() - 1]));
                text::lemma_text_lt_trans(s[i], s.last(), p);
            } else if j < s.len() {
                assert(text_lt(s[i], s[j]));
            }
        }
        assert forall|x: Seq<char>| #[trigger] t.contains(x) <==> s.contains(x) || x == p by {
            assert(t[s.len() as int] == p);
            if s.contains(x) {
                let k = choose|k: int| 0 <= k < s.len() && s[k] == x;
                assert(t[k] == x);
            }
        }
    } else if s.last() == p {
        assert(s[s.len() - 1] == p);
    } else {
        let d = s.drop_last();
        assert forall|i: int, j: int| 0 <= i < j < d.len() implies text_lt(
            #[trigger] d[i],
            #[trigger] d[j],
        ) by {
            assert(text_lt(s[i], s[j]));
        }
        lemma_insert_path(d, p);
        let u = insert_path(d, p);
        text::lemma_text_lt_total(s.last(), p);
        assert forall|i: int, j: int| 0 <= i < j < t.len() implies text_lt(
            #[trigger] t[i],
            #[trigger] t[j],
        ) by {
            if j == t.len() - 1 {
                assert(u.contains(u[i]));
                if d.contains(u[i]) {
                    let k = choose|k: int| 0 <= k < d.len() && d[k] == u[i];
                    assert(text_lt(s[k], s[s.len() - 1]));
                }
            } else {
                assert(text_lt(u[i], u[j]));
            }
        }
        assert forall|x: Seq<char>| #[trigger] t.contains(x) <==> s.contains(x) || x == p by {
            assert(t[t.len() - 1] == s.last());
            assert(s[s.len() - 1] == s.last());
            if t.contains(x) {
                let k = choose|k: int| 0 <= k < t.len() && t[k] == x;
                if k < u.len() {
                    assert(u[k] == x);
                    assert(u.contains(x));
                    if d.contains(x) {
                        let l = choose|l: int| 0 <= l < d.len() && d[l] == x;
                        assert(s[l] == x);
                    }
                }
            }
            if s.contains(x) || x == p {
                if s.contains(x) && x != s.last() {
                    let k = choose|k: int| 0 <= k < s.len() && s[k] == x;
                    assert(d[k] == x);
                }
                if x != s.last() {
                    assert(u.contains(x));
                    let l = choose|l: int| 0 <= l < u.len() && u[l] == x;
                    assert(t[l] == x);
                }
            }
        }
    }
}

/// The paths of the items come in order, each once, and no other comes.
pub proof fn law_paths(items: Seq<ReadvItemView>)
    ensures
        paths_ascend(paths_of(items)),
        forall|x: Seq<char>| #[trigger]
            paths_of(items).contains(x) <==> exists|i: int|
                0 <= i < items.len() && (#[trigger] items[i]).path == x,
    decreases items.len(),
{
    if items.len() > 0 {
        let d = items.drop_last();
        law_paths(d);
        lemma_insert_path(paths_of(d), items.last().path);
        assert forall|x: Seq<char>| #[trigger]
            paths_of(items).contains(x) <==> exists|i: int|
                0 <= i < items.len() && (#[trigger] items[i]).path == x by {
            assert(insert_path(paths_of(d), items.last().path).contains(x) <==> paths_of(
                d,
            ).contains(x) || x == items.last().path);
            if paths_of(d).contains(x) {
                let i = choose|i: int| 0 <= i < d.len() && (#[trigger] d[i]).path == x;
                assert(items[i].path == x);
            }
            if x == items.last().path {
                assert(items[items.len() - 1].path == x);
            }
            if exists|i: int| 0 <= i < items.len() && (#[trigger] items[i]).path == x {
                let i = choose|i: int| 0 <= i < items.len() && (#[trigger] items[i]).path == x;
                if i < d.len() {
                    assert(d[i].path == x);
                }
            }
        }
    }
}

proof fn lemma_need(entry: FileEntry, path: Seq<char>, items: Seq<ReadvItemView>, slab: u64)
    ensures
        match need_of(entry, path, items, slab) {
            Need::Pages(s) => {
                &&& ascending(s)
                &&& forall|p: u32| #[trigger]
                    s.contains(p) <==> touched(entry, path, items, slab, p)
                &&& forall|i: int|
                    0 <= i < items.len() && (#[trigger] items[i]).path == path ==> items[i].off
                        < entry.size && slab > 0
            },
            _ => true,
        },
    decreases items.len(),
{
    if items.len() > 0 {
        let d = items.drop_last();
        let it = items.last();
        lemma_need(entry, path, d, slab);
        assert forall|p: u32|
            #![trigger touched(entry, path, items, slab, p)]
            touched(entry, path, items, slab, p) <==> touched(entry, path, d, slab, p) || (it.path
                == path && touches(entry, it, slab, p)) by {
            if touched(entry, path, items, slab, p) {
                let i = choose|i: int|
                    0 <= i < items.len() && (#[trigger] items[i]).path == path && touches(
                        entry,
                        items[i],
                        slab,
                        p,
                    );
                if i < d.len() {
                    assert(d[i].path == path);
                }
            }
            if touched(entry, path, d, slab, p) {
                let i = choose|i: int|
                    0 <= i < d.len() && (#[trigger] d[i]).path == path && touches(
                        entry,
                        d[i],
                        slab,
                        p,
                    );
                assert(items[i].path == path);
            }
            assert(items[items.len() - 1] == it);
        }
        if let Need::Pages(s) = need_of(entry, path, d, slab) {
            let end = read_end(entry.size, it.off, it.len as u64);
            if it.path == path && it.off < entry.size && end > 0 && slab > 0 {
                lemma_insert_pages(s, page_at(slab, it.off), page_at(slab, (end - 1) as u64));
            }
            assert forall|i: int|
                it.off < entry.size && slab > 0 && 0 <= i < items.len() && (
                #[trigger] items[i]).path == path implies items[i].off < entry.size && slab > 0 by {
                if i < d.len() {
                    assert(d[i].path == path);
                }
            }
            assert forall|i: int|
                it.path != path && 0 <= i < items.len() && (#[trigger] items[i]).path
                    == path implies items[i].off < entry.size && slab > 0 by {
                assert(d[i].path == path);
            }
        }
    }
}

/// The pages of a plan are those of the files with these paths that some item reads
/// from, in the order of the paths and then of their numbers.
pub open spec fn planned(
    files: Seq<FileEntry>,
    items: Seq<ReadvItemView>,
    paths: Seq<Seq<char>>,
    slab: u64,
    plan: PlanView,
) -> bool {
    &&& forall|i: int|
        0 <= i < plan.pages.len() ==> {
            let (entry, page_id) = #[trigger] plan.pages[i];
            &&& paths.contains(entry.path@)
            &&& file_of(files, entry.path@) == Some(entry)
            &&& touched(entry, entry.path@, items, slab, page_id)
        }
    &&& forall|i: int, j: int|
        0 <= i < j < plan.pages.len() ==> {
            let (a, p) = #[trigger] plan.pages[i];
            let (b, q) = #[trigger] plan.pages[j];
            text_lt(a.path@, b.path@) || (a.path@ == b.path@ && p < q)
        }
}

/// The item begins inside a file of the manifest, and every page that it reads from is
/// in the plan.
pub open spec fn item_covered(
    files: Seq<FileEntry>,
    it: ReadvItemView,
    slab: u64,
    plan: PlanView,
) -> bool {
    match file_of(files, it.path) {
        Some(entry) => {
            &&& slab > 0
            &&& it.off < entry.size
            &&& forall|page_id: u32| #[trigger]
                touches(entry, it, slab, page_id) ==> plan.pages.contains((entry, page_id))
        },
        None => false,
    }
}

#[verifier::rlimit(40)]
#[verifier::spinoff_prover]
proof fn lemma_plan_for(
    files: Seq<FileEntry>,
    items: Seq<ReadvItemView>,
    paths: Seq<Seq<char>>,
    slab: u64,
)
    requires
        paths_ascend(paths),
    ensures
        planned(files, items, paths, slab, plan_for(files, items, paths, slab)),
        plan_for(files, items, paths, slab).end is Complete ==> forall|i: int|
            0 <= i < items.len() && paths.contains(items[i].path) ==> item_covered(
                files,
                #[trigger] items[i],
                slab,
                plan_for(files, items, paths, slab),
            ),
    decreases paths.len(),
{
    if paths.len() > 0 {
        let d = paths.drop_last();
        let path = paths.last();
        let before = plan_for(files, items, d, slab);
        let plan = plan_for(files, items, paths, slab);
        assert forall|i: int, j: int| 0 <= i < j < d.len() implies text_lt(
            #[trigger] d[i],
            #[trigger] d[j],
        ) by {
            assert(text_lt(paths[i], paths[j]));
        }
        lemma_plan_for(files, items, d, slab);
        assert forall|x: Seq<char>| #[trigger] d.contains(x) implies paths.contains(x) && text_lt(
            x,
            path,
        ) by {
            let k = choose|k: int| 0 <= k < d.len() && d[k] == x;
            assert(paths[k] == x);
            assert(text_lt(paths[k], paths[paths.len() - 1]));
        }
        assert(paths[paths.len() - 1] == path);
        assert(paths.contains(path));
        if before.end is Complete {
            if let Some(entry) = file_of(files, path) {
                crate::manifest::lemma_position(files, path);
                lemma_need(entry, path, items, slab);
                if let Need::Pages(s) = need_of(entry, path, items, slab) {
                    let added = pages_in(entry, s);
                    assert(plan.pages == before.pages + added);
                    assert forall|i: int| 0 <= i < plan.pages.len() implies {
                        let (entry, page_id) = #[trigger] plan.pages[i];
                        &&& paths.contains(entry.path@)
                        &&& file_of(files, entry.path@) == Some(entry)
                        &&& touched(entry, entry.path@, items, slab, page_id)
                    } by {
                        if i < before.pages.len() {
                            assert(plan.pages[i] == before.pages[i]);
                        } else {
                            let k = i - before.pages.len();
                            assert(plan.pages[i] == added[k]);
                            assert(s.contains(s[k]));
                        }
                    }
                    assert forall|i: int, j: int| 0 <= i < j < plan.pages.len() implies {
                        let (a, p) = #[trigger] plan.pages[i];
                        let (b, q) = #[trigger] plan.pages[j];
                        text_lt(a.path@, b.path@) || (a.path@ == b.path@ && p < q)
                    } by {
                        let n = before.pages.len();
                        if j < n {
                            assert(plan.pages[i] == before.pages[i]);
                            assert(plan.pages[j] == before.pages[j]);
                        } else if i < n {
                            assert(plan.pages[i] == before.pages[i]);
                            assert(plan.pages[j] == added[j - n]);
                            assert(d.contains(before.pages[i].0.path@));
                        } else {
                            assert(plan.pages[i] == added[i - n]);
                            assert(plan.pages[j] == added[j - n]);
                            assert(s[i - n] < s[j - n]);
                        }
                    }
                    assert forall|i: int|
                        0 <= i < items.len() && paths.contains(items[i].path) implies item_covered(
                        files,
                        #[trigger] items[i],
                        slab,
                        plan,
                    ) by {
                        let x = items[i].path;
                        if x == path {
                            assert forall|page_id: u32| #[trigger]
                                touches(entry, items[i], slab, page_id) implies plan.pages.contains(
                                (entry, page_id),
                            ) by {
                                assert(touched(entry, path, items, slab, page_id));
                                assert(s.contains(page_id));
                                let k = choose|k: int| 0 <= k < s.len() && s[k] == page_id;
                                assert(added[k] == (entry, page_id));
                                assert(plan.pages[before.pages.len() + k] == (entry, page_id));
                            }
                        } else {
                            let k = choose|k: int| 0 <= k < paths.len() && paths[k] == x;
                            assert(d[k] == x);
                            assert(d.contains(x));
                            assert(item_covered(files, items[i], slab, before));
                            let f = file_of(files, x)->0;
                            assert forall|page_id: u32| #[trigger]
                                touches(f, items[i], slab, page_id) implies plan.pages.contains(
                                (f, page_id),
                            ) by {
                                assert(before.pages.contains((f, page_id)));
                                let l = choose|l: int|
                                    0 <= l < before.pages.len() && before.pages[l] == (f, page_id);
                                assert(plan.pages[l] == (f, page_id));
                            }
                        }
                    }
                }
            }
        }
    }
}

/// A vectored read brings in pages that some item reads from, no page twice, and, unless
/// it is refused, every page that any item reads from. It is refused, or leads nowhere,
/// unless every item begins inside a file of the manifest.
pub proof fn law_plan(files: Seq<FileEntry>, items: Seq<ReadvItemView>, slab: u64)
    ensures
        planned(files, items, paths_of(items), slab, plan_of(files, items, slab)),
        plan_of(files, items, slab).pages.no_duplicates(),
        plan_of(files, items, slab).end is Complete ==> forall|i: int|
            0 <= i < items.len() ==> item_covered(
                files,
                #[trigger] items[i],
                slab,
                plan_of(files, items, slab),
            ),
{
    let paths = paths_of(items);
    let plan = plan_of(files, items, slab);
    law_paths(items);
    lemma_plan_for(files, items, paths, slab);
    assert forall|i: int, j: int|
        0 <= i < plan.pages.len() && 0 <= j < plan.pages.len() && i != j implies plan.pages[i]
        != plan.pages[j] by {
        let (a, b) = if i < j {
            (i, j)
        } else {
            (j, i)
        };
        text::lemma_text_lt_total(plan.pages[a].0.path@, plan.pages[b].0.path@);
        assert(plan.pages[a] != plan.pages[b]);
    }
    if plan.end is Complete {
        assert forall|i: int| 0 <= i < items.len() implies item_covered(
            files,
            #[trigger] items[i],
            slab,
            plan,
        ) by {
            assert(paths.contains(items[i].path));
        }
    }
}

/// The item begins inside a file of the manifest, its end has a byte before it, and pages
/// have bytes.
pub open spec fn readable(files: Seq<FileEntry>, it: ReadvItemView, slab: u64) -> bool {
    match file_of(files, it.path) {
        Some(entry) => slab > 0 && it.off < entry.size && (it.off > 0 || it.len > 0),
        None => false,
    }
}

proof fn lemma_need_complete(
    files: Seq<FileEntry>,
    entry: FileEntry,
    path: Seq<char>,
    items: Seq<ReadvItemView>,
    slab: u64,
)
    requires
        file_of(files, path) == Some(entry),
    ensures
        need_of(entry, path, items, slab) is Pages <==> forall|i: int|
            0 <= i < items.len() && (#[trigger] items[i]).path == path ==> readable(
                files,
                items[i],
                slab,
            ),
    decreases items.len(),
{
    if items.len() > 0 {
        let d = items.drop_last();
        lemma_need_complete(files, entry, path, d, slab);
        assert(items[items.len() - 1] == items.last());
        if need_of(entry, path, items, slab) is Pages {
            assert forall|i: int|
                0 <= i < items.len() && (#[trigger] items[i]).path == path implies readable(
                files,
                items[i],
                slab,
            ) by {
                if i < d.len() {
                    assert(d[i].path == path);
                }
            }
        }
        if forall|i: int|
            0 <= i < items.len() && (#[trigger] items[i]).path == path ==> readable(
                files,
                items[i],
                slab,
            ) {
            assert forall|i: int|
                0 <= i < d.len() && (#[trigger] d[i]).path == path implies readable(
                files,
                d[i],
                slab,
            ) by {
                assert(items[i].path == path);
            }
        }
    }
}

proof fn lemma_plan_complete(
    files: Seq<FileEntry>,
    items: Seq<ReadvItemView>,
    paths: Seq<Seq<char>>,
    slab: u64,
)
    requires
        forall|x: Seq<char>| #[trigger]
            paths.contains(x) ==> exists|i: int|
                0 <= i < items.len() && (#[trigger] items[i]).path == x,
    ensures
        plan_for(files, items, paths, slab).end is Complete <==> forall|i: int|
            0 <= i < items.len() && paths.contains((#[trigger] items[i]).path) ==> readable(
                files,
                items[i],
                slab,
            ),
    decreases paths.len(),
{
    if paths.len() > 0 {
        let d = paths.drop_last();
        let path = paths.last();
        assert forall|x: Seq<char>|
            #![trigger d.contains(x)]
            #![trigger paths.contains(x)]
            paths.contains(x) <==> d.contains(x) || x == path by {
            assert(paths[paths.len() - 1] == path);
            if d.contains(x) {
                let k = choose|k: int| 0 <= k < d.len() && d[k] == x;
                assert(paths[k] == x);
            }
            if paths.contains(x) && x != path {
                let k = choose|k: int| 0 <= k < paths.len() && paths[k] == x;
                assert(d[k] == x);
            }
        }
        lemma_plan_complete(files, items, d, slab);
        assert(paths.contains(path));
        let i = choose|i: int| 0 <= i < items.len() && (#[trigger] items[i]).path == path;
        assert(items[i].path == path);
        if let Some(entry) = file_of(files, path) {
            lemma_need_complete(files, entry, path, items, slab);
        }
    }
}

/// A vectored read is not refused before it begins to read if and only if every item
/// begins inside a file of the manifest, none asks for no byte at offset zero, and pages
/// have bytes.
pub proof fn law_plan_complete(files: Seq<FileEntry>, items: Seq<ReadvItemView>, slab: u64)
    ensures
        plan_of(files, items, slab).end is Complete <==> forall|i: int|
            0 <= i < items.len() ==> readable(files, #[trigger] items[i], slab),
{
    law_paths(items);
    lemma_plan_complete(files, items, paths_of(items), slab);
    assert forall|i: int| 0 <= i < items.len() implies paths_of(items).contains(
        (#[trigger] items[i]).path,
    ) by {}
}

/// What ends a plan that is not complete: the first item that cannot be read of the first
/// path, in the order of the paths, that has one. Its file is missing, or does not go on
/// where the item begins; else there is no page to tell.
pub proof fn law_plan_refuses(
    files: Seq<FileEntry>,
    items: Seq<ReadvItemView>,
    slab: u64,
    k: int,
)
    requires
        0 <= k < items.len(),
        !readable(files, items[k], slab),
        forall|i: int|
            0 <= i < items.len() && text_lt((#[trigger] items[i]).path, items[k].path) ==> readable(
                files,
                items[i],
                slab,
            ),
        forall|i: int|
            0 <= i < k && (#[trigger] items[i]).path == items[k].path ==> readable(
                files,
                items[i],
                slab,
            ),
    ensures
        match file_of(files, items[k].path) {
            None => {
                &&& plan_of(files, items, slab).end matches PlanEndView::Refuse(r)
                &&& r.status == 404
                &&& r.message == "file not in manifest: "@ + items[k].path
            },
            Some(entry) => if items[k].off >= entry.size {
                &&& plan_of(files, items, slab).end matches PlanEndView::Refuse(r)
                &&& r.status == 416
                &&& r.message == items[k].path + ": offset beyond EOF"@
            } else {
                plan_of(files, items, slab).end is Stuck
            },
        },
{
    let path = items[k].path;
    let paths = paths_of(items);
    law_paths(items);
    assert(paths.contains(path));
    let n = choose|n: int| 0 <= n < paths.len() && paths[n] == path;
    lemma_plan_before(files, items, slab, n);
    assert(paths.take(n + 1).drop_last() =~= paths.take(n));
    assert(paths.take(n + 1).last() == path);
    if let Some(entry) = file_of(files, path) {
        let t = items.take(k);
        lemma_need_complete(files, entry, path, t, slab);
        assert forall|i: int| 0 <= i < t.len() && (#[trigger] t[i]).path == path implies readable(
            files,
            t[i],
            slab,
        ) by {
            assert(t[i] == items[i]);
        }
        assert(items.take(k + 1).drop_last() =~= t);
        assert(items.take(k + 1).last() == items[k]);
        read::law_read_end(entry.size, items[k].off, items[k].len as u64);
        lemma_need_stays(entry, path, items, slab, k + 1);
    }
    lemma_plan_stays(files, items, paths, slab, n + 1);
}

/// Up to a path before which all items can be read, a plan is complete.
proof fn lemma_plan_before(
    files: Seq<FileEntry>,
    items: Seq<ReadvItemView>,
    slab: u64,
    n: int,
)
    requires
        0 <= n < paths_of(items).len(),
        forall|i: int|
            0 <= i < items.len() && text_lt((#[trigger] items[i]).path, paths_of(items)[n])
                ==> readable(files, items[i], slab),
    ensures
        plan_for(files, items, paths_of(items).take(n), slab).end is Complete,
    decreases n,
{
    let paths = paths_of(items);
    law_paths(items);
    if n > 0 {
        let p = paths[n - 1];
        assert(text_lt(paths[n - 1], paths[n]));
        assert forall|i: int|
            0 <= i < items.len() && text_lt((#[trigger] items[i]).path, p) implies readable(
            files,
            items[i],
            slab,
        ) by {
            text::lemma_text_lt_trans(items[i].path, p, paths[n]);
        }
        lemma_plan_before(files, items, slab, n - 1);
        assert(paths.take(n).drop_last() =~= paths.take(n - 1));
        assert(paths.take(n).last() == p);
        assert(paths.contains(p));
        let i = choose|i: int| 0 <= i < items.len() && (#[trigger] items[i]).path == p;
        assert(readable(files, items[i], slab));
        lemma_need_complete(files, file_of(files, p)->0, p, items, slab);
    } else {
        assert(paths.take(0) =~= Seq::<Seq<char>>::empty());
    }
}

/// What the items say is what each of them says, in their order.
pub proof fn law_item_views(items: Seq<ReadvItem>, i: int)
    ensures
        item_views(items).len() == items.len(),
        0 <= i < items.len() ==> {
            &&& item_views(items)[i].path == items[i].path@
            &&& item_views(items)[i].off == items[i].off
            &&& item_views(items)[i].len == items[i].len
        },
{
}

/// The pages of a plan come file by file in the order of the paths, and of each file in
/// ascending order.
pub proof fn law_plan_order(
    files: Seq<FileEntry>,
    items: Seq<ReadvItemView>,
    slab: u64,
    i: int,
    j: int,
)
    requires
        0 <= i < j < plan_of(files, items, slab).pages.len(),
    ensures
        ({
            let (a, b) = (
                plan_of(files, items, slab).pages[i],
                plan_of(files, items, slab).pages[j],
            );
            text_lt(a.0.path@, b.0.path@) || (a.0 == b.0 && a.1 < b.1)
        }),
{
    law_paths(items);
    lemma_plan_for(files, items, paths_of(items), slab);
}

} // verus!
