//! The cache in memory.
use crate::l2::{in_64_bits, L2Backend, L2Error, L2Put, Paged, PutOutcome, StatsSnapshot};
use crate::types::{CacheKey, CacheKeyView};
use vstd::prelude::*;

verus! {

/// Pages in memory, no key twice.
pub struct MemL2 {
    entries: Vec<(CacheKey, Vec<u8>)>,
    bytes: u64,
}

/// A page that is on its way into memory.
pub struct MemPut {
    key: CacheKey,
    buf: Vec<u8>,
}

/// What a [`MemL2`] holds: the pages, and the sum of their lengths.
#[verifier::ext_equal]
pub struct MemView {
    pub pages: Map<CacheKeyView, Seq<u8>>,
    pub bytes: int,
}

impl MemView {
    /// The length of the page under the key, or zero.
    pub open spec fn len_at(self, key: CacheKeyView) -> int {
        if self.pages.contains_key(key) {
            self.pages[key].len() as int
        } else {
            0
        }
    }

    /// The memory after a page was put under the key.
    pub open spec fn with(self, key: CacheKeyView, page: Seq<u8>) -> MemView {
        MemView {
            pages: self.pages.insert(key, page),
            bytes: self.bytes - self.len_at(key) + page.len(),
        }
    }

    /// The memory after the page under the key was taken out.
    pub open spec fn without(self, key: CacheKeyView) -> MemView {
        MemView { pages: self.pages.remove(key), bytes: self.bytes - self.len_at(key) }
    }

    /// What is told of a page that is put under the key.
    pub open spec fn outcome(self, key: CacheKeyView) -> PutOutcome {
        if self.pages.contains_key(key) {
            PutOutcome::Updated
        } else {
            PutOutcome::Inserted
        }
    }
}

/// The sum of the lengths of the pages.
pub open spec fn total_len(pages: Map<CacheKeyView, Seq<u8>>) -> int
    decreases pages.dom().len(),
{
    if pages.dom().finite() && pages.dom().len() > 0 {
        let key = pages.dom().choose();
        pages[key].len() + total_len(pages.remove(key))
    } else {
        0
    }
}

/// The order in which the pages are summed up does not matter.
proof fn lemma_total_len(pages: Map<CacheKeyView, Seq<u8>>, key: CacheKeyView)
    requires
        pages.dom().finite(),
        pages.contains_key(key),
    ensures
        total_len(pages) == pages[key].len() + total_len(pages.remove(key)),
    decreases pages.dom().len(),
{
    assert(pages.dom().len() > 0) by {
        if pages.dom().len() == 0 {
            assert(pages.dom() =~= Set::empty());
        }
    }
    let c = pages.dom().choose();
    assert(pages.dom().contains(c));
    if c != key {
        let less = pages.remove(c);
        lemma_total_len(less, key);
        lemma_total_len(pages.remove(key), c);
        assert(less.remove(key) =~= pages.remove(key).remove(c));
    }
}

impl MemView {
    /// The bytes that are told are those of the pages.
    pub open spec fn counted(self) -> bool {
        &&& self.pages.dom().finite()
        &&& self.bytes == total_len(self.pages)
    }
}

/// What can be done with a memory.
pub enum MemOp {
    Put(CacheKeyView, Seq<u8>),
    Delete(CacheKeyView),
}

/// The memory after these operations, from an empty one on.
pub open spec fn mem_after(ops: Seq<MemOp>) -> MemView
    decreases ops.len(),
{
    if ops.len() == 0 {
        MemView { pages: Map::empty(), bytes: 0 }
    } else {
        match ops.last() {
            MemOp::Put(key, page) => mem_after(ops.drop_last()).with(key, page),
            MemOp::Delete(key) => mem_after(ops.drop_last()).without(key),
        }
    }
}

/// To put a page and to take one out keep the count of the bytes.
proof fn lemma_counted(v: MemView, key: CacheKeyView, page: Seq<u8>)
    requires
        v.counted(),
    ensures
        v.with(key, page).counted(),
        v.without(key).counted(),
{
    let w = v.with(key, page);
    assert(w.pages.remove(key) =~= v.pages.remove(key));
    lemma_total_len(w.pages, key);
    if v.pages.contains_key(key) {
        lemma_total_len(v.pages, key);
    } else {
        assert(v.pages.remove(key) =~= v.pages);
    }
}

/// Whatever was done with a memory, its bytes are the sum of the lengths of its pages.
pub proof fn law_mem_bytes(ops: Seq<MemOp>)
    ensures
        mem_after(ops).counted(),
    decreases ops.len(),
{
    if ops.len() == 0 {
        assert(mem_after(ops).pages.dom() =~= Set::empty());
    } else {
        law_mem_bytes(ops.drop_last());
        let v = mem_after(ops.drop_last());
        match ops.last() {
            MemOp::Put(key, page) => lemma_counted(v, key, page),
            MemOp::Delete(key) => lemma_counted(v, key, Seq::empty()),
        }
    }
}

spec fn pages_of(s: Seq<(CacheKey, Vec<u8>)>) -> Map<CacheKeyView, Seq<u8>>
    decreases s.len(),
{
    if s.len() == 0 {
        Map::empty()
    } else {
        pages_of(s.drop_last()).insert(s.last().0@, s.last().1@)
    }
}

spec fn total(s: Seq<(CacheKey, Vec<u8>)>) -> int
    decreases s.len(),
{
    if s.len() == 0 {
        0
    } else {
        total(s.drop_last()) + s.last().1@.len()
    }
}

spec fn distinct(s: Seq<(CacheKey, Vec<u8>)>) -> bool {
    forall|i: int, j: int|
        0 <= i < j < s.len() ==> (#[trigger] s[i]).0@ != (#[trigger] s[j]).0@
}

proof fn lemma_pages(s: Seq<(CacheKey, Vec<u8>)>)
    requires
        distinct(s),
    ensures
        pages_of(s).dom().finite(),
        pages_of(s).len() == s.len(),
        forall|i: int|
            0 <= i < s.len() ==> pages_of(s).contains_key((#[trigger] s[i]).0@)
                && pages_of(s)[s[i].0@] == s[i].1@,
        forall|k: CacheKeyView| #[trigger]
            pages_of(s).contains_key(k) ==> exists|i: int| 0 <= i < s.len() && (#[trigger] s[i]).0@ == k,
        total(s) == total_len(pages_of(s)),
        total(s) >= 0,
    decreases s.len(),
{
    if s.len() == 0 {
        assert(pages_of(s).dom() =~= Set::empty());
    } else {
        let d = s.drop_last();
        assert forall|i: int, j: int| 0 <= i < j < d.len() implies (#[trigger] d[i]).0@ != (
        #[trigger] d[j]).0@ by {
            assert(s[i].0@ != s[j].0@);
        }
        lemma_pages(d);
        assert(!pages_of(d).contains_key(s.last().0@)) by {
            if pages_of(d).contains_key(s.last().0@) {
                let i = choose|i: int|
                    0 <= i < d.len() && (#[trigger] d[i]).0@ == s.last().0@;
                assert(s[i].0@ != s[s.len() - 1].0@);
            }
        }
        lemma_total_len(pages_of(s), s.last().0@);
        assert(pages_of(s).remove(s.last().0@) =~= pages_of(d));
        assert forall|i: int| 0 <= i < s.len() implies pages_of(s).contains_key(
            (#[trigger] s[i]).0@,
        ) && pages_of(s)[s[i].0@] == s[i].1@ by {
            if i < d.len() {
                assert(d[i] == s[i]);
                assert(s[i].0@ != s[s.len() - 1].0@);
            }
        }
        assert forall|k: CacheKeyView| #[trigger] pages_of(s).contains_key(k) implies exists|i: int|
            0 <= i < s.len() && (#[trigger] s[i]).0@ == k by {
            if pages_of(d).contains_key(k) {
                let i = choose|i: int| 0 <= i < d.len() && (#[trigger] d[i]).0@ == k;
                assert(s[i].0@ == k);
            } else {
                assert(s[s.len() - 1].0@ == k);
            }
        }
    }
}

proof fn lemma_total_remove(s: Seq<(CacheKey, Vec<u8>)>, i: int)
    requires
        0 <= i < s.len(),
    ensures
        total(s.remove(i)) == total(s) - s[i].1@.len(),
    decreases s.len(),
{
    let r = s.remove(i);
    if i == s.len() - 1 {
        assert(r =~= s.drop_last());
    } else {
        lemma_total_remove(s.drop_last(), i);
        assert(r.drop_last() =~= s.drop_last().remove(i));
        assert(r.last() == s.last());
    }
}

proof fn lemma_remove(s: Seq<(CacheKey, Vec<u8>)>, i: int)
    requires
        0 <= i < s.len(),
        distinct(s),
    ensures
        distinct(s.remove(i)),
        pages_of(s.remove(i)) == pages_of(s).remove(s[i].0@),
        total(s.remove(i)) == total(s) - s[i].1@.len(),
{
    let r = s.remove(i);
    lemma_total_remove(s, i);
    assert forall|a: int, b: int| 0 <= a < b < r.len() implies (#[trigger] r[a]).0@ != (
    #[trigger] r[b]).0@ by {
        let x = if a < i {
            a
        } else {
            a + 1
        };
        let y = if b < i {
            b
        } else {
            b + 1
        };
        assert(s[x].0@ != s[y].0@);
    }
    lemma_pages(s);
    lemma_pages(r);
    let m = pages_of(s).remove(s[i].0@);
    assert forall|k: CacheKeyView|
        #![trigger pages_of(r).contains_key(k)]
        #![trigger m.contains_key(k)]
        #![trigger pages_of(r)[k]]
        pages_of(r).contains_key(k) == m.contains_key(k) && (m.contains_key(k) ==> pages_of(r)[k]
            == m[k]) by {
        if pages_of(r).contains_key(k) {
            let a = choose|a: int| 0 <= a < r.len() && (#[trigger] r[a]).0@ == k;
            let x = if a < i {
                a
            } else {
                a + 1
            };
            assert(s[x] == r[a]);
            if x < i {
                assert(s[x].0@ != s[i].0@);
            } else {
                assert(s[i].0@ != s[x].0@);
            }
        }
        if m.contains_key(k) {
            assert(pages_of(s).contains_key(k));
            let x = choose|x: int| 0 <= x < s.len() && (#[trigger] s[x]).0@ == k;
            let a = if x < i {
                x
            } else {
                x - 1
            };
            assert(r[a] == s[x]);
        }
    }
    assert(pages_of(r) =~= m);
}

impl View for MemL2 {
    type V = MemView;

    closed spec fn view(&self) -> MemView {
        MemView { pages: pages_of(self.entries@), bytes: total(self.entries@) }
    }
}

impl MemL2 {
    pub closed spec fn inv(&self) -> bool {
        &&& distinct(self.entries@)
        &&& self.bytes == in_64_bits(total(self.entries@))
    }

    /// An empty memory.
    pub fn new() -> (r: MemL2)
        ensures
            r.inv(),
            r@ == (MemView { pages: Map::empty(), bytes: 0 }),
    {
        MemL2 { entries: Vec::new(), bytes: 0 }
    }

    fn position(&self, key: &CacheKey) -> (r: Option<usize>)
        requires
            self.inv(),
        ensures
            match r {
                Some(i) => i < self.entries@.len() && self.entries@[i as int].0@ == key@
                    && self@.pages.contains_key(key@) && self@.pages[key@]
                    == self.entries@[i as int].1@,
                None => !self@.pages.contains_key(key@),
            },
    {
        proof {
            lemma_pages(self.entries@);
        }
        let mut i: usize = 0;
        while i < self.entries.len()
            invariant
                self.inv(),
                i <= self.entries@.len(),
                forall|j: int| 0 <= j < i ==> (#[trigger] self.entries@[j]).0@ != key@,
            decreases self.entries@.len() - i,
        {
            if self.entries[i].0.same(key) {
                proof {
                    lemma_pages(self.entries@);
                }
                return Some(i);
            }
            i = i + 1;
        }
        None
    }

    /// Takes the page under the key out, and tells whether there was one.
    fn take(&mut self, key: &CacheKey) -> (r: bool)
        requires
            old(self).inv(),
        ensures
            final(self).inv(),
            r == old(self)@.pages.contains_key(key@),
            final(self)@ == old(self)@.without(key@),
    {
        match self.position(key) {
            Some(i) => {
                proof {
                    lemma_remove(self.entries@, i as int);
                    lemma_pages(self.entries@.remove(i as int));
                }
                let (_, page) = self.entries.remove(i);
                self.bytes = self.bytes.wrapping_sub(page.len() as u64);
                true
            },
            None => {
                assert(self@.pages.remove(key@) =~= self@.pages);
                false
            },
        }
    }
}

impl Paged for MemL2 {
    open spec fn ready(&self) -> bool {
        self.inv()
    }

    open spec fn pages(&self) -> Map<CacheKeyView, Seq<u8>> {
        self@.pages
    }
}

impl L2Backend for MemL2 {
    type Put = MemPut;

    fn name(&self) -> (r: &str)
        ensures
            r@ == "mem"@,
    {
        "mem"
    }

    fn get(&self, key: &CacheKey) -> (r: Option<Vec<u8>>)
        ensures
            match r {
                Some(page) => self@.pages.contains_key(key@) && page@ == self@.pages[key@],
                None => !self@.pages.contains_key(key@),
            },
    {
        match self.position(key) {
            Some(i) => Some(vstd::slice::slice_to_vec(self.entries[i].1.as_slice())),
            None => None,
        }
    }

    fn put(&mut self, key: CacheKey, value: Vec<u8>) -> (r: Result<PutOutcome, L2Error>)
        ensures
            final(self)@ == old(self)@.with(key@, value@),
            r is Ok,
            r->Ok_0 == old(self)@.outcome(key@),
    {
        let existed = self.take(&key);
        let ghost s = self.entries@;
        let len = value.len() as u64;
        self.bytes = self.bytes.wrapping_add(len);
        self.entries.push((key, value));
        proof {
            lemma_pages(s);
            let t = self.entries@;
            assert(t.drop_last() =~= s);
            assert forall|i: int, j: int| 0 <= i < j < t.len() implies (#[trigger] t[i]).0@ != (
            #[trigger] t[j]).0@ by {
                if j < s.len() {
                    assert(s[i].0@ != s[j].0@);
                } else {
                    assert(pages_of(s).contains_key(s[i].0@));
                }
            }
            assert(pages_of(t) =~= old(self)@.pages.insert(key@, value@));
        }
        Ok(
            if existed {
                PutOutcome::Updated
            } else {
                PutOutcome::Inserted
            },
        )
    }

    fn delete(&mut self, key: &CacheKey) -> (r: Result<(), L2Error>)
        ensures
            r is Ok,
            final(self)@ == old(self)@.without(key@),
    {
        let _ = self.take(key);
        Ok(())
    }

    fn stats(&self) -> (r: StatsSnapshot)
        ensures
            r.items == self@.pages.len(),
            r.bytes == in_64_bits(self@.bytes),
            self@.bytes <= u64::MAX ==> r.bytes == self@.bytes,
            self@.counted(),
    {
        proof {
            lemma_pages(self.entries@);
        }
        StatsSnapshot { items: self.entries.len() as u64, bytes: self.bytes }
    }

    fn put_stream(&self, key: CacheKey, _expected_len: Option<usize>) -> (r: Result<
        MemPut,
        L2Error,
    >)
        ensures
            r is Ok,
    {
        Ok(MemPut { key, buf: Vec::new() })
    }
}

impl L2Put for MemPut {
    type Backend = MemL2;

    closed spec fn key(&self) -> CacheKeyView {
        self.key@
    }

    closed spec fn held(&self) -> Seq<u8> {
        self.buf@
    }

    fn write(&mut self, chunk: &[u8]) -> (r: Result<(), L2Error>)
        ensures
            r is Ok,
    {
        self.buf.extend_from_slice(chunk);
        assert(self.buf@ =~= old(self).buf@ + chunk@);
        Ok(())
    }

    fn commit(self, backend: &mut MemL2) -> (r: Result<PutOutcome, L2Error>)
        ensures
            final(backend)@ == old(backend)@.with(self.key(), self.held()),
            r is Ok,
            r->Ok_0 == old(backend)@.outcome(self.key()),
    {
        backend.put(self.key, self.buf)
    }
}

/// A page that was put under a key is there until another is put there or it is taken
/// out, and nothing else changes.
pub proof fn law_mem(v: MemView, key: CacheKeyView, page: Seq<u8>, other: CacheKeyView)
    requires
        other != key,
    ensures
        v.with(key, page).pages.contains_key(key),
        v.with(key, page).pages[key] == page,
        v.with(key, page).len_at(other) == v.len_at(other),
        v.with(key, page).pages.contains_key(other) == v.pages.contains_key(other),
        v.pages.contains_key(other) ==> v.with(key, page).pages[other] == v.pages[other],
        !v.without(key).pages.contains_key(key),
        v.without(key).pages.contains_key(other) == v.pages.contains_key(other),
        v.pages.contains_key(other) ==> v.without(key).pages[other] == v.pages[other],
{
}

/// To put a page under a new key and take it out again changes nothing.
pub proof fn law_mem_undo(v: MemView, key: CacheKeyView, page: Seq<u8>)
    requires
        !v.pages.contains_key(key),
    ensures
        v.with(key, page).without(key) == v,
{
    assert(v.with(key, page).without(key).pages =~= v.pages);
}

/// A page that is put is told as new if there was none under its key, and else as one that
/// replaces another; once it is there, the next one under the key replaces it, and once it
/// is taken out, the next one is new again.
pub proof fn law_mem_outcome(v: MemView, key: CacheKeyView, page: Seq<u8>)
    ensures
        v.outcome(key) is Inserted <==> !v.pages.contains_key(key),
        v.with(key, page).outcome(key) is Updated,
        v.without(key).outcome(key) is Inserted,
        v.with(key, page).bytes - v.bytes == page.len() - if v.pages.contains_key(key) {
            v.pages[key].len() as int
        } else {
            0
        },
        v.bytes - v.without(key).bytes == if v.pages.contains_key(key) {
            v.pages[key].len() as int
        } else {
            0
        },
{
}

/// The sum of the lengths of no pages is zero, and one page more adds its own.
pub proof fn law_total_len(pages: Map<CacheKeyView, Seq<u8>>, key: CacheKeyView, page: Seq<u8>)
    requires
        pages.dom().finite(),
        !pages.contains_key(key),
    ensures
        total_len(Map::empty()) == 0,
        total_len(pages.insert(key, page)) == total_len(pages) + page.len(),
{
    let m = pages.insert(key, page);
    lemma_total_len(m, key);
    assert(m.remove(key) =~= pages);
    assert(Map::<CacheKeyView, Seq<u8>>::empty().dom() =~= Set::empty());
}

} // verus!
