//! The second-level cache: what its backends share.
use crate::text;
use crate::types::{CacheKey, CacheKeyView};
use vstd::prelude::*;

verus! {

/// A count as 64 bits hold it: the count itself, unless they are too few for it.
pub open spec fn in_64_bits(n: int) -> int {
    n % 0x1_0000_0000_0000_0000
}

/// How much a backend holds.
#[derive(Debug, Clone, Copy, PartialEq, Eq, Structural)]
pub struct StatsSnapshot {
    pub items: u64,
    pub bytes: u64,
}

impl Default for StatsSnapshot {
    fn default() -> (r: StatsSnapshot)
        ensures
            r == (StatsSnapshot { items: 0, bytes: 0 }),
    {
        StatsSnapshot { items: 0, bytes: 0 }
    }
}

/// A failure of a backend.
#[derive(Debug)]
pub enum L2Error {
    Backend(String),
}

impl L2Error {
    pub open spec fn text(&self) -> Seq<char> {
        match self {
            L2Error::Backend(s) => "backend error: "@ + s@,
        }
    }

    /// The error as a user reads it.
    pub fn message(&self) -> (r: String)
        ensures
            r@ == self.text(),
    {
        match self {
            L2Error::Backend(s) => text::join("backend error: ", s.as_str()),
        }
    }
}

/// Whether a key was new to a backend.
#[derive(Debug, Clone, Copy, PartialEq, Eq, Structural)]
pub enum PutOutcome {
    Inserted,
    Updated,
}

/// What pages there are.
pub trait Paged: Sized {
    /// The pages are in order.
    spec fn ready(&self) -> bool;

    /// The pages that are there, by their keys.
    spec fn pages(&self) -> Map<CacheKeyView, Seq<u8>>;
}

/// A cache of pages. Any work of it may fail, and a page that is there need not be found;
/// but no page is found that was not put, and what was put is there.
pub trait L2Backend: Paged {
    /// What collects the bytes of a page that comes in chunks.
    type Put: L2Put<Backend = Self>;

    fn name(&self) -> &str;

    /// The page under the key.
    fn get(&self, key: &CacheKey) -> (r: Option<Vec<u8>>)
        requires
            self.ready(),
        ensures
            r matches Some(page) ==> self.pages().contains_key(key@) && page@
                == self.pages()[key@],
    ;

    /// Puts a page under the key, in the place of the one that is there.
    fn put(&mut self, key: CacheKey, value: Vec<u8>) -> (r: Result<PutOutcome, L2Error>)
        requires
            old(self).ready(),
        ensures
            final(self).ready(),
            r is Ok ==> final(self).pages() == old(self).pages().insert(key@, value@),
    ;

    /// Takes the page under the key out; the others stay.
    fn delete(&mut self, key: &CacheKey) -> (r: Result<(), L2Error>)
        requires
            old(self).ready(),
        ensures
            final(self).ready(),
            r is Ok ==> final(self).pages().remove(key@) == old(self).pages().remove(key@),
    ;

    fn stats(&self) -> (r: StatsSnapshot)
        requires
            self.ready(),
    ;

    /// Begins a page that comes in chunks.
    fn put_stream(&self, key: CacheKey, expected_len: Option<usize>) -> (r: Result<
        Self::Put,
        L2Error,
    >)
        requires
            self.ready(),
        ensures
            r is Ok ==> r->Ok_0.key() == key@ && r->Ok_0.held() == Seq::<u8>::empty(),
    ;
}

/// A page that comes in chunks, until it is put into its backend.
pub trait L2Put: Sized {
    type Backend: Paged;

    /// The key that the page is for.
    spec fn key(&self) -> CacheKeyView;

    /// The bytes that have come.
    spec fn held(&self) -> Seq<u8>;

    /// Takes in one more chunk.
    fn write(&mut self, chunk: &[u8]) -> (r: Result<(), L2Error>)
        ensures
            final(self).key() == old(self).key(),
            r is Ok ==> final(self).held() == old(self).held() + chunk@,
    ;

    /// Puts the page into the backend.
    fn commit(self, backend: &mut Self::Backend) -> (r: Result<PutOutcome, L2Error>)
        requires
            old(backend).ready(),
        ensures
            final(backend).ready(),
            r is Ok ==> final(backend).pages() == old(backend).pages().insert(
                self.key(),
                self.held(),
            ),
    ;

    /// Lets the page go.
    fn abort(self) {
    }
}

/// A backend over RocksDB's blob files; there is none yet.
pub struct BlobDbL2;

/// A count that fits in 64 bits is told as it is, and an error of a backend in full.
pub proof fn law_l2_tells(n: int, e: L2Error)
    ensures
        0 <= n <= u64::MAX ==> in_64_bits(n) == n,
        0 <= in_64_bits(n) <= u64::MAX,
        match e {
            L2Error::Backend(s) => e.text() == "backend error: "@ + s@,
        },
{
}

} // verus!
