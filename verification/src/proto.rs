//! What requests and replies of the HTTP interface carry.
use crate::text;
use vstd::prelude::*;

verus! {

/// One range of a vectored read.
#[derive(Debug, Clone)]
pub struct ReadvItem {
    pub path: String,
    pub off: u64,
    pub len: u32,
}

/// What a [`ReadvItem`] says.
pub struct ReadvItemView {
    pub path: Seq<char>,
    pub off: u64,
    pub len: u32,
}

impl View for ReadvItem {
    type V = ReadvItemView;

    open spec fn view(&self) -> ReadvItemView {
        ReadvItemView { path: self.path@, off: self.off, len: self.len }
    }
}

/// Ranges of one file that a job is about to read.
#[derive(Debug, Clone)]
pub struct HintsWindow {
    pub path: String,
    pub ranges: Vec<(u64, u32)>,
}

/// A job's hints for one epoch.
#[derive(Debug, Clone)]
pub struct HintsRequest {
    pub epoch: u64,
    /// `normal` or `high`.
    pub priority: Option<String>,
    pub windows: Vec<HintsWindow>,
    pub ttl_ms: Option<u64>,
}

#[derive(Debug, Clone)]
pub struct BarrierResponse {
    pub barrier_id: String,
}

/// `s` without the slashes at its end.
pub open spec fn without_end_slashes(s: Seq<char>) -> Seq<char>
    decreases s.len(),
{
    if s.len() > 0 && s.last() == '/' {
        without_end_slashes(s.drop_last())
    } else {
        s
    }
}

/// Where the daemon at this address tells its health.
pub fn health_url(addr: &str) -> (r: String)
    ensures
        r@ == without_end_slashes(addr@) + "/healthz"@,
{
    let n = addr.unicode_len();
    let mut k: usize = n;
    assert(addr@.take(n as int) =~= addr@);
    while k > 0 && addr.get_char(k - 1) == '/'
        invariant
            k <= n,
            n == addr@.len(),
            without_end_slashes(addr@) == without_end_slashes(addr@.take(k as int)),
        decreases k,
    {
        assert(addr@.take(k as int).drop_last() =~= addr@.take(k - 1));
        k = k - 1;
    }
    assert(k > 0 ==> addr@.take(k as int).last() == addr@[k - 1]);
    assert(addr@.subrange(0, k as int) =~= addr@.take(k as int));
    text::join(addr.substring_char(0, k), "/healthz")
}

/// Slashes at the end of an address do not matter, however many, and nothing else is cut
/// off.
pub proof fn law_health_url(addr: Seq<char>)
    ensures
        without_end_slashes(addr.push('/')) == without_end_slashes(addr),
        addr.len() == 0 || addr.last() != '/' ==> without_end_slashes(addr) == addr,
{
    assert(addr.push('/').drop_last() =~= addr);
}

} // verus!
