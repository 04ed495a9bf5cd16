//! The object store: its configuration, its errors, and what is decided around the
//! requests that are sent to it.
use crate::text;
use core::ops::Range;
use vstd::prelude::*;

verus! {

/// Why a request to the object store failed.
#[derive(Debug)]
pub enum StoreError {
    Client(String),
    Get(String),
    Head(String),
    Budget(String),
    Retry(String),
    NotImplemented,
}

impl StoreError {
    /// The error in words.
    pub open spec fn text(&self) -> Seq<char> {
        match self {
            StoreError::Client(s) => "client error: "@ + s@,
            StoreError::Get(s) => "get error: "@ + s@,
            StoreError::Head(s) => "head error: "@ + s@,
            StoreError::Budget(s) => "budget exceeded: "@ + s@,
            StoreError::Retry(s) => "retry exhausted: "@ + s@,
            StoreError::NotImplemented => "not implemented"@,
        }
    }

    /// The error in words.
    pub fn message(&self) -> (r: String)
        ensures
            r@ == self.text(),
    {
        match self {
            StoreError::Client(s) => text::join("client error: ", s.as_str()),
            StoreError::Get(s) => text::join("get error: ", s.as_str()),
            StoreError::Head(s) => text::join("head error: ", s.as_str()),
            StoreError::Budget(s) => text::join("budget exceeded: ", s.as_str()),
            StoreError::Retry(s) => text::join("retry exhausted: ", s.as_str()),
            StoreError::NotImplemented => "not implemented".to_string(),
        }
    }
}

/// What the store tells of an object without its bytes.
#[derive(Debug, Clone)]
pub struct HeadInfo {
    pub size: Option<u64>,
    pub etag: Option<String>,
}

impl Default for HeadInfo {
    fn default() -> (r: HeadInfo)
        ensures
            r.size is None,
            r.etag is None,
    {
        HeadInfo { size: None, etag: None }
    }
}

impl HeadInfo {
    /// The answer of the store, whose length is a signed number, as this crate
    /// holds it.
    pub fn from_response(content_length: Option<i64>, etag: Option<String>) -> (r: HeadInfo)
        ensures
            r.size == (match content_length {
                Some(n) => Some(n as u64),
                None => None,
            }),
            r.etag == etag,
    {
        let size = match content_length {
            Some(n) => Some(n as u64),
            None => None,
        };
        HeadInfo { size, etag }
    }
}

/// How the object store is reached, and how hard it may be used.
#[derive(Debug, Clone)]
pub struct S3Config {
    /// `sdk` or `crt`; `sdk` if absent.
    pub engine: Option<String>,
    pub endpoint: Option<String>,
    pub region: String,
    pub bucket: String,
    pub access_key_id: Option<String>,
    pub secret_access_key: Option<String>,
    pub get_budget_per_sec: u32,
    pub range_coalesce_max_mib: u32,
    pub max_inflight_gets: u32,
    pub retry_max_attempts: u32,
    pub retry_initial_backoff_ms: u64,
}

impl Default for S3Config {
    fn default() -> (r: S3Config)
        ensures
            r.engine is Some && r.engine->0@ == "sdk"@,
            r.endpoint is None,
            r.region@ == "us-east-1"@,
            r.bucket@ == "seekfs"@,
            r.access_key_id is None,
            r.secret_access_key is None,
            r.get_budget_per_sec == 200,
            r.range_coalesce_max_mib == 32,
            r.max_inflight_gets == 128,
            r.retry_max_attempts == 3,
            r.retry_initial_backoff_ms == 100,
    {
        S3Config {
            engine: Some("sdk".to_string()),
            endpoint: None,
            region: "us-east-1".to_string(),
            bucket: "seekfs".to_string(),
            access_key_id: None,
            secret_access_key: None,
            get_budget_per_sec: 200,
            range_coalesce_max_mib: 32,
            max_inflight_gets: 128,
            retry_max_attempts: 3,
            retry_initial_backoff_ms: 100,
        }
    }
}

/// What a client of the object store is built from.
pub struct ClientSettings {
    pub region: String,
    pub endpoint: Option<String>,
    /// Whether the bucket goes into the path of a request instead of its host.
    pub force_path_style: bool,
    /// The key id and the secret.
    pub credentials: Option<(String, String)>,
}

/// Which client library talks to the store.
#[derive(Debug, Clone, Copy, PartialEq, Eq, Structural)]
pub enum Engine {
    Sdk,
    Crt,
    Unknown,
}

/// The engine that a configured name stands for.
pub open spec fn engine_named(name: Option<Seq<char>>) -> Engine {
    match name {
        None => Engine::Sdk,
        Some(n) => if n == "sdk"@ {
            Engine::Sdk
        } else if n == "crt"@ {
            Engine::Crt
        } else {
            Engine::Unknown
        },
    }
}

/// The most bytes that coalescing puts into one request.
pub open spec fn coalesce_limit(mib: u32) -> nat {
    mib as nat * 1024 * 1024
}

/// The widest gap, in bytes, that coalescing reads over.
pub const COALESCE_GAP: u64 = 65536;

/// `r` put behind the last range of `s` that does not start after it.
pub open spec fn insert_by_start(s: Seq<Range<u64>>, r: Range<u64>) -> Seq<Range<u64>>
    decreases s.len(),
{
    if s.len() == 0 || s.last().start <= r.start {
        s.push(r)
    } else {
        insert_by_start(s.drop_last(), r).push(s.last())
    }
}

/// `s` ordered by start; ranges with the same start keep their order.
pub open spec fn sort_by_start(s: Seq<Range<u64>>) -> Seq<Range<u64>>
    decreases s.len(),
{
    if s.len() == 0 {
        s
    } else {
        insert_by_start(sort_by_start(s.drop_last()), s.last())
    }
}

/// How many bytes lie between the end of `cur` and the start of `r`.
pub open spec fn gap(cur: Range<u64>, r: Range<u64>) -> int {
    if r.start > cur.end {
        r.start - cur.end
    } else {
        0
    }
}

/// What coalescing has after the ranges of `s`: the finished ranges, and the one
/// that may still grow. There is no such state if a range ends before the growing
/// one starts, which only a range that ends before its own start can do.
pub open spec fn coalesce_state(s: Seq<Range<u64>>, limit: nat) -> Option<
    (Seq<Range<u64>>, Range<u64>),
>
    recommends
        s.len() > 0,
    decreases s.len(),
{
    if s.len() <= 1 {
        Some((Seq::empty(), s[0]))
    } else {
        match coalesce_state(s.drop_last(), limit) {
            None => None,
            Some((out, cur)) => {
                let r = s.last();
                if r.end < cur.start {
                    None
                } else if gap(cur, r) <= COALESCE_GAP && r.end - cur.start <= limit {
                    Some((out, cur.start..if r.end > cur.end { r.end } else { cur.end }))
                } else {
                    Some((out.push(cur), r))
                }
            },
        }
    }
}

/// The ranges that stand for the ordered ranges `s`.
pub open spec fn coalesced(s: Seq<Range<u64>>, limit: nat) -> Option<Seq<Range<u64>>> {
    if s.len() == 0 {
        Some(Seq::empty())
    } else {
        match coalesce_state(s, limit) {
            Some((out, cur)) => Some(out.push(cur)),
            None => None,
        }
    }
}

/// No range ends before it starts.
pub open spec fn well_formed(s: Seq<Range<u64>>) -> bool {
    forall|i: int| 0 <= i < s.len() ==> (#[trigger] s[i]).start <= s[i].end
}

/// The ranges can be coalesced. Ranges that do not end before they start always can.
pub open spec fn coalescible(s: Seq<Range<u64>>, limit: nat) -> bool {
    well_formed(s) || coalesced(sort_by_start(s), limit) is Some
}

pub open spec fn starts_ascend(s: Seq<Range<u64>>) -> bool {
    forall|i: int, j: int| 0 <= i <= j < s.len() ==> (#[trigger] s[i]).start <= (#[trigger] s[j]).start
}

/// Byte `b` lies in one of the ranges.
pub open spec fn covered(s: Seq<Range<u64>>, b: int) -> bool {
    exists|i: int| 0 <= i < s.len() && (#[trigger] s[i]).start <= b < s[i].end
}

/// Two ranges that coalescing keeps apart: too far from each other, or too long
/// together.
pub open spec fn kept_apart(a: Range<u64>, b: Range<u64>, limit: nat) -> bool {
    gap(a, b) > COALESCE_GAP || b.end - a.start > limit
}

proof fn lemma_insert(s: Seq<Range<u64>>, r: Range<u64>)
    ensures
        insert_by_start(s, r).len() == s.len() + 1,
        insert_by_start(s, r).to_multiset() == s.to_multiset().insert(r),
        forall|x: Range<u64>|
            #![trigger insert_by_start(s, r).contains(x)]
            insert_by_start(s, r).contains(x) <==> s.contains(x) || x == r,
        starts_ascend(s) ==> starts_ascend(insert_by_start(s, r)),
        s.len() > 0 ==> insert_by_start(s, r).last().start >= s.last().start,
        insert_by_start(s, r).last().start >= r.start,
    decreases s.len(),
{
    broadcast use vstd::seq_lib::group_to_multiset_ensures;

    let t = insert_by_start(s, r);
    if s.len() == 0 || s.last().start <= r.start {
        assert forall|x: Range<u64>| t.contains(x) <==> s.contains(x) || x == r by {
            if s.contains(x) {
                let i = choose|i: int| 0 <= i < s.len() && s[i] == x;
                assert(t[i] == x);
            }
            assert(t[s.len() as int] == r);
        }
    } else {
        let d = s.drop_last();
        lemma_insert(d, r);
        let u = insert_by_start(d, r);
        assert(s =~= d.push(s.last()));
        assert(t == u.push(s.last()));
        assert(u.push(s.last()).to_multiset() =~= u.to_multiset().insert(s.last()));
        assert(s.to_multiset() =~= d.to_multiset().insert(s.last()));
        assert(t.to_multiset() =~= s.to_multiset().insert(r));
        assert forall|x: Range<u64>| t.contains(x) <==> s.contains(x) || x == r by {
            if t.contains(x) {
                let i = choose|i: int| 0 <= i < t.len() && t[i] == x;
                if i < u.len() {
                    assert(u[i] == x);
                    assert(u.contains(x));
                    if d.contains(x) {
                        let j = choose|j: int| 0 <= j < d.len() && d[j] == x;
                        assert(s[j] == x);
                    }
                } else {
                    assert(s[s.len() - 1] == x);
                }
            }
            if s.contains(x) {
                let i = choose|i: int| 0 <= i < s.len() && s[i] == x;
                if i < d.len() {
                    assert(d[i] == x);
                    assert(u.contains(x));
                    let j = choose|j: int| 0 <= j < u.len() && u[j] == x;
                    assert(t[j] == x);
                } else {
                    assert(t[t.len() - 1] == x);
                }
            }
            if x == r {
                assert(u.contains(x));
                let j = choose|j: int| 0 <= j < u.len() && u[j] == x;
                assert(t[j] == x);
            }
        }
        if starts_ascend(s) {
            assert(starts_ascend(d));
            assert forall|i: int, j: int| 0 <= i <= j < t.len() implies (#[trigger] t[i]).start
                <= (#[trigger] t[j]).start by {
                if j == t.len() - 1 && i < j {
                    assert(u.contains(u[i]));
                    if d.contains(u[i]) {
                        let k = choose|k: int| 0 <= k < d.len() && d[k] == u[i];
                        assert(s[k].start <= s[s.len() - 1].start);
                    }
                }
            }
        }
    }
}

/// Sorting keeps the ranges, each as often as it was there, and puts the starts in
/// ascending order.
pub proof fn law_sort_by_start(s: Seq<Range<u64>>)
    ensures
        sort_by_start(s).len() == s.len(),
        sort_by_start(s).to_multiset() == s.to_multiset(),
        forall|x: Range<u64>|
            #![trigger sort_by_start(s).contains(x)]
            #![trigger s.contains(x)]
            sort_by_start(s).contains(x) <==> s.contains(x),
        starts_ascend(sort_by_start(s)),
    decreases s.len(),
{
    broadcast use vstd::seq_lib::group_to_multiset_ensures;

    if s.len() > 0 {
        let d = s.drop_last();
        law_sort_by_start(d);
        lemma_insert(sort_by_start(d), s.last());
        assert(s =~= d.push(s.last()));
        assert forall|x: Range<u64>| sort_by_start(s).contains(x) <==> s.contains(x) by {
            if s.contains(x) {
                let i = choose|i: int| 0 <= i < s.len() && s[i] == x;
                if i < d.len() {
                    assert(d[i] == x);
                }
            }
            if d.contains(x) {
                let i = choose|i: int| 0 <= i < d.len() && d[i] == x;
                assert(s[i] == x);
            }
            assert(s[s.len() - 1] == s.last());
        }
    }
}

proof fn lemma_sorted_well_formed(s: Seq<Range<u64>>)
    requires
        well_formed(s),
    ensures
        well_formed(sort_by_start(s)),
{
    law_sort_by_start(s);
    let t = sort_by_start(s);
    assert forall|i: int| 0 <= i < t.len() implies (#[trigger] t[i]).start <= t[i].end by {
        assert(t.contains(t[i]));
        assert(s.contains(t[i]));
        let j = choose|j: int| 0 <= j < s.len() && s[j] == t[i];
        assert(s[j].start <= s[j].end);
    }
}

/// What holds while ordered, well-formed ranges are coalesced.
proof fn lemma_coalesce_state(s: Seq<Range<u64>>, limit: nat)
    requires
        s.len() > 0,
        well_formed(s),
        starts_ascend(s),
    ensures
        coalesce_state(s, limit) is Some,
        ({
            let (out, cur) = coalesce_state(s, limit)->0;
            let all = out.push(cur);
            &&& cur.start <= s.last().start
            &&& cur.start <= cur.end
            &&& s.last().end <= cur.end
            &&& all.len() <= s.len()
            &&& forall|b: int| covered(s, b) ==> covered(all, b)
            &&& forall|i: int|
                0 <= i < all.len() ==> s.contains(#[trigger] all[i]) || all[i].end - all[i].start
                    <= limit
            &&& well_formed(all)
            &&& starts_ascend(all)
            &&& forall|i: int, j: int|
                0 <= i && j == i + 1 && j < all.len() ==> kept_apart(
                    #[trigger] all[i],
                    #[trigger] all[j],
                    limit,
                )
        }),
    decreases s.len(),
{
    if s.len() == 1 {
        let all = Seq::<Range<u64>>::empty().push(s[0]);
        assert(all =~= s);
        assert(s.contains(s[0]));
    } else {
        let d = s.drop_last();
        assert(d.last() == s[d.len() - 1]);
        assert(well_formed(d)) by {
            assert forall|i: int| 0 <= i < d.len() implies (#[trigger] d[i]).start <= d[i].end by {
                assert(s[i].start <= s[i].end);
            }
        }
        assert(starts_ascend(d)) by {
            assert forall|i: int, j: int| 0 <= i <= j < d.len() implies (#[trigger] d[i]).start <= (
            #[trigger] d[j]).start by {
                assert(s[i].start <= s[j].start);
            }
        }
        lemma_coalesce_state(d, limit);
        let (out0, cur0) = coalesce_state(d, limit)->0;
        let all0 = out0.push(cur0);
        let r = s.last();
        assert(s[s.len() - 1].start <= s[s.len() - 1].end);
        assert(s[d.len() - 1].start <= s[s.len() - 1].start);
        assert(cur0.start <= r.start);
        let (out, cur) = coalesce_state(s, limit)->0;
        let all = out.push(cur);
        assert(s.contains(r)) by {
            assert(s[s.len() - 1] == r);
        }
        assert forall|x: Range<u64>| d.contains(x) implies s.contains(x) by {
            let i = choose|i: int| 0 <= i < d.len() && d[i] == x;
            assert(s[i] == x);
        }
        assert(all0[out0.len() as int] == cur0);
        if gap(cur0, r) <= COALESCE_GAP && r.end - cur0.start <= limit {
            assert(out == out0);
            assert(cur.start == cur0.start && cur.end >= cur0.end && cur.end >= r.end);
            assert forall|b: int| covered(s, b) implies covered(all, b) by {
                let i = choose|i: int| 0 <= i < s.len() && (#[trigger] s[i]).start <= b < s[i].end;
                if i < d.len() {
                    assert(d[i].start <= b < d[i].end);
                    assert(covered(d, b));
                    assert(covered(all0, b));
                    let k = choose|k: int|
                        0 <= k < all0.len() && (#[trigger] all0[k]).start <= b < all0[k].end;
                    if k < out0.len() {
                        assert(all[k] == all0[k]);
                        assert(all[k].start <= b < all[k].end);
                    } else {
                        assert(all[out.len() as int].start <= b < all[out.len() as int].end);
                    }
                } else {
                    assert(cur.start <= b < cur.end);
                    assert(all[out.len() as int].start <= b < all[out.len() as int].end);
                }
            }
            assert forall|i: int| 0 <= i < all.len() implies s.contains(#[trigger] all[i])
                || all[i].end - all[i].start <= limit by {
                if i < out.len() {
                    assert(all[i] == all0[i]);
                } else if cur.end == cur0.end {
                    assert(all[i] == all0[i]);
                }
            }
            assert forall|i: int| 0 <= i < all.len() implies (#[trigger] all[i]).start
                <= all[i].end by {
                if i < out.len() {
                    assert(all[i] == all0[i]);
                    assert(all0[i].start <= all0[i].end);
                }
            }
            assert forall|i: int, j: int| 0 <= i <= j < all.len() implies (#[trigger] all[i]).start
                <= (#[trigger] all[j]).start by {
                assert(all[i].start == all0[i].start);
                assert(all[j].start == all0[j].start);
            }
            assert forall|i: int, j: int| 0 <= i && j == i + 1 && j < all.len() implies kept_apart(
                #[trigger] all[i],
                #[trigger] all[j],
                limit,
            ) by {
                assert(kept_apart(all0[i], all0[j], limit));
                assert(all[i] == all0[i]);
            }
        } else {
            assert(out == all0 && cur == r);
            assert forall|b: int| covered(s, b) implies covered(all, b) by {
                let i = choose|i: int| 0 <= i < s.len() && (#[trigger] s[i]).start <= b < s[i].end;
                if i < d.len() {
                    assert(d[i].start <= b < d[i].end);
                    assert(covered(all0, b));
                    let k = choose|k: int|
                        0 <= k < all0.len() && (#[trigger] all0[k]).start <= b < all0[k].end;
                    assert(all[k] == all0[k]);
                } else {
                    assert(all[out.len() as int] == r);
                }
            }
            assert forall|i: int| 0 <= i < all.len() implies s.contains(#[trigger] all[i])
                || all[i].end - all[i].start <= limit by {
                if i < out.len() {
                    assert(all[i] == all0[i]);
                }
            }
            assert forall|i: int| 0 <= i < all.len() implies (#[trigger] all[i]).start
                <= all[i].end by {
                if i < out.len() {
                    assert(all[i] == all0[i]);
                    assert(all0[i].start <= all0[i].end);
                }
            }
            assert forall|i: int, j: int| 0 <= i <= j < all.len() implies (#[trigger] all[i]).start
                <= (#[trigger] all[j]).start by {
                if j < out.len() {
                    assert(all[i] == all0[i] && all[j] == all0[j]);
                } else if i < out.len() {
                    assert(all[i] == all0[i]);
                    assert(all0[i].start <= all0[out0.len() as int].start);
                }
            }
            assert forall|i: int, j: int| 0 <= i && j == i + 1 && j < all.len() implies kept_apart(
                #[trigger] all[i],
                #[trigger] all[j],
                limit,
            ) by {
                if j < out.len() {
                    assert(kept_apart(all0[i], all0[j], limit));
                }
            }
        }
    }
}

/// Ranges that do not end before they start can always be coalesced. Coalescing loses
/// no byte, asks for no more ranges than it was given, keeps them in order, makes no
/// range longer than the limit (what is longer was asked for as it is), and leaves no
/// two neighbours that it could have read as one.
pub proof fn law_coalesce(ranges: Seq<Range<u64>>, limit: nat)
    requires
        well_formed(ranges),
    ensures
        coalesced(sort_by_start(ranges), limit) is Some,
        ({
            let out = coalesced(sort_by_start(ranges), limit)->0;
            &&& forall|b: int| covered(ranges, b) ==> covered(out, b)
            &&& out.len() <= ranges.len()
            &&& well_formed(out)
            &&& starts_ascend(out)
            &&& forall|i: int|
                0 <= i < out.len() ==> ranges.contains(#[trigger] out[i]) || out[i].end
                    - out[i].start <= limit
            &&& forall|i: int, j: int|
                0 <= i && j == i + 1 && j < out.len() ==> kept_apart(
                    #[trigger] out[i],
                    #[trigger] out[j],
                    limit,
                )
        }),
{
    law_sort_by_start(ranges);
    lemma_sorted_well_formed(ranges);
    let s = sort_by_start(ranges);
    if s.len() > 0 {
        lemma_coalesce_state(s, limit);
        assert forall|b: int| covered(ranges, b) implies covered(s, b) by {
            let i = choose|i: int|
                0 <= i < ranges.len() && (#[trigger] ranges[i]).start <= b < ranges[i].end;
            assert(ranges.contains(ranges[i]));
            assert(s.contains(ranges[i]));
            let j = choose|j: int| 0 <= j < s.len() && s[j] == ranges[i];
            assert(s[j].start <= b < s[j].end);
        }
    }
}

/// The range begins where one of `s` begins, and ends where one of `s` ends.
pub open spec fn edged(s: Seq<Range<u64>>, r: Range<u64>) -> bool {
    &&& exists|i: int| 0 <= i < s.len() && (#[trigger] s[i]).start == r.start
    &&& exists|i: int| 0 <= i < s.len() && (#[trigger] s[i]).end == r.end
}

proof fn lemma_edged(s: Seq<Range<u64>>, t: Seq<Range<u64>>, r: Range<u64>)
    requires
        edged(s, r),
        forall|x: Range<u64>| #[trigger] s.contains(x) ==> t.contains(x),
    ensures
        edged(t, r),
{
    let i = choose|i: int| 0 <= i < s.len() && (#[trigger] s[i]).start == r.start;
    let j = choose|j: int| 0 <= j < s.len() && (#[trigger] s[j]).end == r.end;
    assert(s.contains(s[i]) && s.contains(s[j]));
    let k = choose|k: int| 0 <= k < t.len() && t[k] == s[i];
    let l = choose|l: int| 0 <= l < t.len() && t[l] == s[j];
    assert(t[k].start == r.start);
    assert(t[l].end == r.end);
}

/// Ranges in order that coalescing leaves as they are: no two neighbours can be read as
/// one.
spec fn settled(all: Seq<Range<u64>>, limit: nat) -> bool {
    &&& starts_ascend(all)
    &&& forall|i: int, j: int|
        0 <= i && j == i + 1 && j < all.len() ==> (#[trigger] all[j]).end >= (
        #[trigger] all[i]).start && kept_apart(all[i], all[j], limit)
}

/// What holds while ordered ranges are coalesced, those that end before they start among
/// them.
proof fn lemma_settles(s: Seq<Range<u64>>, limit: nat)
    requires
        s.len() > 0,
        starts_ascend(s),
        coalesce_state(s, limit) is Some,
    ensures
        ({
            let (out, cur) = coalesce_state(s, limit)->0;
            let all = out.push(cur);
            &&& cur.start <= s.last().start
            &&& settled(all, limit)
            &&& forall|i: int| 0 <= i < all.len() ==> edged(s, #[trigger] all[i])
        }),
    decreases s.len(),
{
    let (out, cur) = coalesce_state(s, limit)->0;
    let all = out.push(cur);
    if s.len() == 1 {
        assert(edged(s, s[0]));
    } else {
        let d = s.drop_last();
        assert(starts_ascend(d)) by {
            assert forall|i: int, j: int| 0 <= i <= j < d.len() implies (#[trigger] d[i]).start <= (
            #[trigger] d[j]).start by {
                assert(s[i].start <= s[j].start);
            }
        }
        lemma_settles(d, limit);
        let (out0, cur0) = coalesce_state(d, limit)->0;
        let all0 = out0.push(cur0);
        let r = s.last();
        let n = out0.len() as int;
        assert(s[d.len() - 1].start <= s[s.len() - 1].start);
        assert(s[s.len() - 1] == r);
        assert forall|x: Range<u64>| #[trigger] d.contains(x) implies s.contains(x) by {
            let i = choose|i: int| 0 <= i < d.len() && d[i] == x;
            assert(s[i] == x);
        }
        assert(all0[n] == cur0);
        assert(edged(d, all0[n]));
        lemma_edged(d, s, cur0);
        assert(edged(s, r));
        assert forall|i: int| 0 <= i < all.len() implies edged(s, #[trigger] all[i]) by {
            if i < n {
                assert(all[i] == all0[i]);
                lemma_edged(d, s, all0[i]);
            }
        }
        assert forall|i: int, j: int| 0 <= i <= j < all.len() implies (#[trigger] all[i]).start <= (
        #[trigger] all[j]).start by {
            if j <= n {
                assert(all[i].start == all0[i].start);
                assert(all[j].start == all0[j].start);
            } else if i <= n {
                assert(all0[i].start <= all0[n].start);
            }
        }
        assert forall|i: int, j: int| 0 <= i && j == i + 1 && j < all.len() implies (
        #[trigger] all[j]).end >= (#[trigger] all[i]).start && kept_apart(
            all[i],
            all[j],
            limit,
        ) by {
            assert(all[i] == all0[i]);
            if j <= n {
                assert(all0[j].end >= all0[i].start && kept_apart(all0[i], all0[j], limit));
            }
        }
    }
}

proof fn lemma_settled(s: Seq<Range<u64>>, limit: nat)
    requires
        s.len() > 0,
        settled(s, limit),
    ensures
        sort_by_start(s) == s,
        coalesce_state(s, limit) == Some((s.drop_last(), s.last())),
    decreases s.len(),
{
    if s.len() == 1 {
        assert(sort_by_start(s.drop_last()) =~= Seq::<Range<u64>>::empty());
        assert(sort_by_start(s) =~= s);
        assert(s.drop_last() =~= Seq::<Range<u64>>::empty());
    } else {
        let d = s.drop_last();
        let n = s.len() - 1;
        assert forall|i: int, j: int| 0 <= i <= j < d.len() implies (#[trigger] d[i]).start <= (
        #[trigger] d[j]).start by {
            assert(s[i].start <= s[j].start);
        }
        assert forall|i: int, j: int| 0 <= i && j == i + 1 && j < d.len() implies (
        #[trigger] d[j]).end >= (#[trigger] d[i]).start && kept_apart(d[i], d[j], limit) by {
            assert(s[j].end >= s[i].start && kept_apart(s[i], s[j], limit));
        }
        lemma_settled(d, limit);
        assert(d.last() == s[n - 1]);
        assert(s.last() == s[n]);
        assert(s[n - 1].start <= s[n].start);
        assert(s[n].end >= s[n - 1].start && kept_apart(s[n - 1], s[n], limit));
        assert(d.push(s.last()) =~= s);
        assert(d.drop_last().push(d.last()) =~= d);
    }
}

/// Whatever can be coalesced, each range that comes of it begins where one of the given
/// ranges begins, and ends where one of them ends.
pub proof fn law_coalesce_edges(ranges: Seq<Range<u64>>, limit: nat)
    requires
        coalescible(ranges, limit),
    ensures
        match coalesced(sort_by_start(ranges), limit) {
            Some(out) => forall|i: int| 0 <= i < out.len() ==> edged(ranges, #[trigger] out[i]),
            None => false,
        },
{
    law_sort_by_start(ranges);
    if well_formed(ranges) {
        law_coalesce(ranges, limit);
    }
    let s = sort_by_start(ranges);
    let out = coalesced(s, limit)->0;
    if s.len() > 0 {
        lemma_settles(s, limit);
        assert forall|i: int| 0 <= i < out.len() implies edged(ranges, #[trigger] out[i]) by {
            lemma_edged(s, ranges, out[i]);
        }
    }
}

/// One of the bytes from `b` on, up to the widest gap behind it, lies in a range of `s`.
pub open spec fn reached(s: Seq<Range<u64>>, b: int) -> bool {
    exists|c: int| b <= c <= b + COALESCE_GAP && #[trigger] covered(s, c)
}

/// No gap between the ranges of `s` inside `r` is wider than the widest gap.
pub open spec fn dense(s: Seq<Range<u64>>, r: Range<u64>) -> bool {
    forall|b: int| r.start <= b && b + COALESCE_GAP < r.end ==> #[trigger] reached(s, b)
}

proof fn lemma_dense(s: Seq<Range<u64>>, t: Seq<Range<u64>>, r: Range<u64>)
    requires
        dense(s, r),
        forall|x: Range<u64>| #[trigger] s.contains(x) ==> t.contains(x),
    ensures
        dense(t, r),
{
    assert forall|b: int| r.start <= b && b + COALESCE_GAP < r.end implies #[trigger] reached(
        t,
        b,
    ) by {
        assert(reached(s, b));
        let c = choose|c: int| b <= c <= b + COALESCE_GAP && #[trigger] covered(s, c);
        lemma_covered(s, t, c);
    }
}

proof fn lemma_covered(s: Seq<Range<u64>>, t: Seq<Range<u64>>, b: int)
    requires
        covered(s, b),
        forall|x: Range<u64>| #[trigger] s.contains(x) ==> t.contains(x),
    ensures
        covered(t, b),
{
    let i = choose|i: int| 0 <= i < s.len() && (#[trigger] s[i]).start <= b < s[i].end;
    assert(s.contains(s[i]));
    let j = choose|j: int| 0 <= j < t.len() && t[j] == s[i];
    assert(t[j].start <= b < t[j].end);
}

/// What holds of the gaps while ranges that have bytes are coalesced.
proof fn lemma_gaps(s: Seq<Range<u64>>, limit: nat)
    requires
        s.len() > 0,
        forall|i: int| 0 <= i < s.len() ==> (#[trigger] s[i]).start < s[i].end,
        coalesce_state(s, limit) is Some,
    ensures
        ({
            let (out, cur) = coalesce_state(s, limit)->0;
            let all = out.push(cur);
            &&& covered(s, cur.end - 1)
            &&& forall|i: int| 0 <= i < all.len() ==> dense(s, #[trigger] all[i])
        }),
    decreases s.len(),
{
    let (out, cur) = coalesce_state(s, limit)->0;
    let all = out.push(cur);
    let r = s.last();
    assert(s[s.len() - 1] == r && r.start < r.end);
    if s.len() == 1 {
        assert(s[0].start <= cur.end - 1 < s[0].end);
        assert forall|b: int| cur.start <= b && b + COALESCE_GAP < cur.end implies #[trigger] reached(
            s,
            b,
        ) by {
            assert(s[0].start <= b < s[0].end);
            assert(covered(s, b));
        }
    } else {
        let d = s.drop_last();
        assert forall|i: int| 0 <= i < d.len() implies (#[trigger] d[i]).start < d[i].end by {
            assert(s[i].start < s[i].end);
        }
        lemma_gaps(d, limit);
        let (out0, cur0) = coalesce_state(d, limit)->0;
        let all0 = out0.push(cur0);
        let n = out0.len() as int;
        assert forall|x: Range<u64>| #[trigger] d.contains(x) implies s.contains(x) by {
            let i = choose|i: int| 0 <= i < d.len() && d[i] == x;
            assert(s[i] == x);
        }
        lemma_covered(d, s, cur0.end - 1);
        assert(covered(s, r.end - 1));
        assert forall|i: int| 0 <= i < all0.len() implies dense(s, #[trigger] all0[i]) by {
            lemma_dense(d, s, all0[i]);
        }
        assert(all0[n] == cur0);
        assert(dense(s, cur)) by {
            assert forall|b: int|
                cur.start <= b && b + COALESCE_GAP < cur.end implies #[trigger] reached(s, b) by {
                let t = b + COALESCE_GAP;
                if r.start <= t < r.end {
                    assert(covered(s, t));
                } else if cur == r {
                    assert(covered(s, b));
                } else if t < cur0.end {
                    assert(dense(s, cur0));
                } else {
                    assert(b <= cur0.end - 1 <= t);
                }
            }
        }
        assert forall|i: int| 0 <= i < all.len() implies dense(s, #[trigger] all[i]) by {
            if i < out.len() {
                assert(all[i] == all0[i]);
            }
        }
    }
}

/// Of ranges that all have bytes, none that comes of coalescing reads over a gap wider
/// than [`COALESCE_GAP`]: wherever one looks inside it, a byte that was asked for is at most
/// so far away.
pub proof fn law_coalesce_gaps(ranges: Seq<Range<u64>>, limit: nat)
    requires
        forall|i: int| 0 <= i < ranges.len() ==> (#[trigger] ranges[i]).start < ranges[i].end,
    ensures
        match coalesced(sort_by_start(ranges), limit) {
            Some(out) => forall|i: int| 0 <= i < out.len() ==> dense(ranges, #[trigger] out[i]),
            None => false,
        },
{
    law_sort_by_start(ranges);
    law_coalesce(ranges, limit);
    let s = sort_by_start(ranges);
    let out = coalesced(s, limit)->0;
    if s.len() > 0 {
        assert forall|i: int| 0 <= i < s.len() implies (#[trigger] s[i]).start < s[i].end by {
            assert(s.contains(s[i]));
            let j = choose|j: int| 0 <= j < ranges.len() && ranges[j] == s[i];
            assert(ranges[j].start < ranges[j].end);
        }
        lemma_gaps(s, limit);
        assert forall|i: int| 0 <= i < out.len() implies dense(ranges, #[trigger] out[i]) by {
            lemma_dense(s, ranges, out[i]);
        }
    }
}

/// To coalesce again what was coalesced changes nothing.
pub proof fn law_coalesce_again(ranges: Seq<Range<u64>>, limit: nat)
    requires
        coalescible(ranges, limit),
    ensures
        match coalesced(sort_by_start(ranges), limit) {
            Some(out) => coalescible(out, limit) && coalesced(sort_by_start(out), limit) == Some(
                out,
            ),
            None => false,
        },
{
    law_sort_by_start(ranges);
    if well_formed(ranges) {
        law_coalesce(ranges, limit);
    }
    let s = sort_by_start(ranges);
    let out = coalesced(s, limit)->0;
    if s.len() > 0 {
        lemma_settles(s, limit);
        lemma_settled(out, limit);
        assert(out.drop_last().push(out.last()) =~= out);
    } else {
        assert(sort_by_start(out) =~= out);
    }
}

/// Puts `r` behind the last range that does not start after it.
fn insert_range(s: &mut Vec<Range<u64>>, r: Range<u64>)
    ensures
        final(s)@ == insert_by_start(old(s)@, r),
{
    let mut k = s.len();
    assert(s@.take(k as int) =~= s@);
    assert(s@.skip(k as int) =~= Seq::<Range<u64>>::empty());
    while k > 0 && s[k - 1].start > r.start
        invariant
            k <= s@.len(),
            s@ == old(s)@,
            insert_by_start(s@, r) =~= insert_by_start(s@.take(k as int), r) + s@.skip(k as int),
        decreases k,
    {
        assert(s@.take(k as int).drop_last() =~= s@.take(k - 1));
        assert(s@.take(k as int).last() == s@[k - 1]);
        assert(s@.skip(k - 1) =~= seq![s@[k - 1]] + s@.skip(k as int));
        k = k - 1;
    }
    s.insert(k, r);
    assert(s@ =~= old(s)@.take(k as int).push(r) + old(s)@.skip(k as int));
}

fn sorted_by_start(ranges: &Vec<Range<u64>>) -> (r: Vec<Range<u64>>)
    ensures
        r@ == sort_by_start(ranges@),
{
    let mut r: Vec<Range<u64>> = Vec::new();
    let mut i: usize = 0;
    assert(ranges@.take(0) =~= Seq::<Range<u64>>::empty());
    while i < ranges.len()
        invariant
            i <= ranges@.len(),
            r@ == sort_by_start(ranges@.take(i as int)),
        decreases ranges@.len() - i,
    {
        assert(ranges@.take(i + 1).drop_last() =~= ranges@.take(i as int));
        insert_range(&mut r, ranges[i].start..ranges[i].end);
        i = i + 1;
    }
    assert(ranges@.take(i as int) =~= ranges@);
    r
}

impl S3Config {
    /// The fewer, wider ranges to request in place of `ranges`: neighbours at most
    /// [`COALESCE_GAP`] bytes apart are read as one, up to the configured size.
    pub fn coalesce_ranges(&self, ranges: Vec<Range<u64>>) -> (r: Vec<Range<u64>>)
        requires
            coalescible(ranges@, coalesce_limit(self.range_coalesce_max_mib)),
        ensures
            coalesced(
                sort_by_start(ranges@),
                coalesce_limit(self.range_coalesce_max_mib),
            ) == Some(r@),
    {
        let sorted = sorted_by_start(&ranges);
        let max_bytes = (self.range_coalesce_max_mib as u64) * 1024 * 1024;
        let ghost limit = coalesce_limit(self.range_coalesce_max_mib);
        proof {
            law_sort_by_start(ranges@);
            if well_formed(ranges@) {
                law_coalesce(ranges@, limit);
            }
        }
        let mut out: Vec<Range<u64>> = Vec::new();
        if sorted.len() == 0 {
            return out;
        }
        let mut cur: Range<u64> = sorted[0].start..sorted[0].end;
        let mut i: usize = 1;
        while i < sorted.len()
            invariant
                1 <= i <= sorted@.len(),
                limit == max_bytes,
                coalesce_state(sorted@, limit) is Some,
                coalesce_state(sorted@.take(i as int), limit) == Some((out@, cur)),
            decreases sorted@.len() - i,
        {
            let ghost next = sorted@.take(i + 1);
            assert(next.drop_last() =~= sorted@.take(i as int));
            proof {
                lemma_state_prefix(sorted@, limit, i + 1);
            }
            let start = sorted[i].start;
            let end = sorted[i].end;
            let gap = start.saturating_sub(cur.end);
            let combined = end - cur.start;
            if gap <= COALESCE_GAP && combined <= max_bytes {
                let to = if end > cur.end {
                    end
                } else {
                    cur.end
                };
                cur = cur.start..to;
            } else {
                out.push(cur);
                cur = start..end;
            }
            i = i + 1;
        }
        assert(sorted@.take(i as int) =~= sorted@);
        out.push(cur);
        out
    }

    /// What a client for this configuration is built from.
    pub fn client_settings(&self) -> (r: ClientSettings)
        ensures
            r.region == self.region,
            r.endpoint == self.endpoint,
            r.force_path_style == self.endpoint is Some,
            r.credentials == (match (self.access_key_id, self.secret_access_key) {
                (Some(id), Some(secret)) => Some((id, secret)),
                _ => None,
            }),
    {
        let endpoint = match &self.endpoint {
            Some(e) => Some(e.clone()),
            None => None,
        };
        let force_path_style = endpoint.is_some();
        let credentials = match (&self.access_key_id, &self.secret_access_key) {
            (Some(id), Some(secret)) => Some((id.clone(), secret.clone())),
            _ => None,
        };
        ClientSettings { region: self.region.clone(), endpoint, force_path_style, credentials }
    }

    /// The configured engine.
    pub fn engine(&self) -> (r: Engine)
        ensures
            r == engine_named(text::opt_text(self.engine)),
    {
        match &self.engine {
            None => Engine::Sdk,
            Some(name) => if text::same(name.as_str(), "sdk") {
                Engine::Sdk
            } else if text::same(name.as_str(), "crt") {
                Engine::Crt
            } else {
                Engine::Unknown
            },
        }
    }
}

proof fn lemma_state_prefix(s: Seq<Range<u64>>, limit: nat, k: int)
    requires
        1 <= k <= s.len(),
        coalesce_state(s, limit) is Some,
    ensures
        coalesce_state(s.take(k), limit) is Some,
    decreases s.len() - k,
{
    if k < s.len() {
        lemma_state_prefix(s, limit, k + 1);
        assert(s.take(k + 1).drop_last() =~= s.take(k));
    } else {
        assert(s.take(k) =~= s);
    }
}

/// The value of the HTTP header `Range` for bytes `start` up to, not including, `end`.
pub open spec fn range_header_text(start: nat, end: nat) -> Seq<char> {
    "bytes="@ + text::decimal(start) + "-"@ + text::decimal(
        if end > 0 {
            (end - 1) as nat
        } else {
            0
        },
    )
}

/// The value of the HTTP header `Range` for bytes `start` up to, not including, `end`.
pub fn range_header(start: u64, end: u64) -> (r: String)
    ensures
        r@ == range_header_text(start as nat, end as nat),
{
    let mut r = "bytes=".to_string();
    text::push_decimal(&mut r, start);
    r.append("-");
    text::push_decimal(&mut r, end.saturating_sub(1));
    r
}

/// Whether an error of a HEAD request says that there is no such object.
pub open spec fn says_not_found(s: Seq<char>) -> bool {
    text::contains_text(s, "NotFound"@) || text::contains_text(s, "404"@)
}

/// What a failed HEAD request means: no such object, or an error.
pub fn head_failure(error: String) -> (r: Result<Option<HeadInfo>, StoreError>)
    ensures
        says_not_found(error@) ==> r == Ok::<Option<HeadInfo>, StoreError>(None),
        !says_not_found(error@) ==> r == Err::<Option<HeadInfo>, StoreError>(
            StoreError::Head(error),
        ),
{
    if text::contains(error.as_str(), "NotFound") || text::contains(error.as_str(), "404") {
        Ok(None)
    } else {
        Err(StoreError::Head(error))
    }
}

/// Whether an error of a GET request is one that may pass.
pub open spec fn may_pass(s: Seq<char>) -> bool {
    ||| text::contains_text(s, "throttl"@)
    ||| text::contains_text(s, "timeout"@)
    ||| text::contains_text(s, "500"@)
    ||| text::contains_text(s, "503"@)
}

/// What a failed GET request means for the retries.
pub enum GetFailure {
    /// Try again.
    Transient(StoreError),
    /// Give up.
    Permanent(StoreError),
}

/// Whether a failed GET request is tried again.
pub fn get_failure(error: String) -> (r: GetFailure)
    ensures
        may_pass(error@) ==> r == GetFailure::Transient(StoreError::Get(error)),
        !may_pass(error@) ==> r == GetFailure::Permanent(StoreError::Get(error)),
{
    if text::contains(error.as_str(), "throttl") || text::contains(error.as_str(), "timeout")
        || text::contains(error.as_str(), "500") || text::contains(error.as_str(), "503") {
        GetFailure::Transient(StoreError::Get(error))
    } else {
        GetFailure::Permanent(StoreError::Get(error))
    }
}

/// The error of a request whose retries came to an end with `last`.
pub fn retries_exhausted(last: &StoreError) -> (r: StoreError)
    ensures
        r is Retry,
        r->Retry_0@ == last.text(),
{
    StoreError::Retry(last.message())
}

/// How many request permits to hand out so that `rate` are available again.
pub fn budget_refill(rate: u32, available: usize) -> (r: usize)
    ensures
        r == if available < rate {
            rate - available
        } else {
            0
        },
{
    let target = rate as usize;
    if available < target {
        target - available
    } else {
        0
    }
}

/// A `Range` header names its bytes: behind `bytes=` stand two numbers with a hyphen between
/// them, the first byte and the last, and they name `end - start` bytes. Without a byte
/// before `end` the last is told as zero.
pub proof fn law_range_header(start: u64, end: u64)
    ensures
        ({
            let h = range_header_text(start as nat, end as nat);
            let k = 6 + text::decimal(start as nat).len() as int;
            &&& h.len() > k + 1
            &&& h.take(6) == "bytes="@
            &&& h[k] == '-'
            &&& text::parse_unsigned(h.subrange(6, k), u64::MAX as nat) == Some(start as nat)
            &&& text::all_digits(h.subrange(6, k))
            &&& text::all_digits(h.skip(k + 1))
            &&& text::parse_unsigned(h.skip(k + 1), u64::MAX as nat) matches Some(last)
            &&& end > 0 ==> last + 1 == end
            &&& end == 0 ==> last == 0
            &&& start < end ==> last - start + 1 == end - start
        }),
{
    reveal_strlit("bytes=");
    reveal_strlit("-");
    let h = range_header_text(start as nat, end as nat);
    let last: nat = if end > 0 {
        (end - 1) as nat
    } else {
        0
    };
    let k = 6 + text::decimal(start as nat).len() as int;
    text::lemma_decimal(start as nat);
    text::lemma_decimal(last);
    text::law_parse_decimal(start as nat, 0, u64::MAX as nat);
    text::law_parse_decimal(last, 0, u64::MAX as nat);
    assert(h.take(6) =~= "bytes="@);
    assert(h.subrange(6, k) =~= text::decimal(start as nat));
    assert(h.skip(k + 1) =~= text::decimal(last));
}

/// The text has `p` in it, with something, perhaps nothing, before and behind.
pub open spec fn speaks_of(s: Seq<char>, p: Seq<char>) -> bool {
    exists|a: Seq<char>, b: Seq<char>| s == #[trigger] (a + p + b)
}

proof fn lemma_speaks_of(s: Seq<char>, p: Seq<char>)
    ensures
        speaks_of(s, p) <==> text::contains_text(s, p),
{
    text::law_contains_text(s, Seq::empty(), p, Seq::empty());
    if speaks_of(s, p) {
        let (a, b) = choose|a: Seq<char>, b: Seq<char>| s == #[trigger] (a + p + b);
        text::law_contains_text(s, a, p, b);
    }
}

/// An error may pass if and only if it speaks of throttling, a timeout or one of the
/// statuses 500 and 503, wherever in its text; and it says that there is no such object if
/// and only if it speaks of `NotFound` or 404.
pub proof fn law_errors_read(s: Seq<char>)
    ensures
        may_pass(s) <==> speaks_of(s, "throttl"@) || speaks_of(s, "timeout"@) || speaks_of(
            s,
            "500"@,
        ) || speaks_of(s, "503"@),
        says_not_found(s) <==> speaks_of(s, "NotFound"@) || speaks_of(s, "404"@),
{
    lemma_speaks_of(s, "throttl"@);
    lemma_speaks_of(s, "timeout"@);
    lemma_speaks_of(s, "500"@);
    lemma_speaks_of(s, "503"@);
    lemma_speaks_of(s, "NotFound"@);
    lemma_speaks_of(s, "404"@);
}

/// An error is told with what it is of, and in full.
pub proof fn law_error_texts(e: StoreError)
    ensures
        match e {
            StoreError::Client(s) => e.text() == "client error: "@ + s@,
            StoreError::Get(s) => e.text() == "get error: "@ + s@,
            StoreError::Head(s) => e.text() == "head error: "@ + s@,
            StoreError::Budget(s) => e.text() == "budget exceeded: "@ + s@,
            StoreError::Retry(s) => e.text() == "retry exhausted: "@ + s@,
            StoreError::NotImplemented => e.text() == "not implemented"@,
        },
{
}

/// Without a name the SDK is meant, as with its own; every other name but `crt` is unknown.
pub proof fn law_engine(name: Option<Seq<char>>)
    ensures
        engine_named(name) is Sdk <==> name is None || name == Some("sdk"@),
        engine_named(name) is Crt <==> name == Some("crt"@),
{
    reveal_strlit("sdk");
    reveal_strlit("crt");
    assert("sdk"@[0] != "crt"@[0]);
}

/// A MiB of the limit is 1024 times 1024 bytes.
pub proof fn law_coalesce_limit(mib: u32)
    ensures
        coalesce_limit(mib) == mib * 1048576,
{
}

/// Of two neighbours that come of coalescing, more than 64 KiB lie between them, or they
/// would be longer than the limit together. No range but one that was asked for as it is is
/// longer than the limit, and no byte that was asked for is missing.
pub proof fn law_coalesced_apart(ranges: Seq<Range<u64>>, mib: u32)
    requires
        forall|i: int| 0 <= i < ranges.len() ==> (#[trigger] ranges[i]).start <= ranges[i].end,
    ensures
        match coalesced(sort_by_start(ranges), coalesce_limit(mib)) {
            Some(out) => {
                &&& forall|i: int, j: int|
                    0 <= i && j == i + 1 && j < out.len() ==> (#[trigger] out[j]).start - (
                    #[trigger] out[i]).end > 65536 || out[j].end - out[i].start > mib * 1048576
                &&& forall|i: int|
                    0 <= i < out.len() ==> ranges.contains(#[trigger] out[i]) || out[i].end
                        - out[i].start <= mib * 1048576
                &&& forall|i: int, b: int|
                    0 <= i < ranges.len() && (#[trigger] ranges[i]).start <= b < ranges[i].end
                        ==> #[trigger] covered(out, b)
                &&& ranges.len() > 0 ==> out.len() > 0
            },
            None => false,
        },
{
    law_coalesce(ranges, coalesce_limit(mib));
    law_sort_by_start(ranges);
    let out = coalesced(sort_by_start(ranges), coalesce_limit(mib))->0;
    assert forall|i: int, j: int| 0 <= i && j == i + 1 && j < out.len() implies (
    #[trigger] out[j]).start - (#[trigger] out[i]).end > 65536 || out[j].end - out[i].start > mib
        * 1048576 by {
        assert(kept_apart(out[i], out[j], coalesce_limit(mib)));
    }
    assert forall|i: int, b: int|
        0 <= i < ranges.len() && (#[trigger] ranges[i]).start <= b < ranges[i].end implies #[trigger] covered(
        out,
        b,
    ) by {
        assert(covered(ranges, b));
    }
}

} // verus!
