//! Getting a range of an object from the store: within a budget of requests, with a
//! bound on those under way, and, unless the bytes are streamed, with a bounded number of
//! tries.
use crate::store;
use crate::store::{may_pass, range_header_text, GetFailure, StoreError};
use vstd::prelude::*;

verus! {

/// Outside work that a request waits for.
#[derive(Debug)]
pub enum FetchAction {
    /// Wait for a permit of the budget.
    AcquireBudget,
    /// Wait for a permit to have one more request under way.
    AcquireSlot,
    /// Send a GET for the object, with this `Range` header.
    Send { key: String, range: String },
    /// Collect the body of the answer.
    Collect,
    /// Wait before the next try, or learn that there is none.
    Backoff,
    /// Hand the body of the answer out as a stream.
    Stream,
    /// The stream is gone.
    Close,
    Return(Vec<u8>),
    Fail(StoreError),
}

/// What a [`FetchAction`] asks for; of an error, its text.
pub enum FetchActionView {
    AcquireBudget,
    AcquireSlot,
    Send { key: Seq<char>, range: Seq<char> },
    Collect,
    Backoff,
    Stream,
    Close,
    Return(Seq<u8>),
    Fail(Seq<char>),
}

impl View for FetchAction {
    type V = FetchActionView;

    open spec fn view(&self) -> FetchActionView {
        match self {
            FetchAction::AcquireBudget => FetchActionView::AcquireBudget,
            FetchAction::AcquireSlot => FetchActionView::AcquireSlot,
            FetchAction::Send { key, range } => FetchActionView::Send { key: key@, range: range@ },
            FetchAction::Collect => FetchActionView::Collect,
            FetchAction::Backoff => FetchActionView::Backoff,
            FetchAction::Stream => FetchActionView::Stream,
            FetchAction::Close => FetchActionView::Close,
            FetchAction::Return(b) => FetchActionView::Return(b@),
            FetchAction::Fail(e) => FetchActionView::Fail(e.text()),
        }
    }
}

/// What came of a [`FetchAction`]; `Begin` comes before the first one.
#[derive(Debug)]
pub enum FetchEvent {
    Begin,
    /// The permit is had.
    Acquired,
    /// There are no more permits, for this reason.
    Closed(String),
    /// The answer has begun.
    Sent,
    SendFailed(String),
    Body(Vec<u8>),
    BodyFailed(String),
    /// The time before the next try has passed.
    Again,
    /// The tries have taken too long.
    GiveUp,
    /// The stream was dropped.
    Dropped,
}

/// What a [`FetchEvent`] tells.
pub enum FetchEventView {
    Begin,
    Acquired,
    Closed(Seq<char>),
    Sent,
    SendFailed(Seq<char>),
    Body(Seq<u8>),
    BodyFailed(Seq<char>),
    Again,
    GiveUp,
    Dropped,
}

impl View for FetchEvent {
    type V = FetchEventView;

    open spec fn view(&self) -> FetchEventView {
        match self {
            FetchEvent::Begin => FetchEventView::Begin,
            FetchEvent::Acquired => FetchEventView::Acquired,
            FetchEvent::Closed(t) => FetchEventView::Closed(t@),
            FetchEvent::Sent => FetchEventView::Sent,
            FetchEvent::SendFailed(t) => FetchEventView::SendFailed(t@),
            FetchEvent::Body(b) => FetchEventView::Body(b@),
            FetchEvent::BodyFailed(t) => FetchEventView::BodyFailed(t@),
            FetchEvent::Again => FetchEventView::Again,
            FetchEvent::GiveUp => FetchEventView::GiveUp,
            FetchEvent::Dropped => FetchEventView::Dropped,
        }
    }
}

#[derive(Debug)]
enum Phase {
    Start,
    Budget,
    Slot,
    Sending,
    Collecting,
    Waiting(StoreError),
    Streaming,
    Over,
}

/// How far a request is.
pub enum FetchPhase {
    Start,
    Budget,
    Slot,
    Sending,
    Collecting,
    /// The last try failed with an error of this text.
    Waiting(Seq<char>),
    /// The body is out as a stream.
    Streaming,
    Over,
}

/// A request for a range of an object.
#[derive(Debug)]
pub struct Fetch {
    key: String,
    start: u64,
    end: u64,
    streamed: bool,
    max_attempts: u32,
    sent: u32,
    phase: Phase,
}

/// What is known of a request for a range of an object.
pub struct FetchView {
    pub key: Seq<char>,
    pub start: u64,
    pub end: u64,
    pub streamed: bool,
    /// How many tries there are; the first is always made.
    pub max_attempts: u32,
    /// How often the GET was sent.
    pub sent: int,
    pub phase: FetchPhase,
}

impl View for Fetch {
    type V = FetchView;

    closed spec fn view(&self) -> FetchView {
        FetchView {
            key: self.key@,
            start: self.start,
            end: self.end,
            streamed: self.streamed,
            max_attempts: self.max_attempts,
            sent: self.sent as int,
            phase: match self.phase {
                Phase::Start => FetchPhase::Start,
                Phase::Budget => FetchPhase::Budget,
                Phase::Slot => FetchPhase::Slot,
                Phase::Sending => FetchPhase::Sending,
                Phase::Collecting => FetchPhase::Collecting,
                Phase::Waiting(e) => FetchPhase::Waiting(e.text()),
                Phase::Streaming => FetchPhase::Streaming,
                Phase::Over => FetchPhase::Over,
            },
        }
    }
}

impl FetchView {
    pub open spec fn at(self, phase: FetchPhase) -> FetchView {
        FetchView { phase, ..self }
    }

    /// The most that the GET is sent.
    pub open spec fn tries(self) -> int {
        if self.streamed || self.max_attempts == 0 {
            1
        } else {
            self.max_attempts as int
        }
    }

    pub open spec fn wf(self) -> bool {
        &&& 0 <= self.sent <= self.tries()
        &&& match self.phase {
            FetchPhase::Start | FetchPhase::Budget | FetchPhase::Slot => self.sent == 0,
            FetchPhase::Sending => self.sent > 0,
            FetchPhase::Collecting => self.sent > 0 && !self.streamed,
            FetchPhase::Waiting(_) => 0 < self.sent < self.max_attempts && !self.streamed,
            FetchPhase::Streaming => self.sent > 0 && self.streamed,
            FetchPhase::Over => true,
        }
    }

    /// The request is under way: it has its slot from the moment it gets it until it
    /// returns or fails, or, if its body is out as a stream, until the stream is dropped.
    pub open spec fn under_way(self) -> bool {
        self.phase is Sending || self.phase is Collecting || self.phase is Waiting
            || self.phase is Streaming
    }
}

pub open spec fn send(v: FetchView) -> (FetchView, FetchActionView) {
    (
        FetchView { sent: v.sent + 1, phase: FetchPhase::Sending, ..v },
        FetchActionView::Send {
            key: v.key,
            range: range_header_text(v.start as nat, v.end as nat),
        },
    )
}

pub open spec fn fail(v: FetchView, message: Seq<char>) -> (FetchView, FetchActionView) {
    (v.at(FetchPhase::Over), FetchActionView::Fail(message))
}

/// The error that a failed GET is told as.
pub open spec fn get_error(t: Seq<char>) -> Seq<char> {
    "get error: "@ + t
}

/// The error of a request that is not tried again.
pub open spec fn retry_error(last: Seq<char>) -> Seq<char> {
    "retry exhausted: "@ + last
}

/// What follows when a try failed with an error that may pass: the next one, as long as
/// there is one.
pub open spec fn try_failed(v: FetchView, t: Seq<char>) -> (FetchView, FetchActionView) {
    if v.sent < v.max_attempts {
        (v.at(FetchPhase::Waiting(get_error(t))), FetchActionView::Backoff)
    } else {
        fail(v, retry_error(get_error(t)))
    }
}

/// What follows when a GET cannot be sent: a streamed one fails; another is tried again if
/// the error may pass.
pub open spec fn send_failed(v: FetchView, t: Seq<char>) -> (FetchView, FetchActionView) {
    if v.streamed {
        fail(v, get_error(t))
    } else if may_pass(t) {
        try_failed(v, t)
    } else {
        fail(v, retry_error(get_error(t)))
    }
}

/// The next state and what is to be done; nothing, if the event does not answer what was
/// asked.
pub open spec fn fetch_next(v: FetchView, e: FetchEventView) -> Option<
    (FetchView, FetchActionView),
> {
    match (v.phase, e) {
        (FetchPhase::Start, FetchEventView::Begin) => Some(
            (v.at(FetchPhase::Budget), FetchActionView::AcquireBudget),
        ),
        (FetchPhase::Budget, FetchEventView::Acquired) => Some(
            (v.at(FetchPhase::Slot), FetchActionView::AcquireSlot),
        ),
        (FetchPhase::Budget, FetchEventView::Closed(t)) => Some(
            fail(v, "budget exceeded: "@ + t),
        ),
        (FetchPhase::Slot, FetchEventView::Acquired) => Some(send(v)),
        (FetchPhase::Slot, FetchEventView::Closed(t)) => Some(fail(v, "client error: "@ + t)),
        (FetchPhase::Sending, FetchEventView::Sent) => Some(
            if v.streamed {
                (v.at(FetchPhase::Streaming), FetchActionView::Stream)
            } else {
                (v.at(FetchPhase::Collecting), FetchActionView::Collect)
            },
        ),
        (FetchPhase::Sending, FetchEventView::SendFailed(t)) => Some(send_failed(v, t)),
        (FetchPhase::Collecting, FetchEventView::Body(b)) => Some(
            (v.at(FetchPhase::Over), FetchActionView::Return(b)),
        ),
        (FetchPhase::Collecting, FetchEventView::BodyFailed(t)) => Some(try_failed(v, t)),
        (FetchPhase::Waiting(_), FetchEventView::Again) => Some(send(v)),
        (FetchPhase::Waiting(last), FetchEventView::GiveUp) => Some(fail(v, retry_error(last))),
        (FetchPhase::Streaming, FetchEventView::Dropped) => Some(
            (v.at(FetchPhase::Over), FetchActionView::Close),
        ),
        _ => None,
    }
}

impl Fetch {
    pub closed spec fn inv(&self) -> bool {
        self@.wf()
    }

    /// A request for the bytes `start..end` of the object, to be collected with so many
    /// tries, or streamed. The first try is always made.
    pub fn new(key: &str, start: u64, end: u64, streamed: bool, max_attempts: u32) -> (r: Fetch)
        ensures
            r@ == (FetchView {
                key: key@,
                start,
                end,
                streamed,
                max_attempts,
                sent: 0,
                phase: FetchPhase::Start,
            }),
            r.inv(),
    {
        Fetch {
            key: key.to_string(),
            start,
            end,
            streamed,
            max_attempts,
            sent: 0,
            phase: Phase::Start,
        }
    }

    /// Whether the request is under way.
    pub fn under_way(&self) -> (r: bool)
        ensures
            r == self@.under_way(),
    {
        match self.phase {
            Phase::Sending | Phase::Collecting | Phase::Waiting(_) | Phase::Streaming => true,
            Phase::Start | Phase::Budget | Phase::Slot | Phase::Over => false,
        }
    }

    fn send(&mut self) -> (r: FetchAction)
        requires
            0 <= old(self)@.sent < old(self)@.tries(),
        ensures
            (final(self)@, r@) == send(old(self)@),
    {
        self.sent = self.sent + 1;
        self.phase = Phase::Sending;
        FetchAction::Send {
            key: self.key.clone(),
            range: store::range_header(self.start, self.end),
        }
    }

    fn try_failed(&mut self, e: StoreError, Ghost(t): Ghost<Seq<char>>) -> (r: FetchAction)
        requires
            old(self)@.phase is Over,
            e.text() == get_error(t),
        ensures
            (final(self)@, r@) == try_failed(old(self)@, t),
    {
        if self.sent < self.max_attempts {
            self.phase = Phase::Waiting(e);
            FetchAction::Backoff
        } else {
            FetchAction::Fail(store::retries_exhausted(&e))
        }
    }

    /// Takes in what came of the last action and says what is to be done next; nothing,
    /// if the event does not answer it.
    pub fn step(&mut self, event: FetchEvent) -> (r: Option<FetchAction>)
        requires
            old(self).inv(),
        ensures
            match fetch_next(old(self)@, event@) {
                Some((v, a)) => r is Some && r->0@ == a && final(self)@ == v,
                None => r is None && final(self)@ == old(self)@.at(FetchPhase::Over),
            },
            final(self).inv(),
    {
        let mut phase = Phase::Over;
        core::mem::swap(&mut phase, &mut self.phase);
        match phase {
            Phase::Start => match event {
                FetchEvent::Begin => {
                    self.phase = Phase::Budget;
                    Some(FetchAction::AcquireBudget)
                },
                _ => None,
            },
            Phase::Budget => match event {
                FetchEvent::Acquired => {
                    self.phase = Phase::Slot;
                    Some(FetchAction::AcquireSlot)
                },
                FetchEvent::Closed(t) => Some(FetchAction::Fail(StoreError::Budget(t))),
                _ => None,
            },
            Phase::Slot => match event {
                FetchEvent::Acquired => Some(self.send()),
                FetchEvent::Closed(t) => Some(FetchAction::Fail(StoreError::Client(t))),
                _ => None,
            },
            Phase::Sending => match event {
                FetchEvent::Sent => {
                    if self.streamed {
                        self.phase = Phase::Streaming;
                        Some(FetchAction::Stream)
                    } else {
                        self.phase = Phase::Collecting;
                        Some(FetchAction::Collect)
                    }
                },
                FetchEvent::SendFailed(t) => {
                    if self.streamed {
                        Some(FetchAction::Fail(StoreError::Get(t)))
                    } else {
                        match store::get_failure(t) {
                            GetFailure::Transient(e) => Some(self.try_failed(e, Ghost(t@))),
                            GetFailure::Permanent(e) => Some(
                                FetchAction::Fail(store::retries_exhausted(&e)),
                            ),
                        }
                    }
                },
                _ => None,
            },
            Phase::Collecting => match event {
                FetchEvent::Body(b) => Some(FetchAction::Return(b)),
                FetchEvent::BodyFailed(t) => {
                    let e = StoreError::Get(t);
                    Some(self.try_failed(e, Ghost(t@)))
                },
                _ => None,
            },
            Phase::Waiting(last) => match event {
                FetchEvent::Again => Some(self.send()),
                FetchEvent::GiveUp => Some(FetchAction::Fail(store::retries_exhausted(&last))),
                _ => None,
            },
            Phase::Streaming => match event {
                FetchEvent::Dropped => Some(FetchAction::Close),
                _ => None,
            },
            Phase::Over => None,
        }
    }
}

/// The most bytes that are read from the source of a stream at a time.
pub const STREAM_CHUNK: usize = 65536;

/// What a stream gives for one read of its source: nothing more at the end, else the
/// bytes or the error. Its chunks are no longer than what was read.
pub fn stream_item(read: Result<Vec<u8>, String>) -> (r: Option<Result<Vec<u8>, StoreError>>)
    ensures
        match read {
            Ok(b) => if b@.len() == 0 {
                r is None
            } else {
                r is Some && r->0 is Ok && r->0->Ok_0@ == b@
            },
            Err(t) => r is Some && r->0 is Err && r->0->Err_0.text() == get_error(t@),
        },
        read is Ok && read->Ok_0@.len() <= STREAM_CHUNK && r is Some ==> r->0 is Ok && 0
            < r->0->Ok_0@.len() <= STREAM_CHUNK,
{
    match read {
        Ok(b) => if b.len() == 0 {
            None
        } else {
            Some(Ok(b))
        },
        Err(t) => Some(Err(StoreError::Get(t))),
    }
}

/// Where a request is after these events, and what it then asks for.
pub open spec fn fetch_run(v: FetchView, events: Seq<FetchEventView>) -> Option<
    (FetchView, FetchActionView),
>
    decreases events.len(),
{
    if events.len() == 0 {
        None
    } else if events.len() == 1 {
        fetch_next(v, events[0])
    } else {
        match fetch_run(v, events.drop_last()) {
            Some((u, _)) => fetch_next(u, events.last()),
            None => None,
        }
    }
}

/// How often these events made a request send its GET.
pub open spec fn sends(v: FetchView, events: Seq<FetchEventView>) -> int
    decreases events.len(),
{
    if events.len() == 0 {
        0
    } else {
        sends(v, events.drop_last()) + match fetch_run(v, events) {
            Some((_, FetchActionView::Send { .. })) => 1int,
            _ => 0,
        }
    }
}

/// Nothing was asked for yet.
pub open spec fn fresh(v: FetchView) -> bool {
    v.phase is Start && v.sent == 0
}

/// A GET is sent only once both permits are had, asks for the range that was wanted, and,
/// behind the first, only after a try that failed with an error that may pass, or whose
/// body broke off.
pub proof fn law_send(v: FetchView, events: Seq<FetchEventView>)
    requires
        fresh(v),
        fetch_run(v, events) is Some,
    ensures
        match fetch_run(v, events) {
            Some((u, a)) => {
                &&& a is Send ==> {
                    &&& a == send(v).1
                    &&& events.len() >= 3
                    &&& events[1] is Acquired
                    &&& events[2] is Acquired
                    &&& events.len() > 3 ==> !v.streamed && match events[events.len() - 2] {
                        FetchEventView::SendFailed(t) => may_pass(t),
                        FetchEventView::BodyFailed(_) => true,
                        _ => false,
                    }
                }
                &&& same_request(v, u)
            },
            None => false,
        },
{
    lemma_fetch(v, events);
}

/// A request sends its GET no more often than it has tries, and a streamed one once; when
/// the last try fails with an error that may pass, the request fails with it.
pub proof fn law_tries(v: FetchView, events: Seq<FetchEventView>)
    requires
        fresh(v),
        fetch_run(v, events) is Some,
    ensures
        sends(v, events) <= v.tries(),
        match fetch_run(v, events) {
            Some((u, _)) => {
                &&& u.wf()
                &&& u.sent == sends(v, events)
                &&& forall|t: Seq<char>|
                    u.phase is Sending && !v.streamed && sends(v, events) == v.tries() && may_pass(
                        t,
                    ) ==> #[trigger] fetch_next(u, FetchEventView::SendFailed(t)) == Some(
                        fail(u, retry_error(get_error(t))),
                    )
                &&& forall|t: Seq<char>|
                    u.phase is Collecting && sends(v, events) == v.tries()
                        ==> #[trigger] fetch_next(u, FetchEventView::BodyFailed(t)) == Some(
                        fail(u, retry_error(get_error(t))),
                    )
            },
            None => false,
        },
{
    lemma_fetch(v, events);
}

/// The two are for the same range of the same object.
pub open spec fn same_request(v: FetchView, u: FetchView) -> bool {
    u.key == v.key && u.start == v.start && u.end == v.end && u.streamed == v.streamed
        && u.max_attempts == v.max_attempts
}

proof fn lemma_fetch(v: FetchView, events: Seq<FetchEventView>)
    requires
        fresh(v),
        fetch_run(v, events) is Some,
    ensures
        match fetch_run(v, events) {
            Some((u, a)) => {
                &&& same_request(v, u)
                &&& u.wf()
                &&& u.sent == sends(v, events)
                &&& u.phase is Start ==> false
                &&& u.phase is Budget ==> events.len() == 1
                &&& u.phase is Slot ==> events.len() == 2 && events[1] is Acquired
                &&& u.under_way() ==> {
                    &&& events.len() >= 3
                    &&& events[1] is Acquired
                    &&& events[2] is Acquired
                }
                &&& u.phase is Waiting ==> match events.last() {
                    FetchEventView::SendFailed(t) => may_pass(t),
                    FetchEventView::BodyFailed(_) => true,
                    _ => false,
                }
                &&& a is Send <==> u.phase is Sending
                &&& u.phase is Sending ==> a == send(v).1 && (events.len() > 3 ==> !v.streamed
                    && match events[events.len() - 2] {
                    FetchEventView::SendFailed(t) => may_pass(t),
                    FetchEventView::BodyFailed(_) => true,
                    _ => false,
                })
            },
            None => false,
        },
    decreases events.len(),
{
    if events.len() == 1 {
        assert(events.drop_last() =~= Seq::<FetchEventView>::empty());
        assert(sends(v, events.drop_last()) == 0);
    } else {
        let before = events.drop_last();
        assert(fetch_run(v, before) is Some);
        lemma_fetch(v, before);
        assert(before.last() == events[events.len() - 2]);
        assert(before.len() > 1 ==> before[1] == events[1]);
        assert(before.len() > 2 ==> before[2] == events[2]);
    }
}

/// An error of this text may pass: it speaks of throttling, a timeout, or status 500 or 503.
pub open spec fn passing(t: Seq<char>) -> bool {
    store::speaks_of(t, "throttl"@) || store::speaks_of(t, "timeout"@) || store::speaks_of(t, "500"@)
        || store::speaks_of(t, "503"@)
}

proof fn lemma_passing(t: Seq<char>)
    ensures
        passing(t) <==> may_pass(t),
{
    store::law_errors_read(t);
}

/// Every GET that is sent is for the object and the bytes that were asked for.
pub proof fn law_sends_range(v: FetchView, events: Seq<FetchEventView>)
    requires
        v.phase is Start,
        v.sent == 0,
    ensures
        match fetch_run(v, events) {
            Some((_, FetchActionView::Send { key, range })) => key == v.key && range
                == range_header_text(v.start as nat, v.end as nat),
            _ => true,
        },
{
    if fetch_run(v, events) is Some {
        lemma_fetch(v, events);
    }
}

/// A request that is collected and whose GET was sent fewer times than it has tries goes on:
/// after an error that may pass, or a body that broke off, it waits, and sends the GET once
/// more when it is time. With no try left it fails with the last error, as it does when it
/// is given up.
pub proof fn law_tries_again(v: FetchView, events: Seq<FetchEventView>, t: Seq<char>)
    requires
        v.phase is Start,
        v.sent == 0,
        !v.streamed,
        fetch_run(v, events) is Some,
        passing(t),
    ensures
        ({
            let n = sends(v, events);
            let more = n < v.max_attempts;
            let (u, a) = fetch_run(v, events)->0;
            &&& a is Send ==> {
                &&& fetch_next(u, FetchEventView::SendFailed(t)) matches Some((w, b))
                &&& more ==> b is Backoff && sends_again(v, w, t)
                &&& !more ==> b == FetchActionView::Fail(
                    "retry exhausted: "@ + ("get error: "@ + t),
                )
            }
            &&& forall|s: Seq<char>|
                a is Collect ==> {
                    &&& #[trigger] fetch_next(u, FetchEventView::BodyFailed(s)) matches Some((w, b))
                    &&& more ==> b is Backoff && sends_again(v, w, s)
                    &&& !more ==> b == FetchActionView::Fail(
                        "retry exhausted: "@ + ("get error: "@ + s),
                    )
                }
        }),
{
    lemma_fetch(v, events);
    lemma_passing(t);
    lemma_asked(v, events);
}

/// A request that waits sends its GET again when it is time, and fails with the last error
/// when it is given up.
pub open spec fn sends_again(v: FetchView, w: FetchView, t: Seq<char>) -> bool {
    &&& fetch_next(w, FetchEventView::Again) matches Some((
        _,
        FetchActionView::Send { key, range },
    ))
    &&& key == v.key
    &&& range == range_header_text(v.start as nat, v.end as nat)
    &&& fetch_next(w, FetchEventView::GiveUp) matches Some((_, FetchActionView::Fail(m)))
    &&& m == "retry exhausted: "@ + ("get error: "@ + t)
}

/// Which answer a request waits for, by what it asks for.
proof fn lemma_asked(v: FetchView, events: Seq<FetchEventView>)
    requires
        v.phase is Start,
        v.sent == 0,
        fetch_run(v, events) is Some,
    ensures
        match fetch_run(v, events) {
            Some((u, a)) => {
                &&& a is AcquireBudget <==> u.phase is Budget
                &&& a is AcquireSlot <==> u.phase is Slot
                &&& a is Collect <==> u.phase is Collecting
                &&& a is Backoff <==> u.phase is Waiting
                &&& a is Stream <==> u.phase is Streaming
            },
            None => false,
        },
{
    if events.len() > 1 {
        lemma_fetch(v, events.drop_last());
    }
}

/// A request goes its way: it waits for a token and for a slot, sends its GET, and returns
/// the body, or hands it out as a stream until that is dropped.
pub proof fn law_fetch_goes_on(v: FetchView, events: Seq<FetchEventView>, b: Seq<u8>, t: Seq<char>)
    requires
        v.phase is Start,
        v.sent == 0,
    ensures
        fetch_next(v, FetchEventView::Begin) matches Some((_, a)) && a is AcquireBudget,
        fetch_run(v, events) matches Some((u, a)) ==> {
            &&& a is AcquireBudget ==> {
                &&& fetch_next(u, FetchEventView::Acquired) matches Some((_, n))
                &&& n is AcquireSlot
                &&& fetch_next(u, FetchEventView::Closed(t)) matches Some((_, f))
                &&& f == FetchActionView::Fail("budget exceeded: "@ + t)
            }
            &&& a is AcquireSlot ==> {
                &&& fetch_next(u, FetchEventView::Acquired) matches Some((_, n))
                &&& n is Send
                &&& fetch_next(u, FetchEventView::Closed(t)) matches Some((_, f))
                &&& f == FetchActionView::Fail("client error: "@ + t)
            }
            &&& a is Send ==> {
                &&& fetch_next(u, FetchEventView::Sent) matches Some((_, n))
                &&& v.streamed ==> n is Stream
                &&& !v.streamed ==> n is Collect
                &&& fetch_next(u, FetchEventView::SendFailed(t)) matches Some((_, f))
                &&& v.streamed ==> f == FetchActionView::Fail("get error: "@ + t)
                &&& !v.streamed && !passing(t) ==> f == FetchActionView::Fail(
                    "retry exhausted: "@ + ("get error: "@ + t),
                )
            }
            &&& a is Collect ==> {
                &&& fetch_next(u, FetchEventView::Body(b)) matches Some((_, n))
                &&& n == FetchActionView::Return(b)
            }
            &&& a is Stream ==> {
                &&& fetch_next(u, FetchEventView::Dropped) matches Some((_, n))
                &&& n is Close
            }
        },
{
    lemma_passing(t);
    if fetch_run(v, events) is Some {
        lemma_fetch(v, events);
        lemma_asked(v, events);
    }
}

/// A request fails, or returns, only for a reason: no more permits, a failed GET that may
/// not be tried again or has no try left, or because it was given up; and it returns the
/// body that came.
pub proof fn law_fetch_ends(v: FetchView, events: Seq<FetchEventView>)
    requires
        v.phase is Start,
        v.sent == 0,
        fetch_run(v, events) is Some,
    ensures
        match fetch_run(v, events) {
            Some((_, FetchActionView::Fail(_))) => match events.last() {
                FetchEventView::Closed(_) | FetchEventView::GiveUp => true,
                FetchEventView::SendFailed(t) => v.streamed || !passing(t) || sends(v, events)
                    >= v.max_attempts,
                FetchEventView::BodyFailed(_) => !v.streamed && sends(v, events) >= v.max_attempts,
                _ => false,
            },
            Some((_, FetchActionView::Return(b))) => events.last() == FetchEventView::Body(b),
            _ => true,
        },
        sends(v, events) <= 1 || (!v.streamed && sends(v, events) <= v.max_attempts),
{
    lemma_fetch(v, events);
    if let FetchEventView::SendFailed(t) = events.last() {
        lemma_passing(t);
    }
    if events.len() > 1 {
        lemma_fetch(v, events.drop_last());
    }
}

/// A slot is held from the GET on until the request returns, fails or, as a stream, is
/// dropped: not while a permit is waited for, and always between.
pub proof fn law_under_way(v: FetchView, events: Seq<FetchEventView>)
    requires
        v.phase is Start,
        v.sent == 0,
        fetch_run(v, events) is Some,
    ensures
        match fetch_run(v, events) {
            Some((u, a)) => u.under_way() <==> a is Send || a is Collect || a is Backoff
                || a is Stream,
            None => false,
        },
{
    lemma_fetch(v, events);
    lemma_asked(v, events);
}

} // verus!
