//! Perfetto-compatible trace recording: the recorder's event log and the
//! decisions behind it (thread ids, guest span ids, span events).
//!
//! The recorder here owns its state and is changed through `&mut self`;
//! sharing it between threads, writing the trace files and recording a span
//! when its guard is dropped are left to the caller.

use std::collections::HashMap;
use std::time::{Duration, Instant};
use vstd::prelude::*;
use crate::string_map::{keys_distinct, lemma_listing_map_index, lemma_listing_map_insert, lemma_listing_map_empty, listing_has, listing_map, StrMap};
use crate::text_order::{compare_text, KeyOrder};

verus! {

broadcast use vstd::std_specs::hash::group_hash_axioms;

/// Process id used on every event.
pub const DEFAULT_PID: u32 = 1;

#[verifier::external_type_specification]
#[verifier::external_body]
pub struct ExInstant(Instant);

/// Calls `Instant::now`. Nothing is claimed of the value.
#[verifier::external_body]
fn clock_now() -> Instant {
    Instant::now()
}

/// Calls `Instant::elapsed` on `start`. Nothing is claimed of the value: it
/// depends on the clock.
#[verifier::external_body]
fn elapsed_since(start: &Instant) -> Duration {
    start.elapsed()
}

/// Calls `Duration::as_micros`: the whole microseconds in `d`. Nothing is
/// claimed of the value, as a `Duration` has no view here.
#[verifier::external_body]
fn whole_micros(d: &Duration) -> u128 {
    d.as_micros()
}

// ---------------------------------------------------------------------------
// Events
// ---------------------------------------------------------------------------

/// The phase of a trace event ("M", "i", "B", "E" and "X" in the file).
#[derive(Clone, Copy, Debug, PartialEq, Eq, Structural)]
pub enum EventPhase {
    Metadata,
    Instant,
    Begin,
    End,
    Complete,
}

/// The letter that stands for a phase in the trace file.
pub open spec fn phase_text(ph: EventPhase) -> Seq<char> {
    match ph {
        EventPhase::Metadata => "M"@,
        EventPhase::Instant => "i"@,
        EventPhase::Begin => "B"@,
        EventPhase::End => "E"@,
        EventPhase::Complete => "X"@,
    }
}

/// The letter that stands for a phase in the trace file.
pub fn phase_code(ph: EventPhase) -> (r: &'static str)
    ensures
        r@ == phase_text(ph),
{
    match ph {
        EventPhase::Metadata => "M",
        EventPhase::Instant => "i",
        EventPhase::Begin => "B",
        EventPhase::End => "E",
        EventPhase::Complete => "X",
    }
}

/// One entry of the trace file.
#[derive(Clone, Debug)]
pub struct PerfettoEvent {
    pub name: String,
    pub cat: String,
    pub ph: EventPhase,
    pub ts: u64,
    pub pid: u32,
    pub tid: u32,
    pub dur: Option<u64>,
    pub args: StrMap,
}

/// An event as plain values.
pub struct EventView {
    pub name: Seq<char>,
    pub cat: Seq<char>,
    pub ph: EventPhase,
    pub ts: u64,
    pub pid: u32,
    pub tid: u32,
    pub dur: Option<u64>,
    pub args: Map<Seq<char>, Seq<char>>,
}

impl View for PerfettoEvent {
    type V = EventView;

    open spec fn view(&self) -> EventView {
        EventView {
            name: self.name@,
            cat: self.cat@,
            ph: self.ph,
            ts: self.ts,
            pid: self.pid,
            tid: self.tid,
            dur: self.dur,
            args: self.args@,
        }
    }
}

/// A guest span that has begun and not yet ended.
#[derive(Clone, Debug)]
pub struct ActiveGuestSpan {
    pub category: String,
    pub name: String,
    pub tid: u32,
}

pub struct SpanView {
    pub category: Seq<char>,
    pub name: Seq<char>,
    pub tid: u32,
}

impl View for ActiveGuestSpan {
    type V = SpanView;

    open spec fn view(&self) -> SpanView {
        SpanView { category: self.category@, name: self.name@, tid: self.tid }
    }
}

// ---------------------------------------------------------------------------
// The recorder state as plain values, and what each operation does to it
// ---------------------------------------------------------------------------

pub struct StateView {
    /// The instant the recorder's clock started at.
    pub started_at: Instant,
    /// The events recorded so far, in order.
    pub events: Seq<EventView>,
    /// The id given to each logical thread name.
    pub threads: Map<Seq<char>, u32>,
    pub next_tid: u32,
    pub next_span_id: i32,
    /// Guest spans begun and not yet ended, by span id.
    pub active: Map<i32, SpanView>,
    pub metadata: Map<Seq<char>, Seq<char>>,
}

/// A map with the single entry `"name" -> value`.
pub open spec fn name_arg(value: Seq<char>) -> Map<Seq<char>, Seq<char>> {
    Map::<Seq<char>, Seq<char>>::empty().insert("name"@, value)
}

/// The metadata event that names the process.
pub open spec fn process_name_event(host_kind: Seq<char>) -> EventView {
    EventView {
        name: "process_name"@,
        cat: "__metadata"@,
        ph: EventPhase::Metadata,
        ts: 0,
        pid: DEFAULT_PID,
        tid: 0,
        dur: None,
        args: name_arg("vzglyd-"@ + host_kind),
    }
}

/// The metadata event that names a logical thread.
pub open spec fn thread_name_event(tid: u32, key: Seq<char>) -> EventView {
    EventView {
        name: "thread_name"@,
        cat: "__metadata"@,
        ph: EventPhase::Metadata,
        ts: 0,
        pid: DEFAULT_PID,
        tid,
        dur: None,
        args: name_arg(key),
    }
}

/// The state of a fresh recorder.
pub open spec fn initial_state(host_kind: Seq<char>, label: Seq<char>, started_at: Instant) -> StateView {
    StateView {
        started_at,
        events: seq![process_name_event(host_kind)],
        threads: Map::empty(),
        next_tid: 1,
        next_span_id: 1,
        active: Map::empty(),
        metadata: Map::<Seq<char>, Seq<char>>::empty().insert("host_kind"@, host_kind).insert(
            "label"@,
            label,
        ),
    }
}

/// Some logical thread has been given `tid`.
pub open spec fn tid_known(st: StateView, tid: u32) -> bool {
    exists|k: Seq<char>| #[trigger] st.threads.contains_key(k) && st.threads[k] == tid
}

/// The invariant on ids: thread ids are distinct, below the counter and
/// announced; active span ids are below the counter; every event is on a
/// known thread (or thread 0).
pub open spec fn ids_inv(st: StateView) -> bool {
    &&& st.next_tid >= 1
    &&& st.next_span_id >= 1
    &&& forall|k: Seq<char>| #[trigger]
        st.threads.contains_key(k) ==> 1 <= st.threads[k] < st.next_tid
    &&& forall|k1: Seq<char>, k2: Seq<char>|
        #[trigger] st.threads.contains_key(k1) && #[trigger] st.threads.contains_key(k2) && k1
            != k2 ==> st.threads[k1] != st.threads[k2]
    &&& forall|id: i32| #[trigger] st.active.contains_key(id) ==> 1 <= id < st.next_span_id
    &&& forall|id: i32| #[trigger] st.active.contains_key(id) ==> tid_known(st, st.active[id].tid)
    &&& forall|k: Seq<char>| #[trigger]
        st.threads.contains_key(k) ==> st.events.contains(thread_name_event(st.threads[k], k))
    &&& forall|i: int|
        0 <= i < st.events.len() && (#[trigger] st.events[i]).tid != 0 ==> tid_known(
            st,
            st.events[i].tid,
        )
}

/// An event as the recorder writes it: on the one process, metadata events
/// at time 0 without a duration, and a duration only on complete events.
pub open spec fn event_shape(e: EventView) -> bool {
    &&& e.pid == DEFAULT_PID
    &&& e.ph == EventPhase::Metadata ==> e.ts == 0 && e.dur is None
    &&& e.dur is Some ==> e.ph == EventPhase::Complete
}

/// The number of events of phase `ph`.
pub open spec fn count_phase(s: Seq<EventView>, ph: EventPhase) -> nat
    decreases s.len(),
{
    if s.len() == 0 {
        0
    } else {
        count_phase(s.drop_last(), ph) + if s.last().ph == ph {
            1nat
        } else {
            0nat
        }
    }
}

/// `e` is the `B` event of a span with this name, category and thread.
pub open spec fn begins_span(e: EventView, name: Seq<char>, cat: Seq<char>, tid: u32) -> bool {
    e.ph == EventPhase::Begin && e.name == name && e.cat == cat && e.tid == tid
}

/// `e` is the `thread_name` event of a known logical thread.
pub open spec fn names_thread(st: StateView, e: EventView) -> bool {
    exists|k: Seq<char>| #[trigger]
        st.threads.contains_key(k) && e == thread_name_event(st.threads[k], k)
}

/// The invariant on the event log: it starts with the process-name event;
/// every event has the shape the recorder writes; every later metadata event
/// names a known thread, no two of them the same thread; end events plus
/// active spans balance begin events; every end event has an earlier
/// matching begin event, and so does every active span.
pub open spec fn log_inv(st: StateView) -> bool {
    &&& st.events.len() >= 1
    &&& st.events[0].ph == EventPhase::Metadata
    &&& st.events[0].tid == 0
    &&& st.events[0].name == "process_name"@
    &&& forall|i: int| 0 <= i < st.events.len() ==> event_shape(#[trigger] st.events[i])
    &&& forall|i: int|
        0 < i < st.events.len() && (#[trigger] st.events[i]).ph == EventPhase::Metadata
            ==> names_thread(st, st.events[i])
    &&& forall|i: int, j: int|
        0 < i < st.events.len() && 0 < j < st.events.len() && i != j && (#[trigger] st.events[i]).ph
            == EventPhase::Metadata && (#[trigger] st.events[j]).ph == EventPhase::Metadata
            ==> st.events[i].tid != st.events[j].tid
    &&& st.active.dom().finite()
    &&& count_phase(st.events, EventPhase::End) + st.active.len() == count_phase(
        st.events,
        EventPhase::Begin,
    )
    &&& forall|i: int|
        0 <= i < st.events.len() && (#[trigger] st.events[i]).ph == EventPhase::End ==> exists|j: int|
            0 <= j < i && #[trigger] begins_span(
                st.events[j],
                st.events[i].name,
                st.events[i].cat,
                st.events[i].tid,
            )
    &&& forall|id: i32| #[trigger]
        st.active.contains_key(id) ==> exists|j: int|
            0 <= j < st.events.len() && #[trigger] begins_span(
                st.events[j],
                st.active[id].name,
                st.active[id].category,
                st.active[id].tid,
            )
}

/// What every reachable state satisfies.
pub open spec fn state_inv(st: StateView) -> bool {
    ids_inv(st) && log_inv(st)
}

/// A thread name can be resolved without the id counter overflowing.
pub open spec fn can_resolve(st: StateView, key: Seq<char>) -> bool {
    st.threads.contains_key(key) || st.next_tid < u32::MAX
}

/// Resolving a logical thread name: a known name keeps its id; a new one
/// gets the next id and a `thread_name` metadata event.
pub open spec fn resolve_spec(st: StateView, key: Seq<char>) -> (StateView, u32) {
    if st.threads.contains_key(key) {
        (st, st.threads[key])
    } else {
        let tid = st.next_tid;
        (
            StateView {
                threads: st.threads.insert(key, tid),
                next_tid: (tid + 1) as u32,
                events: st.events.push(thread_name_event(tid, key)),
                ..st
            },
            tid,
        )
    }
}

pub open spec fn set_metadata_spec(st: StateView, key: Seq<char>, value: Seq<char>) -> StateView {
    StateView { metadata: st.metadata.insert(key, value), ..st }
}

/// An instant event on a logical thread, at time `ts`.
pub open spec fn instant_spec(
    st: StateView,
    ts: u64,
    thread: Seq<char>,
    cat: Seq<char>,
    name: Seq<char>,
    args: Map<Seq<char>, Seq<char>>,
) -> StateView {
    let (s1, tid) = resolve_spec(st, thread);
    StateView {
        events: s1.events.push(
            EventView {
                name,
                cat,
                ph: EventPhase::Instant,
                ts,
                pid: DEFAULT_PID,
                tid,
                dur: None,
                args,
            },
        ),
        ..s1
    }
}

/// A guest span can begin without a counter overflowing.
pub open spec fn can_start_span(st: StateView, thread: Seq<char>) -> bool {
    can_resolve(st, thread) && st.next_span_id < i32::MAX
}

/// The beginning of a guest span at time `ts`: the span gets the next span
/// id, is recorded as active, and a `B` event is appended.
pub open spec fn span_start_spec(
    st: StateView,
    ts: u64,
    thread: Seq<char>,
    cat: Seq<char>,
    name: Seq<char>,
    args: Map<Seq<char>, Seq<char>>,
) -> (StateView, i32) {
    let (s1, tid) = resolve_spec(st, thread);
    let id = s1.next_span_id;
    (
        StateView {
            next_span_id: (id + 1) as i32,
            active: s1.active.insert(id, SpanView { category: cat, name, tid }),
            events: s1.events.push(
                EventView {
                    name,
                    cat,
                    ph: EventPhase::Begin,
                    ts,
                    pid: DEFAULT_PID,
                    tid,
                    dur: None,
                    args,
                },
            ),
            ..s1
        },
        id,
    )
}

/// The end of a guest span at time `ts`. An id that is not active changes
/// nothing; an active one is removed and an `E` event with the span's name,
/// category and thread is appended, its arguments carrying the status if
/// one is given.
pub open spec fn span_end_spec(
    st: StateView,
    ts: u64,
    span_id: i32,
    status: Option<Seq<char>>,
    args: Map<Seq<char>, Seq<char>>,
) -> StateView {
    if !st.active.contains_key(span_id) {
        st
    } else {
        let span = st.active[span_id];
        let args2 = match status {
            Some(s) => args.insert("status"@, s),
            None => args,
        };
        StateView {
            active: st.active.remove(span_id),
            events: st.events.push(
                EventView {
                    name: span.name,
                    cat: span.category,
                    ph: EventPhase::End,
                    ts,
                    pid: DEFAULT_PID,
                    tid: span.tid,
                    dur: None,
                    args: args2,
                },
            ),
            ..st
        }
    }
}

/// The text of an optional status.
pub open spec fn status_view(status: Option<String>) -> Option<Seq<char>> {
    match status {
        Some(s) => Some(s@),
        None => None,
    }
}

/// The duration of a span from `start_us` to `end_us`, at least zero.
pub open spec fn span_duration(start_us: u64, end_us: u64) -> u64 {
    if end_us >= start_us {
        (end_us - start_us) as u64
    } else {
        0
    }
}

/// A complete (`X`) event for a span that began at `start_us` and ended at
/// `end_us`.
pub open spec fn complete_spec(
    st: StateView,
    thread: Seq<char>,
    cat: Seq<char>,
    name: Seq<char>,
    start_us: u64,
    end_us: u64,
    args: Map<Seq<char>, Seq<char>>,
) -> StateView {
    let (s1, tid) = resolve_spec(st, thread);
    StateView {
        events: s1.events.push(
            EventView {
                name,
                cat,
                ph: EventPhase::Complete,
                ts: start_us,
                pid: DEFAULT_PID,
                tid,
                dur: Some(span_duration(start_us, end_us)),
                args,
            },
        ),
        ..s1
    }
}

// ---------------------------------------------------------------------------
// The recorder state
// ---------------------------------------------------------------------------

/// The mutable state of a recorder: the clock it started on, the events,
/// the thread ids, the active guest spans and the session metadata.
pub struct TraceRecorderState {
    started_at: Instant,
    events: Vec<PerfettoEvent>,
    threads: Vec<(String, u32)>,
    next_tid: u32,
    next_span_id: i32,
    active_guest_spans: HashMap<i32, ActiveGuestSpan>,
    metadata: StrMap,
}

impl TraceRecorderState {
    pub closed spec fn thread_listing(&self) -> Seq<(Seq<char>, u32)> {
        self.threads@.map_values(|p: (String, u32)| (p.0@, p.1))
    }

    /// Well-formedness: thread names occur once, the metadata map is
    /// well-formed, and the state satisfies `state_inv`.
    pub closed spec fn wf(&self) -> bool {
        &&& keys_distinct(self.thread_listing())
        &&& self.metadata.wf()
        &&& state_inv(self@)
    }

    /// A well-formed state satisfies the invariant, so the laws stated over
    /// `StateView` apply to it.
    pub proof fn lemma_invariant(&self)
        requires
            self.wf(),
        ensures
            state_inv(self@),
    {
    }

    /// The id already given to the logical thread `key`, if any.
    pub fn thread_id(&self, key: &str) -> (r: Option<u32>)
        requires
            self.wf(),
        ensures
            match r {
                Some(tid) => self@.threads.contains_key(key@) && self@.threads[key@] == tid,
                None => !self@.threads.contains_key(key@),
            },
    {
        let n = self.threads.len();
        let mut i: usize = 0;
        while i < n
            invariant
                n == self.threads.len(),
                i <= n,
                self.wf(),
                forall|j: int| 0 <= j < i ==> (#[trigger] self.thread_listing()[j]).0 != key@,
            decreases n - i,
        {
            assert(self.thread_listing()[i as int].0 == self.threads@[i as int].0@);
            match compare_text(self.threads[i].0.as_str(), key) {
                KeyOrder::Equal => {
                    proof {
                        lemma_listing_map_index(self.thread_listing(), i as int);
                    }
                    return Some(self.threads[i].1);
                },
                _ => {},
            }
            i = i + 1;
        }
        proof {
            let s = self.thread_listing();
            if listing_has(s, key@) {
                let j = choose|j: int| 0 <= j < s.len() && s[j].0 == key@;
            }
        }
        None
    }

    fn now_us(&self) -> u64 {
        let micros: u128 = whole_micros(&elapsed_since(&self.started_at));
        micros as u64
    }
}

impl View for TraceRecorderState {
    type V = StateView;

    closed spec fn view(&self) -> StateView {
        StateView {
            started_at: self.started_at,
            events: self.events@.map_values(|e: PerfettoEvent| e@),
            threads: listing_map(self.thread_listing()),
            next_tid: self.next_tid,
            next_span_id: self.next_span_id,
            active: self.active_guest_spans@.map_values(|s: ActiveGuestSpan| s@),
            metadata: self.metadata@,
        }
    }
}

/// A map with the single entry `"name" -> value`.
fn name_arg_map(value: &str) -> (m: StrMap)
    ensures
        m.wf(),
        m@ == name_arg(value@),
{
    let mut m = StrMap::new();
    m.insert("name".to_owned(), value.to_owned());
    m
}

/// The id of the logical thread `key`, giving it a new id (and recording a
/// `thread_name` event) the first time it is seen.
pub fn resolve_thread(state: &mut TraceRecorderState, key: &str) -> (tid: u32)
    requires
        old(state).wf(),
        can_resolve(old(state)@, key@),
    ensures
        final(state).wf(),
        (final(state)@, tid) == resolve_spec(old(state)@, key@),
{
    if let Some(tid) = state.thread_id(key) {
        return tid;
    }
    let ghost old_state = state@;
    let ghost old_listing = state.thread_listing();
    let tid = state.next_tid;
    state.next_tid = tid + 1;
    state.threads.push((key.to_owned(), tid));
    let event = PerfettoEvent {
        name: "thread_name".to_owned(),
        cat: "__metadata".to_owned(),
        ph: EventPhase::Metadata,
        ts: 0,
        pid: DEFAULT_PID,
        tid,
        dur: None,
        args: name_arg_map(key),
    };
    state.events.push(event);
    proof {
        assert(state.thread_listing() =~= old_listing.insert(old_listing.len() as int, (key@, tid)));
        lemma_listing_map_insert(old_listing, old_listing.len() as int, key@, tid);
        assert(state@.events =~= old_state.events.push(thread_name_event(tid, key@)));
        assert(state@ == resolve_spec(old_state, key@).0);
        lemma_resolve(old_state, key@);
    }
    tid
}

// ---------------------------------------------------------------------------
// The recorder
// ---------------------------------------------------------------------------

/// Records trace events for one session: the host kind and label that
/// describe it, and its state.
pub struct TraceRecorder {
    host_kind: String,
    label: String,
    state: TraceRecorderState,
}

pub struct RecorderView {
    pub host_kind: Seq<char>,
    pub label: Seq<char>,
    pub state: StateView,
}

impl View for TraceRecorder {
    type V = RecorderView;

    closed spec fn view(&self) -> RecorderView {
        RecorderView { host_kind: self.host_kind@, label: self.label@, state: self.state@ }
    }
}

impl TraceRecorder {
    pub closed spec fn wf(&self) -> bool {
        self.state.wf()
    }

    /// A well-formed recorder's state satisfies the invariant, so the laws
    /// stated over `StateView` apply to it.
    pub proof fn lemma_invariant(&self)
        requires
            self.wf(),
        ensures
            state_inv(self@.state),
    {
    }

    /// Starts a recorder for a host of kind `host_kind` under the session
    /// label `label`: the clock starts now, the log holds the process-name
    /// event, and the metadata holds the host kind and the label.
    pub fn new(host_kind: &str, label: &str) -> (r: TraceRecorder)
        ensures
            r.wf(),
            r@.host_kind == host_kind@,
            r@.label == label@,
            r@.state == initial_state(host_kind@, label@, r@.state.started_at),
    {
        let mut process_name = "vzglyd-".to_owned();
        process_name.append(host_kind);
        let mut metadata = StrMap::new();
        metadata.insert("host_kind".to_owned(), host_kind.to_owned());
        metadata.insert("label".to_owned(), label.to_owned());
        let mut events: Vec<PerfettoEvent> = Vec::new();
        events.push(
            PerfettoEvent {
                name: "process_name".to_owned(),
                cat: "__metadata".to_owned(),
                ph: EventPhase::Metadata,
                ts: 0,
                pid: DEFAULT_PID,
                tid: 0,
                dur: None,
                args: name_arg_map(process_name.as_str()),
            },
        );
        let state = TraceRecorderState {
            started_at: clock_now(),
            events,
            threads: Vec::new(),
            next_tid: 1,
            next_span_id: 1,
            active_guest_spans: HashMap::new(),
            metadata,
        };
        proof {
            assert(state.thread_listing() =~= Seq::<(Seq<char>, u32)>::empty());
            lemma_listing_map_empty(state.thread_listing());
            assert(state@.active =~= Map::<i32, SpanView>::empty());
            assert(state@.events =~= seq![process_name_event(host_kind@)]);
            assert(state@ == initial_state(host_kind@, label@, state.started_at));
            lemma_initial_state(host_kind@, label@, state.started_at);
        }
        TraceRecorder { host_kind: host_kind.to_owned(), label: label.to_owned(), state }
    }

    /// The host kind given at creation.
    pub fn host_kind(&self) -> (r: &str)
        ensures
            r@ == self@.host_kind,
    {
        self.host_kind.as_str()
    }

    /// The session label given at creation.
    pub fn label(&self) -> (r: &str)
        ensures
            r@ == self@.label,
    {
        self.label.as_str()
    }

    /// The events recorded so far, in order.
    pub fn events(&self) -> (r: &Vec<PerfettoEvent>)
        ensures
            r@.map_values(|e: PerfettoEvent| e@) == self@.state.events,
    {
        &self.state.events
    }

    /// The session metadata.
    pub fn metadata(&self) -> (r: &StrMap)
        requires
            self.wf(),
        ensures
            r.wf(),
            r@ == self@.state.metadata,
    {
        &self.state.metadata
    }

    /// Whether an event can be recorded on the logical thread `thread`
    /// without the thread-id counter overflowing.
    pub fn thread_ready(&self, thread: &str) -> (b: bool)
        requires
            self.wf(),
        ensures
            b == can_resolve(self@.state, thread@),
    {
        match self.state.thread_id(thread) {
            Some(_) => true,
            None => self.state.next_tid < u32::MAX,
        }
    }

    /// Whether a guest span can begin on the logical thread `thread` without
    /// a counter overflowing.
    pub fn span_ready(&self, thread: &str) -> (b: bool)
        requires
            self.wf(),
        ensures
            b == can_start_span(self@.state, thread@),
    {
        self.thread_ready(thread) && self.state.next_span_id < i32::MAX
    }

    /// Attach extra string metadata to the current session.
    pub fn set_metadata(&mut self, key: &str, value: &str)
        requires
            old(self).wf(),
        ensures
            final(self).wf(),
            final(self)@.host_kind == old(self)@.host_kind,
            final(self)@.label == old(self)@.label,
            final(self)@.state == set_metadata_spec(old(self)@.state, key@, value@),
    {
        self.state.metadata.insert(key.to_owned(), value.to_owned());
        proof {
            lemma_set_metadata(old(self)@.state, key@, value@);
        }
    }

    /// Microseconds since the recorder started.
    fn now_us(&self) -> u64 {
        self.state.now_us()
    }

    /// Start a host-side timed span on a logical thread.
    pub fn scoped(&self, thread: &str, category: &str, name: &str) -> (g: TraceSpanGuard)
        ensures
            g.wf(),
            g@.thread == thread@,
            g@.category == category@,
            g@.name == name@,
            g@.args == Map::<Seq<char>, Seq<char>>::empty(),
            !g@.finished,
    {
        self.scoped_with_args(thread, category, name, StrMap::new())
    }

    /// Start a host-side timed span with initial string arguments; the span
    /// starts now.
    pub fn scoped_with_args(&self, thread: &str, category: &str, name: &str, args: StrMap) -> (g:
        TraceSpanGuard)
        requires
            args.wf(),
        ensures
            g.wf(),
            g@.thread == thread@,
            g@.category == category@,
            g@.name == name@,
            g@.args == args@,
            !g@.finished,
    {
        let start_us = self.now_us();
        Self::scoped_with_args_at(start_us, thread, category, name, args)
    }

    /// A host-side span with initial string arguments that starts at
    /// `start_us`.
    pub fn scoped_with_args_at(
        start_us: u64,
        thread: &str,
        category: &str,
        name: &str,
        args: StrMap,
    ) -> (g: TraceSpanGuard)
        requires
            args.wf(),
        ensures
            g.wf(),
            g@ == (GuardView {
                thread: thread@,
                category: category@,
                name: name@,
                start_us,
                args: args@,
                finished: false,
            }),
    {
        TraceSpanGuard {
            thread: thread.to_owned(),
            category: category.to_owned(),
            name: name.to_owned(),
            start_us,
            args,
            finished: false,
        }
    }

    /// Emit an instant event, stamped now, on a logical thread.
    pub fn instant(&mut self, thread: &str, category: &str, name: &str, args: StrMap)
        requires
            old(self).wf(),
            args.wf(),
            can_resolve(old(self)@.state, thread@),
        ensures
            final(self).wf(),
            final(self)@.host_kind == old(self)@.host_kind,
            final(self)@.label == old(self)@.label,
            exists|ts: u64|
                final(self)@.state == instant_spec(
                    old(self)@.state,
                    ts,
                    thread@,
                    category@,
                    name@,
                    args@,
                ),
    {
        let ts = self.now_us();
        self.instant_at(ts, thread, category, name, args);
    }

    /// Emit an instant event stamped `ts` on a logical thread.
    pub fn instant_at(&mut self, ts: u64, thread: &str, category: &str, name: &str, args: StrMap)
        requires
            old(self).wf(),
            args.wf(),
            can_resolve(old(self)@.state, thread@),
        ensures
            final(self).wf(),
            final(self)@.host_kind == old(self)@.host_kind,
            final(self)@.label == old(self)@.label,
            final(self)@.state == instant_spec(old(self)@.state, ts, thread@, category@, name@, args@),
    {
        let tid = resolve_thread(&mut self.state, thread);
        let ghost s1 = self.state@;
        self.state.events.push(
            PerfettoEvent {
                name: name.to_owned(),
                cat: category.to_owned(),
                ph: EventPhase::Instant,
                ts,
                pid: DEFAULT_PID,
                tid,
                dur: None,
                args,
            },
        );
        proof {
            assert(self.state@.events =~= s1.events.push(
                EventView {
                    name: name@,
                    cat: category@,
                    ph: EventPhase::Instant,
                    ts,
                    pid: DEFAULT_PID,
                    tid,
                    dur: None,
                    args: args@,
                },
            ));
            lemma_instant(old(self)@.state, ts, thread@, category@, name@, args@);
        }
    }

    /// Start a guest span originating from slide or sidecar WASM code,
    /// stamped now; returns its span id.
    pub fn guest_span_start(&mut self, thread: &str, category: &str, name: &str, args: StrMap) -> (id: i32)
        requires
            old(self).wf(),
            args.wf(),
            can_start_span(old(self)@.state, thread@),
        ensures
            final(self).wf(),
            final(self)@.host_kind == old(self)@.host_kind,
            final(self)@.label == old(self)@.label,
            exists|ts: u64|
                (final(self)@.state, id) == span_start_spec(
                    old(self)@.state,
                    ts,
                    thread@,
                    category@,
                    name@,
                    args@,
                ),
    {
        let ts = self.now_us();
        self.guest_span_start_at(ts, thread, category, name, args)
    }

    /// Start a guest span stamped `ts`; returns its span id.
    pub fn guest_span_start_at(
        &mut self,
        ts: u64,
        thread: &str,
        category: &str,
        name: &str,
        args: StrMap,
    ) -> (id: i32)
        requires
            old(self).wf(),
            args.wf(),
            can_start_span(old(self)@.state, thread@),
        ensures
            final(self).wf(),
            final(self)@.host_kind == old(self)@.host_kind,
            final(self)@.label == old(self)@.label,
            (final(self)@.state, id) == span_start_spec(
                old(self)@.state,
                ts,
                thread@,
                category@,
                name@,
                args@,
            ),
    {
        let tid = resolve_thread(&mut self.state, thread);
        let ghost s1 = self.state@;
        let span_id = self.state.next_span_id;
        self.state.next_span_id = span_id + 1;
        self.state.active_guest_spans.insert(
            span_id,
            ActiveGuestSpan { category: category.to_owned(), name: name.to_owned(), tid },
        );
        self.state.events.push(
            PerfettoEvent {
                name: name.to_owned(),
                cat: category.to_owned(),
                ph: EventPhase::Begin,
                ts,
                pid: DEFAULT_PID,
                tid,
                dur: None,
                args,
            },
        );
        proof {
            assert(self.state@.events =~= s1.events.push(
                EventView {
                    name: name@,
                    cat: category@,
                    ph: EventPhase::Begin,
                    ts,
                    pid: DEFAULT_PID,
                    tid,
                    dur: None,
                    args: args@,
                },
            ));
            assert(self.state@.active =~= s1.active.insert(
                span_id,
                SpanView { category: category@, name: name@, tid },
            ));
            lemma_span_start(old(self)@.state, ts, thread@, category@, name@, args@);
        }
        span_id
    }

    /// End a guest span previously started by `guest_span_start`, stamped
    /// now. An id that is not active is ignored.
    pub fn guest_span_end(&mut self, span_id: i32, status: Option<String>, args: StrMap)
        requires
            old(self).wf(),
            args.wf(),
        ensures
            final(self).wf(),
            final(self)@.host_kind == old(self)@.host_kind,
            final(self)@.label == old(self)@.label,
            exists|ts: u64|
                final(self)@.state == span_end_spec(
                    old(self)@.state,
                    ts,
                    span_id,
                    status_view(status),
                    args@,
                ),
    {
        let ts = self.now_us();
        self.guest_span_end_at(ts, span_id, status, args);
    }

    /// End a guest span, stamped `ts`. An id that is not active is ignored.
    pub fn guest_span_end_at(&mut self, ts: u64, span_id: i32, status: Option<String>, args: StrMap)
        requires
            old(self).wf(),
            args.wf(),
        ensures
            final(self).wf(),
            final(self)@.host_kind == old(self)@.host_kind,
            final(self)@.label == old(self)@.label,
            final(self)@.state == span_end_spec(
                old(self)@.state,
                ts,
                span_id,
                status_view(status),
                args@,
            ),
    {
        let ghost st0 = self.state@;
        let ghost args0 = args@;
        let ghost sv = status_view(status);
        proof {
            lemma_span_end(st0, ts, span_id, sv, args@);
        }
        let active = self.state.active_guest_spans.remove(&span_id);
        match active {
            None => {
                proof {
                    assert(self.state@.active =~= st0.active);
                }
            },
            Some(span) => {
                let mut args = args;
                match status {
                    Some(s) => {
                        args.insert("status".to_owned(), s);
                    },
                    None => {},
                }
                let ghost s1 = self.state@;
                self.state.events.push(
                    PerfettoEvent {
                        name: span.name,
                        cat: span.category,
                        ph: EventPhase::End,
                        ts,
                        pid: DEFAULT_PID,
                        tid: span.tid,
                        dur: None,
                        args,
                    },
                );
                proof {
                    assert(s1.active =~= st0.active.remove(span_id));
                    assert(self.state@ == span_end_spec(st0, ts, span_id, sv, args0))
                        by {
                        assert(self.state@.events =~= st0.events.push(
                            EventView {
                                name: st0.active[span_id].name,
                                cat: st0.active[span_id].category,
                                ph: EventPhase::End,
                                ts,
                                pid: DEFAULT_PID,
                                tid: st0.active[span_id].tid,
                                dur: None,
                                args: args@,
                            },
                        ));
                    }
                }
            },
        }
    }

    /// Records a complete (`X`) span event that began at `start_us` and ends
    /// now.
    fn record_complete(
        &mut self,
        thread: &str,
        category: &str,
        name: &str,
        start_us: u64,
        args: StrMap,
    )
        requires
            old(self).wf(),
            args.wf(),
            can_resolve(old(self)@.state, thread@),
        ensures
            final(self).wf(),
            final(self)@.host_kind == old(self)@.host_kind,
            final(self)@.label == old(self)@.label,
            exists|end_us: u64|
                final(self)@.state == complete_spec(
                    old(self)@.state,
                    thread@,
                    category@,
                    name@,
                    start_us,
                    end_us,
                    args@,
                ),
    {
        let tid = resolve_thread(&mut self.state, thread);
        let end_us = self.state.now_us();
        let ghost s1 = self.state@;
        let dur = end_us.saturating_sub(start_us);
        self.state.events.push(
            PerfettoEvent {
                name: name.to_owned(),
                cat: category.to_owned(),
                ph: EventPhase::Complete,
                ts: start_us,
                pid: DEFAULT_PID,
                tid,
                dur: Some(dur),
                args,
            },
        );
        proof {
            assert(self.state@.events =~= s1.events.push(
                EventView {
                    name: name@,
                    cat: category@,
                    ph: EventPhase::Complete,
                    ts: start_us,
                    pid: DEFAULT_PID,
                    tid,
                    dur: Some(span_duration(start_us, end_us)),
                    args: args@,
                },
            ));
            lemma_complete(old(self)@.state, thread@, category@, name@, start_us, end_us, args@);
        }
    }
}

// ---------------------------------------------------------------------------
// Host-side span guards
// ---------------------------------------------------------------------------

/// A host-side span in progress; `finish` records it as a complete event.
pub struct TraceSpanGuard {
    thread: String,
    category: String,
    name: String,
    start_us: u64,
    args: StrMap,
    finished: bool,
}

pub struct GuardView {
    pub thread: Seq<char>,
    pub category: Seq<char>,
    pub name: Seq<char>,
    pub start_us: u64,
    pub args: Map<Seq<char>, Seq<char>>,
    pub finished: bool,
}

impl View for TraceSpanGuard {
    type V = GuardView;

    closed spec fn view(&self) -> GuardView {
        GuardView {
            thread: self.thread@,
            category: self.category@,
            name: self.name@,
            start_us: self.start_us,
            args: self.args@,
            finished: self.finished,
        }
    }
}

impl TraceSpanGuard {
    pub closed spec fn wf(&self) -> bool {
        self.args.wf()
    }

    /// The logical thread the span is on.
    pub fn thread(&self) -> (r: &str)
        ensures
            r@ == self@.thread,
    {
        self.thread.as_str()
    }

    /// Add a string attribute to the eventual complete span event.
    pub fn add_attr(&mut self, key: &str, value: &str)
        requires
            old(self).wf(),
        ensures
            final(self).wf(),
            final(self)@ == (GuardView { args: old(self)@.args.insert(key@, value@), ..old(self)@ }),
    {
        self.args.insert(key.to_owned(), value.to_owned());
    }

    /// Finish the span now, recording it in `recorder`.
    pub fn finish(self, recorder: &mut TraceRecorder)
        requires
            self.wf(),
            old(recorder).wf(),
            !self@.finished ==> can_resolve(old(recorder)@.state, self@.thread),
        ensures
            final(recorder).wf(),
            final(recorder)@.host_kind == old(recorder)@.host_kind,
            final(recorder)@.label == old(recorder)@.label,
            self@.finished ==> final(recorder)@ == old(recorder)@,
            !self@.finished ==> exists|end_us: u64|
                final(recorder)@.state == complete_spec(
                    old(recorder)@.state,
                    self@.thread,
                    self@.category,
                    self@.name,
                    self@.start_us,
                    end_us,
                    self@.args,
                ),
    {
        let mut guard = self;
        guard.flush(recorder);
    }

    /// Records the span once: after the first call the guard is finished
    /// and later calls change nothing.
    pub fn flush(&mut self, recorder: &mut TraceRecorder)
        requires
            old(self).wf(),
            old(recorder).wf(),
            !old(self)@.finished ==> can_resolve(old(recorder)@.state, old(self)@.thread),
        ensures
            final(self).wf(),
            final(self)@ == (GuardView { finished: true, ..old(self)@ }),
            final(recorder).wf(),
            final(recorder)@.host_kind == old(recorder)@.host_kind,
            final(recorder)@.label == old(recorder)@.label,
            old(self)@.finished ==> final(recorder)@ == old(recorder)@,
            !old(self)@.finished ==> exists|end_us: u64|
                final(recorder)@.state == complete_spec(
                    old(recorder)@.state,
                    old(self)@.thread,
                    old(self)@.category,
                    old(self)@.name,
                    old(self)@.start_us,
                    end_us,
                    old(self)@.args,
                ),
    {
        if self.finished {
            return;
        }
        self.finished = true;
        let args = self.args.duplicate();
        recorder.record_complete(
            self.thread.as_str(),
            self.category.as_str(),
            self.name.as_str(),
            self.start_us,
            args,
        );
    }
}

// ---------------------------------------------------------------------------
// Invariant proofs
// ---------------------------------------------------------------------------

proof fn lemma_tid_known_keeps(st: StateView, st2: StateView, tid: u32)
    requires
        tid_known(st, tid),
        forall|k: Seq<char>| #[trigger]
            st.threads.contains_key(k) ==> st2.threads.contains_key(k) && st2.threads[k]
                == st.threads[k],
    ensures
        tid_known(st2, tid),
{
    let k = choose|k: Seq<char>| #[trigger] st.threads.contains_key(k) && st.threads[k] == tid;
    assert(st2.threads.contains_key(k));
}

/// Appending an event whose thread is known (or 0) keeps the invariant.
proof fn lemma_push_event(st: StateView, e: EventView)
    requires
        ids_inv(st),
        e.tid == 0 || tid_known(st, e.tid),
    ensures
        ids_inv(StateView { events: st.events.push(e), ..st }),
{
    let st2 = StateView { events: st.events.push(e), ..st };
    assert forall|k: Seq<char>| #[trigger]
        st2.threads.contains_key(k) implies st2.events.contains(thread_name_event(st2.threads[k], k)) by {
        let i = choose|i: int| 0 <= i < st.events.len() && st.events[i] == thread_name_event(st.threads[k], k);
        assert(st2.events[i] == st.events[i]);
    }
    assert forall|id: i32| #[trigger] st2.active.contains_key(id) implies tid_known(
        st2,
        st2.active[id].tid,
    ) by {
        lemma_tid_known_keeps(st, st2, st.active[id].tid);
    }
    assert forall|i: int|
        0 <= i < st2.events.len() && (#[trigger] st2.events[i]).tid != 0 implies tid_known(
        st2,
        st2.events[i].tid,
    ) by {
        if i < st.events.len() {
            assert(st2.events[i] == st.events[i]);
            lemma_tid_known_keeps(st, st2, st.events[i].tid);
        } else {
            lemma_tid_known_keeps(st, st2, e.tid);
        }
    }
}

proof fn lemma_count_push(s: Seq<EventView>, e: EventView, ph: EventPhase)
    ensures
        count_phase(s.push(e), ph) == count_phase(s, ph) + if e.ph == ph {
            1nat
        } else {
            0nat
        },
{
    assert(s.push(e).drop_last() =~= s);
}

/// Appending an instant or complete event keeps the log invariant.
proof fn lemma_log_push_plain(st: StateView, e: EventView)
    requires
        log_inv(st),
        event_shape(e),
        e.ph == EventPhase::Instant || e.ph == EventPhase::Complete,
    ensures
        log_inv(StateView { events: st.events.push(e), ..st }),
{
    let st2 = StateView { events: st.events.push(e), ..st };
    let n = st.events.len() as int;
    lemma_count_push(st.events, e, EventPhase::End);
    lemma_count_push(st.events, e, EventPhase::Begin);
    assert forall|i: int| 0 <= i < st2.events.len() implies event_shape(#[trigger] st2.events[i]) by {
        if i < n {
            assert(st2.events[i] == st.events[i]);
        }
    }
    assert forall|i: int|
        0 < i < st2.events.len() && (#[trigger] st2.events[i]).ph == EventPhase::Metadata implies names_thread(
        st2,
        st2.events[i],
    ) by {
        assert(st2.events[i] == st.events[i]);
        let k = choose|k: Seq<char>| #[trigger]
            st.threads.contains_key(k) && st.events[i] == thread_name_event(st.threads[k], k);
        assert(st2.threads.contains_key(k));
    }
    assert forall|i: int, j: int|
        0 < i < st2.events.len() && 0 < j < st2.events.len() && i != j && (#[trigger] st2.events[i]).ph
            == EventPhase::Metadata && (#[trigger] st2.events[j]).ph
            == EventPhase::Metadata implies st2.events[i].tid != st2.events[j].tid by {
        assert(st2.events[i] == st.events[i]);
        assert(st2.events[j] == st.events[j]);
    }
    assert forall|i: int|
        0 <= i < st2.events.len() && (#[trigger] st2.events[i]).ph == EventPhase::End implies exists|j: int|
        0 <= j < i && #[trigger] begins_span(
            st2.events[j],
            st2.events[i].name,
            st2.events[i].cat,
            st2.events[i].tid,
        ) by {
        assert(st2.events[i] == st.events[i]);
        let j = choose|j: int|
            0 <= j < i && #[trigger] begins_span(
                st.events[j],
                st.events[i].name,
                st.events[i].cat,
                st.events[i].tid,
            );
        assert(st2.events[j] == st.events[j]);
    }
    assert forall|id: i32| #[trigger] st2.active.contains_key(id) implies exists|j: int|
        0 <= j < st2.events.len() && #[trigger] begins_span(
            st2.events[j],
            st2.active[id].name,
            st2.active[id].category,
            st2.active[id].tid,
        ) by {
        let j = choose|j: int|
            0 <= j < st.events.len() && #[trigger] begins_span(
                st.events[j],
                st.active[id].name,
                st.active[id].category,
                st.active[id].tid,
            );
        assert(st2.events[j] == st.events[j]);
    }
}

/// Appending the `B` event of a span and recording the span as active keeps
/// the log invariant.
proof fn lemma_log_push_begin(st: StateView, e: EventView, id: i32, span: SpanView, next: i32)
    requires
        log_inv(st),
        event_shape(e),
        e.ph == EventPhase::Begin,
        !st.active.contains_key(id),
        begins_span(e, span.name, span.category, span.tid),
    ensures
        log_inv(
            StateView {
                next_span_id: next,
                active: st.active.insert(id, span),
                events: st.events.push(e),
                ..st
            },
        ),
{
    let st2 = StateView {
        next_span_id: next,
        active: st.active.insert(id, span),
        events: st.events.push(e),
        ..st
    };
    let n = st.events.len() as int;
    lemma_count_push(st.events, e, EventPhase::End);
    lemma_count_push(st.events, e, EventPhase::Begin);
    assert(st2.active.dom() =~= st.active.dom().insert(id));
    assert forall|i: int| 0 <= i < st2.events.len() implies event_shape(#[trigger] st2.events[i]) by {
        if i < n {
            assert(st2.events[i] == st.events[i]);
        }
    }
    assert forall|i: int|
        0 < i < st2.events.len() && (#[trigger] st2.events[i]).ph == EventPhase::Metadata implies names_thread(
        st2,
        st2.events[i],
    ) by {
        assert(st2.events[i] == st.events[i]);
        let k = choose|k: Seq<char>| #[trigger]
            st.threads.contains_key(k) && st.events[i] == thread_name_event(st.threads[k], k);
        assert(st2.threads.contains_key(k));
    }
    assert forall|i: int, j: int|
        0 < i < st2.events.len() && 0 < j < st2.events.len() && i != j && (#[trigger] st2.events[i]).ph
            == EventPhase::Metadata && (#[trigger] st2.events[j]).ph
            == EventPhase::Metadata implies st2.events[i].tid != st2.events[j].tid by {
        assert(st2.events[i] == st.events[i]);
        assert(st2.events[j] == st.events[j]);
    }
    assert forall|i: int|
        0 <= i < st2.events.len() && (#[trigger] st2.events[i]).ph == EventPhase::End implies exists|j: int|
        0 <= j < i && #[trigger] begins_span(
            st2.events[j],
            st2.events[i].name,
            st2.events[i].cat,
            st2.events[i].tid,
        ) by {
        assert(st2.events[i] == st.events[i]);
        let j = choose|j: int|
            0 <= j < i && #[trigger] begins_span(
                st.events[j],
                st.events[i].name,
                st.events[i].cat,
                st.events[i].tid,
            );
        assert(st2.events[j] == st.events[j]);
    }
    assert forall|a: i32| #[trigger] st2.active.contains_key(a) implies exists|j: int|
        0 <= j < st2.events.len() && #[trigger] begins_span(
            st2.events[j],
            st2.active[a].name,
            st2.active[a].category,
            st2.active[a].tid,
        ) by {
        if a == id {
            assert(begins_span(st2.events[n], st2.active[a].name, st2.active[a].category, st2.active[a].tid));
        } else {
            let j = choose|j: int|
                0 <= j < st.events.len() && #[trigger] begins_span(
                    st.events[j],
                    st.active[a].name,
                    st.active[a].category,
                    st.active[a].tid,
                );
            assert(st2.events[j] == st.events[j]);
        }
    }
}

/// Appending the `E` event of an active span and removing the span keeps
/// the log invariant.
proof fn lemma_log_push_end(st: StateView, id: i32, e: EventView)
    requires
        log_inv(st),
        st.active.contains_key(id),
        event_shape(e),
        e.ph == EventPhase::End,
        e.name == st.active[id].name,
        e.cat == st.active[id].category,
        e.tid == st.active[id].tid,
    ensures
        log_inv(StateView { active: st.active.remove(id), events: st.events.push(e), ..st }),
{
    let st2 = StateView { active: st.active.remove(id), events: st.events.push(e), ..st };
    let n = st.events.len() as int;
    lemma_count_push(st.events, e, EventPhase::End);
    lemma_count_push(st.events, e, EventPhase::Begin);
    assert(st2.active.dom() =~= st.active.dom().remove(id));
    assert forall|i: int| 0 <= i < st2.events.len() implies event_shape(#[trigger] st2.events[i]) by {
        if i < n {
            assert(st2.events[i] == st.events[i]);
        }
    }
    assert forall|i: int|
        0 < i < st2.events.len() && (#[trigger] st2.events[i]).ph == EventPhase::Metadata implies names_thread(
        st2,
        st2.events[i],
    ) by {
        assert(st2.events[i] == st.events[i]);
        let k = choose|k: Seq<char>| #[trigger]
            st.threads.contains_key(k) && st.events[i] == thread_name_event(st.threads[k], k);
        assert(st2.threads.contains_key(k));
    }
    assert forall|i: int, j: int|
        0 < i < st2.events.len() && 0 < j < st2.events.len() && i != j && (#[trigger] st2.events[i]).ph
            == EventPhase::Metadata && (#[trigger] st2.events[j]).ph
            == EventPhase::Metadata implies st2.events[i].tid != st2.events[j].tid by {
        assert(st2.events[i] == st.events[i]);
        assert(st2.events[j] == st.events[j]);
    }
    let jb = choose|j: int|
        0 <= j < st.events.len() && #[trigger] begins_span(
            st.events[j],
            st.active[id].name,
            st.active[id].category,
            st.active[id].tid,
        );
    assert forall|i: int|
        0 <= i < st2.events.len() && (#[trigger] st2.events[i]).ph == EventPhase::End implies exists|j: int|
        0 <= j < i && #[trigger] begins_span(
            st2.events[j],
            st2.events[i].name,
            st2.events[i].cat,
            st2.events[i].tid,
        ) by {
        if i < n {
            assert(st2.events[i] == st.events[i]);
            let j = choose|j: int|
                0 <= j < i && #[trigger] begins_span(
                    st.events[j],
                    st.events[i].name,
                    st.events[i].cat,
                    st.events[i].tid,
                );
            assert(st2.events[j] == st.events[j]);
        } else {
            assert(st2.events[jb] == st.events[jb]);
            assert(begins_span(st2.events[jb], st2.events[i].name, st2.events[i].cat, st2.events[i].tid));
        }
    }
    assert forall|a: i32| #[trigger] st2.active.contains_key(a) implies exists|j: int|
        0 <= j < st2.events.len() && #[trigger] begins_span(
            st2.events[j],
            st2.active[a].name,
            st2.active[a].category,
            st2.active[a].tid,
        ) by {
        assert(st.active.contains_key(a) && st2.active[a] == st.active[a]);
        let j = choose|j: int|
            0 <= j < st.events.len() && #[trigger] begins_span(
                st.events[j],
                st.active[a].name,
                st.active[a].category,
                st.active[a].tid,
            );
        assert(st2.events[j] == st.events[j]);
    }
}

/// Giving a new logical thread the next id and appending its
/// `thread_name` event keeps the log invariant.
proof fn lemma_log_new_thread(st: StateView, key: Seq<char>)
    requires
        log_inv(st),
        ids_inv(st),
        !st.threads.contains_key(key),
    ensures
        log_inv(resolve_spec(st, key).0),
{
    let (st2, tid) = resolve_spec(st, key);
    let e = thread_name_event(tid, key);
    let n = st.events.len() as int;
    lemma_count_push(st.events, e, EventPhase::End);
    lemma_count_push(st.events, e, EventPhase::Begin);
    assert forall|i: int| 0 <= i < st2.events.len() implies event_shape(#[trigger] st2.events[i]) by {
        if i < n {
            assert(st2.events[i] == st.events[i]);
        }
    }
    assert forall|i: int|
        0 < i < st2.events.len() && (#[trigger] st2.events[i]).ph == EventPhase::Metadata implies names_thread(
        st2,
        st2.events[i],
    ) by {
        if i < n {
            assert(st2.events[i] == st.events[i]);
            let k = choose|k: Seq<char>| #[trigger]
                st.threads.contains_key(k) && st.events[i] == thread_name_event(st.threads[k], k);
            assert(st2.threads.contains_key(k) && st2.threads[k] == st.threads[k]);
        } else {
            assert(st2.threads.contains_key(key));
        }
    }
    assert forall|i: int, j: int|
        0 < i < st2.events.len() && 0 < j < st2.events.len() && i != j && (#[trigger] st2.events[i]).ph
            == EventPhase::Metadata && (#[trigger] st2.events[j]).ph
            == EventPhase::Metadata implies st2.events[i].tid != st2.events[j].tid by {
        if i < n && j < n {
            assert(st2.events[i] == st.events[i]);
            assert(st2.events[j] == st.events[j]);
        } else if i < n {
            assert(st2.events[i] == st.events[i]);
            let k = choose|k: Seq<char>| #[trigger]
                st.threads.contains_key(k) && st.events[i] == thread_name_event(st.threads[k], k);
        } else {
            assert(st2.events[j] == st.events[j]);
            let k = choose|k: Seq<char>| #[trigger]
                st.threads.contains_key(k) && st.events[j] == thread_name_event(st.threads[k], k);
        }
    }
    assert forall|i: int|
        0 <= i < st2.events.len() && (#[trigger] st2.events[i]).ph == EventPhase::End implies exists|j: int|
        0 <= j < i && #[trigger] begins_span(
            st2.events[j],
            st2.events[i].name,
            st2.events[i].cat,
            st2.events[i].tid,
        ) by {
        assert(st2.events[i] == st.events[i]);
        let j = choose|j: int|
            0 <= j < i && #[trigger] begins_span(
                st.events[j],
                st.events[i].name,
                st.events[i].cat,
                st.events[i].tid,
            );
        assert(st2.events[j] == st.events[j]);
    }
    assert forall|id: i32| #[trigger] st2.active.contains_key(id) implies exists|j: int|
        0 <= j < st2.events.len() && #[trigger] begins_span(
            st2.events[j],
            st2.active[id].name,
            st2.active[id].category,
            st2.active[id].tid,
        ) by {
        let j = choose|j: int|
            0 <= j < st.events.len() && #[trigger] begins_span(
                st.events[j],
                st.active[id].name,
                st.active[id].category,
                st.active[id].tid,
            );
        assert(st2.events[j] == st.events[j]);
    }
}

/// Resolving a thread name keeps the invariant and gives the id the name
/// now maps to; the event log only grows.
pub proof fn lemma_resolve(st: StateView, key: Seq<char>)
    requires
        state_inv(st),
        can_resolve(st, key),
    ensures
        state_inv(resolve_spec(st, key).0),
        resolve_spec(st, key).0.threads.contains_key(key),
        resolve_spec(st, key).0.threads[key] == resolve_spec(st, key).1,
        tid_known(resolve_spec(st, key).0, resolve_spec(st, key).1),
        resolve_spec(st, key).1 != 0,
        st.events.is_prefix_of(resolve_spec(st, key).0.events),
        resolve_spec(st, key).0.next_span_id == st.next_span_id,
        resolve_spec(st, key).0.active == st.active,
        resolve_spec(st, key).0.metadata == st.metadata,
        forall|k: Seq<char>| #[trigger]
            st.threads.contains_key(k) ==> resolve_spec(st, key).0.threads.contains_key(k)
                && resolve_spec(st, key).0.threads[k] == st.threads[k],
{
    let (st2, tid) = resolve_spec(st, key);
    assert(st2.events.subrange(0, st.events.len() as int) =~= st.events);
    if !st.threads.contains_key(key) {
        assert(st2.threads.contains_key(key));
        assert forall|k: Seq<char>| #[trigger]
            st2.threads.contains_key(k) implies st2.events.contains(thread_name_event(st2.threads[k], k)) by {
            if k == key {
                assert(st2.events[st.events.len() as int] == thread_name_event(tid, key));
            } else {
                let i = choose|i: int|
                    0 <= i < st.events.len() && st.events[i] == thread_name_event(st.threads[k], k);
                assert(st2.events[i] == st.events[i]);
            }
        }
        assert forall|id: i32| #[trigger] st2.active.contains_key(id) implies tid_known(
            st2,
            st2.active[id].tid,
        ) by {
            lemma_tid_known_keeps(st, st2, st.active[id].tid);
        }
        assert forall|i: int|
            0 <= i < st2.events.len() && (#[trigger] st2.events[i]).tid != 0 implies tid_known(
            st2,
            st2.events[i].tid,
        ) by {
            if i < st.events.len() {
                assert(st2.events[i] == st.events[i]);
                lemma_tid_known_keeps(st, st2, st.events[i].tid);
            } else {
                assert(st2.threads.contains_key(key) && st2.threads[key] == tid);
            }
        }
        assert forall|k1: Seq<char>, k2: Seq<char>|
            #[trigger] st2.threads.contains_key(k1) && #[trigger] st2.threads.contains_key(k2) && k1
                != k2 implies st2.threads[k1] != st2.threads[k2] by {
            if k1 != key && k2 != key {
                assert(st.threads.contains_key(k1) && st.threads.contains_key(k2));
            } else if k1 == key {
                assert(st.threads.contains_key(k2));
            } else {
                assert(st.threads.contains_key(k1));
            }
        }
        assert(tid_known(st2, tid)) by {
            assert(st2.threads.contains_key(key));
        }
        lemma_log_new_thread(st, key);
    } else {
        assert(tid_known(st2, tid)) by {
            assert(st2.threads.contains_key(key));
        }
    }
}

pub proof fn lemma_set_metadata(st: StateView, key: Seq<char>, value: Seq<char>)
    requires
        state_inv(st),
    ensures
        state_inv(set_metadata_spec(st, key, value)),
        st.events.is_prefix_of(set_metadata_spec(st, key, value).events),
{
    let st2 = set_metadata_spec(st, key, value);
    assert forall|id: i32| #[trigger] st2.active.contains_key(id) implies tid_known(
        st2,
        st2.active[id].tid,
    ) by {
        lemma_tid_known_keeps(st, st2, st.active[id].tid);
    }
    assert forall|i: int|
        0 <= i < st2.events.len() && (#[trigger] st2.events[i]).tid != 0 implies tid_known(
        st2,
        st2.events[i].tid,
    ) by {
        lemma_tid_known_keeps(st, st2, st.events[i].tid);
    }
    assert(st.events.subrange(0, st.events.len() as int) =~= st.events);
}

pub proof fn lemma_instant(
    st: StateView,
    ts: u64,
    thread: Seq<char>,
    cat: Seq<char>,
    name: Seq<char>,
    args: Map<Seq<char>, Seq<char>>,
)
    requires
        state_inv(st),
        can_resolve(st, thread),
    ensures
        state_inv(instant_spec(st, ts, thread, cat, name, args)),
        st.events.is_prefix_of(instant_spec(st, ts, thread, cat, name, args).events),
{
    lemma_resolve(st, thread);
    let (s1, tid) = resolve_spec(st, thread);
    let e = EventView { name, cat, ph: EventPhase::Instant, ts, pid: DEFAULT_PID, tid, dur: None, args };
    lemma_push_event(s1, e);
    lemma_log_push_plain(s1, e);
    let st2 = instant_spec(st, ts, thread, cat, name, args);
    assert(st2.events.subrange(0, st.events.len() as int) =~= s1.events.subrange(0, st.events.len() as int));
}

pub proof fn lemma_span_start(
    st: StateView,
    ts: u64,
    thread: Seq<char>,
    cat: Seq<char>,
    name: Seq<char>,
    args: Map<Seq<char>, Seq<char>>,
)
    requires
        state_inv(st),
        can_start_span(st, thread),
    ensures
        state_inv(span_start_spec(st, ts, thread, cat, name, args).0),
        st.events.is_prefix_of(span_start_spec(st, ts, thread, cat, name, args).0.events),
{
    lemma_resolve(st, thread);
    let (s1, tid) = resolve_spec(st, thread);
    let e = EventView { name, cat, ph: EventPhase::Begin, ts, pid: DEFAULT_PID, tid, dur: None, args };
    lemma_push_event(s1, e);
    lemma_log_push_begin(
        s1,
        e,
        s1.next_span_id,
        SpanView { category: cat, name, tid },
        (s1.next_span_id + 1) as i32,
    );
    let s2 = StateView { events: s1.events.push(e), ..s1 };
    let (st2, id) = span_start_spec(st, ts, thread, cat, name, args);
    assert(st2 == StateView {
        next_span_id: (id + 1) as i32,
        active: s2.active.insert(id, SpanView { category: cat, name, tid }),
        ..s2
    });
    assert forall|i: i32| #[trigger] st2.active.contains_key(i) implies tid_known(
        st2,
        st2.active[i].tid,
    ) by {
        if i == id {
            lemma_tid_known_keeps(s2, st2, tid);
        } else {
            lemma_tid_known_keeps(s2, st2, s2.active[i].tid);
        }
    }
    assert forall|i: int|
        0 <= i < st2.events.len() && (#[trigger] st2.events[i]).tid != 0 implies tid_known(
        st2,
        st2.events[i].tid,
    ) by {
        lemma_tid_known_keeps(s2, st2, s2.events[i].tid);
    }
    assert(st2.events.subrange(0, st.events.len() as int) =~= s1.events.subrange(0, st.events.len() as int));
}

pub proof fn lemma_span_end(
    st: StateView,
    ts: u64,
    span_id: i32,
    status: Option<Seq<char>>,
    args: Map<Seq<char>, Seq<char>>,
)
    requires
        state_inv(st),
    ensures
        state_inv(span_end_spec(st, ts, span_id, status, args)),
        st.events.is_prefix_of(span_end_spec(st, ts, span_id, status, args).events),
{
    let st2 = span_end_spec(st, ts, span_id, status, args);
    if st.active.contains_key(span_id) {
        let span = st.active[span_id];
        let args2 = match status {
            Some(s) => args.insert("status"@, s),
            None => args,
        };
        let e = EventView {
            name: span.name,
            cat: span.category,
            ph: EventPhase::End,
            ts,
            pid: DEFAULT_PID,
            tid: span.tid,
            dur: None,
            args: args2,
        };
        lemma_push_event(st, e);
        lemma_log_push_end(st, span_id, e);
        let s1 = StateView { events: st.events.push(e), ..st };
        assert(st2 == StateView { active: s1.active.remove(span_id), ..s1 });
        assert forall|i: i32| #[trigger] st2.active.contains_key(i) implies tid_known(
            st2,
            st2.active[i].tid,
        ) by {
            lemma_tid_known_keeps(s1, st2, s1.active[i].tid);
        }
        assert forall|i: int|
            0 <= i < st2.events.len() && (#[trigger] st2.events[i]).tid != 0 implies tid_known(
            st2,
            st2.events[i].tid,
        ) by {
            lemma_tid_known_keeps(s1, st2, s1.events[i].tid);
        }
    }
    assert(st2.events.subrange(0, st.events.len() as int) =~= st.events);
}

pub proof fn lemma_complete(
    st: StateView,
    thread: Seq<char>,
    cat: Seq<char>,
    name: Seq<char>,
    start_us: u64,
    end_us: u64,
    args: Map<Seq<char>, Seq<char>>,
)
    requires
        state_inv(st),
        can_resolve(st, thread),
    ensures
        state_inv(complete_spec(st, thread, cat, name, start_us, end_us, args)),
        st.events.is_prefix_of(complete_spec(st, thread, cat, name, start_us, end_us, args).events),
{
    lemma_resolve(st, thread);
    let (s1, tid) = resolve_spec(st, thread);
    let e = EventView {
        name,
        cat,
        ph: EventPhase::Complete,
        ts: start_us,
        pid: DEFAULT_PID,
        tid,
        dur: Some(span_duration(start_us, end_us)),
        args,
    };
    lemma_push_event(s1, e);
    lemma_log_push_plain(s1, e);
    let st2 = complete_spec(st, thread, cat, name, start_us, end_us, args);
    assert(st2.events.subrange(0, st.events.len() as int) =~= s1.events.subrange(0, st.events.len() as int));
}

/// A fresh recorder satisfies the invariant.
pub proof fn lemma_initial_state(host_kind: Seq<char>, label: Seq<char>, started_at: Instant)
    ensures
        state_inv(initial_state(host_kind, label, started_at)),
{
    let st = initial_state(host_kind, label, started_at);
    assert(st.events[0].tid == 0);
    let e = process_name_event(host_kind);
    assert(st.events =~= Seq::<EventView>::empty().push(e));
    lemma_count_push(Seq::<EventView>::empty(), e, EventPhase::End);
    lemma_count_push(Seq::<EventView>::empty(), e, EventPhase::Begin);
    assert(st.active.dom() =~= Set::<i32>::empty());
}

// ---------------------------------------------------------------------------
// Laws of the recorder
// ---------------------------------------------------------------------------

/// An operation on the recorder state, as plain values.
pub enum TraceOp {
    SetMetadata { key: Seq<char>, value: Seq<char> },
    Instant {
        ts: u64,
        thread: Seq<char>,
        cat: Seq<char>,
        name: Seq<char>,
        args: Map<Seq<char>, Seq<char>>,
    },
    SpanStart {
        ts: u64,
        thread: Seq<char>,
        cat: Seq<char>,
        name: Seq<char>,
        args: Map<Seq<char>, Seq<char>>,
    },
    SpanEnd {
        ts: u64,
        span_id: i32,
        status: Option<Seq<char>>,
        args: Map<Seq<char>, Seq<char>>,
    },
    Complete {
        thread: Seq<char>,
        cat: Seq<char>,
        name: Seq<char>,
        start_us: u64,
        end_us: u64,
        args: Map<Seq<char>, Seq<char>>,
    },
}

/// The operation can run without a counter overflowing.
pub open spec fn op_enabled(st: StateView, op: TraceOp) -> bool {
    match op {
        TraceOp::SetMetadata { .. } => true,
        TraceOp::Instant { thread, .. } => can_resolve(st, thread),
        TraceOp::SpanStart { thread, .. } => can_start_span(st, thread),
        TraceOp::SpanEnd { .. } => true,
        TraceOp::Complete { thread, .. } => can_resolve(st, thread),
    }
}

/// The state after the operation.
pub open spec fn apply_op(st: StateView, op: TraceOp) -> StateView {
    match op {
        TraceOp::SetMetadata { key, value } => set_metadata_spec(st, key, value),
        TraceOp::Instant { ts, thread, cat, name, args } => instant_spec(st, ts, thread, cat, name, args),
        TraceOp::SpanStart { ts, thread, cat, name, args } => span_start_spec(
            st,
            ts,
            thread,
            cat,
            name,
            args,
        ).0,
        TraceOp::SpanEnd { ts, span_id, status, args } => span_end_spec(st, ts, span_id, status, args),
        TraceOp::Complete { thread, cat, name, start_us, end_us, args } => complete_spec(
            st,
            thread,
            cat,
            name,
            start_us,
            end_us,
            args,
        ),
    }
}

/// Every operation keeps the state invariant (thread ids distinct and
/// announced, span ids below the counter, every event on an announced
/// thread), and the event log is append-only: what was recorded stays, in
/// place.
pub proof fn lemma_op_keeps_invariant_and_appends(st: StateView, op: TraceOp)
    requires
        state_inv(st),
        op_enabled(st, op),
    ensures
        state_inv(apply_op(st, op)),
        st.events.is_prefix_of(apply_op(st, op).events),
        st.next_tid <= apply_op(st, op).next_tid,
        st.next_span_id <= apply_op(st, op).next_span_id,
        apply_op(st, op).started_at == st.started_at,
{
    match op {
        TraceOp::SetMetadata { key, value } => lemma_set_metadata(st, key, value),
        TraceOp::Instant { ts, thread, cat, name, args } => lemma_instant(st, ts, thread, cat, name, args),
        TraceOp::SpanStart { ts, thread, cat, name, args } => lemma_span_start(
            st,
            ts,
            thread,
            cat,
            name,
            args,
        ),
        TraceOp::SpanEnd { ts, span_id, status, args } => lemma_span_end(st, ts, span_id, status, args),
        TraceOp::Complete { thread, cat, name, start_us, end_us, args } => lemma_complete(
            st,
            thread,
            cat,
            name,
            start_us,
            end_us,
            args,
        ),
    }
    match op {
        TraceOp::Instant { thread, .. } => lemma_resolve(st, thread),
        TraceOp::SpanStart { thread, .. } => lemma_resolve(st, thread),
        TraceOp::Complete { thread, .. } => lemma_resolve(st, thread),
        _ => {},
    }
}

/// Each operation of the sequence can run in the state the ones before it
/// leave.
pub open spec fn ops_enabled(st: StateView, ops: Seq<TraceOp>) -> bool
    decreases ops.len(),
{
    ops.len() == 0 || (op_enabled(st, ops[0]) && ops_enabled(apply_op(st, ops[0]), ops.drop_first()))
}

/// The state after the operations, in order.
pub open spec fn apply_ops(st: StateView, ops: Seq<TraceOp>) -> StateView
    decreases ops.len(),
{
    if ops.len() == 0 {
        st
    } else {
        apply_ops(apply_op(st, ops[0]), ops.drop_first())
    }
}

/// Over any sequence of operations the invariant holds, the event log only
/// grows, the id counters never decrease and the clock start never changes.
/// With `lemma_initial_state` this covers every state a recorder reaches.
pub proof fn lemma_ops_keep_invariant(st: StateView, ops: Seq<TraceOp>)
    requires
        state_inv(st),
        ops_enabled(st, ops),
    ensures
        state_inv(apply_ops(st, ops)),
        st.events.is_prefix_of(apply_ops(st, ops).events),
        st.next_tid <= apply_ops(st, ops).next_tid,
        st.next_span_id <= apply_ops(st, ops).next_span_id,
        apply_ops(st, ops).started_at == st.started_at,
    decreases ops.len(),
{
    if ops.len() > 0 {
        let s1 = apply_op(st, ops[0]);
        lemma_op_keeps_invariant_and_appends(st, ops[0]);
        lemma_ops_keep_invariant(s1, ops.drop_first());
        let fin = apply_ops(st, ops);
        assert(fin.events.subrange(0, st.events.len() as int) =~= st.events) by {
            assert(fin.events.subrange(0, s1.events.len() as int) =~= s1.events);
            assert(s1.events.subrange(0, st.events.len() as int) =~= st.events);
            assert forall|i: int| 0 <= i < st.events.len() implies fin.events[i] == st.events[i] by {
                assert(fin.events.subrange(0, s1.events.len() as int)[i] == s1.events[i]);
                assert(s1.events.subrange(0, st.events.len() as int)[i] == st.events[i]);
            }
        }
    }
}

/// Span ids are positive and strictly increase: after a span gets id `a`,
/// any operations later (ending that span among them), the next span gets
/// an id greater than `a`; so no id is ever given twice.
pub proof fn lemma_span_ids_increase(
    st: StateView,
    first: TraceOp,
    ops: Seq<TraceOp>,
    second: TraceOp,
)
    requires
        state_inv(st),
        first is SpanStart,
        second is SpanStart,
        op_enabled(st, first),
        ops_enabled(apply_op(st, first), ops),
        op_enabled(apply_ops(apply_op(st, first), ops), second),
    ensures
        ({
            let a = span_start_spec(
                st,
                first->SpanStart_ts,
                first->SpanStart_thread,
                first->SpanStart_cat,
                first->SpanStart_name,
                first->SpanStart_args,
            ).1;
            let mid = apply_ops(apply_op(st, first), ops);
            let b = span_start_spec(
                mid,
                second->SpanStart_ts,
                second->SpanStart_thread,
                second->SpanStart_cat,
                second->SpanStart_name,
                second->SpanStart_args,
            ).1;
            1 <= a < b
        }),
{
    lemma_op_keeps_invariant_and_appends(st, first);
    lemma_resolve(st, first->SpanStart_thread);
    lemma_ops_keep_invariant(apply_op(st, first), ops);
    let mid = apply_ops(apply_op(st, first), ops);
    lemma_resolve(mid, second->SpanStart_thread);
}

/// Every recorded event is on process 1; metadata events are at time 0 with
/// no duration; only complete events carry a duration.
pub proof fn lemma_events_well_formed(st: StateView, i: int)
    requires
        state_inv(st),
        0 <= i < st.events.len(),
    ensures
        st.events[i].pid == DEFAULT_PID,
        st.events[i].ph == EventPhase::Metadata ==> st.events[i].ts == 0 && st.events[i].dur is None,
        st.events[i].dur is Some ==> st.events[i].ph == EventPhase::Complete,
{
    assert(event_shape(st.events[i]));
}

/// Spans balance: the end events plus the active spans are as many as the
/// begin events, and every end event has an earlier begin event with the
/// same name, category and thread.
pub proof fn lemma_spans_balanced(st: StateView, i: int)
    requires
        state_inv(st),
        0 <= i < st.events.len(),
        st.events[i].ph == EventPhase::End,
    ensures
        count_phase(st.events, EventPhase::End) + st.active.len() == count_phase(
            st.events,
            EventPhase::Begin,
        ),
        exists|j: int|
            0 <= j < i && #[trigger] begins_span(
                st.events[j],
                st.events[i].name,
                st.events[i].cat,
                st.events[i].tid,
            ),
{
}

/// Each logical thread is announced by exactly one `thread_name` event, and
/// every metadata event after the first names a known thread.
pub proof fn lemma_thread_name_events_exact(st: StateView, k: Seq<char>, i: int, j: int)
    requires
        state_inv(st),
        st.threads.contains_key(k),
        0 <= i < st.events.len(),
        0 <= j < st.events.len(),
        st.events[i] == thread_name_event(st.threads[k], k),
        st.events[j] == thread_name_event(st.threads[k], k),
    ensures
        i == j,
        st.events.contains(thread_name_event(st.threads[k], k)),
        forall|m: int|
            0 < m < st.events.len() && (#[trigger] st.events[m]).ph == EventPhase::Metadata
                ==> names_thread(st, st.events[m]),
{
    assert(i != 0 && j != 0);
    if i != j {
        assert(st.events[i].tid == st.events[j].tid);
    }
}

/// A logical thread keeps its id: resolving a name a second time gives the
/// same id and changes nothing.
pub proof fn lemma_thread_id_stable(st: StateView, key: Seq<char>)
    requires
        state_inv(st),
        can_resolve(st, key),
    ensures
        resolve_spec(resolve_spec(st, key).0, key) == (
            resolve_spec(st, key).0,
            resolve_spec(st, key).1,
        ),
{
    lemma_resolve(st, key);
}

/// Distinct logical threads have distinct ids, and each is announced by a
/// `thread_name` event in the log.
pub proof fn lemma_thread_ids_distinct(st: StateView, k1: Seq<char>, k2: Seq<char>)
    requires
        state_inv(st),
        st.threads.contains_key(k1),
        st.threads.contains_key(k2),
        k1 != k2,
    ensures
        st.threads[k1] != st.threads[k2],
        st.events.contains(thread_name_event(st.threads[k1], k1)),
{
}

/// Every event other than the process-name event is on a thread that a
/// `thread_name` event in the log announces.
pub proof fn lemma_events_on_announced_threads(st: StateView, i: int)
    requires
        state_inv(st),
        0 <= i < st.events.len(),
        st.events[i].tid != 0,
    ensures
        exists|k: Seq<char>| st.events.contains(thread_name_event(st.events[i].tid, k)),
{
    let k = choose|k: Seq<char>| #[trigger] st.threads.contains_key(k) && st.threads[k] == st.events[i].tid;
    assert(st.events.contains(thread_name_event(st.threads[k], k)));
}

/// A new guest span gets an id that no active span has, greater than every
/// active id, and is active afterwards under that id.
pub proof fn lemma_span_id_fresh(
    st: StateView,
    ts: u64,
    thread: Seq<char>,
    cat: Seq<char>,
    name: Seq<char>,
    args: Map<Seq<char>, Seq<char>>,
)
    requires
        state_inv(st),
        can_start_span(st, thread),
    ensures
        !st.active.contains_key(span_start_spec(st, ts, thread, cat, name, args).1),
        forall|id: i32| #[trigger]
            st.active.contains_key(id) ==> id < span_start_spec(st, ts, thread, cat, name, args).1,
        span_start_spec(st, ts, thread, cat, name, args).0.active.contains_key(
            span_start_spec(st, ts, thread, cat, name, args).1,
        ),
{
    lemma_resolve(st, thread);
}

/// Ending the span that was just begun removes it again and appends an `E`
/// event with the name, category and thread of its `B` event.
pub proof fn lemma_span_end_pairs_with_start(
    st: StateView,
    ts: u64,
    thread: Seq<char>,
    cat: Seq<char>,
    name: Seq<char>,
    args: Map<Seq<char>, Seq<char>>,
    end_ts: u64,
    status: Option<Seq<char>>,
    end_args: Map<Seq<char>, Seq<char>>,
)
    requires
        state_inv(st),
        can_start_span(st, thread),
    ensures
        ({
            let (s1, id) = span_start_spec(st, ts, thread, cat, name, args);
            let s2 = span_end_spec(s1, end_ts, id, status, end_args);
            let b = s1.events.last();
            let e = s2.events.last();
            &&& b.ph == EventPhase::Begin
            &&& e.ph == EventPhase::End
            &&& e.name == b.name && e.cat == b.cat && e.tid == b.tid
            &&& s2.active == st.active
            &&& s2.events.len() == s1.events.len() + 1
        }),
{
    lemma_resolve(st, thread);
    let (s1, id) = span_start_spec(st, ts, thread, cat, name, args);
    let s2 = span_end_spec(s1, end_ts, id, status, end_args);
    assert(!st.active.contains_key(id));
    assert(s2.active =~= st.active);
}

/// Ending a span id that is not active changes nothing.
pub proof fn lemma_span_end_unknown(
    st: StateView,
    ts: u64,
    span_id: i32,
    status: Option<Seq<char>>,
    args: Map<Seq<char>, Seq<char>>,
)
    requires
        !st.active.contains_key(span_id),
    ensures
        span_end_spec(st, ts, span_id, status, args) == st,
{
}

/// An instant event is appended last, stamped `ts`, on the thread's id,
/// with the name, category and arguments given and no duration; nothing
/// else but the thread table changes.
pub proof fn lemma_instant_event(
    st: StateView,
    ts: u64,
    thread: Seq<char>,
    cat: Seq<char>,
    name: Seq<char>,
    args: Map<Seq<char>, Seq<char>>,
)
    requires
        state_inv(st),
        can_resolve(st, thread),
    ensures
        ({
            let st2 = instant_spec(st, ts, thread, cat, name, args);
            let e = st2.events.last();
            &&& st2.events.len() == st.events.len() + if st.threads.contains_key(thread) {
                1int
            } else {
                2int
            }
            &&& e.ph == EventPhase::Instant
            &&& e.name == name && e.cat == cat && e.args == args
            &&& e.ts == ts
            &&& e.dur is None
            &&& st2.threads.contains_key(thread) && e.tid == st2.threads[thread]
            &&& st2.active == st.active && st2.next_span_id == st.next_span_id
            &&& st2.metadata == st.metadata
        }),
{
    lemma_resolve(st, thread);
}

/// A complete event records when its span began and how long it lasted:
/// it is appended last with `ts` the start; when the clock read `end_us` at
/// or after the start its duration is `end_us - start_us`, so `ts + dur` is
/// the end time; when the clock read earlier the duration is 0. It carries
/// the name, category and arguments given, on the thread's id.
pub proof fn lemma_complete_event(
    st: StateView,
    thread: Seq<char>,
    cat: Seq<char>,
    name: Seq<char>,
    start_us: u64,
    end_us: u64,
    args: Map<Seq<char>, Seq<char>>,
)
    requires
        state_inv(st),
        can_resolve(st, thread),
    ensures
        ({
            let st2 = complete_spec(st, thread, cat, name, start_us, end_us, args);
            let e = st2.events.last();
            &&& st2.events.len() == st.events.len() + if st.threads.contains_key(thread) {
                1int
            } else {
                2int
            }
            &&& e.ph == EventPhase::Complete
            &&& e.name == name && e.cat == cat && e.args == args
            &&& e.ts == start_us
            &&& e.dur is Some
            &&& end_us >= start_us ==> e.dur->0 == end_us - start_us
            &&& end_us >= start_us ==> e.ts + e.dur->0 == end_us
            &&& end_us < start_us ==> e.dur->0 == 0
            &&& st2.threads.contains_key(thread) && e.tid == st2.threads[thread]
            &&& st2.active == st.active && st2.next_span_id == st.next_span_id
            &&& st2.metadata == st.metadata
        }),
{
    lemma_resolve(st, thread);
}

/// Beginning a guest span returns the counter's id and advances the
/// counter; the `B` event is appended last, stamped `ts`, on the thread's
/// id, with the name, category and arguments given and no duration; the
/// span is active under the id with that name, category and thread, and no
/// other span becomes active or stops being so.
pub proof fn lemma_span_start_event(
    st: StateView,
    ts: u64,
    thread: Seq<char>,
    cat: Seq<char>,
    name: Seq<char>,
    args: Map<Seq<char>, Seq<char>>,
)
    requires
        state_inv(st),
        can_start_span(st, thread),
    ensures
        ({
            let (st2, id) = span_start_spec(st, ts, thread, cat, name, args);
            let e = st2.events.last();
            &&& id == st.next_span_id
            &&& st2.next_span_id == id + 1
            &&& st2.events.len() == st.events.len() + if st.threads.contains_key(thread) {
                1int
            } else {
                2int
            }
            &&& e.ph == EventPhase::Begin
            &&& e.name == name && e.cat == cat && e.args == args
            &&& e.ts == ts
            &&& e.dur is None
            &&& st2.threads.contains_key(thread) && e.tid == st2.threads[thread]
            &&& st2.active.contains_key(id)
            &&& st2.active[id].name == name && st2.active[id].category == cat
            &&& st2.active[id].tid == e.tid
            &&& forall|i: i32| i != id ==> (#[trigger] st2.active.contains_key(i) <==> st.active.contains_key(i))
            &&& st2.metadata == st.metadata
        }),
{
    lemma_resolve(st, thread);
}

/// Ending an active guest span appends an `E` event last, stamped `ts`,
/// with the span's name, category and thread and no duration; its
/// arguments are exactly the ones given when no status is given, and the
/// ones given with `"status"` set to the status otherwise; the span is no
/// longer active and no other span changes.
pub proof fn lemma_span_end_event(
    st: StateView,
    ts: u64,
    span_id: i32,
    status: Option<Seq<char>>,
    args: Map<Seq<char>, Seq<char>>,
)
    requires
        state_inv(st),
        st.active.contains_key(span_id),
    ensures
        ({
            let st2 = span_end_spec(st, ts, span_id, status, args);
            let e = st2.events.last();
            &&& st2.events.len() == st.events.len() + 1
            &&& e.ph == EventPhase::End
            &&& e.ts == ts
            &&& e.dur is None
            &&& e.name == st.active[span_id].name
            &&& e.cat == st.active[span_id].category
            &&& e.tid == st.active[span_id].tid
            &&& status is None ==> e.args == args
            &&& status matches Some(s) ==> e.args.contains_key("status"@) && e.args["status"@] == s
            &&& status is Some ==> forall|k: Seq<char>|
                k != "status"@ ==> (#[trigger] e.args.contains_key(k) <==> args.contains_key(k))
                    && (args.contains_key(k) ==> e.args[k] == args[k])
            &&& !st2.active.contains_key(span_id)
            &&& forall|i: i32| i != span_id ==> (#[trigger] st2.active.contains_key(i) <==> st.active.contains_key(i))
            &&& st2.threads == st.threads && st2.next_span_id == st.next_span_id
            &&& st2.metadata == st.metadata
        }),
{
}

} // verus!
