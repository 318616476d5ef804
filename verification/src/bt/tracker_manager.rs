//! The trackers that are known, and when they are told of a peer.

use super::http_tracker::{http_scheme, url_parts, HttpTracker, TrackerUrl};
use super::tracker::{AnnounceInfo, AnnounceResult, Event, TrackerError};
use crate::kad::addr::SocketAddr;
use vstd::prelude::*;

verus! {

/// How many nanoseconds a millisecond has.
pub const MILLISECOND: u64 = 1_000_000;

/// How long a tracker is left alone after an error, in nanoseconds.
pub const RETRY_AFTER: u64 = 1_800_000_000_000;

/// How long the longest interval is that a tracker can ask for, in nanoseconds.
pub const MAX_INTERVAL: u64 = 4_294_967_295_000_000;

/// A tracker that is known.
#[derive(Debug)]
pub enum TrackerInstance {
    /// One that is asked over HTTP.
    Http(HttpTracker),
    /// One that is asked in another way, at a URL.
    Other(TrackerUrl),
}

impl Clone for TrackerInstance {
    fn clone(&self) -> (r: TrackerInstance)
        ensures
            r == *self,
    {
        match self {
            TrackerInstance::Http(tracker) => TrackerInstance::Http(tracker.clone()),
            TrackerInstance::Other(url) => TrackerInstance::Other(url.clone()),
        }
    }
}

impl TrackerInstance {
    /// The URL of the tracker.
    pub open spec fn spec_url(&self) -> TrackerUrl {
        match *self {
            TrackerInstance::Http(tracker) => tracker.spec_url(),
            TrackerInstance::Other(url) => url,
        }
    }

    /// The URL of the tracker.
    pub fn url(&self) -> (r: &TrackerUrl)
        ensures
            *r == self.spec_url(),
    {
        match self {
            TrackerInstance::Http(tracker) => tracker.url(),
            TrackerInstance::Other(url) => url,
        }
    }
}

/// The trackers that are known, no two with the same URL.
#[derive(Debug)]
pub struct TrackerManager {
    trackers: Vec<TrackerInstance>,
}

/// The URLs of trackers.
pub open spec fn tracker_urls(trackers: Seq<TrackerInstance>) -> Seq<Seq<char>> {
    Seq::new(trackers.len(), |i: int| trackers[i].spec_url().text@)
}

/// The URLs that are known after another was added, and whether it was new: one that is a
/// URL of HTTP and not yet known.
pub open spec fn urls_added(urls: Seq<Seq<char>>, url: Seq<char>) -> Option<Seq<Seq<char>>> {
    match url_parts(url) {
        Some((scheme, text)) => if http_scheme(scheme) && !urls.contains(text) {
            Some(urls.push(text))
        } else {
            None
        },
        None => None,
    }
}

/// The URLs that are known after a list was added, and how many were new.
pub open spec fn list_added(urls: Seq<Seq<char>>, list: Seq<String>) -> (Seq<Seq<char>>, nat)
    decreases list.len(),
{
    if list.len() == 0 {
        (urls, 0)
    } else {
        let (before, count) = list_added(urls, list.drop_last());
        if list.last()@.len() == 0 {
            (before, count)
        } else {
            match urls_added(before, list.last()@) {
                Some(after) => (after, count + 1),
                None => (before, count),
            }
        }
    }
}

impl TrackerManager {
    /// The trackers.
    pub closed spec fn known(&self) -> Seq<TrackerInstance> {
        self.trackers@
    }

    /// The URLs of the trackers.
    pub open spec fn urls(&self) -> Seq<Seq<char>> {
        tracker_urls(self.known())
    }

    /// Whether no URL occurs twice.
    pub open spec fn wf(&self) -> bool {
        self.urls().no_duplicates()
    }

    /// No trackers.
    pub fn new() -> (r: TrackerManager)
        ensures
            r.wf(),
            r.known() == Seq::<TrackerInstance>::empty(),
    {
        TrackerManager { trackers: Vec::new() }
    }

    /// Where the tracker with a URL stands.
    fn position(&self, text: &String) -> (r: Option<usize>)
        ensures
            match r {
                Some(i) => i < self.known().len() && self.urls()[i as int] == text@,
                None => !self.urls().contains(text@),
            },
    {
        let mut i: usize = 0;
        while i < self.trackers.len()
            invariant
                i <= self.trackers@.len(),
                forall|j: int| 0 <= j < i ==> #[trigger] self.urls()[j] != text@,
            decreases self.trackers@.len() - i,
        {
            if self.trackers[i].url().text == *text {
                return Some(i);
            }
            i += 1;
        }
        None
    }

    /// The URLs of the trackers.
    pub fn trackers(&self) -> (r: Vec<String>)
        ensures
            r@.len() == self.urls().len(),
            forall|i: int| 0 <= i < r@.len() ==> (#[trigger] r@[i])@ == self.urls()[i],
    {
        let mut r: Vec<String> = Vec::new();
        let mut i: usize = 0;
        while i < self.trackers.len()
            invariant
                i <= self.trackers@.len(),
                r@.len() == i,
                forall|j: int| 0 <= j < i ==> (#[trigger] r@[j])@ == self.urls()[j],
            decreases self.trackers@.len() - i,
        {
            r.push(self.trackers[i].url().text.clone());
            i += 1;
        }
        r
    }

    /// Adds a tracker, in place of the one with the same URL if there is one.
    pub fn add_tracker_instance(&mut self, tracker: TrackerInstance)
        requires
            old(self).wf(),
        ensures
            final(self).wf(),
            final(self).known().contains(tracker),
            forall|t: TrackerInstance|
                #![trigger old(self).known().contains(t)]
                t.spec_url().text@ != tracker.spec_url().text@ ==> (old(self).known().contains(t)
                    <==> final(self).known().contains(t)),
            final(self).urls() == (if old(self).urls().contains(tracker.spec_url().text@) {
                old(self).urls()
            } else {
                old(self).urls().push(tracker.spec_url().text@)
            }),
    {
        let ghost before = self.known();
        let ghost text = tracker.spec_url().text@;
        match self.position(&tracker.url().text) {
            Some(i) => {
                self.trackers.set(i, tracker);
                proof {
                    assert(self.urls() =~= old(self).urls());
                    assert(old(self).urls()[i as int] == text);
                    assert(self.known()[i as int] == tracker);
                    assert forall|t: TrackerInstance|
                        #![trigger before.contains(t)]
                        t.spec_url().text@ != text implies (before.contains(t)
                        <==> self.known().contains(t)) by {
                        if before.contains(t) {
                            let j = choose|j: int| 0 <= j < before.len() && before[j] == t;
                            assert(tracker_urls(before)[j] == t.spec_url().text@);
                            assert(self.known()[j] == t);
                        }
                        if self.known().contains(t) {
                            let j = choose|j: int|
                                0 <= j < self.known().len() && self.known()[j] == t;
                            assert(before[j] == t);
                        }
                    }
                }
            },
            None => {
                self.trackers.push(tracker);
                proof {
                    assert(self.urls() =~= old(self).urls().push(text));
                    assert(self.known()[before.len() as int] == tracker);
                    assert forall|t: TrackerInstance|
                        #![trigger before.contains(t)]
                        t.spec_url().text@ != text implies (before.contains(t)
                        <==> self.known().contains(t)) by {
                        if before.contains(t) {
                            let j = choose|j: int| 0 <= j < before.len() && before[j] == t;
                            assert(self.known()[j] == t);
                        }
                        if self.known().contains(t) {
                            let j = choose|j: int|
                                0 <= j < self.known().len() && self.known()[j] == t;
                            assert(before[j] == t);
                        }
                    }
                }
            },
        }
    }

    /// Takes in a packet: none is for a tracker of this manager.
    pub fn process_udp(&self, data: &[u8], addr: &SocketAddr) -> (r: bool)
        ensures
            !r,
    {
        false
    }

    /// Adds the tracker with a URL, where it is one of HTTP and not yet known.
    pub fn add_tracker(&mut self, url: &str) -> (r: Option<()>)
        requires
            old(self).wf(),
        ensures
            final(self).wf(),
            match urls_added(old(self).urls(), url@) {
                Some(after) => {
                    &&& r is Some
                    &&& final(self).urls() == after
                    &&& final(self).known().drop_last() == old(self).known()
                    &&& final(self).known().last() is Http
                    &&& url_parts(url@) == Some(
                        (
                            final(self).known().last().spec_url().scheme@,
                            final(self).known().last().spec_url().text@,
                        ),
                    )
                },
                None => r is None && *final(self) == *old(self),
            },
    {
        match TrackerUrl::parse(url) {
            Some(url) => self.add_url(&url),
            None => None,
        }
    }

    /// Adds the tracker with a URL, where it is one of HTTP and not yet known.
    pub fn add_url(&mut self, url: &TrackerUrl) -> (r: Option<()>)
        requires
            old(self).wf(),
        ensures
            final(self).wf(),
            if http_scheme(url.scheme@) && !old(self).urls().contains(url.text@) {
                &&& r is Some
                &&& final(self).urls() == old(self).urls().push(url.text@)
                &&& final(self).known().drop_last() == old(self).known()
                &&& final(self).known().last() is Http
                &&& final(self).known().last().spec_url() == *url
            } else {
                r is None && *final(self) == *old(self)
            },
    {
        match self.position(&url.text) {
            Some(i) => {
                assert(self.urls()[i as int] == url.text@);
                None
            },
            None => match HttpTracker::new(url) {
                Some(tracker) => {
                    self.trackers.push(TrackerInstance::Http(tracker));
                    proof {
                        assert(self.urls() =~= old(self).urls().push(url.text@));
                        assert(self.known().drop_last() =~= old(self).known());
                    }
                    Some(())
                },
                None => None,
            },
        }
    }

    /// Adds the trackers with URLs; the result is how many were added.
    pub fn add_tracker_list(&mut self, urls: &[String]) -> (r: usize)
        requires
            old(self).wf(),
        ensures
            final(self).wf(),
            (final(self).urls(), r as nat) == list_added(old(self).urls(), urls@),
    {
        let mut count: usize = 0;
        let mut i: usize = 0;
        let ghost before = self.urls();
        while i < urls.len()
            invariant
                self.wf(),
                i <= urls@.len(),
                count <= i,
                (self.urls(), count as nat) == list_added(before, urls@.take(i as int)),
            decreases urls@.len() - i,
        {
            proof {
                assert(urls@.take(i + 1).drop_last() =~= urls@.take(i as int));
            }
            if !urls[i].as_str().is_empty() {
                if self.add_tracker(urls[i].as_str()).is_some() {
                    count += 1;
                }
            }
            i += 1;
        }
        assert(urls@.take(i as int) =~= urls@);
        count
    }
}

/// A tracker that is told of a peer: when it is told next, which is not known before the
/// first time, and what went wrong the last time.
#[derive(Debug)]
pub struct TrackerState {
    pub tracker: TrackerInstance,
    pub next_announce: Option<u64>,
    pub last_error: Option<TrackerError>,
}

/// Trackers that are told of a peer. Times are in nanoseconds of a steady clock.
#[derive(Debug)]
pub struct AnnounceTask {
    actived: Vec<TrackerState>,
    info: AnnounceInfo,
}

/// How long it is until each of the trackers is told again, for those whose time has not
/// passed.
pub open spec fn waits(states: Seq<TrackerState>, now: u64) -> Seq<nat>
    decreases states.len(),
{
    if states.len() == 0 {
        seq![]
    } else {
        let front = waits(states.drop_last(), now);
        match states.last().next_announce {
            Some(time) => if time >= now {
                front.push((time - now) as nat)
            } else {
                front
            },
            None => front,
        }
    }
}

/// The sum of numbers.
pub open spec fn total(s: Seq<nat>) -> nat
    decreases s.len(),
{
    if s.len() == 0 {
        0
    } else {
        total(s.drop_last()) + s.last()
    }
}

/// What is told at a time: to the trackers that never were told what happened first, to
/// those whose time has come that nothing new happened.
pub open spec fn due(states: Seq<TrackerState>, info: AnnounceInfo, now: u64) -> Seq<
    (int, AnnounceInfo),
>
    decreases states.len(),
{
    if states.len() == 0 {
        seq![]
    } else {
        let front = due(states.drop_last(), info, now);
        match states.last().next_announce {
            Some(time) => if now < time {
                front
            } else {
                front.push((states.len() - 1, AnnounceInfo { event: Event::Empty, ..info }))
            },
            None => front.push((states.len() - 1, info)),
        }
    }
}

/// The trackers that were told of a peer.
pub open spec fn told(states: Seq<TrackerState>) -> Seq<TrackerInstance>
    decreases states.len(),
{
    if states.len() == 0 {
        seq![]
    } else {
        let front = told(states.drop_last());
        if states.last().next_announce is Some {
            front.push(states.last().tracker)
        } else {
            front
        }
    }
}

/// Numbers that are at most a bound add up to at most the bound for each.
proof fn lemma_total_bound(s: Seq<nat>, bound: nat)
    requires
        forall|i: int| 0 <= i < s.len() ==> #[trigger] s[i] <= bound,
    ensures
        total(s) <= bound * s.len(),
    decreases s.len(),
{
    if s.len() > 0 {
        lemma_total_bound(s.drop_last(), bound);
        assert(bound * s.len() == bound * (s.len() - 1) + bound) by (nonlinear_arith)
            requires
                s.len() > 0,
        ;
    }
}

/// There are not more waits than trackers, and none is longer than until the end of time.
proof fn lemma_waits(states: Seq<TrackerState>, now: u64)
    ensures
        waits(states, now).len() <= states.len(),
        forall|i: int|
            0 <= i < waits(states, now).len() ==> #[trigger] waits(states, now)[i] <= u64::MAX
                - now,
    decreases states.len(),
{
    if states.len() > 0 {
        lemma_waits(states.drop_last(), now);
    }
}

impl AnnounceTask {
    /// The trackers.
    pub closed spec fn states(&self) -> Seq<TrackerState> {
        self.actived@
    }

    /// What the trackers are told.
    pub closed spec fn told_info(&self) -> AnnounceInfo {
        self.info
    }

    /// All trackers of a manager, none of which was told anything.
    pub fn new(manager: &TrackerManager, info: AnnounceInfo) -> (r: AnnounceTask)
        ensures
            r.told_info() == info,
            r.states().len() == manager.known().len(),
            forall|i: int|
                0 <= i < r.states().len() ==> {
                    let state = #[trigger] r.states()[i];
                    &&& state.tracker == manager.known()[i]
                    &&& state.next_announce is None
                    &&& state.last_error is None
                },
    {
        let mut actived: Vec<TrackerState> = Vec::new();
        let mut i: usize = 0;
        while i < manager.trackers.len()
            invariant
                i <= manager.trackers@.len(),
                actived@.len() == i,
                forall|j: int|
                    0 <= j < i ==> {
                        let state = #[trigger] actived@[j];
                        &&& state.tracker == manager.trackers@[j]
                        &&& state.next_announce is None
                        &&& state.last_error is None
                    },
            decreases manager.trackers@.len() - i,
        {
            actived.push(
                TrackerState {
                    tracker: manager.trackers[i].clone(),
                    next_announce: None,
                    last_error: None,
                },
            );
            i += 1;
        }
        AnnounceTask { actived, info }
    }

    /// The trackers.
    pub fn trackers(&self) -> (r: &Vec<TrackerState>)
        ensures
            r@ == self.states(),
    {
        &self.actived
    }

    /// When the trackers are told next: on average of the times that have not passed; now
    /// where there is none; never where there is no tracker.
    pub fn avg_next_announce(&self, now: u64) -> (r: Option<u64>)
        ensures
            r == (if self.states().len() == 0 {
                None::<u64>
            } else {
                let waits = waits(self.states(), now);
                if waits.len() == 0 {
                    Some(now)
                } else {
                    Some((now + total(waits) / waits.len()) as u64)
                }
            }),
            r matches Some(time) ==> now <= time,
            r is Some && waits(self.states(), now).len() > 0 ==> r->Some_0 == now + total(
                waits(self.states(), now),
            ) / waits(self.states(), now).len(),
    {
        if self.actived.len() == 0 {
            return None;
        }
        let mut sum: u128 = 0;
        let mut count: u64 = 0;
        let mut i: usize = 0;
        assert(self.actived@.take(0) =~= seq![]);
        while i < self.actived.len()
            invariant
                i <= self.actived@.len(),
                count == waits(self.actived@.take(i as int), now).len(),
                count <= i,
                sum == total(waits(self.actived@.take(i as int), now)),
                sum <= u64::MAX * count,
            decreases self.actived@.len() - i,
        {
            let ghost before = waits(self.actived@.take(i as int), now);
            assert(self.actived@.take(i + 1).drop_last() =~= self.actived@.take(i as int));
            if let Some(time) = self.actived[i].next_announce {
                if time >= now {
                    proof {
                        assert(before.push((time - now) as nat).drop_last() =~= before);
                        assert(u64::MAX * count + u64::MAX == u64::MAX * (count + 1))
                            by (nonlinear_arith);
                        assert(u64::MAX * (count + 1) <= u64::MAX * u64::MAX) by (nonlinear_arith)
                            requires
                                count + 1 <= u64::MAX,
                        ;
                    }
                    sum += (time - now) as u128;
                    count += 1;
                }
            }
            i += 1;
        }
        assert(self.actived@.take(i as int) =~= self.actived@);
        if count == 0 {
            return Some(now);
        }
        proof {
            let w = waits(self.actived@, now);
            lemma_waits(self.actived@, now);
            lemma_total_bound(w, (u64::MAX - now) as nat);
            vstd::arithmetic::div_mod::lemma_div_is_ordered(
                sum as int,
                (u64::MAX - now) * (count as int),
                count as int,
            );
            vstd::arithmetic::div_mod::lemma_div_by_multiple(u64::MAX - now, count as int);
        }
        let avg: u64 = (sum / count as u128) as u64;
        Some(now + avg)
    }

    /// What is told at a time, and to which trackers.
    pub fn announce(&self, now: u64) -> (r: Vec<(usize, AnnounceInfo)>)
        ensures
            r@.len() == due(self.states(), self.told_info(), now).len(),
            forall|i: int|
                0 <= i < r@.len() ==> {
                    let (at, info) = #[trigger] r@[i];
                    (at as int, info) == due(self.states(), self.told_info(), now)[i]
                },
    {
        let mut r: Vec<(usize, AnnounceInfo)> = Vec::new();
        let mut i: usize = 0;
        assert(self.actived@.take(0) =~= seq![]);
        while i < self.actived.len()
            invariant
                i <= self.actived@.len(),
                r@.len() == due(self.actived@.take(i as int), self.info, now).len(),
                forall|j: int|
                    0 <= j < r@.len() ==> {
                        let (at, info) = #[trigger] r@[j];
                        (at as int, info) == due(self.actived@.take(i as int), self.info, now)[j]
                    },
            decreases self.actived@.len() - i,
        {
            assert(self.actived@.take(i + 1).drop_last() =~= self.actived@.take(i as int));
            match self.actived[i].next_announce {
                Some(next_announce) => {
                    if now >= next_announce {
                        let mut info = self.info;
                        info.event = Event::Empty;
                        r.push((i, info));
                    }
                },
                None => {
                    r.push((i, self.info));
                },
            }
            i += 1;
        }
        assert(self.actived@.take(i as int) =~= self.actived@);
        r
    }

    /// Keeps what a tracker answered at a time, and hands on what it said.
    pub fn announced(
        &mut self,
        at: usize,
        result: Result<AnnounceResult, TrackerError>,
        now: u64,
    ) -> (r: Option<AnnounceResult>)
        requires
            at < old(self).states().len(),
            now <= u64::MAX - MAX_INTERVAL,
        ensures
            final(self).told_info() == old(self).told_info(),
            match result {
                Ok(value) => {
                    &&& r == Some(value)
                    &&& final(self).states() == old(self).states().update(
                        at as int,
                        TrackerState {
                            next_announce: Some((now + value.interval * MILLISECOND) as u64),
                            last_error: None,
                            ..old(self).states()[at as int]
                        },
                    )
                },
                Err(e) => {
                    &&& r is None
                    &&& final(self).states() == old(self).states().update(
                        at as int,
                        TrackerState {
                            next_announce: Some((now + RETRY_AFTER) as u64),
                            last_error: Some(e),
                            ..old(self).states()[at as int]
                        },
                    )
                },
            },
    {
        let tracker = self.actived[at].tracker.clone();
        match result {
            Ok(value) => {
                let next: u64 = now + value.interval as u64 * MILLISECOND;
                self.actived.set(
                    at,
                    TrackerState { tracker, next_announce: Some(next), last_error: None },
                );
                Some(value)
            },
            Err(e) => {
                self.actived.set(
                    at,
                    TrackerState {
                        tracker,
                        next_announce: Some(now + RETRY_AFTER),
                        last_error: Some(e),
                    },
                );
                None
            },
        }
    }

    /// Stops: the trackers that were told of the peer are to be told that it stopped, and
    /// no tracker is left.
    pub fn shutdown(&mut self) -> (r: (Vec<TrackerInstance>, AnnounceInfo))
        ensures
            r.0@ == told(old(self).states()),
            r.1 == (AnnounceInfo { event: Event::Stopped, ..old(self).told_info() }),
            final(self).states() == Seq::<TrackerState>::empty(),
            final(self).told_info() == old(self).told_info(),
    {
        let mut info = self.info;
        info.event = Event::Stopped;
        let mut r: Vec<TrackerInstance> = Vec::new();
        let mut i: usize = 0;
        assert(self.actived@.take(0) =~= seq![]);
        while i < self.actived.len()
            invariant
                i <= self.actived@.len(),
                r@ == told(self.actived@.take(i as int)),
            decreases self.actived@.len() - i,
        {
            assert(self.actived@.take(i + 1).drop_last() =~= self.actived@.take(i as int));
            if self.actived[i].next_announce.is_some() {
                r.push(self.actived[i].tracker.clone());
            }
            i += 1;
        }
        assert(self.actived@.take(i as int) =~= self.actived@);
        self.actived.clear();
        (r, info)
    }
}

/// What is told at a time, by tracker: each tracker is told exactly where it never was or
/// where its time has come.
pub proof fn law_due(states: Seq<TrackerState>, info: AnnounceInfo, now: u64, at: int)
    ensures
        (exists|i: int|
            0 <= i < due(states, info, now).len() && (#[trigger] due(states, info, now)[i]).0 == at)
            <==> (0 <= at < states.len() && (states[at].next_announce matches Some(time)
            ==> time <= now)),
        forall|i: int|
            0 <= i < due(states, info, now).len() ==> {
                let (k, what) = #[trigger] due(states, info, now)[i];
                &&& 0 <= k < states.len()
                &&& what == (if states[k].next_announce is Some {
                    AnnounceInfo { event: Event::Empty, ..info }
                } else {
                    info
                })
            },
    decreases states.len(),
{
    if states.len() > 0 {
        let front = states.drop_last();
        let d = due(front, info, now);
        let e = due(states, info, now);
        law_due(front, info, now, at);
        law_due(front, info, now, states.len() - 1);
        assert forall|i: int| 0 <= i < d.len() implies e[i] == d[i] by {}
        if exists|i: int| 0 <= i < d.len() && (#[trigger] d[i]).0 == at {
            let i = choose|i: int| 0 <= i < d.len() && (#[trigger] d[i]).0 == at;
            assert(e[i].0 == at);
        }
        if e.len() > d.len() {
            assert(e[d.len() as int].0 == states.len() - 1);
        }
        assert forall|i: int| 0 <= i < e.len() implies ({
            let (k, what) = #[trigger] e[i];
            &&& 0 <= k < states.len()
            &&& what == (if states[k].next_announce is Some {
                AnnounceInfo { event: Event::Empty, ..info }
            } else {
                info
            })
        }) by {
            if i < d.len() {
                let (k, what) = d[i];
                assert(front[k] == states[k]);
            }
        }
        if exists|i: int| 0 <= i < e.len() && (#[trigger] e[i]).0 == at {
            let i = choose|i: int| 0 <= i < e.len() && (#[trigger] e[i]).0 == at;
            if i < d.len() {
                assert(d[i].0 == at);
            }
        }
    }
}

/// A tracker is added where its URL is one of HTTP and was not known, and then it is known
/// behind the others.
pub proof fn law_url_added(urls: Seq<Seq<char>>, url: Seq<char>, scheme: Seq<char>, text: Seq<char>)
    requires
        url_parts(url) == Some((scheme, text)),
    ensures
        urls_added(urls, url) is Some <==> (scheme == "http"@ || scheme == "https"@)
            && !urls.contains(text),
        urls_added(urls, url) matches Some(after) ==> after == urls.push(text),
{
}

/// After a list was added, those that were known are known as before, in front of the new
/// ones, of which there are as many as were counted; each of them is of HTTP and from the
/// list; and every URL of HTTP in the list is known.
pub proof fn law_list_added(urls: Seq<Seq<char>>, list: Seq<String>)
    ensures
        ({
            let (after, count) = list_added(urls, list);
            &&& after.len() == urls.len() + count
            &&& after.take(urls.len() as int) == urls
            &&& forall|i: int|
                0 <= i < list.len() ==> ((#[trigger] list[i])@.len() > 0 ==> (url_parts(list[i]@)
                    matches Some((scheme, text)) ==> ((scheme == "http"@ || scheme == "https"@)
                    ==> after.contains(text))))
            &&& forall|k: int|
                urls.len() <= k < after.len() ==> exists|i: int|
                    0 <= i < list.len() && from_list(#[trigger] list[i], #[trigger] after[k])
            &&& urls.no_duplicates() ==> after.no_duplicates()
        }),
    decreases list.len(),
{
    let (after, count) = list_added(urls, list);
    if list.len() == 0 {
        assert(after.take(urls.len() as int) =~= urls);
    } else {
        let front = list.drop_last();
        law_list_added(urls, front);
        let (before, n) = list_added(urls, front);
        assert(forall|t: Seq<char>| before.contains(t) ==> after.contains(t)) by {
            assert forall|t: Seq<char>| before.contains(t) implies after.contains(t) by {
                let i = choose|i: int| 0 <= i < before.len() && before[i] == t;
                assert(after[i] == t);
            }
        }
        assert(after.take(urls.len() as int) =~= urls) by {
            assert(before.take(urls.len() as int) =~= urls);
        }
        assert forall|i: int| 0 <= i < list.len() implies ((#[trigger] list[i])@.len() > 0 ==> (
        url_parts(list[i]@) matches Some((scheme, text)) ==> ((scheme == "http"@ || scheme
            == "https"@) ==> after.contains(text)))) by {
            if i < front.len() {
                assert(front[i] == list[i]);
            } else if list[i]@.len() > 0 {
                if let Some((scheme, text)) = url_parts(list[i]@) {
                    if scheme == "http"@ || scheme == "https"@ {
                        if !before.contains(text) {
                            assert(after[before.len() as int] == text);
                        }
                    }
                }
            }
        }
        assert forall|k: int| urls.len() <= k < after.len() implies exists|i: int|
            0 <= i < list.len() && from_list(#[trigger] list[i], #[trigger] after[k]) by {
            if k < before.len() {
                assert(after[k] == before[k]);
                let i = choose|i: int|
                    0 <= i < front.len() && from_list(#[trigger] front[i], before[k]);
                assert(list[i] == front[i]);
                assert(from_list(list[i], after[k]));
            } else {
                assert(from_list(list[list.len() - 1], after[k]));
            }
        }
    }
}

/// Whether a URL that is known is that of HTTP which a text is.
pub open spec fn from_list(item: String, url: Seq<char>) -> bool {
    url_parts(item@) matches Some((scheme, text)) && text == url && (scheme == "http"@ || scheme
        == "https"@)
}

/// The trackers whose time has not passed are waited for in their order, each for as long as
/// its time is away, and the others are not.
pub proof fn law_waits(states: Seq<TrackerState>, state: TrackerState, now: u64)
    ensures
        waits(Seq::empty(), now) == Seq::<nat>::empty(),
        (state.next_announce matches Some(time) && now <= time) ==> waits(states.push(state), now)
            == waits(states, now).push((state.next_announce->Some_0 - now) as nat),
        !(state.next_announce matches Some(time) && now <= time) ==> waits(states.push(state), now)
            == waits(states, now),
{
    assert(states.push(state).drop_last() =~= states);
}

/// A sum grows by what is put behind.
pub proof fn law_total(s: Seq<nat>, n: nat)
    ensures
        total(Seq::empty()) == 0,
        total(s.push(n)) == total(s) + n,
{
    assert(s.push(n).drop_last() =~= s);
}

/// The trackers that are told that the peer stopped are those that were told of it, each once
/// and in their order.
pub proof fn law_told(states: Seq<TrackerState>, state: TrackerState)
    ensures
        told(Seq::empty()) == Seq::<TrackerInstance>::empty(),
        told(states.push(state)) == (if state.next_announce is Some {
            told(states).push(state.tracker)
        } else {
            told(states)
        }),
{
    assert(states.push(state).drop_last() =~= states);
}

/// The average of waits is not shorter than the shortest and not longer than the longest.
pub proof fn law_average(s: Seq<nat>, low: nat, high: nat)
    requires
        s.len() > 0,
        forall|i: int| 0 <= i < s.len() ==> low <= #[trigger] s[i] <= high,
    ensures
        low <= total(s) / s.len() <= high,
    decreases s.len(),
{
    lemma_total_between(s, low, high);
    let (t, n) = (total(s) as int, s.len() as int);
    assert(low <= t / n <= high) by (nonlinear_arith)
        requires
            low * n <= t <= high * n,
            n > 0,
    ;
}

/// A sum lies between that of the least and that of the greatest number.
proof fn lemma_total_between(s: Seq<nat>, low: nat, high: nat)
    requires
        forall|i: int| 0 <= i < s.len() ==> low <= #[trigger] s[i] <= high,
    ensures
        low * s.len() <= total(s) <= high * s.len(),
    decreases s.len(),
{
    if s.len() > 0 {
        lemma_total_between(s.drop_last(), low, high);
        let n = s.len() as int;
        assert(low <= s[s.len() - 1] <= high);
        assert(low * n == low * (n - 1) + low) by (nonlinear_arith);
        assert(high * n == high * (n - 1) + high) by (nonlinear_arith);
    }
}

} // verus!
