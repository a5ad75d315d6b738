use crate::config::Config;
use crate::error::Error;
use crate::finder::ConfigFinder;
use crate::locator::{name_matches, views};
use crate::paths::file_name_of;
use crate::pattern::CompiledPattern;
use vstd::prelude::*;

verus! {

/// How long, in milliseconds, a repeat of the previous event is ignored.
pub const DEBOUNCE_MS: u64 = 500;

/// The kind of a file-system change.
#[derive(Debug, Clone, Copy, PartialEq, Eq, Structural)]
pub enum EventKind {
    Create,
    Modify,
    Remove,
    Other,
}

/// A file-system change and the paths it concerns.
#[derive(Debug)]
pub struct ChangeEvent {
    pub kind: EventKind,
    pub paths: Vec<String>,
}

/// What an event comes to, for comparing it with the previous one.
pub open spec fn event_view(e: ChangeEvent) -> (EventKind, Seq<Seq<char>>) {
    (e.kind, views(e.paths@))
}

/// What the watch loop does next.
#[derive(Debug, Clone, Copy, PartialEq, Eq, Structural)]
pub enum WatchAction {
    /// Nothing: the event is a repeat, irrelevant, or the watch is cancelled.
    Ignore,
    /// Rebuild the configuration and publish it.
    Reload,
}

/// The decisions of a watch loop: the last event taken and when it came, and
/// whether the watch has been cancelled.
#[derive(Debug)]
pub struct WatchState {
    last: Option<(EventKind, Vec<String>)>,
    last_ms: u64,
    cancelled: bool,
}

/// The abstract state of a watch loop.
pub struct WatchView {
    pub last: Option<(EventKind, Seq<Seq<char>>)>,
    pub last_ms: u64,
    pub cancelled: bool,
}

/// Whether an event coming at `now` repeats the last one within the window.
pub open spec fn is_repeat(st: WatchView, e: (EventKind, Seq<Seq<char>>), now: u64) -> bool {
    st.last == Some(e) && (if now >= st.last_ms { now - st.last_ms } else { 0 }) < DEBOUNCE_MS
}

/// Whether an event is a creation, a change or a removal.
pub open spec fn is_change(k: EventKind) -> bool {
    k is Create || k is Modify || k is Remove
}

/// Whether a pattern matches the file name of one of `paths`.
pub open spec fn concerns(pats: Seq<CompiledPattern>, paths: Seq<String>) -> bool {
    exists|i: int| 0 <= i < paths.len() && name_matches(pats, file_name_of(#[trigger] paths[i]@))
}

/// One step of the loop: a cancelled watch changes nothing; a repeat is
/// ignored, its arrival becoming the time of the last event; any other
/// event becomes the last one, and asks for a reload where it is a change
/// that concerns a watched file.
pub open spec fn step(st: WatchView, e: ChangeEvent, now: u64, pats: Seq<CompiledPattern>) -> (WatchView, WatchAction) {
    if st.cancelled {
        (st, WatchAction::Ignore)
    } else if is_repeat(st, event_view(e), now) {
        (WatchView { last_ms: now, ..st }, WatchAction::Ignore)
    } else {
        let next = WatchView { last: Some(event_view(e)), last_ms: now, cancelled: false };
        if is_change(e.kind) && concerns(pats, e.paths@) {
            (next, WatchAction::Reload)
        } else {
            (next, WatchAction::Ignore)
        }
    }
}

/// The actions taken for a run of events, each with its arrival time.
pub open spec fn run(st: WatchView, evs: Seq<(ChangeEvent, u64)>, pats: Seq<CompiledPattern>) -> Seq<WatchAction>
    decreases evs.len(),
{
    if evs.len() == 0 {
        seq![]
    } else {
        let (next, a) = step(st, evs[0].0, evs[0].1, pats);
        seq![a] + run(next, evs.drop_first(), pats)
    }
}

/// Two identical events: the second asks for no reload when it comes within
/// the window of the first, and does just what the first did when it comes
/// later.
pub proof fn lemma_debounce(st: WatchView, e: ChangeEvent, t1: u64, t2: u64, pats: Seq<CompiledPattern>)
    requires
        !st.cancelled,
        !is_repeat(st, event_view(e), t1),
        t1 <= t2,
    ensures
        t2 - t1 < DEBOUNCE_MS ==> step(step(st, e, t1, pats).0, e, t2, pats).1 == WatchAction::Ignore,
        t2 - t1 >= DEBOUNCE_MS ==> step(step(st, e, t1, pats).0, e, t2, pats).1 == step(st, e, t1, pats).1,
{
}

/// Whatever an event came to, the window for the next one runs from its
/// arrival: an identical event within the window is ignored, one after it
/// is taken afresh.
pub proof fn lemma_window_from_previous(st: WatchView, e: ChangeEvent, t1: u64, t2: u64, pats: Seq<CompiledPattern>)
    requires
        !st.cancelled,
        t1 <= t2,
    ensures
        step(st, e, t1, pats).0.last == Some(event_view(e)),
        step(st, e, t1, pats).0.last_ms == t1,
        t2 - t1 < DEBOUNCE_MS ==> step(step(st, e, t1, pats).0, e, t2, pats).1 == WatchAction::Ignore,
        t2 - t1 >= DEBOUNCE_MS ==> step(step(st, e, t1, pats).0, e, t2, pats).1
            == (if is_change(e.kind) && concerns(pats, e.paths@) { WatchAction::Reload } else { WatchAction::Ignore }),
{
}

/// Once cancelled, a watch asks for no reload, whatever events come.
pub proof fn lemma_cancelled_never_reloads(st: WatchView, evs: Seq<(ChangeEvent, u64)>, pats: Seq<CompiledPattern>)
    requires
        st.cancelled,
    ensures
        run(st, evs, pats).len() == evs.len(),
        forall|i: int| 0 <= i < evs.len() ==> #[trigger] run(st, evs, pats)[i] == WatchAction::Ignore,
    decreases evs.len(),
{
    if evs.len() > 0 {
        lemma_cancelled_never_reloads(st, evs.drop_first(), pats);
        assert(step(st, evs[0].0, evs[0].1, pats) == (st, WatchAction::Ignore));
        assert(run(st, evs, pats) == seq![WatchAction::Ignore] + run(st, evs.drop_first(), pats));
        assert forall|i: int| 0 <= i < evs.len() implies #[trigger] run(st, evs, pats)[i] == WatchAction::Ignore by {
            if i > 0 {
                assert(run(st, evs, pats)[i] == run(st, evs.drop_first(), pats)[i - 1]);
            }
        }
    }
}

fn same_paths(a: &Vec<String>, b: &Vec<String>) -> (r: bool)
    ensures
        r == (views(a@) == views(b@)),
{
    if a.len() != b.len() {
        proof {
            assert(views(a@).len() != views(b@).len());
        }
        return false;
    }
    let mut i: usize = 0;
    while i < a.len()
        invariant
            a.len() == b.len(),
            i <= a.len(),
            forall|j: int| 0 <= j < i ==> a@[j]@ == #[trigger] b@[j]@,
        decreases a.len() - i,
    {
        if a[i] != b[i] {
            proof {
                assert(views(a@)[i as int] != views(b@)[i as int]);
            }
            return false;
        }
        i = i + 1;
    }
    proof {
        assert(views(a@) =~= views(b@));
    }
    true
}

fn copy_paths(paths: &Vec<String>) -> (r: Vec<String>)
    ensures
        views(r@) == views(paths@),
{
    let mut r: Vec<String> = Vec::new();
    let mut i: usize = 0;
    while i < paths.len()
        invariant
            i <= paths.len(),
            views(r@) == views(paths@.take(i as int)),
        decreases paths.len() - i,
    {
        let ghost r0 = r@;
        let p = paths[i].clone();
        r.push(p);
        proof {
            assert(r@ == r0.push(p));
            assert(views(r@) =~= views(r0).push(p@));
            assert(views(paths@.take(i + 1)) =~= views(paths@.take(i as int)).push(paths@[i as int]@));
        }
        i = i + 1;
    }
    proof {
        assert(paths@.take(i as int) =~= paths@);
    }
    r
}

impl WatchState {
    pub closed spec fn view(&self) -> WatchView {
        WatchView {
            last: match self.last {
                Some(l) => Some((l.0, views(l.1@))),
                None => None,
            },
            last_ms: self.last_ms,
            cancelled: self.cancelled,
        }
    }

    /// A watch that has seen no event and is not cancelled.
    pub fn new() -> (r: WatchState)
        ensures
            r.view().last is None,
            !r.view().cancelled,
    {
        WatchState { last: None, last_ms: 0, cancelled: false }
    }

    /// Whether the watch has been cancelled.
    pub fn is_cancelled(&self) -> (r: bool)
        ensures
            r == self.view().cancelled,
    {
        self.cancelled
    }

    /// Cancels the watch; doing so again changes nothing.
    pub fn cancel(&mut self)
        ensures
            final(self).view() == (WatchView { cancelled: true, ..old(self).view() }),
    {
        self.cancelled = true;
    }

    /// Takes the event `e`, arrived at `now` (milliseconds on a monotonic
    /// clock), and says what to do; see [`step`].
    pub fn on_event(&mut self, e: &ChangeEvent, now: u64, finder: &ConfigFinder) -> (r: WatchAction)
        ensures
            (final(self).view(), r) == step(old(self).view(), *e, now, finder.pattern_list()),
    {
        if self.cancelled {
            return WatchAction::Ignore;
        }
        let elapsed: u64 = if now >= self.last_ms { now - self.last_ms } else { 0 };
        let repeat = match &self.last {
            Some(l) => l.0 == e.kind && same_paths(&l.1, &e.paths) && elapsed < DEBOUNCE_MS,
            None => false,
        };
        if repeat {
            self.last_ms = now;
            return WatchAction::Ignore;
        }
        self.last = Some((e.kind, copy_paths(&e.paths)));
        self.last_ms = now;
        let change = match e.kind {
            EventKind::Create | EventKind::Modify | EventKind::Remove => true,
            EventKind::Other => false,
        };
        if change && finder.matche_any(&e.paths) {
            WatchAction::Reload
        } else {
            WatchAction::Ignore
        }
    }

    /// Takes the outcome of a reload: a new configuration replaces `current`
    /// unless the watch was cancelled meanwhile; a failure leaves `current` as
    /// it was. Says whether `current` was replaced, so that listeners are told.
    pub fn finish_reload(&self, current: &mut Config, outcome: Result<Config, Error>) -> (r: bool)
        ensures
            r == (!self.view().cancelled && outcome is Ok),
            r ==> *final(current) == outcome->Ok_0,
            !r ==> *final(current) == *old(current),
    {
        if self.cancelled {
            return false;
        }
        match outcome {
            Ok(c) => {
                *current = c;
                true
            },
            Err(_) => false,
        }
    }
}

} // verus!
