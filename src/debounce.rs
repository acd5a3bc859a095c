use vstd::prelude::*;

verus! {

/// The class of a raw filesystem event, as far as the debouncer cares.
#[derive(Clone, Copy, Debug, PartialEq, Eq, Structural)]
pub enum ChangeKind {
    Create,
    Modify,
    Remove,
    Other,
}

impl ChangeKind {
    /// Whether events of this kind count as a change of the directory's contents.
    pub open spec fn spec_is_change(self) -> bool {
        !(self is Other)
    }

    pub fn is_change(&self) -> (r: bool)
        ensures
            r == self.spec_is_change(),
    {
        !matches!(self, ChangeKind::Other)
    }
}

/// The byte sequences of a list of paths.
pub open spec fn path_views(ps: Seq<Vec<u8>>) -> Seq<Seq<u8>> {
    ps.map_values(|p: Vec<u8>| p@)
}

/// The set of distinct paths named in a list.
pub open spec fn path_set(ps: Seq<Vec<u8>>) -> Set<Seq<u8>> {
    path_views(ps).to_set()
}

/// The abstract state of a debouncer: the distinct paths accumulated since
/// the last emission, the time of that emission and the window length.
pub struct DebounceModel {
    pub pending: Set<Seq<u8>>,
    pub last_emit: u64,
    pub window: u64,
}

/// One raw event: its kind, the paths it affects and the time it was seen.
pub struct RawEvent {
    pub kind: ChangeKind,
    pub paths: Set<Seq<u8>>,
    pub time: u64,
}

/// Whether an event at time `now` closes the window of state `m`.
pub open spec fn closes(m: DebounceModel, now: u64) -> bool {
    now > m.last_emit && now - m.last_emit > m.window
}

/// The state after one event, and the count that the event releases, if any.
pub open spec fn feed(m: DebounceModel, e: RawEvent) -> (DebounceModel, Option<nat>) {
    if !e.kind.spec_is_change() {
        (m, None)
    } else if closes(m, e.time) && m.pending.union(e.paths).len() > 0 {
        (
            DebounceModel { pending: Set::empty(), last_emit: e.time, window: m.window },
            Some(m.pending.union(e.paths).len()),
        )
    } else {
        (DebounceModel { pending: m.pending.union(e.paths), ..m }, None)
    }
}

/// The state after a sequence of events.
pub open spec fn feed_all(m: DebounceModel, es: Seq<RawEvent>) -> DebounceModel
    decreases es.len(),
{
    if es.len() == 0 {
        m
    } else {
        feed(feed_all(m, es.drop_last()), es.last()).0
    }
}

/// The union of the paths of the change events of a sequence.
pub open spec fn changed_paths(es: Seq<RawEvent>) -> Set<Seq<u8>>
    decreases es.len(),
{
    if es.len() == 0 {
        Set::empty()
    } else if es.last().kind.spec_is_change() {
        changed_paths(es.drop_last()).union(es.last().paths)
    } else {
        changed_paths(es.drop_last())
    }
}

/// A count as a mathematical number.
pub open spec fn count_of(r: Option<usize>) -> Option<nat> {
    match r {
        Some(n) => Some(n as nat),
        None => None,
    }
}

/// A burst of raw events that all fall within the window that began at the
/// last emission releases nothing while it lasts; the change that closes the
/// window then releases exactly one trigger, whose count is the number of
/// distinct paths affected by the whole burst.
pub proof fn lemma_burst_emits_once(m: DebounceModel, burst: Seq<RawEvent>, closing: RawEvent)
    requires
        m.pending == Set::<Seq<u8>>::empty(),
        forall|i: int| 0 <= i < burst.len() ==> !closes(m, #[trigger] burst[i].time),
        forall|i: int| 0 <= i < burst.len() ==> (#[trigger] burst[i].paths).finite(),
        closing.kind.spec_is_change(),
        closes(m, closing.time),
        closing.paths.finite(),
    ensures
        forall|i: int| 0 <= i < burst.len() ==> (#[trigger] feed(feed_all(m, burst.take(i)), burst[i])).1 is None,
        feed_all(m, burst) == (DebounceModel { pending: changed_paths(burst), ..m }),
        ({
            let total = changed_paths(burst).union(closing.paths);
            feed(feed_all(m, burst), closing).1 == if total.len() == 0 { None::<nat> } else { Some(total.len()) }
        }),
{
    lemma_burst_prefix(m, burst, burst.len() as int);
    assert(burst.take(burst.len() as int) =~= burst);
    assert(m.pending.union(changed_paths(burst)) =~= changed_paths(burst));
    let mb = feed_all(m, burst);
    assert(mb.pending.union(closing.paths) =~= changed_paths(burst).union(closing.paths));
    assert(closes(mb, closing.time));
    assert forall|i: int| 0 <= i < burst.len() implies (#[trigger] feed(feed_all(m, burst.take(i)), burst[i])).1 is None by {
        lemma_burst_prefix(m, burst, i);
    }
}

proof fn lemma_burst_prefix(m: DebounceModel, burst: Seq<RawEvent>, k: int)
    requires
        0 <= k <= burst.len(),
        forall|i: int| 0 <= i < burst.len() ==> !closes(m, #[trigger] burst[i].time),
    ensures
        feed_all(m, burst.take(k)) == (DebounceModel { pending: m.pending.union(changed_paths(burst.take(k))), ..m }),
    decreases k,
{
    if k == 0 {
        assert(m.pending.union(changed_paths(burst.take(0))) =~= m.pending);
    } else {
        lemma_burst_prefix(m, burst, k - 1);
        assert(burst.take(k).drop_last() =~= burst.take(k - 1));
        assert(burst.take(k).last() == burst[k - 1]);
        let _ = closes(m, burst[k - 1].time);
        assert(m.pending.union(changed_paths(burst.take(k - 1))).union(burst[k - 1].paths)
            =~= m.pending.union(changed_paths(burst.take(k - 1)).union(burst[k - 1].paths)));
    }
}

/// Collapses bursts of raw change events into single triggers.
///
/// Paths affected since the last emission are accumulated without repeats;
/// an event that arrives more than `window` time units after the last
/// emission releases the accumulated count, provided it is not zero.
pub struct Debouncer {
    pub pending: Vec<Vec<u8>>,
    pub last_emit: u64,
    pub window: u64,
}

impl Debouncer {
    pub open spec fn wf(&self) -> bool {
        path_views(self.pending@).no_duplicates()
    }

    /// The set of distinct paths accumulated since the last emission.
    pub open spec fn pending_set(&self) -> Set<Seq<u8>> {
        path_set(self.pending@)
    }

    pub open spec fn model(&self) -> DebounceModel {
        DebounceModel { pending: self.pending_set(), last_emit: self.last_emit, window: self.window }
    }

    /// A debouncer with nothing pending, whose last emission happened at `start`.
    pub fn new(start: u64, window: u64) -> (r: Debouncer)
        ensures
            r.wf(),
            r.pending_set() == Set::<Seq<u8>>::empty(),
            r.last_emit == start,
            r.window == window,
    {
        let r = Debouncer { pending: Vec::new(), last_emit: start, window };
        proof {
            assert(path_views(r.pending@) =~= Seq::<Seq<u8>>::empty());
            assert(r.pending_set() =~= Set::<Seq<u8>>::empty());
        }
        r
    }

    /// Number of distinct paths accumulated since the last emission.
    pub fn pending_count(&self) -> (r: usize)
        requires
            self.wf(),
        ensures
            r == self.pending_set().len(),
    {
        proof {
            path_views(self.pending@).unique_seq_to_set();
        }
        self.pending.len()
    }

    fn contains_path(&self, p: &Vec<u8>) -> (r: bool)
        ensures
            r == self.pending_set().contains(p@),
    {
        let mut i: usize = 0;
        while i < self.pending.len()
            invariant
                0 <= i <= self.pending.len(),
                forall|j: int| 0 <= j < i ==> self.pending@[j]@ != p@,
            decreases self.pending.len() - i,
        {
            if bytes_eq(&self.pending[i], p) {
                proof {
                    assert(path_views(self.pending@)[i as int] == p@);
                }
                return true;
            }
            i = i + 1;
        }
        proof {
            if path_views(self.pending@).contains(p@) {
                let k = choose|k: int| 0 <= k < path_views(self.pending@).len()
                    && path_views(self.pending@)[k] == p@;
                assert(self.pending@[k]@ == p@);
            }
        }
        false
    }

    fn add_path(&mut self, p: &Vec<u8>)
        requires
            old(self).wf(),
        ensures
            final(self).wf(),
            final(self).pending_set() == old(self).pending_set().insert(p@),
            final(self).last_emit == old(self).last_emit,
            final(self).window == old(self).window,
    {
        if !self.contains_path(p) {
            let ghost before = self.pending@;
            let c = copy_bytes(p);
            self.pending.push(c);
            proof {
                assert(path_views(self.pending@) =~= path_views(before).push(p@));
                path_views(before).lemma_push_to_set_commute(p@);
                assert(self.pending_set() =~= path_set(before).insert(p@));
            }
        } else {
            assert(self.pending_set() =~= self.pending_set().insert(p@));
        }
    }

    /// Feeds one raw event of kind `kind` on `paths`, observed at time `now`.
    ///
    /// Events that are no change leave the debouncer as it is. A change adds
    /// its paths to the pending set; if it closes the window and the set is
    /// not empty, the set is released: its size is returned, the set emptied
    /// and the window restarted at `now`.
    pub fn on_event(&mut self, kind: ChangeKind, paths: &Vec<Vec<u8>>, now: u64) -> (r: Option<usize>)
        requires
            old(self).wf(),
        ensures
            final(self).wf(),
            final(self).window == old(self).window,
            (final(self).model(), count_of(r))
                == feed(old(self).model(), RawEvent { kind, paths: path_set(paths@), time: now }),
    {
        if !kind.is_change() {
            return None;
        }
        let ghost old_set = self.pending_set();
        let mut k: usize = 0;
        while k < paths.len()
            invariant
                0 <= k <= paths.len(),
                self.wf(),
                self.window == old(self).window,
                self.last_emit == old(self).last_emit,
                self.pending_set() == old_set.union(path_set(paths@.take(k as int))),
            decreases paths.len() - k,
        {
            self.add_path(&paths[k]);
            proof {
                assert(path_views(paths@.take(k + 1)) =~= path_views(paths@.take(k as int)).push(paths@[k as int]@));
                path_views(paths@.take(k as int)).lemma_push_to_set_commute(paths@[k as int]@);
                assert(self.pending_set() =~= old_set.union(path_set(paths@.take(k + 1))));
            }
            k = k + 1;
        }
        proof {
            assert(paths@.take(paths.len() as int) =~= paths@);
        }
        let n = self.pending_count();
        if now > self.last_emit && now - self.last_emit > self.window && n > 0 {
            self.pending = Vec::new();
            self.last_emit = now;
            proof {
                assert(path_views(self.pending@) =~= Seq::<Seq<u8>>::empty());
                assert(self.pending_set() =~= Set::<Seq<u8>>::empty());
            }
            Some(n)
        } else {
            None
        }
    }
}

/// Whether two byte strings are equal.
pub fn bytes_eq(a: &Vec<u8>, b: &Vec<u8>) -> (r: bool)
    ensures
        r == (a@ == b@),
{
    if a.len() != b.len() {
        return false;
    }
    let mut i: usize = 0;
    while i < a.len()
        invariant
            0 <= i <= a.len(),
            a.len() == b.len(),
            forall|j: int| 0 <= j < i ==> a@[j] == b@[j],
        decreases a.len() - i,
    {
        if a[i] != b[i] {
            return false;
        }
        i = i + 1;
    }
    assert(a@ =~= b@);
    true
}

fn copy_bytes(a: &Vec<u8>) -> (r: Vec<u8>)
    ensures
        r@ == a@,
{
    let mut r: Vec<u8> = Vec::new();
    let mut i: usize = 0;
    while i < a.len()
        invariant
            0 <= i <= a.len(),
            r@ == a@.take(i as int),
        decreases a.len() - i,
    {
        r.push(a[i]);
        assert(a@.take(i + 1) =~= a@.take(i as int).push(a@[i as int]));
        i = i + 1;
    }
    assert(a@.take(a.len() as int) =~= a@);
    r
}

} // verus!
