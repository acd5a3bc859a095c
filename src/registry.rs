use vstd::prelude::*;

verus! {

/// The command a new entry starts with.
pub const DEFAULT_COMMAND: &'static str = "notify-send -t 1000 'Eine \u{c4}nderung wurde festgestellt.'";

/// One configured directory and the shell commands that run when it changes.
///
/// `id` identifies the entry for as long as it is registered, whatever its
/// position; `last_triggered` is the time, in milliseconds of the caller's
/// clock, at which the most recent trigger for this entry was handled.
/// Neither is kept across runs.
pub struct WatchedEntry {
    pub id: u64,
    pub path: String,
    pub commands: Vec<String>,
    pub is_watching: bool,
    pub last_triggered: Option<u64>,
}

impl WatchedEntry {
    /// A fresh entry: no path, one placeholder command, not watching.
    pub fn new() -> (r: WatchedEntry)
        ensures
            r.path@ == Seq::<char>::empty(),
            r.commands@.len() == 1,
            r.commands@[0]@ == DEFAULT_COMMAND@,
            !r.is_watching,
            r.last_triggered is None,
            r.id == 0,
    {
        let mut commands: Vec<String> = Vec::new();
        commands.push(DEFAULT_COMMAND.to_owned());
        WatchedEntry { id: 0, path: String::new(), commands, is_watching: false, last_triggered: None }
    }
}

impl Default for WatchedEntry {
    fn default() -> (r: WatchedEntry)
        ensures
            r.path@ == Seq::<char>::empty(),
            r.commands@.len() == 1,
            r.commands@[0]@ == DEFAULT_COMMAND@,
            !r.is_watching,
            r.last_triggered is None,
            r.id == 0,
    {
        WatchedEntry::new()
    }
}

/// The watching flags of a list of entries.
pub open spec fn flags_of(entries: Seq<WatchedEntry>) -> Seq<bool> {
    entries.map_values(|e: WatchedEntry| e.is_watching)
}

/// The flags after starting entry `i`; an index out of range changes nothing.
pub open spec fn started(f: Seq<bool>, i: int) -> Seq<bool> {
    if 0 <= i < f.len() {
        f.update(i, true)
    } else {
        f
    }
}

/// The flags after starting each entry of `idxs` in turn.
pub open spec fn started_each(f: Seq<bool>, idxs: Seq<usize>) -> Seq<bool>
    decreases idxs.len(),
{
    if idxs.len() == 0 {
        f
    } else {
        started(started_each(f, idxs.drop_last()), idxs.last() as int)
    }
}

/// The flags after stopping every entry.
pub open spec fn stopped_all(f: Seq<bool>) -> Seq<bool> {
    Seq::new(f.len(), |i: int| false)
}

/// The handles held in a list of slots, in slot order.
pub open spec fn live_handles<H>(hs: Seq<Option<H>>) -> Seq<H>
    decreases hs.len(),
{
    if hs.len() == 0 {
        Seq::empty()
    } else {
        let rest = live_handles(hs.drop_last());
        match hs.last() {
            Some(h) => rest.push(h),
            None => rest,
        }
    }
}

/// Whether index `i` occurs in `l`.
pub open spec fn listed(l: Seq<usize>, i: int) -> bool {
    exists|k: int| 0 <= k < l.len() && (#[trigger] l[k]) as int == i
}

/// Whether `l` lists, in increasing order, exactly the indices whose flag
/// satisfies `want`.
pub open spec fn lists_indices(f: Seq<bool>, want: bool, l: Seq<usize>) -> bool {
    &&& forall|a: int, b: int| 0 <= a < b < l.len() ==> l[a] < l[b]
    &&& forall|k: int| 0 <= k < l.len() ==> l[k] < f.len() && f[l[k] as int] == want
    &&& forall|i: int| 0 <= i < f.len() && f[i] == want ==> listed(l, i)
}

/// The indices of the entries whose watching flag is `want`, in increasing
/// order.
pub fn indices_with_flag(entries: &Vec<WatchedEntry>, want: bool) -> (r: Vec<usize>)
    ensures
        lists_indices(flags_of(entries@), want, r@),
{
    let mut r: Vec<usize> = Vec::new();
    let mut i: usize = 0;
    while i < entries.len()
        invariant
            0 <= i <= entries@.len(),
            forall|a: int, b: int| 0 <= a < b < r@.len() ==> r@[a] < r@[b],
            forall|k: int| 0 <= k < r@.len() ==> r@[k] < i && flags_of(entries@)[r@[k] as int] == want,
            forall|j: int| 0 <= j < i && #[trigger] flags_of(entries@)[j] == want ==> listed(r@, j),
        decreases entries@.len() - i,
    {
        let ghost before = r@;
        if entries[i].is_watching == want {
            r.push(i);
        }
        proof {
            assert forall|j: int| 0 <= j < i + 1 && flags_of(entries@)[j] == want implies listed(r@, j) by {
                if j == i {
                    assert(r@[r@.len() - 1] == i);
                } else {
                    assert(listed(before, j));
                    let k = choose|k: int| 0 <= k < before.len() && (#[trigger] before[k]) as int == j;
                    assert(r@[k] as int == j);
                }
            }
        }
        i = i + 1;
    }
    r
}

/// Starting each listed index sets exactly those flags that are in range.
pub proof fn lemma_started_each(f: Seq<bool>, l: Seq<usize>)
    ensures
        started_each(f, l).len() == f.len(),
        forall|i: int| 0 <= i < f.len() ==> #[trigger] started_each(f, l)[i] == (f[i] || listed(l, i)),
    decreases l.len(),
{
    if l.len() > 0 {
        let p = l.drop_last();
        lemma_started_each(f, p);
        assert forall|i: int| 0 <= i < f.len() implies #[trigger] started_each(f, l)[i] == (f[i] || listed(l, i)) by {
            if listed(p, i) {
                let k = choose|k: int| 0 <= k < p.len() && (#[trigger] p[k]) as int == i;
                assert(l[k] as int == i);
            }
            if listed(l, i) && l.last() as int != i {
                let k = choose|k: int| 0 <= k < l.len() && (#[trigger] l[k]) as int == i;
                assert(p[k] as int == i);
            }
            if l.last() as int == i {
                assert(l[l.len() - 1] as int == i);
            }
        }
    }
}

/// Stopping every entry and then starting every stopped entry leaves each
/// entry that was watching before watching again; when every entry was
/// watching, the flags come back exactly as they were.
pub proof fn lemma_stop_all_start_all(f: Seq<bool>, pending: Seq<usize>)
    requires
        lists_indices(stopped_all(f), false, pending),
    ensures
        started_each(stopped_all(f), pending) == Seq::new(f.len(), |i: int| true),
        forall|i: int| 0 <= i < f.len() && f[i] ==> #[trigger] started_each(stopped_all(f), pending)[i],
        (forall|i: int| 0 <= i < f.len() ==> f[i]) ==> started_each(stopped_all(f), pending) == f,
{
    let g = stopped_all(f);
    lemma_started_each(g, pending);
    assert forall|i: int| 0 <= i < f.len() implies started_each(g, pending)[i] by {
        assert(g[i] == false);
    }
    assert(started_each(g, pending) =~= Seq::new(f.len(), |i: int| true));
    if forall|i: int| 0 <= i < f.len() ==> f[i] {
        assert(started_each(g, pending) =~= f);
    }
}

/// Once an entry has been started, whatever the outcome, it holds a live
/// handle and refuses a second start, so that no entry ever runs two
/// watches at once.
pub proof fn lemma_started_entry_refuses_start<H>(before: Registry<H>, after: Registry<H>, i: int)
    requires
        before.wf(),
        after.wf(),
        0 <= i < before.entries@.len(),
        after.flags() == started(before.flags(), i),
    ensures
        !after.spec_can_start(i),
        after.handles@[i] is Some,
        started(after.flags(), i) == after.flags(),
{
    assert(after.flags().len() == before.flags().len());
    assert(after.entries@.len() == after.flags().len());
    assert(after.flags()[i]);
    assert(after.flags()[i] == after.entries@[i].is_watching);
    assert(started(after.flags(), i) =~= after.flags());
}

/// A trigger delivered from a watch: the id of the entry it belongs to and
/// the number of changes it reports.
#[derive(Clone, Copy, Debug, PartialEq, Eq, Structural)]
pub struct TriggerMessage {
    pub entry: u64,
    pub changed: usize,
}

/// Whether some entry has id `id`.
pub open spec fn has_id(entries: Seq<WatchedEntry>, id: u64) -> bool {
    exists|i: int| 0 <= i < entries.len() && (#[trigger] entries[i]).id == id
}

/// The position of the entry with id `id`, where there is one.
pub open spec fn position(entries: Seq<WatchedEntry>, id: u64) -> int {
    choose|i: int| 0 <= i < entries.len() && (#[trigger] entries[i]).id == id
}

/// Entries whose ids match those of distinct-id entries, one for one, have
/// distinct ids too.
proof fn lemma_same_ids(a: Seq<WatchedEntry>, b: Seq<WatchedEntry>)
    requires
        ids_distinct(a),
        a.len() == b.len(),
        forall|k: int| 0 <= k < a.len() ==> (#[trigger] b[k]).id == a[k].id,
    ensures
        ids_distinct(b),
{
    assert forall|x: int, y: int| 0 <= x < b.len() && 0 <= y < b.len() && x != y
        implies (#[trigger] b[x]).id != (#[trigger] b[y]).id by {
        assert(a[x].id != a[y].id);
    }
}

/// Whether no two entries share an id.
pub open spec fn ids_distinct(entries: Seq<WatchedEntry>) -> bool {
    forall|a: int, b: int| 0 <= a < entries.len() && 0 <= b < entries.len() && a != b
        ==> (#[trigger] entries[a]).id != (#[trigger] entries[b]).id
}

/// The commands to run for a sequence of triggers: for each trigger whose
/// entry exists, that entry's commands in their configured order.
pub open spec fn commands_for(entries: Seq<WatchedEntry>, msgs: Seq<TriggerMessage>) -> Seq<String>
    decreases msgs.len(),
{
    if msgs.len() == 0 {
        Seq::empty()
    } else {
        let rest = commands_for(entries, msgs.drop_last());
        let id = msgs.last().entry;
        if has_id(entries, id) {
            rest + entries[position(entries, id)].commands@
        } else {
            rest
        }
    }
}

/// Whether some trigger of `msgs` names the entry with id `id`.
pub open spec fn triggered(msgs: Seq<TriggerMessage>, id: u64) -> bool {
    exists|k: int| 0 <= k < msgs.len() && (#[trigger] msgs[k]).entry == id
}

/// A trigger names its entry by id, so removing another entry does not
/// redirect it: it still runs the commands of the entry it came from, and a
/// trigger from the removed entry runs nothing.
pub proof fn lemma_trigger_follows_entry(entries: Seq<WatchedEntry>, k: int, j: int, changed: usize)
    requires
        ids_distinct(entries),
        0 <= k < entries.len(),
        0 <= j < entries.len(),
        j != k,
    ensures
        commands_for(entries.remove(k), seq![TriggerMessage { entry: entries[j].id, changed }])
            == entries[j].commands@,
        commands_for(entries.remove(k), seq![TriggerMessage { entry: entries[k].id, changed }])
            == Seq::<String>::empty(),
{
    reveal_with_fuel(commands_for, 2);
    let rest = entries.remove(k);
    let mj = seq![TriggerMessage { entry: entries[j].id, changed }];
    let mk = seq![TriggerMessage { entry: entries[k].id, changed }];
    assert(mj.drop_last() =~= Seq::<TriggerMessage>::empty());
    assert(mk.drop_last() =~= Seq::<TriggerMessage>::empty());
    let pj = if j < k { j } else { j - 1 };
    assert(rest[pj] == entries[j]);
    assert(has_id(rest, entries[j].id));
    let q = position(rest, entries[j].id);
    if q < k {
        assert(rest[q] == entries[q]);
    } else {
        assert(rest[q] == entries[q + 1]);
    }
    assert(rest[q] == entries[j]);
    assert(mj.last().entry == entries[j].id);
    assert(commands_for(rest, mj.drop_last()) == Seq::<String>::empty());
    assert(Seq::<String>::empty() + entries[j].commands@ =~= entries[j].commands@);
    if has_id(rest, entries[k].id) {
        let w = position(rest, entries[k].id);
        if w < k {
            assert(rest[w] == entries[w]);
        } else {
            assert(rest[w] == entries[w + 1]);
        }
    }
}

/// All configured entries, each with the handle of its running watch if it
/// has one.
///
/// The handle type `H` is whatever keeps a watch alive; releasing a handle
/// (dropping it) ends the watch. An entry is marked watching exactly when
/// its handle slot is filled, so no entry ever has two live handles.
/// Entries have distinct ids, all below `next_id`, the id the next added
/// entry gets.
pub struct Registry<H> {
    pub entries: Vec<WatchedEntry>,
    pub handles: Vec<Option<H>>,
    pub all_watching: bool,
    pub next_id: u64,
}

impl<H> Registry<H> {
    pub open spec fn wf(&self) -> bool {
        &&& self.entries@.len() == self.handles@.len()
        &&& forall|i: int| 0 <= i < self.entries@.len()
            ==> (#[trigger] self.entries@[i]).is_watching == self.handles@[i] is Some
        &&& forall|i: int| 0 <= i < self.entries@.len() ==> (#[trigger] self.entries@[i]).id < self.next_id
        &&& ids_distinct(self.entries@)
    }

    pub open spec fn flags(&self) -> Seq<bool> {
        flags_of(self.entries@)
    }

    pub open spec fn spec_len(&self) -> nat {
        self.entries@.len()
    }

    /// Whether entry `i` exists and has no running watch.
    pub open spec fn spec_can_start(&self, i: int) -> bool {
        0 <= i < self.entries@.len() && !self.entries@[i].is_watching
    }

    /// A registry of one fresh entry, not watching.
    pub fn new() -> (r: Registry<H>)
        ensures
            r.wf(),
            r.entries@.len() == 1,
            r.entries@[0].path@ == Seq::<char>::empty(),
            r.entries@[0].commands@.len() == 1,
            r.entries@[0].commands@[0]@ == DEFAULT_COMMAND@,
            !r.entries@[0].is_watching,
            r.entries@[0].last_triggered is None,
            r.handles@ == seq![None::<H>],
            !r.all_watching,
    {
        let mut entries: Vec<WatchedEntry> = Vec::new();
        entries.push(WatchedEntry::new());
        let mut handles: Vec<Option<H>> = Vec::new();
        handles.push(None);
        let r = Registry { entries, handles, all_watching: false, next_id: 1 };
        assert(r.handles@ =~= seq![None::<H>]);
        r
    }

    /// Number of entries.
    pub fn len(&self) -> (r: usize)
        ensures
            r == self.spec_len(),
    {
        self.entries.len()
    }

    /// Whether entry `i` exists and has no running watch, so that a watch
    /// may be started for it.
    pub fn can_start(&self, i: usize) -> (r: bool)
        ensures
            r == self.spec_can_start(i as int),
    {
        i < self.entries.len() && !self.entries[i].is_watching
    }

    fn set_watching(&mut self, i: usize, on: bool)
        requires
            i < old(self).entries@.len(),
            ids_distinct(old(self).entries@),
        ensures
            ids_distinct(final(self).entries@),
            final(self).next_id == old(self).next_id,
            final(self).entries@ == old(self).entries@.update(
                i as int,
                WatchedEntry { is_watching: on, ..old(self).entries@[i as int] },
            ),
            final(self).handles == old(self).handles,
            final(self).all_watching == old(self).all_watching,
    {
        let mut e = self.entries.remove(i);
        e.is_watching = on;
        self.entries.insert(i, e);
        assert(self.entries@ =~= old(self).entries@.update(i as int, WatchedEntry { is_watching: on, ..old(self).entries@[i as int] }));
        proof {
            lemma_same_ids(old(self).entries@, self.entries@);
        }
    }

    fn put_handle(&mut self, i: usize, h: Option<H>) -> (r: Option<H>)
        requires
            i < old(self).handles@.len(),
        ensures
            final(self).handles@ == old(self).handles@.update(i as int, h),
            r == old(self).handles@[i as int],
            final(self).entries == old(self).entries,
            final(self).next_id == old(self).next_id,
            final(self).all_watching == old(self).all_watching,
    {
        let r = self.handles.remove(i);
        self.handles.insert(i, h);
        assert(self.handles@ =~= old(self).handles@.update(i as int, h));
        r
    }

    /// Starts entry `i` with handle `h`, the live watch on its directory.
    ///
    /// Only an existing entry without a running watch takes the handle; then
    /// `None` is returned. Otherwise nothing changes and `h` is handed back,
    /// for the caller to release.
    pub fn start(&mut self, i: usize, h: H) -> (r: Option<H>)
        requires
            old(self).wf(),
        ensures
            final(self).wf(),
            final(self).flags() == started(old(self).flags(), i as int),
            final(self).all_watching == old(self).all_watching,
            if old(self).spec_can_start(i as int) {
                &&& r is None
                &&& final(self).handles@ == old(self).handles@.update(i as int, Some(h))
                &&& final(self).entries@ == old(self).entries@.update(
                    i as int,
                    WatchedEntry { is_watching: true, ..old(self).entries@[i as int] },
                )
            } else {
                &&& r == Some(h)
                &&& final(self).handles == old(self).handles
                &&& final(self).entries == old(self).entries
            },
    {
        if self.can_start(i) {
            self.set_watching(i, true);
            let _ = self.put_handle(i, Some(h));
            assert(self.flags() =~= started(old(self).flags(), i as int));
            None
        } else {
            proof {
                if 0 <= i < old(self).entries@.len() {
                    assert(self.flags() =~= started(old(self).flags(), i as int));
                }
            }
            Some(h)
        }
    }

    /// Stops entry `i`: its handle is taken out and returned, for the caller
    /// to release, and the entry is marked stopped. An entry that does not
    /// exist or is not watching is left as it is, and `None` is returned.
    pub fn stop(&mut self, i: usize) -> (r: Option<H>)
        requires
            old(self).wf(),
        ensures
            final(self).wf(),
            final(self).all_watching == old(self).all_watching,
            if i < old(self).entries@.len() && old(self).entries@[i as int].is_watching {
                &&& r == old(self).handles@[i as int]
                &&& r is Some
                &&& final(self).handles@ == old(self).handles@.update(i as int, None)
                &&& final(self).entries@ == old(self).entries@.update(
                    i as int,
                    WatchedEntry { is_watching: false, ..old(self).entries@[i as int] },
                )
            } else {
                &&& r is None
                &&& final(self).handles == old(self).handles
                &&& final(self).entries == old(self).entries
            },
    {
        if i < self.entries.len() && self.entries[i].is_watching {
            self.set_watching(i, false);
            self.put_handle(i, None)
        } else {
            None
        }
    }

    /// Removes entry `i`, first stopping its watch: the entry's handle, if
    /// it had one, is returned for the caller to release, and no handle of
    /// it stays behind.
    pub fn remove(&mut self, i: usize) -> (r: Option<H>)
        requires
            old(self).wf(),
            i < old(self).entries@.len(),
        ensures
            final(self).wf(),
            r == old(self).handles@[i as int],
            final(self).handles@ == old(self).handles@.remove(i as int),
            final(self).entries@ == old(self).entries@.remove(i as int),
            final(self).all_watching == old(self).all_watching,
    {
        let e = self.entries.remove(i);
        let h = self.handles.remove(i);
        proof {
            assert forall|k: int| 0 <= k < self.entries@.len()
                implies (#[trigger] self.entries@[k]).is_watching == self.handles@[k] is Some by {
                if k >= i {
                    assert(self.entries@[k] == old(self).entries@[k + 1]);
                }
            }
        }
        h
    }

    /// The indices of the entries whose watching flag is `want`, in
    /// increasing order.
    pub fn indices_with(&self, want: bool) -> (r: Vec<usize>)
        ensures
            lists_indices(self.flags(), want, r@),
    {
        indices_with_flag(&self.entries, want)
    }

    /// Stops every entry that is watching; returns the released handles, in
    /// the order of their entries.
    pub fn stop_all(&mut self) -> (r: Vec<H>)
        requires
            old(self).wf(),
        ensures
            final(self).wf(),
            final(self).flags() == stopped_all(old(self).flags()),
            forall|i: int| 0 <= i < final(self).handles@.len() ==> final(self).handles@[i] is None,
            r@ == live_handles(old(self).handles@),
            final(self).all_watching == old(self).all_watching,
            forall|i: int| 0 <= i < final(self).entries@.len() ==> ({
                let e = #[trigger] final(self).entries@[i];
                let o = old(self).entries@[i];
                e.id == o.id && e.path == o.path && e.commands == o.commands
                    && e.last_triggered == o.last_triggered
            }),
    {
        let mut r: Vec<H> = Vec::new();
        let mut i: usize = 0;
        while i < self.entries.len()
            invariant
                0 <= i <= self.entries@.len(),
                self.wf(),
                self.entries@.len() == old(self).entries@.len(),
                self.all_watching == old(self).all_watching,
                forall|j: int| 0 <= j < i ==> !(#[trigger] self.entries@[j]).is_watching,
                forall|j: int| i <= j < self.entries@.len() ==> #[trigger] self.entries@[j] == old(self).entries@[j],
                forall|j: int| 0 <= j < self.entries@.len() ==> ({
                    let e = #[trigger] self.entries@[j];
                    let o = old(self).entries@[j];
                    e.id == o.id && e.path == o.path && e.commands == o.commands
                        && e.last_triggered == o.last_triggered
                }),
                old(self).wf(),
                self.handles@.len() == old(self).handles@.len(),
                forall|j: int| i <= j < self.handles@.len() ==> self.handles@[j] == old(self).handles@[j],
                r@ == live_handles(old(self).handles@.take(i as int)),
            decreases self.entries@.len() - i,
        {
            proof {
                assert(old(self).handles@.take(i + 1).drop_last() =~= old(self).handles@.take(i as int));
                assert(old(self).handles@.take(i + 1).last() == old(self).handles@[i as int]);
                assert(old(self).entries@[i as int].is_watching == old(self).handles@[i as int] is Some);
            }
            if let Some(h) = self.stop(i) {
                r.push(h);
            }
            i = i + 1;
        }
        proof {
            assert(old(self).handles@.take(i as int) =~= old(self).handles@);
            assert(self.flags() =~= stopped_all(old(self).flags()));
            assert forall|j: int| 0 <= j < self.handles@.len() implies self.handles@[j] is None by {
                assert(!self.entries@[j].is_watching);
            }
        }
        r
    }

    /// Flips the bulk flag, then brings every entry in line with it.
    ///
    /// Turning it off stops every watching entry and returns the released
    /// handles. Turning it on changes no entry: it returns the indices of
    /// the stopped entries, in increasing order, for the caller to open a
    /// watch for each and hand it to `start`.
    pub fn toggle_all(&mut self) -> (r: (Vec<usize>, Vec<H>))
        requires
            old(self).wf(),
        ensures
            final(self).wf(),
            final(self).all_watching == !old(self).all_watching,
            if final(self).all_watching {
                &&& final(self).entries == old(self).entries
                &&& final(self).handles == old(self).handles
                &&& lists_indices(old(self).flags(), false, r.0@)
                &&& r.1@.len() == 0
            } else {
                &&& final(self).flags() == stopped_all(old(self).flags())
                &&& r.0@.len() == 0
                &&& r.1@ == live_handles(old(self).handles@)
                &&& forall|i: int| 0 <= i < final(self).handles@.len() ==> final(self).handles@[i] is None
                &&& forall|i: int| 0 <= i < final(self).entries@.len() ==> ({
                    let e = #[trigger] final(self).entries@[i];
                    let o = old(self).entries@[i];
                    e.id == o.id && e.path == o.path && e.commands == o.commands
                        && e.last_triggered == o.last_triggered
                })
            },
    {
        self.all_watching = !self.all_watching;
        if self.all_watching {
            let pending = self.indices_with(false);
            (pending, Vec::new())
        } else {
            let released = self.stop_all();
            (Vec::new(), released)
        }
    }

    /// A registry of loaded entries, with no watch running yet.
    ///
    /// Every entry comes in stopped, never triggered, with its position as
    /// its id; the result's list gives, in increasing order, the entries
    /// that were marked watching when saved, for the caller to start again.
    pub fn from_entries(entries: Vec<WatchedEntry>, all_watching: bool) -> (r: (Registry<H>, Vec<usize>))
        ensures
            r.0.wf(),
            r.0.all_watching == all_watching,
            r.0.entries@.len() == entries@.len(),
            r.0.next_id == entries@.len(),
            forall|i: int| 0 <= i < entries@.len() ==> ({
                let e = #[trigger] r.0.entries@[i];
                let o = entries@[i];
                &&& e.path == o.path
                &&& e.commands == o.commands
                &&& e.id == i
                &&& !e.is_watching
                &&& e.last_triggered is None
            }),
            forall|i: int| 0 <= i < entries@.len() ==> r.0.handles@[i] is None,
            lists_indices(flags_of(entries@), true, r.1@),
    {
        let restart = indices_with_flag(&entries, true);
        let mut entries = entries;
        let ghost loaded = entries@;
        let mut handles: Vec<Option<H>> = Vec::new();
        let mut k: usize = 0;
        while k < entries.len()
            invariant
                0 <= k <= entries@.len(),
                entries@.len() == loaded.len(),
                handles@.len() == k,
                forall|j: int| 0 <= j < k ==> handles@[j] is None,
                forall|j: int| 0 <= j < k ==> ({
                    let e = #[trigger] entries@[j];
                    !e.is_watching && e.id == j && e.last_triggered is None
                }),
                forall|j: int| 0 <= j < entries@.len() ==> ({
                    let e = #[trigger] entries@[j];
                    let o = loaded[j];
                    e.path == o.path && e.commands == o.commands
                }),
            decreases entries@.len() - k,
        {
            let mut e = entries.remove(k);
            e.is_watching = false;
            e.last_triggered = None;
            e.id = k as u64;
            entries.insert(k, e);
            handles.push(None);
            k = k + 1;
        }
        let n = entries.len() as u64;
        let reg = Registry { entries, handles, all_watching, next_id: n };
        (reg, restart)
    }

    /// The position of the entry with id `id`, or `None` when no entry has it.
    pub fn position_of(&self, id: u64) -> (r: Option<usize>)
        requires
            self.wf(),
        ensures
            match r {
                Some(i) => has_id(self.entries@, id) && i == position(self.entries@, id),
                None => !has_id(self.entries@, id),
            },
    {
        let mut i: usize = 0;
        while i < self.entries.len()
            invariant
                0 <= i <= self.entries@.len(),
                self.wf(),
                forall|j: int| 0 <= j < i ==> (#[trigger] self.entries@[j]).id != id,
            decreases self.entries@.len() - i,
        {
            if self.entries[i].id == id {
                proof {
                    assert(self.entries@[i as int].id == id);
                    assert(has_id(self.entries@, id));
                    let q = position(self.entries@, id);
                    assert(self.entries@[q].id == id);
                    assert(q == i);
                }
                return Some(i);
            }
            i = i + 1;
        }
        None
    }

    /// Handles a batch of triggers received at time `now`.
    ///
    /// Each trigger whose entry is still registered records `now` as that
    /// entry's last trigger time; triggers for entries since removed are
    /// ignored. Returns the commands to run, in order: the commands of each
    /// handled trigger's entry, trigger by trigger.
    pub fn consume(&mut self, msgs: &Vec<TriggerMessage>, now: u64) -> (r: Vec<String>)
        requires
            old(self).wf(),
        ensures
            final(self).wf(),
            r@ == commands_for(old(self).entries@, msgs@),
            final(self).handles == old(self).handles,
            final(self).all_watching == old(self).all_watching,
            final(self).next_id == old(self).next_id,
            final(self).entries@.len() == old(self).entries@.len(),
            forall|i: int| 0 <= i < final(self).entries@.len() ==> ({
                let e = #[trigger] final(self).entries@[i];
                let o = old(self).entries@[i];
                &&& e.id == o.id
                &&& e.path == o.path
                &&& e.commands == o.commands
                &&& e.is_watching == o.is_watching
                &&& e.last_triggered == if triggered(msgs@, o.id) { Some(now) } else { o.last_triggered }
            }),
    {
        let mut r: Vec<String> = Vec::new();
        let mut k: usize = 0;
        while k < msgs.len()
            invariant
                0 <= k <= msgs@.len(),
                self.wf(),
                old(self).wf(),
                self.handles == old(self).handles,
                self.all_watching == old(self).all_watching,
                self.next_id == old(self).next_id,
                self.entries@.len() == old(self).entries@.len(),
                r@ == commands_for(old(self).entries@, msgs@.take(k as int)),
                forall|i: int| 0 <= i < self.entries@.len() ==> ({
                    let e = #[trigger] self.entries@[i];
                    let o = old(self).entries@[i];
                    &&& e.id == o.id
                    &&& e.path == o.path
                    &&& e.commands == o.commands
                    &&& e.is_watching == o.is_watching
                    &&& e.last_triggered == if triggered(msgs@.take(k as int), o.id) { Some(now) } else { o.last_triggered }
                }),
            decreases msgs@.len() - k,
        {
            let id = msgs[k].entry;
            proof {
                assert(msgs@.take(k + 1).drop_last() =~= msgs@.take(k as int));
                assert(msgs@.take(k + 1).last() == msgs@[k as int]);
            }
            let ghost prev = r@;
            let ghost before = self.entries@;
            let found = self.position_of(id);
            proof {
                // positions by id agree between the current and the initial entries
                assert(has_id(before, id) == has_id(old(self).entries@, id)) by {
                    if has_id(before, id) {
                        let q = position(before, id);
                        assert(old(self).entries@[q].id == id);
                    }
                    if has_id(old(self).entries@, id) {
                        let q = position(old(self).entries@, id);
                        assert(before[q].id == id);
                    }
                }
                if has_id(before, id) {
                    let q1 = position(before, id);
                    let q2 = position(old(self).entries@, id);
                    assert(old(self).entries@[q1].id == id);
                    assert(q1 == q2);
                }
            }
            match found {
                Some(i) => {
                    let mut e = self.entries.remove(i);
                    e.last_triggered = Some(now);
                    let mut c: usize = 0;
                    while c < e.commands.len()
                        invariant
                            0 <= c <= e.commands@.len(),
                            e.commands == before[i as int].commands,
                            r@ == prev + e.commands@.take(c as int),
                        decreases e.commands@.len() - c,
                    {
                        r.push(e.commands[c].clone());
                        assert(e.commands@.take(c + 1) =~= e.commands@.take(c as int).push(e.commands@[c as int]));
                        c = c + 1;
                    }
                    assert(e.commands@.take(e.commands@.len() as int) =~= e.commands@);
                    self.entries.insert(i, e);
                    proof {
                        assert(self.entries@ =~= before.update(i as int, e));
                        assert(ids_distinct(self.entries@)) by {
                            assert forall|a: int, b: int| 0 <= a < self.entries@.len() && 0 <= b < self.entries@.len() && a != b
                                implies (#[trigger] self.entries@[a]).id != (#[trigger] self.entries@[b]).id by {
                                assert(self.entries@[a].id == before[a].id);
                                assert(self.entries@[b].id == before[b].id);
                            }
                        }
                    }
                },
                None => {},
            }
            proof {
                assert forall|j: int| 0 <= j < self.entries@.len() implies
                    triggered(msgs@.take(k + 1), old(self).entries@[j].id)
                    == (triggered(msgs@.take(k as int), old(self).entries@[j].id) || old(self).entries@[j].id == id) by {
                    let x = old(self).entries@[j].id;
                    if triggered(msgs@.take(k + 1), x) && x != id {
                        let q = choose|q: int| 0 <= q < k + 1 && (#[trigger] msgs@.take(k + 1)[q]).entry == x;
                        assert(msgs@.take(k as int)[q].entry == x);
                    }
                    if triggered(msgs@.take(k as int), x) {
                        let q = choose|q: int| 0 <= q < k && (#[trigger] msgs@.take(k as int)[q]).entry == x;
                        assert(msgs@.take(k + 1)[q].entry == x);
                    }
                    if x == id {
                        assert(msgs@.take(k + 1)[k as int].entry == x);
                    }
                }
                assert forall|j: int| 0 <= j < self.entries@.len() && old(self).entries@[j].id == id
                    implies found == Some(j as usize) by {
                    assert(has_id(before, id)) by {
                        assert(before[j].id == id);
                    }
                    let q = position(before, id);
                    assert(before[q].id == id);
                }
            }
            k = k + 1;
        }
        proof {
            assert(msgs@.take(msgs@.len() as int) =~= msgs@);
        }
        r
    }

    /// Appends a fresh entry, not watching, under the next unused id.
    /// Returns `false`, and changes nothing, only when the ids are used up.
    pub fn add_entry(&mut self) -> (r: bool)
        requires
            old(self).wf(),
        ensures
            final(self).wf(),
            r == (old(self).next_id < u64::MAX),
            final(self).all_watching == old(self).all_watching,
            !r ==> final(self).entries == old(self).entries && final(self).handles == old(self).handles,
            r ==> {
                &&& final(self).next_id == old(self).next_id + 1
                &&& final(self).entries@.len() == old(self).entries@.len() + 1
                &&& final(self).entries@.take(old(self).entries@.len() as int) == old(self).entries@
                &&& final(self).entries@.last().id == old(self).next_id
                &&& final(self).entries@.last().path@ == Seq::<char>::empty()
                &&& final(self).entries@.last().commands@.len() == 1
                &&& final(self).entries@.last().commands@[0]@ == DEFAULT_COMMAND@
                &&& !final(self).entries@.last().is_watching
                &&& final(self).entries@.last().last_triggered is None
                &&& final(self).handles@ == old(self).handles@.push(None)
            },
    {
        if self.next_id == u64::MAX {
            return false;
        }
        let mut e = WatchedEntry::new();
        e.id = self.next_id;
        self.entries.push(e);
        self.handles.push(None);
        self.next_id = self.next_id + 1;
        assert(self.entries@.take(old(self).entries@.len() as int) =~= old(self).entries@);
        assert(ids_distinct(self.entries@)) by {
            assert forall|a: int, b: int| 0 <= a < self.entries@.len() && 0 <= b < self.entries@.len() && a != b
                implies (#[trigger] self.entries@[a]).id != (#[trigger] self.entries@[b]).id by {
                if a < old(self).entries@.len() {
                    assert(self.entries@[a] == old(self).entries@[a]);
                }
                if b < old(self).entries@.len() {
                    assert(self.entries@[b] == old(self).entries@[b]);
                }
            }
        }
        true
    }

    /// Sets the directory of entry `i`; a running watch keeps its directory
    /// until it is restarted.
    pub fn set_path(&mut self, i: usize, path: String)
        requires
            old(self).wf(),
            i < old(self).entries@.len(),
        ensures
            final(self).wf(),
            final(self).entries@ == old(self).entries@.update(i as int, WatchedEntry { path, ..old(self).entries@[i as int] }),
            final(self).handles == old(self).handles,
            final(self).all_watching == old(self).all_watching,
    {
        let mut e = self.entries.remove(i);
        e.path = path;
        self.entries.insert(i, e);
        assert(self.entries@ =~= old(self).entries@.update(i as int, WatchedEntry { path, ..old(self).entries@[i as int] }));
    }

    /// Sets command `j` of entry `i`.
    pub fn set_command(&mut self, i: usize, j: usize, command: String)
        requires
            old(self).wf(),
            i < old(self).entries@.len(),
            j < old(self).entries@[i as int].commands@.len(),
        ensures
            final(self).wf(),
            final(self).entries@ == old(self).entries@.update(i as int, WatchedEntry {
                commands: final(self).entries@[i as int].commands,
                ..old(self).entries@[i as int]
            }),
            final(self).entries@[i as int].commands@ == old(self).entries@[i as int].commands@.update(j as int, command),
            final(self).handles == old(self).handles,
            final(self).all_watching == old(self).all_watching,
    {
        let mut e = self.entries.remove(i);
        let _ = e.commands.remove(j);
        e.commands.insert(j, command);
        self.entries.insert(i, e);
        assert(e.commands@ =~= old(self).entries@[i as int].commands@.update(j as int, command));
        assert(self.entries@ =~= old(self).entries@.update(i as int, e));
    }

    /// Appends an empty command to entry `i`.
    pub fn add_command(&mut self, i: usize)
        requires
            old(self).wf(),
            i < old(self).entries@.len(),
        ensures
            final(self).wf(),
            final(self).entries@ == old(self).entries@.update(i as int, WatchedEntry {
                commands: final(self).entries@[i as int].commands,
                ..old(self).entries@[i as int]
            }),
            final(self).entries@[i as int].commands@.len() == old(self).entries@[i as int].commands@.len() + 1,
            final(self).entries@[i as int].commands@.drop_last() == old(self).entries@[i as int].commands@,
            final(self).entries@[i as int].commands@.last()@ == Seq::<char>::empty(),
            final(self).handles == old(self).handles,
            final(self).all_watching == old(self).all_watching,
    {
        let mut e = self.entries.remove(i);
        e.commands.push(String::new());
        self.entries.insert(i, e);
        assert(e.commands@.drop_last() =~= old(self).entries@[i as int].commands@);
        assert(self.entries@ =~= old(self).entries@.update(i as int, e));
    }

    /// Removes command `j` of entry `i`, unless it is the entry's only
    /// command: an entry always keeps at least one. Returns whether the
    /// command was removed.
    pub fn remove_command(&mut self, i: usize, j: usize) -> (r: bool)
        requires
            old(self).wf(),
            i < old(self).entries@.len(),
            j < old(self).entries@[i as int].commands@.len(),
        ensures
            final(self).wf(),
            r == (old(self).entries@[i as int].commands@.len() > 1),
            final(self).entries@ == old(self).entries@.update(i as int, WatchedEntry {
                commands: final(self).entries@[i as int].commands,
                ..old(self).entries@[i as int]
            }),
            final(self).entries@[i as int].commands@ == if r {
                old(self).entries@[i as int].commands@.remove(j as int)
            } else {
                old(self).entries@[i as int].commands@
            },
            final(self).handles == old(self).handles,
            final(self).all_watching == old(self).all_watching,
    {
        if self.entries[i].commands.len() <= 1 {
            assert(self.entries@ =~= old(self).entries@.update(i as int, self.entries@[i as int]));
            return false;
        }
        let mut e = self.entries.remove(i);
        let _ = e.commands.remove(j);
        self.entries.insert(i, e);
        assert(self.entries@ =~= old(self).entries@.update(i as int, e));
        true
    }
}

} // verus!
