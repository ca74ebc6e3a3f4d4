//! The state behind the live connection dashboard: the open connections with
//! their byte counters, the most recent messages, and what the next redraw of
//! the terminal has to print.

use std::collections::{BTreeMap, VecDeque};

use vstd::laws_cmp::obeys_cmp;
use vstd::prelude::*;
use vstd::std_specs::btree::increasing_seq;
use vstd::std_specs::cmp::OrdSpec;
use vstd::std_specs::iter::IteratorSpec;

use crate::text::{chars_of, decimal, extend_from, push_decimal, string_from_chars};

verus! {

/// At most this many recent messages are kept.
pub const MAX_MESSAGE_ROWS: usize = 20;

/// An open connection as the dashboard shows it.
#[derive(Debug)]
pub struct ActiveEntry {
    pub prefix: String,
    pub uploaded: u64,
    pub downloaded: u64,
}

/// What was read of one open connection's shared counters.
#[derive(Clone, Copy, Debug)]
pub struct EntryObservation {
    pub id: usize,
    pub uploaded: u64,
    pub downloaded: u64,
    pub closed: bool,
}

/// One connection row of a redraw.
#[derive(Debug)]
pub struct EntryRow {
    pub id: usize,
    pub prefix: String,
    pub uploaded: u64,
    pub downloaded: u64,
}

/// What a redraw prints: move the cursor up over the rows drawn last time,
/// print the connection rows and the message rows, then clear the rows that
/// the previous drawing had beyond these.
#[derive(Debug)]
pub struct RenderFrame {
    pub move_up: usize,
    pub entry_rows: Vec<EntryRow>,
    pub message_rows: Vec<String>,
    pub blank_rows: usize,
}

/// A connection entry as a value: prefix and the two counters.
pub type EntryView = (Seq<char>, u64, u64);

pub open spec fn entry_view(e: ActiveEntry) -> EntryView {
    (e.prefix@, e.uploaded, e.downloaded)
}

/// The numbers of `s` increase strictly.
pub open spec fn strictly_increasing(s: Seq<usize>) -> bool {
    forall|i: int, j: int| 0 <= i < j < s.len() ==> s[i] < s[j]
}

/// `ids` lists every id of `es` once, in increasing order.
pub open spec fn lists_ids_in_order(ids: Seq<usize>, es: Map<usize, EntryView>) -> bool {
    &&& strictly_increasing(ids)
    &&& ids.len() == es.len()
    &&& forall|i: int| 0 <= i < ids.len() ==> es.contains_key(#[trigger] ids[i])
    &&& forall|k: usize| es.contains_key(k) ==> ids.contains(k)
}

/// The entries after taking in the observations one by one: a closed
/// connection leaves, an open one gets the observed counters; an observation
/// of an id that is not (or no longer) open changes nothing.
pub open spec fn refreshed(es: Map<usize, EntryView>, obs: Seq<EntryObservation>) -> Map<
    usize,
    EntryView,
>
    decreases obs.len(),
{
    if obs.len() == 0 {
        es
    } else {
        let r = refreshed(es, obs.drop_last());
        let o = obs.last();
        if !r.contains_key(o.id) {
            r
        } else if o.closed {
            r.remove(o.id)
        } else {
            r.insert(o.id, (r[o.id].0, o.uploaded, o.downloaded))
        }
    }
}

/// Did taking in the observations find a changed counter or a closed
/// connection among the open ones?
pub open spec fn refresh_changes(es: Map<usize, EntryView>, obs: Seq<EntryObservation>) -> bool
    decreases obs.len(),
{
    if obs.len() == 0 {
        false
    } else {
        let r = refreshed(es, obs.drop_last());
        let o = obs.last();
        refresh_changes(es, obs.drop_last()) || (r.contains_key(o.id) && (o.closed || o.uploaded
            != r[o.id].1 || o.downloaded != r[o.id].2))
    }
}

/// The messages after one more arrives: the oldest goes when the list is full.
pub open spec fn with_message(ms: Seq<Seq<char>>, m: Seq<char>) -> Seq<Seq<char>> {
    if ms.len() == MAX_MESSAGE_ROWS {
        ms.drop_first().push(m)
    } else {
        ms.push(m)
    }
}

/// The notice about events the log had to drop.
pub open spec fn dropped_notice(dropped: u64) -> Seq<char> {
    "[log] dropped "@ + decimal(dropped as nat) + " events"@
}

/// Whether `a` comes before `b` in the order of `K`.
spec fn precedes<K: Ord>(a: K, b: K) -> bool {
    a.cmp_spec(&b) is Less
}

/// A sequence that a map walks in increasing key order has its elements in
/// that order.
proof fn lemma_increasing_in_order<K: Ord>(s: Seq<K>)
    requires
        obeys_cmp::<K>(),
        increasing_seq(s),
    ensures
        forall|i: int, j: int| 0 <= i < j < s.len() ==> precedes(s[i], s[j]),
{
}

/// For ids, increasing key order is increasing numeric order.
proof fn lemma_increasing_ids(s: Seq<usize>)
    requires
        increasing_seq(s),
    ensures
        strictly_increasing(s),
{
    assert(obeys_cmp::<usize>());
    lemma_increasing_in_order(s);
    assert forall|i: int, j: int| 0 <= i < j < s.len() implies s[i] < s[j] by {
        assert(precedes(s[i], s[j]));
    }
}

/// For borrowed ids, increasing key order is increasing numeric order.
proof fn lemma_increasing_borrowed_ids(s: Seq<&usize>)
    requires
        increasing_seq(s),
    ensures
        strictly_increasing(s.unref()),
{
    assert(obeys_cmp::<usize>());
    assert(obeys_cmp::<&usize>());
    lemma_increasing_in_order(s);
    assert forall|i: int, j: int| 0 <= i < j < s.len() implies *s[i] < *s[j] by {
        assert(precedes(s[i], s[j]));
    }
}

/// The dashboard state.
pub struct ConnectionLogState {
    active_entries: BTreeMap<usize, ActiveEntry>,
    recent_messages: VecDeque<String>,
    rendered_rows: usize,
    dirty: bool,
}

impl ConnectionLogState {
    #[verifier::type_invariant]
    closed spec fn wf(self) -> bool {
        self.recent_messages@.len() <= MAX_MESSAGE_ROWS
    }

    /// The open connections by id.
    pub closed spec fn entries(self) -> Map<usize, EntryView> {
        self.active_entries@.map_values(|e: ActiveEntry| entry_view(e))
    }

    /// The recent messages, oldest first.
    pub closed spec fn messages(self) -> Seq<Seq<char>> {
        self.recent_messages@.map_values(|s: String| s@)
    }

    /// How many rows the last redraw printed.
    pub closed spec fn rows_drawn(self) -> usize {
        self.rendered_rows
    }

    /// Has anything changed since the last redraw?
    pub closed spec fn needs_redraw(self) -> bool {
        self.dirty
    }

    pub fn new() -> (s: Self)
        ensures
            s.entries() == Map::<usize, EntryView>::empty(),
            s.messages().len() == 0,
            s.rows_drawn() == 0,
            !s.needs_redraw(),
    {
        let s = ConnectionLogState {
            active_entries: BTreeMap::new(),
            recent_messages: VecDeque::new(),
            rendered_rows: 0,
            dirty: false,
        };
        assert(s.entries() =~= Map::<usize, EntryView>::empty());
        assert(s.messages() =~= Seq::<Seq<char>>::empty());
        s
    }

    pub fn needs_render(&self) -> (b: bool)
        ensures
            b == self.needs_redraw(),
    {
        self.dirty
    }

    /// The ids of the open connections, in increasing order.
    pub fn entry_ids(&self) -> (ids: Vec<usize>)
        ensures
            lists_ids_in_order(ids@, self.entries()),
    {
        let mut ids: Vec<usize> = Vec::new();
        for k in it: self.active_entries.keys()
            invariant
                ids@ == it.seq().take(it.index()).unref(),
        {
            ids.push(*k);
        }
        proof {
            let r = self.active_entries.keys().remaining();
            assert(ids@ =~= r.unref());
            assert(r.unref().to_set() == self.active_entries@.dom());
            lemma_increasing_borrowed_ids(r);
            assert forall|i: int| 0 <= i < ids@.len() implies self.entries().contains_key(
                #[trigger] ids@[i],
            ) by {
                assert(r.unref().to_set().contains(ids@[i]));
            }
            assert forall|k: usize| self.entries().contains_key(k) implies ids@.contains(k) by {
                assert(r.unref().to_set().contains(k));
            }
            assert(self.entries().dom() =~= self.active_entries@.dom());
        }
        ids
    }

    /// A connection started: it joins the entries under its id, replacing an
    /// entry with the same id.
    pub fn record_start(&mut self, id: usize, prefix: String, uploaded: u64, downloaded: u64)
        ensures
            final(self).entries() == old(self).entries().insert(id, (prefix@, uploaded, downloaded)),
            final(self).messages() == old(self).messages(),
            final(self).rows_drawn() == old(self).rows_drawn(),
            final(self).needs_redraw(),
    {
        proof {
            use_type_invariant(&*self);
        }
        let ghost es = self.entries();
        let ghost pv = prefix@;
        let mut entries: BTreeMap<usize, ActiveEntry> = BTreeMap::new();
        std::mem::swap(&mut entries, &mut self.active_entries);
        entries.insert(id, ActiveEntry { prefix, uploaded, downloaded });
        self.active_entries = entries;
        self.dirty = true;
        assert(self.entries() =~= es.insert(id, (pv, uploaded, downloaded)));
    }

    /// A message arrived: it is kept after the others, and the oldest goes when
    /// [`MAX_MESSAGE_ROWS`] are kept already.
    pub fn push_message(&mut self, message: String)
        ensures
            final(self).messages() == with_message(old(self).messages(), message@),
            final(self).entries() == old(self).entries(),
            final(self).rows_drawn() == old(self).rows_drawn(),
            final(self).needs_redraw(),
            final(self).messages().len() <= MAX_MESSAGE_ROWS,
            final(self).messages().last() == message@,
    {
        proof {
            use_type_invariant(&*self);
        }
        let ghost ms = self.messages();
        let mut msgs: VecDeque<String> = VecDeque::new();
        std::mem::swap(&mut msgs, &mut self.recent_messages);
        if msgs.len() == MAX_MESSAGE_ROWS {
            let _ = msgs.pop_front();
        }
        msgs.push_back(message);
        self.recent_messages = msgs;
        self.dirty = true;
        assert(self.messages() =~= with_message(ms, message@));
    }

    /// Reports how many events had to be dropped since the last report; nothing
    /// happens when none were.
    pub fn push_dropped_event_notice(&mut self, dropped: u64)
        ensures
            dropped == 0 ==> *final(self) == *old(self),
            dropped > 0 ==> final(self).messages() == with_message(
                old(self).messages(),
                dropped_notice(dropped),
            ),
            dropped > 0 ==> final(self).needs_redraw(),
            final(self).entries() == old(self).entries(),
            final(self).rows_drawn() == old(self).rows_drawn(),
    {
        if dropped > 0 {
            let mut c = chars_of("[log] dropped ");
            push_decimal(&mut c, dropped);
            let tail = chars_of(" events");
            extend_from(&mut c, tail.as_slice());
            self.push_message(string_from_chars(c.as_slice()));
        }
    }

    /// Takes in what was read of the open connections' counters: each open
    /// connection observed gets its counters updated, or leaves when it was
    /// closed, and a redraw is due when anything changed.
    pub fn refresh_active_entries(&mut self, observed: &[EntryObservation])
        ensures
            final(self).entries() == refreshed(old(self).entries(), observed@),
            final(self).needs_redraw() == (old(self).needs_redraw() || refresh_changes(
                old(self).entries(),
                observed@,
            )),
            final(self).messages() == old(self).messages(),
            final(self).rows_drawn() == old(self).rows_drawn(),
    {
        proof {
            use_type_invariant(&*self);
        }
        let ghost es = self.entries();
        let mut entries: BTreeMap<usize, ActiveEntry> = BTreeMap::new();
        std::mem::swap(&mut entries, &mut self.active_entries);
        assert(entries@.map_values(|e: ActiveEntry| entry_view(e)) == es);
        let mut changed = false;
        let mut i: usize = 0;
        assert(observed@.take(0) =~= Seq::<EntryObservation>::empty());
        while i < observed.len()
            invariant
                i <= observed@.len(),
                entries@.map_values(|e: ActiveEntry| entry_view(e)) == refreshed(
                    es,
                    observed@.take(i as int),
                ),
                changed == refresh_changes(es, observed@.take(i as int)),
            decreases observed@.len() - i,
        {
            let o = observed[i];
            let ghost before = entries@.map_values(|e: ActiveEntry| entry_view(e));
            let ghost seen = observed@.take(i + 1);
            assert(seen.drop_last() =~= observed@.take(i as int));
            assert(seen.last() == o);
            match entries.remove(&o.id) {
                Some(mut e) => {
                    assert(before.contains_key(o.id));
                    assert(entry_view(e) == before[o.id]);
                    if o.uploaded != e.uploaded || o.downloaded != e.downloaded {
                        e.uploaded = o.uploaded;
                        e.downloaded = o.downloaded;
                        changed = true;
                    }
                    if o.closed {
                        changed = true;
                        assert(entries@.map_values(|e: ActiveEntry| entry_view(e)) =~= before.remove(
                            o.id,
                        ));
                    } else {
                        entries.insert(o.id, e);
                        assert(entries@.map_values(|e: ActiveEntry| entry_view(e)) =~= before.insert(
                            o.id,
                            (before[o.id].0, o.uploaded, o.downloaded),
                        ));
                    }
                },
                None => {
                    assert(!before.contains_key(o.id));
                    assert(entries@.map_values(|e: ActiveEntry| entry_view(e)) =~= before);
                },
            }
            i += 1;
        }
        assert(observed@.take(observed@.len() as int) =~= observed@);
        self.active_entries = entries;
        if changed {
            self.dirty = true;
        }
    }

    /// What the next redraw prints, given the rows drawn last time; the state
    /// then records the new row count and that it is drawn. Connection rows
    /// come in increasing id order.
    pub fn render(&mut self) -> (frame: RenderFrame)
        requires
            old(self).entries().len() + MAX_MESSAGE_ROWS <= usize::MAX,
        ensures
            frame.move_up == old(self).rows_drawn(),
            lists_ids_in_order(
                frame.entry_rows@.map_values(|r: EntryRow| r.id),
                old(self).entries(),
            ),
            forall|i: int|
                0 <= i < frame.entry_rows@.len() ==> old(self).entries()[(
                #[trigger] frame.entry_rows@[i]).id] == (
                    frame.entry_rows@[i].prefix@,
                    frame.entry_rows@[i].uploaded,
                    frame.entry_rows@[i].downloaded,
                ),
            frame.message_rows@.map_values(|s: String| s@) == old(self).messages(),
            final(self).rows_drawn() == old(self).entries().len() + old(self).messages().len(),
            frame.blank_rows == if old(self).rows_drawn() > final(self).rows_drawn() {
                old(self).rows_drawn() - final(self).rows_drawn()
            } else {
                0
            },
            final(self).entries() == old(self).entries(),
            final(self).messages() == old(self).messages(),
            !final(self).needs_redraw(),
    {
        proof {
            use_type_invariant(&*self);
        }
        let mut entry_rows: Vec<EntryRow> = Vec::new();
        for kv in it: self.active_entries.iter()
            invariant
                entry_rows@.len() == it.index(),
                forall|k: int|
                    0 <= k < it.index() ==> {
                        &&& (#[trigger] entry_rows@[k]).id == *it.seq()[k].0
                        &&& entry_rows@[k].prefix@ == it.seq()[k].1.prefix@
                        &&& entry_rows@[k].uploaded == it.seq()[k].1.uploaded
                        &&& entry_rows@[k].downloaded == it.seq()[k].1.downloaded
                    },
        {
            let (id, e) = kv;
            entry_rows.push(
                EntryRow {
                    id: *id,
                    prefix: e.prefix.clone(),
                    uploaded: e.uploaded,
                    downloaded: e.downloaded,
                },
            );
        }
        proof {
            let m = self.active_entries@;
            let v = self.active_entries.iter().remaining();
            let ids = entry_rows@.map_values(|r: EntryRow| r.id);
            let keys = v.map_values(|kv: (&usize, &ActiveEntry)| *kv.0);
            assert(ids =~= keys);
            lemma_increasing_ids(keys);
            assert(self.entries().dom() =~= m.dom());
            assert forall|i: int| 0 <= i < ids.len() implies self.entries().contains_key(
                #[trigger] ids[i],
            ) by {
                assert(m.contains_key(*v[i].0));
            }
            assert forall|k: usize| self.entries().contains_key(k) implies ids.contains(k) by {
                assert(v.contains((&k, &m[k])));
                let j = choose|j: int| 0 <= j < v.len() && v[j] == (&k, &m[k]);
                assert(ids[j] == k);
            }
            assert forall|i: int| 0 <= i < entry_rows@.len() implies self.entries()[(
            #[trigger] entry_rows@[i]).id] == (
                entry_rows@[i].prefix@,
                entry_rows@[i].uploaded,
                entry_rows@[i].downloaded,
            ) by {
                assert(m.contains_key(*v[i].0) && m[*v[i].0] == *v[i].1);
            }
        }
        let mut message_rows: Vec<String> = Vec::new();
        let mut j: usize = 0;
        while j < self.recent_messages.len()
            invariant
                j <= self.recent_messages@.len(),
                message_rows@.map_values(|s: String| s@) == self.messages().take(j as int),
            decreases self.recent_messages@.len() - j,
        {
            let ghost rows_before = message_rows@;
            let m = self.recent_messages[j].clone();
            assert(m@ == self.messages()[j as int]);
            message_rows.push(m);
            assert(message_rows@ == rows_before.push(m));
            assert(message_rows@.map_values(|s: String| s@) =~= rows_before.map_values(
                |s: String| s@,
            ).push(m@));
            assert(message_rows@.map_values(|s: String| s@) =~= self.messages().take(j + 1));
            j += 1;
        }
        assert(self.messages().take(self.messages().len() as int) =~= self.messages());
        let rows = self.active_entries.len() + self.recent_messages.len();
        let previous = self.rendered_rows;
        let blank_rows = if previous > rows {
            previous - rows
        } else {
            0
        };
        self.rendered_rows = rows;
        self.dirty = false;
        RenderFrame { move_up: previous, entry_rows, message_rows, blank_rows }
    }
}


/// No id is observed twice.
pub open spec fn distinct_ids(obs: Seq<EntryObservation>) -> bool {
    forall|i: int, j: int| 0 <= i < j < obs.len() ==> (#[trigger] obs[i]).id != (#[trigger] obs[j]).id
}

/// Taking in one observation per connection: an observed open connection
/// that is still open carries exactly the observed counters (both of them,
/// whichever changed); an observed closed one leaves; a connection that was
/// not observed stays as it was, and none is added. A redraw is due exactly
/// when some observed open connection closed or shows a counter, upload or
/// download, other than the one stored.
pub proof fn law_refresh(es: Map<usize, EntryView>, obs: Seq<EntryObservation>)
    requires
        distinct_ids(obs),
    ensures
        forall|i: int|
            0 <= i < obs.len() && es.contains_key(#[trigger] obs[i].id) && !obs[i].closed
                ==> refreshed(es, obs).contains_key(obs[i].id) && refreshed(es, obs)[obs[i].id]
                == (es[obs[i].id].0, obs[i].uploaded, obs[i].downloaded),
        forall|i: int|
            0 <= i < obs.len() && (#[trigger] obs[i]).closed ==> !refreshed(es, obs).contains_key(
                obs[i].id,
            ),
        forall|id: usize|
            #![trigger refreshed(es, obs).contains_key(id)]
            (forall|i: int| 0 <= i < obs.len() ==> (#[trigger] obs[i]).id != id) ==> (refreshed(
                es,
                obs,
            ).contains_key(id) == es.contains_key(id) && (es.contains_key(id) ==> refreshed(
                es,
                obs,
            )[id] == es[id])),
        forall|id: usize| #[trigger] refreshed(es, obs).contains_key(id) ==> es.contains_key(id),
        refresh_changes(es, obs) <==> exists|i: int|
            0 <= i < obs.len() && es.contains_key(#[trigger] obs[i].id) && (obs[i].closed
                || obs[i].uploaded != es[obs[i].id].1 || obs[i].downloaded != es[obs[i].id].2),
    decreases obs.len(),
{
    if obs.len() > 0 {
        let init = obs.drop_last();
        let o = obs.last();
        let last = obs.len() - 1;
        assert(o == obs[last]);
        assert forall|i: int, j: int| 0 <= i < j < init.len() implies (#[trigger] init[i]).id != (
        #[trigger] init[j]).id by {
            assert(init[i] == obs[i]);
            assert(init[j] == obs[j]);
        }
        law_refresh(es, init);
        let r0 = refreshed(es, init);
        let r = refreshed(es, obs);
        assert forall|i: int| 0 <= i < init.len() implies (#[trigger] init[i]).id != o.id by {
            assert(init[i] == obs[i]);
        }
        // the last id was not touched before
        assert(r0.contains_key(o.id) == es.contains_key(o.id));
        assert(es.contains_key(o.id) ==> r0[o.id] == es[o.id]);
        assert forall|i: int|
            0 <= i < obs.len() && es.contains_key(#[trigger] obs[i].id) && !obs[i].closed implies r.contains_key(
            obs[i].id) && r[obs[i].id] == (es[obs[i].id].0, obs[i].uploaded, obs[i].downloaded) by {
            if i < last {
                assert(init[i] == obs[i]);
                assert(obs[i].id != o.id);
            }
        }
        assert forall|i: int| 0 <= i < obs.len() && (#[trigger] obs[i]).closed implies !r.contains_key(
            obs[i].id,
        ) by {
            if i < last {
                assert(init[i] == obs[i]);
                assert(obs[i].id != o.id);
            }
        }
        assert forall|id: usize|
            #![trigger r.contains_key(id)]
            (forall|i: int| 0 <= i < obs.len() ==> (#[trigger] obs[i]).id != id) implies (
            r.contains_key(id) == es.contains_key(id) && (es.contains_key(id) ==> r[id] == es[id])) by {
            assert forall|i: int| 0 <= i < init.len() implies (#[trigger] init[i]).id != id by {
                assert(init[i] == obs[i]);
            }
            assert(obs[last].id != id);
            assert(r0.contains_key(id) == es.contains_key(id));
        }
        assert forall|id: usize| #[trigger] r.contains_key(id) implies es.contains_key(id) by {
            assert(r0.contains_key(id));
        }
        let witness = exists|i: int|
            0 <= i < obs.len() && es.contains_key(#[trigger] obs[i].id) && (obs[i].closed
                || obs[i].uploaded != es[obs[i].id].1 || obs[i].downloaded != es[obs[i].id].2);
        if refresh_changes(es, obs) {
            if refresh_changes(es, init) {
                let i = choose|i: int|
                    0 <= i < init.len() && es.contains_key(#[trigger] init[i].id) && (init[i].closed
                        || init[i].uploaded != es[init[i].id].1 || init[i].downloaded
                        != es[init[i].id].2);
                assert(init[i] == obs[i]);
                assert(es.contains_key(obs[i].id));
            } else {
                assert(es.contains_key(obs[last].id));
            }
            assert(witness);
        }
        if witness {
            let i = choose|i: int|
                0 <= i < obs.len() && es.contains_key(#[trigger] obs[i].id) && (obs[i].closed
                    || obs[i].uploaded != es[obs[i].id].1 || obs[i].downloaded != es[obs[i].id].2);
            if i < last {
                assert(init[i] == obs[i]);
                assert(es.contains_key(init[i].id));
            }
        }
    }
}

} // verus!
