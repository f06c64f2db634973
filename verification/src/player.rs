//! The tick scheduler and note-lifecycle tracker.
//!
//! A [`Player`] owns the tick counter, the note-identifier counter and the
//! table of currently sounding notes. Sources are polled once per tick, and
//! only while they have no note still sounding; admitted notes are stopped
//! exactly once, either when their duration elapses or when the table is
//! drained at shutdown.

use vstd::prelude::*;

use crate::midi::Midi;

verus! {

/// One sounding note together with the metadata recorded when it was
/// admitted: which source produced it and at which tick it began.
#[derive(Clone, Copy, Debug, PartialEq, Eq)]
pub struct PlayingNote {
    /// Index of the source that produced the note.
    pub channel_id: usize,
    /// Tick at which the note was admitted to the sounding table.
    pub start_tick_id: u64,
    /// The note itself.
    pub note: Midi,
}

/// A row of the sounding-note table: the note's unique identifier paired
/// with its record.
pub type TableEntry = (u64, PlayingNote);

/// A batch-producing note source. `next` either hands the scheduler a batch
/// of notes to admit (possibly empty) or signals exhaustion or failure with
/// `None`; an exhausted source is simply asked again on the next tick.
pub trait Midibox {
    /// The next batch of notes, or `None` when the source has nothing to say.
    fn next(&mut self) -> Option<Vec<Midi>>;
}

/// The mathematical state of a [`Player`]: the tick counter, the value of the
/// note-identifier counter, and the table of sounding notes in admission
/// order.
pub struct PlayerView {
    /// Ticks elapsed since the player started.
    pub tick: u64,
    /// Identifiers handed out so far; the next note gets `next_note + 1`.
    pub next_note: u64,
    /// The sounding-note table, ordered by admission.
    pub table: Seq<TableEntry>,
}

/// Whether a record's sounding time has exactly elapsed at `tick`.
pub open spec fn elapses(rec: PlayingNote, tick: u64) -> bool {
    rec.start_tick_id + rec.note.duration == tick
}

/// A record's sounding time elapses at one tick only — its start tick plus
/// its duration — so the reaper can never remove it twice.
pub proof fn lemma_unique_elapse_tick(rec: PlayingNote, t1: u64, t2: u64)
    requires
        elapses(rec, t1),
        elapses(rec, t2),
    ensures
        t1 == t2,
{
}

/// The predicate the elapsed-note reaper removes by.
pub open spec fn elapse_pred(tick: u64) -> spec_fn(TableEntry) -> bool {
    |e: TableEntry| elapses(e.1, tick)
}

/// The predicate the elapsed-note reaper keeps by.
pub open spec fn keep_pred(tick: u64) -> spec_fn(TableEntry) -> bool {
    |e: TableEntry| !elapses(e.1, tick)
}

/// Whether some record of `table` belongs to source `channel_id`.
pub open spec fn channel_active(table: Seq<TableEntry>, channel_id: usize) -> bool {
    exists|i: int| 0 <= i < table.len() && table[i].1.channel_id == channel_id
}

/// How many rows of `table` carry the identifier `id`. Well-formed tables
/// carry each identifier at most once.
pub open spec fn count_id(table: Seq<TableEntry>, id: u64) -> nat
    decreases table.len(),
{
    if table.len() == 0 {
        0
    } else {
        count_id(table.drop_last(), id) + if table.last().0 == id {
            1nat
        } else {
            0nat
        }
    }
}

/// Every row a well-formed table may hold: an identifier already allocated,
/// a strictly positive duration, and a start tick that has been reached.
pub open spec fn entry_wf(e: TableEntry, next_note: u64, tick: u64) -> bool {
    &&& e.0 <= next_note
    &&& e.1.note.duration >= 1
    &&& e.1.start_tick_id <= tick
}

/// The records a batch admission creates: one per note of `batch` with a
/// strictly positive duration, keyed by identifiers counting up from
/// `base + 1`, started at `tick`. Zero-duration notes consume an identifier
/// but produce no record.
pub open spec fn admitted_records(
    base: u64,
    tick: u64,
    channel_id: usize,
    batch: Seq<Midi>,
) -> Seq<TableEntry>
    decreases batch.len(),
{
    if batch.len() == 0 {
        Seq::empty()
    } else {
        let rest = admitted_records(base, tick, channel_id, batch.drop_last());
        let m = batch.last();
        if m.duration >= 1 {
            rest.push(
                (
                    (base + batch.len()) as u64,
                    PlayingNote { channel_id, start_tick_id: tick, note: m },
                ),
            )
        } else {
            rest
        }
    }
}

/// The scheduler: owns time, owns in-flight note state, and enforces the
/// one-batch-at-a-time contract per source.
pub struct Player {
    /// Time spent playing, in ticks.
    tick_id: u64,
    /// The last note identifier handed out.
    note_id: u64,
    /// The sounding-note table, in admission order; row keys are unique.
    playing_notes: Vec<TableEntry>,
}

impl View for Player {
    type V = PlayerView;

    closed spec fn view(&self) -> PlayerView {
        PlayerView {
            tick: self.tick_id,
            next_note: self.note_id,
            table: self.playing_notes@,
        }
    }
}

impl Player {
    /// The scheduler's internal invariant: table rows are well formed and
    /// their identifiers strictly increase with admission order, so no
    /// identifier is ever held twice.
    pub open spec fn wf(self) -> bool {
        &&& forall|i: int|
            0 <= i < self@.table.len() ==> entry_wf(
                #[trigger] self@.table[i],
                self@.next_note,
                self@.tick,
            )
        &&& forall|i: int, j: int|
            0 <= i < j < self@.table.len() ==> self@.table[i].0 < self@.table[j].0
    }

    /// A fresh scheduler: tick 0, no identifiers handed out, empty table.
    pub fn new() -> (p: Player)
        ensures
            p.wf(),
            p@.tick == 0,
            p@.next_note == 0,
            p@.table == Seq::<TableEntry>::empty(),
    {
        Player { tick_id: 0, note_id: 0, playing_notes: Vec::new() }
    }

    /// The current time in ticks since start.
    pub fn time(&self) -> (t: u64)
        ensures
            t == self@.tick,
    {
        self.tick_id
    }

    /// How many note identifiers have been handed out so far; the counter
    /// advances once per note a source returns, sounding or not.
    pub fn note_count(&self) -> (c: u64)
        ensures
            c == self@.next_note,
    {
        self.note_id
    }

    /// How many notes are sounding right now.
    pub fn sounding_count(&self) -> (n: usize)
        ensures
            n == self@.table.len(),
    {
        self.playing_notes.len()
    }

    /// Advance the clock by exactly one tick and return the new time. The
    /// wall-clock wait that paces playback happens outside, before this is
    /// called; the scheduler itself only counts.
    pub fn advance_tick(&mut self) -> (t: u64)
        requires
            old(self).wf(),
            old(self)@.tick < u64::MAX,
        ensures
            final(self).wf(),
            final(self)@.tick == old(self)@.tick + 1,
            final(self)@.next_note == old(self)@.next_note,
            final(self)@.table == old(self)@.table,
            t == final(self)@.tick,
    {
        self.tick_id = self.tick_id + 1;
        proof {
            assert forall|i: int|
                0 <= i < self@.table.len() implies entry_wf(
                #[trigger] self@.table[i],
                self@.next_note,
                self@.tick,
            ) by {
                assert(entry_wf(old(self)@.table[i], old(self)@.next_note, old(self)@.tick));
            }
        }
        self.tick_id
    }

    /// Whether a source must be asked for new notes this tick: true exactly
    /// when it has no record left in the sounding table, so a source can
    /// never run ahead of notes it already emitted.
    pub fn should_poll_channel(&self, channel_id: usize) -> (r: bool)
        ensures
            r == !channel_active(self@.table, channel_id),
    {
        let n = self.playing_notes.len();
        let mut i: usize = 0;
        while i < n
            invariant
                i <= n,
                n == self@.table.len(),
                forall|k: int| 0 <= k < i ==> self@.table[k].1.channel_id != channel_id,
            decreases n - i,
        {
            if self.playing_notes[i].1.channel_id == channel_id {
                return false;
            }
            i = i + 1;
        }
        true
    }

    /// Admit one source's batch at the current tick. Every note of the batch
    /// consumes a fresh identifier in order; notes with a strictly positive
    /// duration are recorded in the sounding table, zero-duration notes are
    /// discarded on admission and never sound. Returns exactly the rows
    /// appended to the table.
    pub fn admit_batch(&mut self, channel_id: usize, batch: &Vec<Midi>) -> (started: Vec<
        TableEntry,
    >)
        requires
            old(self).wf(),
            old(self)@.next_note + batch@.len() <= u64::MAX,
        ensures
            final(self).wf(),
            final(self)@.tick == old(self)@.tick,
            final(self)@.next_note == old(self)@.next_note + batch@.len(),
            started@ == admitted_records(
                old(self)@.next_note,
                old(self)@.tick,
                channel_id,
                batch@,
            ),
            final(self)@.table == old(self)@.table + started@,
    {
        let ghost base = self.note_id;
        let ghost old_table = self.playing_notes@;
        let mut started: Vec<TableEntry> = Vec::new();
        let n = batch.len();
        let mut i: usize = 0;
        while i < n
            invariant
                i <= n,
                n == batch@.len(),
                base == old(self)@.next_note,
                old_table == old(self)@.table,
                base + n <= u64::MAX,
                self@.tick == old(self)@.tick,
                self@.next_note == base + i,
                started@ == admitted_records(base, old(self)@.tick, channel_id, batch@.take(i as int)),
                self@.table == old_table + started@,
            decreases n - i,
        {
            proof {
                assert(batch@.take(i + 1).drop_last() =~= batch@.take(i as int));
                assert(batch@.take(i + 1).last() == batch@[i as int]);
            }
            let m = batch[i];
            self.note_id = self.note_id + 1;
            if m.duration >= 1 {
                let rec = PlayingNote { channel_id, start_tick_id: self.tick_id, note: m };
                self.playing_notes.push((self.note_id, rec));
                started.push((self.note_id, rec));
            }
            i = i + 1;
        }
        proof {
            assert(batch@.take(n as int) =~= batch@);
            lemma_admitted_records_facts(base, old(self)@.tick, channel_id, batch@);
            assert forall|a: int, b: int|
                0 <= a < b < self@.table.len() implies self@.table[a].0 < self@.table[b].0 by {
                if b >= old_table.len() && a < old_table.len() {
                    assert(entry_wf(old_table[a], base, old(self)@.tick));
                }
            }
        }
        started
    }

    /// Poll every source in index order, skipping any source that still has a
    /// sounding record, and admit what the others return at the current tick.
    /// Returns the rows admitted now, in admission order; the table grows by
    /// exactly those rows and skipped sources are left untouched.
    pub fn poll_channels_entries<M: Midibox>(&mut self, channels: &mut Vec<M>) -> (started: Vec<
        TableEntry,
    >)
        requires
            old(self).wf(),
        ensures
            final(self).wf(),
            final(self)@.tick == old(self)@.tick,
            final(self)@.next_note >= old(self)@.next_note,
            final(self)@.table == old(self)@.table + started@,
            forall|k: int|
                0 <= k < started@.len() ==> {
                    let e = #[trigger] started@[k];
                    &&& e.1.start_tick_id == old(self)@.tick
                    &&& e.1.note.duration >= 1
                    &&& e.0 > old(self)@.next_note
                    &&& e.1.channel_id < final(channels)@.len()
                    &&& !channel_active(old(self)@.table, e.1.channel_id)
                },
            final(channels)@.len() == old(channels)@.len(),
            forall|c: int|
                0 <= c < final(channels)@.len() && channel_active(old(self)@.table, c as usize)
                    ==> final(channels)@[c] == old(channels)@[c],
    {
        let mut started: Vec<TableEntry> = Vec::new();
        let n = channels.len();
        let mut c: usize = 0;
        while c < n
            invariant
                c <= n,
                n == channels@.len(),
                channels@.len() == old(channels)@.len(),
                self.wf(),
                self@.tick == old(self)@.tick,
                self@.next_note >= old(self)@.next_note,
                self@.table == old(self)@.table + started@,
                forall|k: int|
                    0 <= k < started@.len() ==> {
                        let e = #[trigger] started@[k];
                        &&& e.1.start_tick_id == old(self)@.tick
                        &&& e.1.note.duration >= 1
                        &&& e.0 > old(self)@.next_note
                        &&& e.1.channel_id < n
                        &&& !channel_active(old(self)@.table, e.1.channel_id)
                    },
                forall|cc: int|
                    0 <= cc < channels@.len() && channel_active(old(self)@.table, cc as usize)
                        ==> channels@[cc] == old(channels)@[cc],
            decreases n - c,
        {
            let eligible = self.should_poll_channel(c);
            proof {
                if channel_active(old(self)@.table, c) {
                    let i = choose|i: int|
                        0 <= i < old(self)@.table.len() && old(self)@.table[i].1.channel_id == c;
                    assert(self@.table[i] == old(self)@.table[i]);
                    assert(channel_active(self@.table, c));
                }
            }
            if eligible {
                let ghost pre_next = self@.next_note;
                let ghost pre_table = self@.table;
                let r = (&mut channels[c]).next();
                match r {
                    Some(batch) => {
                        if self.note_id <= u64::MAX - (batch.len() as u64) {
                            let mut newly = self.admit_batch(c, &batch);
                            proof {
                                lemma_admitted_records_facts(
                                    pre_next,
                                    old(self)@.tick,
                                    c,
                                    batch@,
                                );
                                assert(pre_table + newly@ == old(self)@.table + (started@
                                    + newly@)) by {
                                    assert(pre_table + newly@ =~= old(self)@.table + (started@
                                        + newly@));
                                }
                            }
                            started.append(&mut newly);
                        }
                    },
                    None => {},
                }
            }
            c = c + 1;
        }
        started
    }

    /// Poll every source as [`Self::poll_channels_entries`] does, returning
    /// the newly admitted records without their table keys, for immediate
    /// routing as start events.
    pub fn poll_channels<M: Midibox>(&mut self, channels: &mut Vec<M>) -> (started: Vec<
        PlayingNote,
    >)
        requires
            old(self).wf(),
        ensures
            final(self).wf(),
            final(self)@.tick == old(self)@.tick,
            final(self)@.next_note >= old(self)@.next_note,
            old(self)@.table.is_prefix_of(final(self)@.table),
            started@ == final(self)@.table.skip(old(self)@.table.len() as int).map_values(
                |e: TableEntry| e.1,
            ),
            forall|k: int|
                old(self)@.table.len() <= k < final(self)@.table.len() ==> {
                    let e = #[trigger] final(self)@.table[k];
                    &&& e.1.start_tick_id == old(self)@.tick
                    &&& e.1.note.duration >= 1
                    &&& e.0 > old(self)@.next_note
                    &&& !channel_active(old(self)@.table, e.1.channel_id)
                },
            final(channels)@.len() == old(channels)@.len(),
            forall|c: int|
                0 <= c < final(channels)@.len() && channel_active(old(self)@.table, c as usize)
                    ==> final(channels)@[c] == old(channels)@[c],
    {
        let entries = self.poll_channels_entries(channels);
        proof {
            assert(self@.table.skip(old(self)@.table.len() as int) =~= entries@);
        }
        let mut started: Vec<PlayingNote> = Vec::new();
        let n = entries.len();
        let mut i: usize = 0;
        while i < n
            invariant
                i <= n,
                n == entries@.len(),
                started@ == entries@.take(i as int).map_values(|e: TableEntry| e.1),
            decreases n - i,
        {
            started.push(entries[i].1);
            proof {
                assert(started@ =~= entries@.take(i + 1).map_values(|e: TableEntry| e.1));
            }
            i = i + 1;
        }
        proof {
            assert(entries@.take(n as int) =~= entries@);
        }
        started
    }

    /// Remove and return every record whose sounding duration has exactly
    /// elapsed at the current tick, in table order; all other records stay,
    /// in order.
    pub fn clear_elapsed_entries(&mut self) -> (removed: Vec<TableEntry>)
        requires
            old(self).wf(),
        ensures
            final(self).wf(),
            final(self)@.tick == old(self)@.tick,
            final(self)@.next_note == old(self)@.next_note,
            removed@ == old(self)@.table.filter(elapse_pred(old(self)@.tick)),
            final(self)@.table == old(self)@.table.filter(keep_pred(old(self)@.tick)),
    {
        let tick = self.tick_id;
        let n = self.playing_notes.len();
        let ghost t0 = self.playing_notes@;
        let mut kept: Vec<TableEntry> = Vec::new();
        let mut removed: Vec<TableEntry> = Vec::new();
        let mut i: usize = 0;
        while i < n
            invariant
                i <= n,
                n == t0.len(),
                self.playing_notes@ == t0,
                t0 == old(self)@.table,
                tick == old(self)@.tick,
                self@.tick == old(self)@.tick,
                self@.next_note == old(self)@.next_note,
                old(self).wf(),
                removed@ == t0.take(i as int).filter(elapse_pred(tick)),
                kept@ == t0.take(i as int).filter(keep_pred(tick)),
            decreases n - i,
        {
            proof {
                reveal(Seq::filter);
                assert(t0.take(i + 1).drop_last() =~= t0.take(i as int));
                assert(t0.take(i + 1).last() == t0[i as int]);
                assert(entry_wf(t0[i as int], old(self)@.next_note, tick));
            }
            let e = self.playing_notes[i];
            if tick - e.1.start_tick_id == e.1.note.duration as u64 {
                removed.push(e);
            } else {
                kept.push(e);
            }
            i = i + 1;
        }
        proof {
            assert(t0.take(n as int) =~= t0);
        }
        self.playing_notes = kept;
        proof {
            let f = t0.filter(keep_pred(tick));
            lemma_filter_table_facts(t0, keep_pred(tick));
            assert(self@.table == f);
            assert forall|a: int, b: int| 0 <= a < b < t0.len() implies t0[a].0 < t0[b].0 by {
                assert(old(self)@.table[a] == t0[a]);
                assert(old(self)@.table[b] == t0[b]);
            }
            assert forall|k: int|
                0 <= k < self@.table.len() implies entry_wf(
                #[trigger] self@.table[k],
                self@.next_note,
                self@.tick,
            ) by {
                assert(self@.table[k] == f[k]);
                assert(t0.contains(f[k]));
                let j = choose|j: int| 0 <= j < t0.len() && t0[j] == f[k];
                assert(entry_wf(old(self)@.table[j], old(self)@.next_note, old(self)@.tick));
            }
            assert forall|a: int, b: int|
                0 <= a < b < self@.table.len() implies self@.table[a].0 < self@.table[b].0 by {
                assert(self@.table[a] == f[a]);
                assert(self@.table[b] == f[b]);
            }
        }
        removed
    }

    /// Remove and return every record whose duration has exactly elapsed at
    /// the current tick, without their table keys, for stop-event routing.
    pub fn clear_elapsed_notes(&mut self) -> (removed: Vec<PlayingNote>)
        requires
            old(self).wf(),
        ensures
            final(self).wf(),
            final(self)@.tick == old(self)@.tick,
            final(self)@.next_note == old(self)@.next_note,
            removed@ == old(self)@.table.filter(elapse_pred(old(self)@.tick)).map_values(
                |e: TableEntry| e.1,
            ),
            final(self)@.table == old(self)@.table.filter(keep_pred(old(self)@.tick)),
    {
        let entries = self.clear_elapsed_entries();
        strip_keys(entries)
    }

    /// Drain the table: remove and return every remaining record, in table
    /// order, regardless of elapse time. Used at shutdown so that each
    /// sounding note is still stopped exactly once.
    pub fn clear_all_entries(&mut self) -> (removed: Vec<TableEntry>)
        requires
            old(self).wf(),
        ensures
            final(self).wf(),
            final(self)@.tick == old(self)@.tick,
            final(self)@.next_note == old(self)@.next_note,
            removed@ == old(self)@.table,
            final(self)@.table == Seq::<TableEntry>::empty(),
    {
        let n = self.playing_notes.len();
        let mut removed: Vec<TableEntry> = Vec::new();
        let mut i: usize = 0;
        while i < n
            invariant
                i <= n,
                n == self@.table.len(),
                self@ == old(self)@,
                removed@ == self@.table.take(i as int),
                old(self).wf(),
            decreases n - i,
        {
            removed.push(self.playing_notes[i]);
            proof {
                assert(removed@ =~= self@.table.take(i + 1));
            }
            i = i + 1;
        }
        proof {
            assert(removed@ =~= old(self)@.table);
        }
        self.playing_notes = Vec::new();
        removed
    }

    /// Drain the table as [`Self::clear_all_entries`] does, returning the
    /// removed records without their table keys.
    pub fn clear_all_notes(&mut self) -> (removed: Vec<PlayingNote>)
        requires
            old(self).wf(),
        ensures
            final(self).wf(),
            final(self)@.tick == old(self)@.tick,
            final(self)@.next_note == old(self)@.next_note,
            removed@ == old(self)@.table.map_values(|e: TableEntry| e.1),
            final(self)@.table == Seq::<TableEntry>::empty(),
    {
        let entries = self.clear_all_entries();
        strip_keys(entries)
    }
}

/// Maps a source index to the destination port its events are sent to.
pub enum Router {
    /// Every source plays to the one given port.
    Static {
        /// The port every source is routed to.
        port_id: usize,
    },
    /// `routes[c]` is the destination of source `c`; a missing or `None`
    /// entry leaves the source unrouted.
    Mapped {
        /// Destination per source index.
        routes: Vec<Option<usize>>,
    },
}

impl Router {
    /// The destination configured for a source, if any.
    pub open spec fn route_spec(self, channel_id: usize) -> Option<usize> {
        match self {
            Router::Static { port_id } => Some(port_id),
            Router::Mapped { routes } => if channel_id < routes.len() {
                routes[channel_id as int]
            } else {
                None
            },
        }
    }

    /// Whether some source is routed to `port_id`.
    pub open spec fn routes_to(self, port_id: usize) -> bool {
        exists|c: usize| self.route_spec(c) == Some(port_id)
    }

    /// Look up the destination for a source.
    pub fn route(&self, channel_id: usize) -> (r: Option<usize>)
        ensures
            r == self.route_spec(channel_id),
    {
        match self {
            Router::Static { port_id } => Some(*port_id),
            Router::Mapped { routes } => {
                if channel_id < routes.len() {
                    routes[channel_id]
                } else {
                    None
                }
            },
        }
    }

    /// Every destination some source is routed to, without repetition; used
    /// once at startup to open only the needed output connections.
    pub fn required_ports(&self) -> (r: Vec<usize>)
        ensures
            forall|p: usize| #[trigger] r@.contains(p) <==> self.routes_to(p),
            forall|i: int, j: int| 0 <= i < j < r@.len() ==> r@[i] != r@[j],
    {
        match self {
            Router::Static { port_id } => {
                let mut r: Vec<usize> = Vec::new();
                r.push(*port_id);
                proof {
                    assert(r@[0] == *port_id);
                    assert(self.route_spec(0usize) == Some(*port_id));
                    assert forall|p: usize| #[trigger] r@.contains(p) implies self.routes_to(p) by {
                        let k = choose|k: int| 0 <= k < r@.len() && r@[k] == p;
                        assert(r@[k] == *port_id);
                    }
                }
                r
            },
            Router::Mapped { routes } => {
                let n = routes.len();
                let mut r: Vec<usize> = Vec::new();
                let mut c: usize = 0;
                while c < n
                    invariant
                        c <= n,
                        n == routes@.len(),
                        forall|p: usize| #[trigger] r@.contains(p) <==> (exists|cc: int|
                            0 <= cc < c && routes@[cc] == Some(p)),
                        forall|i: int, j: int| 0 <= i < j < r@.len() ==> r@[i] != r@[j],
                    decreases n - c,
                {
                    let ghost r0 = r@;
                    if let Some(p) = routes[c] {
                        let already = contains_port(&r, p);
                        if !already {
                            r.push(p);
                        }
                        proof {
                            if already {
                                assert(r@ == r0);
                            } else {
                                assert(r@ == r0.push(p));
                                assert(r@[r0.len() as int] == p);
                            }
                            assert(r@.contains(p));
                            assert forall|q: usize| #[trigger] r@.contains(q) implies (
                            r0.contains(q) || q == p) by {
                                let k = choose|k: int| 0 <= k < r@.len() && r@[k] == q;
                                if k < r0.len() {
                                    assert(r0[k] == q);
                                }
                            }
                            assert forall|q: usize| r0.contains(q) implies r@.contains(q) by {
                                let k = choose|k: int| 0 <= k < r0.len() && r0[k] == q;
                                assert(r@[k] == q);
                            }
                            assert forall|i: int, j: int|
                                0 <= i < j < r@.len() implies r@[i] != r@[j] by {
                                if j == r0.len() {
                                    assert(r@[j] == p);
                                    assert(r0[i] == r@[i]);
                                    if r0[i] == p {
                                        assert(r0.contains(p));
                                    }
                                }
                            }
                            assert forall|q: usize| #[trigger] r@.contains(q) implies (exists|
                                cc: int,
                            | 0 <= cc < c + 1 && routes@[cc] == Some(q)) by {
                                if r0.contains(q) {
                                    let w = choose|cc: int|
                                        0 <= cc < c && routes@[cc] == Some(q);
                                    assert(0 <= w < c + 1 && routes@[w] == Some(q));
                                } else {
                                    assert(q == p);
                                    assert(routes@[c as int] == Some(q));
                                }
                            }
                            assert forall|q: usize|
                                (exists|cc: int| 0 <= cc < c + 1 && routes@[cc] == Some(q))
                                implies #[trigger] r@.contains(q) by {
                                let w = choose|cc: int|
                                    0 <= cc < c + 1 && routes@[cc] == Some(q);
                                if w < c {
                                    assert(r0.contains(q));
                                } else {
                                    assert(q == p);
                                }
                            }
                        }
                    } else {
                        proof {
                            assert forall|q: usize|
                                (exists|cc: int| 0 <= cc < c + 1 && routes@[cc] == Some(q))
                                implies #[trigger] r@.contains(q) by {
                                let w = choose|cc: int|
                                    0 <= cc < c + 1 && routes@[cc] == Some(q);
                                assert(w < c);
                            }
                        }
                    }
                    c = c + 1;
                }
                proof {
                    assert forall|p: usize| #[trigger] r@.contains(p) implies self.routes_to(p) by {
                        let w = choose|cc: int| 0 <= cc < n && routes@[cc] == Some(p);
                        assert(self.route_spec(w as usize) == Some(p));
                    }
                    assert forall|p: usize| self.routes_to(p) implies r@.contains(p) by {
                        let w = choose|cw: usize| self.route_spec(cw) == Some(p);
                        assert(0 <= w < n && routes@[w as int] == Some(p));
                    }
                }
                r
            },
        }
    }
}

/// Whether `v` already holds the port `p`.
fn contains_port(v: &Vec<usize>, p: usize) -> (b: bool)
    ensures
        b == v@.contains(p),
{
    let n = v.len();
    let mut i: usize = 0;
    while i < n
        invariant
            i <= n,
            n == v@.len(),
            forall|k: int| 0 <= k < i ==> v@[k] != p,
        decreases n - i,
    {
        if v[i] == p {
            return true;
        }
        i = i + 1;
    }
    proof {
        if v@.contains(p) {
            let k = choose|k: int| 0 <= k < v@.len() && v@[k] == p;
        }
    }
    false
}

/// The routing configuration a player runs with.
pub struct PlayerConfig {
    /// Maps each source index to its destination port.
    router: Router,
}

impl PlayerConfig {
    /// The router behind this configuration.
    pub closed spec fn router_spec(self) -> Router {
        self.router
    }

    /// A configuration that routes every source to port 0.
    pub fn empty() -> (c: PlayerConfig)
        ensures
            c.router_spec() == (Router::Static { port_id: 0 }),
    {
        PlayerConfig { router: Router::Static { port_id: 0 } }
    }

    /// A configuration that routes every source to the given port.
    pub fn for_port(port_id: usize) -> (c: PlayerConfig)
        ensures
            c.router_spec() == (Router::Static { port_id }),
    {
        PlayerConfig { router: Router::Static { port_id } }
    }

    /// A configuration that uses the given router as it stands.
    pub fn from_router(router: Router) -> (c: PlayerConfig)
        ensures
            c.router_spec() == router,
    {
        PlayerConfig { router }
    }

    /// The destination configured for a source, if any.
    pub fn route(&self, channel_id: usize) -> (r: Option<usize>)
        ensures
            r == self.router_spec().route_spec(channel_id),
    {
        self.router.route(channel_id)
    }

    /// Every destination some source is routed to, without repetition.
    pub fn required_ports(&self) -> (r: Vec<usize>)
        ensures
            forall|p: usize| #[trigger] r@.contains(p) <==> self.router_spec().routes_to(p),
            forall|i: int, j: int| 0 <= i < j < r@.len() ==> r@[i] != r@[j],
    {
        self.router.required_ports()
    }
}

/// Where one lifecycle change of one record must go.
#[derive(Clone, Copy, Debug, PartialEq, Eq)]
pub enum RouteOutcome {
    /// The note is a rest: no bytes are ever sent for it.
    Rest,
    /// No destination is configured for the record's source: the event is
    /// dropped and reported; playback continues.
    NoPort,
    /// A three-byte event `[status, pitch, velocity]` for destination
    /// `port_id`.
    Emit {
        /// The destination port to send to.
        port_id: usize,
        /// The start or stop status byte.
        status: u8,
        /// The wire pitch byte.
        pitch: u8,
        /// The intensity byte.
        velocity: u8,
    },
}

/// What routing one record with the given status byte produces: nothing for
/// a rest, a reported configuration error for an unrouted source, and
/// otherwise the bit-exact three-byte event for the configured port.
pub open spec fn route_note_spec(
    config: PlayerConfig,
    playing: PlayingNote,
    midi_status: u8,
) -> RouteOutcome {
    match playing.note.pitch {
        None => RouteOutcome::Rest,
        Some(p) => match config.router_spec().route_spec(playing.channel_id) {
            None => RouteOutcome::NoPort,
            Some(port_id) => RouteOutcome::Emit {
                port_id,
                status: midi_status,
                pitch: p,
                velocity: playing.note.velocity,
            },
        },
    }
}

/// Translate one record plus an event kind into its routing outcome. Sending
/// the bytes of an `Emit` outcome — and failing fatally when the port cannot
/// be reached — is the caller's side of the contract.
pub fn route_note(config: &PlayerConfig, playing: &PlayingNote, midi_status: u8) -> (r:
    RouteOutcome)
    ensures
        r == route_note_spec(*config, *playing, midi_status),
{
    match playing.note.u8_maybe() {
        None => RouteOutcome::Rest,
        Some(p) => match config.route(playing.channel_id) {
            None => RouteOutcome::NoPort,
            Some(port_id) => RouteOutcome::Emit {
                port_id,
                status: midi_status,
                pitch: p,
                velocity: playing.note.velocity,
            },
        },
    }
}

/// Drop the table keys from a sequence of rows.
fn strip_keys(entries: Vec<TableEntry>) -> (notes: Vec<PlayingNote>)
    ensures
        notes@ == entries@.map_values(|e: TableEntry| e.1),
{
    let mut notes: Vec<PlayingNote> = Vec::new();
    let n = entries.len();
    let mut i: usize = 0;
    while i < n
        invariant
            i <= n,
            n == entries@.len(),
            notes@ == entries@.take(i as int).map_values(|e: TableEntry| e.1),
        decreases n - i,
    {
        notes.push(entries[i].1);
        proof {
            assert(notes@ =~= entries@.take(i + 1).map_values(|e: TableEntry| e.1));
        }
        i = i + 1;
    }
    proof {
        assert(entries@.take(n as int) =~= entries@);
    }
    notes
}

/// Appending one row changes an identifier's count by one exactly when the
/// row carries that identifier.
pub proof fn lemma_count_id_push(s: Seq<TableEntry>, e: TableEntry, id: u64)
    ensures
        count_id(s.push(e), id) == count_id(s, id) + if e.0 == id {
            1nat
        } else {
            0nat
        },
{
    assert(s.push(e).drop_last() =~= s);
    assert(s.push(e).last() == e);
}

/// Extending a taken prefix by one row counts that row.
pub proof fn lemma_count_id_take_step(s: Seq<TableEntry>, j: int, id: u64)
    requires
        0 <= j < s.len(),
    ensures
        count_id(s.take(j + 1), id) == count_id(s.take(j), id) + if s[j].0 == id {
            1nat
        } else {
            0nat
        },
{
    assert(s.take(j + 1).drop_last() =~= s.take(j));
    assert(s.take(j + 1).last() == s[j]);
    lemma_count_id_push(s.take(j), s[j], id);
    assert(s.take(j).push(s[j]) =~= s.take(j + 1));
}

/// Identifier counts add over concatenation.
pub proof fn lemma_count_id_append(a: Seq<TableEntry>, b: Seq<TableEntry>, id: u64)
    ensures
        count_id(a + b, id) == count_id(a, id) + count_id(b, id),
    decreases b.len(),
{
    if b.len() == 0 {
        assert(a + b =~= a);
    } else {
        lemma_count_id_append(a, b.drop_last(), id);
        assert((a + b).drop_last() =~= a + b.drop_last());
        assert((a + b).last() == b.last());
    }
}

/// A table holding no row with an identifier counts it zero times.
pub proof fn lemma_count_id_none(s: Seq<TableEntry>, id: u64)
    requires
        forall|k: int| 0 <= k < s.len() ==> (#[trigger] s[k]).0 != id,
    ensures
        count_id(s, id) == 0,
    decreases s.len(),
{
    if s.len() > 0 {
        assert forall|k: int| 0 <= k < s.drop_last().len() implies (#[trigger] s.drop_last()[k]).0
            != id by {
            assert(s.drop_last()[k] == s[k]);
        }
        lemma_count_id_none(s.drop_last(), id);
        assert(s.last() == s[s.len() - 1]);
    }
}

/// Splitting a table into the rows that elapse at `tick` and the rows that
/// do not preserves every identifier's count.
pub proof fn lemma_count_id_split(table: Seq<TableEntry>, tick: u64, id: u64)
    ensures
        count_id(table, id) == count_id(table.filter(elapse_pred(tick)), id) + count_id(
            table.filter(keep_pred(tick)),
            id,
        ),
    decreases table.len(),
{
    reveal(Seq::filter);
    if table.len() > 0 {
        lemma_count_id_split(table.drop_last(), tick, id);
        if elapse_pred(tick)(table.last()) {
            lemma_count_id_push(table.drop_last().filter(elapse_pred(tick)), table.last(), id);
        } else {
            lemma_count_id_push(table.drop_last().filter(keep_pred(tick)), table.last(), id);
        }
    }
}

/// The rows a batch admission creates carry identifiers strictly between
/// `base` and `base + batch.len()`, in strictly increasing order, and are all
/// started at `tick` on the admitting channel with a positive duration.
pub proof fn lemma_admitted_records_facts(base: u64, tick: u64, channel_id: usize, batch: Seq<Midi>)
    requires
        base + batch.len() <= u64::MAX,
    ensures
        ({
            let adm = admitted_records(base, tick, channel_id, batch);
            &&& adm.len() <= batch.len()
            &&& forall|k: int|
                0 <= k < adm.len() ==> base < (#[trigger] adm[k]).0 <= base + batch.len()
            &&& forall|k: int, l: int| 0 <= k < l < adm.len() ==> adm[k].0 < adm[l].0
            &&& forall|k: int|
                0 <= k < adm.len() ==> {
                    let e = #[trigger] adm[k];
                    &&& e.1.channel_id == channel_id
                    &&& e.1.start_tick_id == tick
                    &&& e.1.note.duration >= 1
                }
        }),
    decreases batch.len(),
{
    if batch.len() > 0 {
        lemma_admitted_records_facts(base, tick, channel_id, batch.drop_last());
    }
}

/// Filtering a table keeps only rows of the original, in their original
/// relative order; in particular every surviving row occurs in the original
/// and strict ordering of the keys is preserved.
pub proof fn lemma_filter_table_facts(s: Seq<TableEntry>, pred: spec_fn(TableEntry) -> bool)
    ensures
        ({
            let f = s.filter(pred);
            &&& forall|k: int| 0 <= k < f.len() ==> s.contains(#[trigger] f[k])
            &&& (forall|i: int, j: int| 0 <= i < j < s.len() ==> s[i].0 < s[j].0) ==> (forall|
                i: int,
                j: int,
            | 0 <= i < j < f.len() ==> f[i].0 < f[j].0)
        }),
    decreases s.len(),
{
    reveal(Seq::filter);
    if s.len() > 0 {
        lemma_filter_table_facts(s.drop_last(), pred);
        let f = s.filter(pred);
        let fd = s.drop_last().filter(pred);
        assert forall|k: int| 0 <= k < f.len() implies s.contains(#[trigger] f[k]) by {
            if k < fd.len() {
                assert(fd[k] == f[k]);
                let j = choose|j: int| 0 <= j < s.drop_last().len() && s.drop_last()[j] == fd[k];
                assert(s[j] == fd[k]);
            } else {
                assert(f[k] == s.last());
                assert(s[s.len() - 1] == s.last());
            }
        }
        if forall|i: int, j: int| 0 <= i < j < s.len() ==> s[i].0 < s[j].0 {
            assert forall|i: int, j: int|
                0 <= i < j < s.drop_last().len() implies s.drop_last()[i].0 < s.drop_last()[j].0 by {
                assert(s.drop_last()[i] == s[i]);
                assert(s.drop_last()[j] == s[j]);
            }
            assert forall|i: int, j: int| 0 <= i < j < f.len() implies f[i].0 < f[j].0 by {
                if j < fd.len() {
                    assert(f[i] == fd[i] && f[j] == fd[j]);
                } else {
                    assert(f[j] == s.last());
                    assert(f[i] == fd[i]);
                    let w = choose|w: int|
                        0 <= w < s.drop_last().len() && s.drop_last()[w] == fd[i];
                    assert(s[w] == fd[i]);
                    assert(s[w].0 < s[s.len() - 1].0);
                }
            }
        }
    }
}

} // verus!
