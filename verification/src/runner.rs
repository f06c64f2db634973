//! The run loop, driven for a bounded number of ticks.
//!
//! [`run`] composes the scheduler's pieces exactly as live playback does —
//! advance the clock, stop what has elapsed, poll the eligible sources,
//! start what they produced — and drains the table when the ticks are spent,
//! returning the full routed event log. Its contract carries the lifecycle
//! laws: every admitted note is stopped exactly once, at its elapse tick or
//! at the drain, and every logged event is the faithful routing of its
//! record.

use vstd::prelude::*;

use crate::midi::{Midi, NOTE_OFF_MSG, NOTE_ON_MSG};
use crate::player::{
    count_id, elapse_pred, keep_pred, lemma_count_id_append, lemma_count_id_none,
    lemma_count_id_split, lemma_count_id_take_step, lemma_filter_table_facts, Midibox,
    Player, PlayerConfig, PlayingNote, RouteOutcome, TableEntry, route_note, route_note_spec,
};

verus! {

broadcast use vstd::seq_lib::group_filter_ensures;

/// One routed lifecycle event, as the run loop logged it.
pub struct LogEntry {
    /// The tick at which the event was routed.
    pub tick: u64,
    /// `NOTE_ON_MSG` for a start event, `NOTE_OFF_MSG` for a stop event.
    pub status: u8,
    /// The unique identifier of the note the event belongs to.
    pub note_id: u64,
    /// The record the event was routed for.
    pub record: PlayingNote,
    /// Where the event went: nowhere for a rest, reported for an unrouted
    /// source, or a three-byte event for a port.
    pub outcome: RouteOutcome,
}

/// How many events of the log carry the given status byte and note
/// identifier.
pub open spec fn count_log(log: Seq<LogEntry>, status: u8, id: u64) -> nat
    decreases log.len(),
{
    if log.len() == 0 {
        0
    } else {
        count_log(log.drop_last(), status, id) + if log.last().status == status
            && log.last().note_id == id {
            1nat
        } else {
            0nat
        }
    }
}

/// Appending one event changes a count by one exactly when status and
/// identifier both match.
pub proof fn lemma_count_log_push(log: Seq<LogEntry>, e: LogEntry, status: u8, id: u64)
    ensures
        count_log(log.push(e), status, id) == count_log(log, status, id) + if e.status == status
            && e.note_id == id {
            1nat
        } else {
            0nat
        },
{
    assert(log.push(e).drop_last() =~= log);
    assert(log.push(e).last() == e);
}

/// What every entry of a finished run's log satisfies: it is a start or a
/// stop, routed exactly as the routing table dictates, for a note that was
/// really admitted (positive duration); a start is logged at the admission
/// tick, and a stop at the elapse tick, or at the final tick when the run
/// ended first.
pub open spec fn log_entry_ok(e: LogEntry, config: PlayerConfig, ticks: u64) -> bool {
    &&& e.status == NOTE_ON_MSG || e.status == NOTE_OFF_MSG
    &&& e.outcome == route_note_spec(config, e.record, e.status)
    &&& e.record.note.duration >= 1
    &&& (e.status == NOTE_ON_MSG ==> e.tick == e.record.start_tick_id && 1 <= e.tick <= ticks)
    &&& (e.status == NOTE_OFF_MSG ==> (if e.record.start_tick_id + e.record.note.duration
        <= ticks {
        e.tick == e.record.start_tick_id + e.record.note.duration
    } else {
        e.tick == ticks
    }))
}

/// Drive a fresh scheduler for exactly `ticks` ticks against the given
/// sources and routing configuration, then drain, and return the full log of
/// routed events in order.
///
/// The contract states the lifecycle laws of the scheduler: every logged
/// event is well formed for this configuration ([`log_entry_ok`]); no note is
/// started twice; and every started note is stopped exactly once — counting
/// stop events per identifier gives exactly the count of start events.
pub fn run<M: Midibox>(channels: &mut Vec<M>, config: &PlayerConfig, ticks: u64) -> (log: Vec<
    LogEntry,
>)
    ensures
        forall|k: int| 0 <= k < log@.len() ==> log_entry_ok(#[trigger] log@[k], *config, ticks),
        forall|k1: int, k2: int|
            0 <= k1 < k2 < log@.len() ==> (#[trigger] log@[k1]).tick <= (#[trigger] log@[k2]).tick,
        forall|id: u64| #[trigger] count_log(log@, NOTE_ON_MSG, id) <= 1,
        forall|id: u64| #[trigger]
            count_log(log@, NOTE_OFF_MSG, id) == count_log(log@, NOTE_ON_MSG, id),
{
    let mut player = Player::new();
    let mut log: Vec<LogEntry> = Vec::new();
    let mut t: u64 = 0;
    while t < ticks
        invariant
            player.wf(),
            player@.tick == t,
            t <= ticks,
            forall|k: int|
                0 <= k < log@.len() ==> log_entry_ok(#[trigger] log@[k], *config, ticks),
            forall|k: int|
                0 <= k < log@.len() ==> (#[trigger] log@[k]).tick <= t,
            forall|k1: int, k2: int|
                0 <= k1 < k2 < log@.len() ==> (#[trigger] log@[k1]).tick <= (
                #[trigger] log@[k2]).tick,
            forall|i: int|
                0 <= i < player@.table.len() ==> (#[trigger] player@.table[i]).1.start_tick_id
                    + player@.table[i].1.note.duration > t,
            forall|id: u64| #[trigger]
                count_log(log@, NOTE_ON_MSG, id) == count_log(log@, NOTE_OFF_MSG, id) + count_id(
                    player@.table,
                    id,
                ),
            forall|id: u64| #[trigger] count_log(log@, NOTE_ON_MSG, id) <= 1,
            forall|id: u64|
                id > player@.next_note ==> #[trigger] count_log(log@, NOTE_ON_MSG, id) == 0,
        decreases ticks - t,
    {
        let ghost pre_table = player@.table;
        t = player.advance_tick();
        let stopped = player.clear_elapsed_entries();
        proof {
            lemma_filter_table_facts(pre_table, elapse_pred(t));
            lemma_filter_table_facts(pre_table, keep_pred(t));
            assert forall|i: int|
                0 <= i < pre_table.len() implies ((#[trigger] pre_table[i]).1.note.duration >= 1
                && pre_table[i].1.start_tick_id + pre_table[i].1.note.duration > t - 1) by {
                let e = pre_table[i];
            }
            assert forall|i: int|
                0 <= i < player@.table.len() implies ((#[trigger] player@.table[i]).1.start_tick_id
                + player@.table[i].1.note.duration > t - 1) by {
                assert(player@.table == pre_table.filter(keep_pred(t)));
                assert(pre_table.contains(player@.table[i]));
                let w = choose|w: int| 0 <= w < pre_table.len() && pre_table[w] == player@.table[i];
                assert(pre_table[w].1.note.duration >= 1);
            }
            assert forall|id: u64| #[trigger]
                count_log(log@, NOTE_ON_MSG, id) == count_log(log@, NOTE_OFF_MSG, id) + count_id(
                    player@.table,
                    id,
                ) + count_id(stopped@, id) by {
                lemma_count_id_split(pre_table, t, id);
            }
        }
        let ghost log_a = log@;
        let n_s = stopped.len();
        let mut j: usize = 0;
        while j < n_s
            invariant
                j <= n_s,
                n_s == stopped@.len(),
                player.wf(),
                player@.tick == t,
                t <= ticks,
                1 <= t,
                stopped@ == pre_table.filter(elapse_pred(t)),
                forall|i: int|
                    0 <= i < pre_table.len() ==> (#[trigger] pre_table[i]).1.note.duration >= 1,
                forall|i: int|
                    0 <= i < player@.table.len() ==> (#[trigger] player@.table[i]).1.start_tick_id
                        + player@.table[i].1.note.duration > t - 1,
                forall|k: int|
                    0 <= k < log@.len() ==> log_entry_ok(#[trigger] log@[k], *config, ticks),
                forall|k: int| 0 <= k < log@.len() ==> (#[trigger] log@[k]).tick <= t,
                forall|k1: int, k2: int|
                    0 <= k1 < k2 < log@.len() ==> (#[trigger] log@[k1]).tick <= (
                    #[trigger] log@[k2]).tick,
                forall|id: u64| #[trigger]
                    count_log(log@, NOTE_ON_MSG, id) == count_log(log_a, NOTE_ON_MSG, id),
                forall|id: u64| #[trigger]
                    count_log(log@, NOTE_OFF_MSG, id) == count_log(log_a, NOTE_OFF_MSG, id)
                        + count_id(stopped@.take(j as int), id),
                forall|id: u64| #[trigger]
                    count_log(log_a, NOTE_ON_MSG, id) == count_log(log_a, NOTE_OFF_MSG, id)
                        + count_id(player@.table, id) + count_id(stopped@, id),
                forall|id: u64| #[trigger] count_log(log_a, NOTE_ON_MSG, id) <= 1,
                forall|id: u64|
                    id > player@.next_note ==> #[trigger] count_log(log_a, NOTE_ON_MSG, id) == 0,
            decreases n_s - j,
        {
            let e = stopped[j];
            proof {
                lemma_filter_table_facts(pre_table, elapse_pred(t));
                assert(stopped@[j as int] == e);
                assert(pre_table.filter(elapse_pred(t))[j as int] == e);
                assert(elapse_pred(t)(e));
                assert(pre_table.contains(e));
                let w = choose|w: int| 0 <= w < pre_table.len() && pre_table[w] == e;
                assert(pre_table[w].1.note.duration >= 1);
            }
            let oc = route_note(config, &e.1, NOTE_OFF_MSG);
            let entry = LogEntry {
                tick: t,
                status: NOTE_OFF_MSG,
                note_id: e.0,
                record: e.1,
                outcome: oc,
            };
            let ghost log_b = log@;
            log.push(entry);
            proof {
                assert(log@ =~= log_b.push(entry));
                assert forall|id: u64| #[trigger]
                    count_log(log@, NOTE_ON_MSG, id) == count_log(log_a, NOTE_ON_MSG, id) by {
                    lemma_count_log_push(log_b, entry, NOTE_ON_MSG, id);
                }
                assert forall|id: u64| #[trigger]
                    count_log(log@, NOTE_OFF_MSG, id) == count_log(log_a, NOTE_OFF_MSG, id)
                        + count_id(stopped@.take(j + 1), id) by {
                    lemma_count_log_push(log_b, entry, NOTE_OFF_MSG, id);
                    lemma_count_id_take_step(stopped@, j as int, id);
                }
            }
            j = j + 1;
        }
        proof {
            assert(stopped@.take(n_s as int) =~= stopped@);
        }
        let ghost pre_poll_table = player@.table;
        let ghost pre_poll_next = player@.next_note;
        let ghost log_c = log@;
        let started = player.poll_channels_entries(channels);
        proof {
            assert forall|a: int, b: int|
                0 <= a < b < started@.len() implies started@[a].0 < started@[b].0 by {
                let base = pre_poll_table.len() as int;
                assert(player@.table[base + a] == started@[a]);
                assert(player@.table[base + b] == started@[b]);
            }
        }
        let n_p = started.len();
        let mut j2: usize = 0;
        while j2 < n_p
            invariant
                j2 <= n_p,
                n_p == started@.len(),
                player.wf(),
                player@.tick == t,
                t <= ticks,
                1 <= t,
                player@.table == pre_poll_table + started@,
                player@.next_note >= pre_poll_next,
                forall|k: int|
                    0 <= k < started@.len() ==> {
                        let e = #[trigger] started@[k];
                        &&& e.1.start_tick_id == t
                        &&& e.1.note.duration >= 1
                        &&& e.0 > pre_poll_next
                    },
                forall|a: int, b: int|
                    0 <= a < b < started@.len() ==> started@[a].0 < started@[b].0,
                forall|i: int|
                    0 <= i < player@.table.len() ==> (#[trigger] player@.table[i]).0
                        <= player@.next_note,
                forall|k: int|
                    0 <= k < log@.len() ==> log_entry_ok(#[trigger] log@[k], *config, ticks),
                forall|k: int| 0 <= k < log@.len() ==> (#[trigger] log@[k]).tick <= t,
                forall|k1: int, k2: int|
                    0 <= k1 < k2 < log@.len() ==> (#[trigger] log@[k1]).tick <= (
                    #[trigger] log@[k2]).tick,
                forall|id: u64| #[trigger]
                    count_log(log@, NOTE_ON_MSG, id) == count_log(log_c, NOTE_ON_MSG, id)
                        + count_id(started@.take(j2 as int), id),
                forall|id: u64| #[trigger]
                    count_log(log@, NOTE_OFF_MSG, id) == count_log(log_c, NOTE_OFF_MSG, id),
                forall|id: u64| #[trigger]
                    count_log(log_c, NOTE_ON_MSG, id) == count_log(log_c, NOTE_OFF_MSG, id)
                        + count_id(pre_poll_table, id),
                forall|id: u64| #[trigger] count_log(log_c, NOTE_ON_MSG, id) <= 1,
                forall|id: u64|
                    id > pre_poll_next ==> #[trigger] count_log(log_c, NOTE_ON_MSG, id) == 0,
            decreases n_p - j2,
        {
            let e = started[j2];
            let oc = route_note(config, &e.1, NOTE_ON_MSG);
            let entry = LogEntry {
                tick: t,
                status: NOTE_ON_MSG,
                note_id: e.0,
                record: e.1,
                outcome: oc,
            };
            let ghost log_b = log@;
            log.push(entry);
            proof {
                assert(log@ =~= log_b.push(entry));
                assert(started@[j2 as int] == e);
                assert forall|id: u64| #[trigger]
                    count_log(log@, NOTE_ON_MSG, id) == count_log(log_c, NOTE_ON_MSG, id)
                        + count_id(started@.take(j2 + 1), id) by {
                    lemma_count_log_push(log_b, entry, NOTE_ON_MSG, id);
                    lemma_count_id_take_step(started@, j2 as int, id);
                }
                assert forall|id: u64| #[trigger]
                    count_log(log@, NOTE_OFF_MSG, id) == count_log(log_c, NOTE_OFF_MSG, id) by {
                    lemma_count_log_push(log_b, entry, NOTE_OFF_MSG, id);
                }
            }
            j2 = j2 + 1;
        }
        proof {
            assert(started@.take(n_p as int) =~= started@);
            assert forall|id: u64| #[trigger]
                count_log(log@, NOTE_ON_MSG, id) == count_log(log@, NOTE_OFF_MSG, id) + count_id(
                    player@.table,
                    id,
                ) by {
                lemma_count_id_append(pre_poll_table, started@, id);
            }
            assert forall|id: u64| #[trigger] count_log(log@, NOTE_ON_MSG, id) <= 1 by {
                if count_id(started@, id) >= 1 {
                    assert(count_log(log_c, NOTE_ON_MSG, id) == 0) by {
                        if id <= pre_poll_next {
                            lemma_count_id_none_helper(started@, id, pre_poll_next);
                        }
                    }
                }
                lemma_count_id_sorted_le_one(started@, id);
            }
            assert forall|id: u64|
                id > player@.next_note implies #[trigger] count_log(log@, NOTE_ON_MSG, id)
                == 0 by {
                assert forall|k: int|
                    0 <= k < started@.len() implies (#[trigger] started@[k]).0
                        <= player@.next_note by {
                    assert(player@.table[pre_poll_table.len() + k] == started@[k]);
                }
                lemma_count_id_none_above(started@, id, player@.next_note);
            }
        }
    }
    let ghost pre_drain = player@.table;
    proof {
        assert forall|i: int|
            0 <= i < pre_drain.len() implies ((#[trigger] pre_drain[i]).1.note.duration >= 1
            && pre_drain[i].1.start_tick_id + pre_drain[i].1.note.duration > ticks) by {
            let e = pre_drain[i];
        }
    }
    let drained = player.clear_all_entries();
    let ghost log_d = log@;
    let n_d = drained.len();
    let mut j3: usize = 0;
    while j3 < n_d
        invariant
            j3 <= n_d,
            n_d == drained@.len(),
            t == ticks,
            drained@ == pre_drain,
            forall|i: int|
                0 <= i < pre_drain.len() ==> {
                    let e = #[trigger] pre_drain[i];
                    &&& e.1.note.duration >= 1
                    &&& e.1.start_tick_id + e.1.note.duration > ticks
                },
            forall|k: int|
                0 <= k < log@.len() ==> log_entry_ok(#[trigger] log@[k], *config, ticks),
            forall|k: int| 0 <= k < log@.len() ==> (#[trigger] log@[k]).tick <= ticks,
            forall|k1: int, k2: int|
                0 <= k1 < k2 < log@.len() ==> (#[trigger] log@[k1]).tick <= (
                #[trigger] log@[k2]).tick,
            forall|id: u64| #[trigger]
                count_log(log@, NOTE_ON_MSG, id) == count_log(log_d, NOTE_ON_MSG, id),
            forall|id: u64| #[trigger]
                count_log(log@, NOTE_OFF_MSG, id) == count_log(log_d, NOTE_OFF_MSG, id)
                    + count_id(drained@.take(j3 as int), id),
            forall|id: u64| #[trigger]
                count_log(log_d, NOTE_ON_MSG, id) == count_log(log_d, NOTE_OFF_MSG, id)
                    + count_id(pre_drain, id),
            forall|id: u64| #[trigger] count_log(log_d, NOTE_ON_MSG, id) <= 1,
        decreases n_d - j3,
    {
        let e = drained[j3];
        proof {
            assert(drained@[j3 as int] == e);
        }
        let oc = route_note(config, &e.1, NOTE_OFF_MSG);
        let entry = LogEntry {
            tick: t,
            status: NOTE_OFF_MSG,
            note_id: e.0,
            record: e.1,
            outcome: oc,
        };
        let ghost log_b = log@;
        log.push(entry);
        proof {
            assert(log@ =~= log_b.push(entry));
            assert forall|id: u64| #[trigger]
                count_log(log@, NOTE_ON_MSG, id) == count_log(log_d, NOTE_ON_MSG, id) by {
                lemma_count_log_push(log_b, entry, NOTE_ON_MSG, id);
            }
            assert forall|id: u64| #[trigger]
                count_log(log@, NOTE_OFF_MSG, id) == count_log(log_d, NOTE_OFF_MSG, id)
                    + count_id(drained@.take(j3 + 1), id) by {
                lemma_count_log_push(log_b, entry, NOTE_OFF_MSG, id);
                lemma_count_id_take_step(drained@, j3 as int, id);
            }
        }
        j3 = j3 + 1;
    }
    proof {
        assert(drained@.take(n_d as int) =~= drained@);
    }
    log
}

/// A table whose identifiers all exceed `bound` counts any identifier at or
/// below `bound` zero times.
proof fn lemma_count_id_none_helper(s: Seq<TableEntry>, id: u64, bound: u64)
    requires
        forall|k: int| 0 <= k < s.len() ==> (#[trigger] s[k]).0 > bound,
        id <= bound,
    ensures
        count_id(s, id) == 0,
{
    assert forall|k: int| 0 <= k < s.len() implies (#[trigger] s[k]).0 != id by {
        assert(s[k].0 > bound);
    }
    lemma_count_id_none(s, id);
}

/// A table whose identifiers are all at most `bound` counts any identifier
/// above `bound` zero times.
proof fn lemma_count_id_none_above(s: Seq<TableEntry>, id: u64, bound: u64)
    requires
        forall|k: int| 0 <= k < s.len() ==> (#[trigger] s[k]).0 <= bound,
        id > bound,
    ensures
        count_id(s, id) == 0,
{
    assert forall|k: int| 0 <= k < s.len() implies (#[trigger] s[k]).0 != id by {
        assert(s[k].0 <= bound);
    }
    lemma_count_id_none(s, id);
}

/// A table with strictly increasing identifiers counts each at most once.
proof fn lemma_count_id_sorted_le_one(s: Seq<TableEntry>, id: u64)
    requires
        forall|a: int, b: int| 0 <= a < b < s.len() ==> (#[trigger] s[a]).0 < (#[trigger] s[b]).0,
    ensures
        count_id(s, id) <= 1,
    decreases s.len(),
{
    if s.len() > 0 {
        assert forall|a: int, b: int|
            0 <= a < b < s.drop_last().len() implies (#[trigger] s.drop_last()[a]).0 < (
        #[trigger] s.drop_last()[b]).0 by {
            assert(s.drop_last()[a] == s[a]);
            assert(s.drop_last()[b] == s[b]);
        }
        lemma_count_id_sorted_le_one(s.drop_last(), id);
        if s.last().0 == id {
            assert forall|k: int|
                0 <= k < s.drop_last().len() implies (#[trigger] s.drop_last()[k]).0 != id by {
                assert(s.drop_last()[k] == s[k]);
                assert(s[k].0 < s[s.len() - 1].0);
                assert(s.last() == s[s.len() - 1]);
            }
            lemma_count_id_none(s.drop_last(), id);
        }
    }
}

/// A source that plays back a fixed script: each poll consumes the next
/// scripted answer, and the script's end reads as exhaustion. Because the
/// scheduler only polls a source that has nothing sounding, a scripted
/// source never advances past a batch whose notes still sound.
pub struct ScriptSource {
    /// The scripted answers, consumed front to back.
    batches: Vec<Option<Vec<Midi>>>,
    /// How many answers have been consumed.
    pos: usize,
}

impl ScriptSource {
    /// A source that answers with the given batches, in order, then reports
    /// exhaustion forever.
    pub fn new(batches: Vec<Option<Vec<Midi>>>) -> (s: ScriptSource) {
        ScriptSource { batches, pos: 0 }
    }
}

impl Midibox for ScriptSource {
    fn next(&mut self) -> Option<Vec<Midi>> {
        if self.pos < self.batches.len() {
            let r = copy_batch(&self.batches[self.pos]);
            self.pos = self.pos + 1;
            r
        } else {
            None
        }
    }
}

/// An owned copy of one scripted answer.
fn copy_batch(b: &Option<Vec<Midi>>) -> (r: Option<Vec<Midi>>)
    ensures
        match b {
            Some(v) => r matches Some(w) && w@ == v@,
            None => r is None,
        },
{
    match b {
        None => None,
        Some(v) => {
            let n = v.len();
            let mut out: Vec<Midi> = Vec::new();
            let mut i: usize = 0;
            while i < n
                invariant
                    i <= n,
                    n == v@.len(),
                    out@ == v@.take(i as int),
                decreases n - i,
            {
                out.push(v[i]);
                proof {
                    assert(out@ =~= v@.take(i + 1));
                }
                i = i + 1;
            }
            proof {
                assert(v@.take(n as int) =~= v@);
            }
            Some(out)
        },
    }
}

} // verus!
