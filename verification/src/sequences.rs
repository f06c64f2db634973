//! A looping sequence of statically defined notes, with the combinators that
//! shape it: stretching, masking, transposing, harmonizing and splitting.

use vstd::prelude::*;

use crate::midi::{transposed_down, transposed_up, Interval, Midi, Scale};
use crate::player::Midibox;

verus! {

/// The mathematical state of a [`FixedSequence`]: its notes and the play
/// head's position.
pub struct FixedSequenceView {
    /// The notes the sequence cycles through.
    pub notes: Seq<Midi>,
    /// The index of the play head into the notes.
    pub head: nat,
}

/// A looping sequence of statically defined notes.
#[derive(Clone, Debug)]
pub struct FixedSequence {
    /// The notes that can be produced by the sequence.
    notes: Vec<Midi>,
    /// The index of the play head into notes.
    head_position: usize,
}

impl View for FixedSequence {
    type V = FixedSequenceView;

    closed spec fn view(&self) -> FixedSequenceView {
        FixedSequenceView { notes: self.notes@, head: self.head_position as nat }
    }
}

/// A note turned into a rest of the same length and intensity.
pub open spec fn muted(m: Midi) -> Midi {
    Midi { pitch: None, ..m }
}

/// The map a duration change applies to each note.
pub open spec fn with_duration(duration: u32) -> spec_fn(Midi) -> Midi {
    |m: Midi| Midi { duration, ..m }
}

/// The map a velocity change applies to each note.
pub open spec fn with_velocity(velocity: u8) -> spec_fn(Midi) -> Midi {
    |m: Midi| Midi { velocity, ..m }
}

/// The map a duration scaling applies to each note.
pub open spec fn scaled_by(factor: u32) -> spec_fn(Midi) -> Midi {
    |m: Midi| Midi { duration: (m.duration * factor) as u32, ..m }
}

/// The map an upward transposition applies to each note.
pub open spec fn up_by(semitones: u8) -> spec_fn(Midi) -> Midi {
    |m: Midi| transposed_up(m, semitones)
}

/// The map a downward transposition applies to each note.
pub open spec fn down_by(semitones: u8) -> spec_fn(Midi) -> Midi {
    |m: Midi| transposed_down(m, semitones)
}

/// The map an upward harmonization applies to each note: rests stay, a note
/// the scale cannot harmonize is muted.
pub open spec fn harmonized_up(scale: Scale, degree: usize) -> spec_fn(Midi) -> Midi {
    |m: Midi|
        match scale.harmonize_up_spec(m, degree) {
            Some(h) => h,
            None => muted(m),
        }
}

/// The map a downward harmonization applies to each note: rests stay, a note
/// the scale cannot harmonize is muted.
pub open spec fn harmonized_down(scale: Scale, degree: usize) -> spec_fn(Midi) -> Midi {
    |m: Midi|
        match scale.harmonize_down_spec(m, degree) {
            Some(h) => h,
            None => muted(m),
        }
}

/// The total duration of a run of notes, in ticks.
pub open spec fn ticks_total(s: Seq<Midi>) -> int
    decreases s.len(),
{
    if s.len() == 0 {
        0
    } else {
        ticks_total(s.drop_last()) + s.last().duration
    }
}

/// A run of notes repeated a number of times.
pub open spec fn seq_repeat(s: Seq<Midi>, times: nat) -> Seq<Midi>
    decreases times,
{
    if times == 0 {
        Seq::empty()
    } else {
        seq_repeat(s, (times - 1) as nat) + s
    }
}

/// One note split into a run of one-tick notes adding up to its duration.
pub open spec fn ticks_of(m: Midi) -> Seq<Midi> {
    Seq::new(m.duration as nat, |i: int| Midi { duration: 1, ..m })
}

/// A run of notes with each note split into its one-tick run.
pub open spec fn split_spec(s: Seq<Midi>) -> Seq<Midi>
    decreases s.len(),
{
    if s.len() == 0 {
        Seq::empty()
    } else {
        split_spec(s.drop_last()) + ticks_of(s.last())
    }
}

/// What masking leaves of a run of notes: with an empty mask nothing, and
/// otherwise each note whose mask bit (cycled over the run) is set, the
/// others muted.
pub open spec fn masked(s: Seq<Midi>, mask: Seq<bool>) -> Seq<Midi> {
    if mask.len() == 0 {
        Seq::empty()
    } else {
        Seq::new(s.len(), |i: int| if mask[i % (mask.len() as int)] {
            s[i]
        } else {
            muted(s[i])
        })
    }
}

/// Partial runs never outgrow the whole run's tick total, and no tick total
/// is negative.
proof fn lemma_ticks_total_take(s: Seq<Midi>, i: int)
    requires
        0 <= i <= s.len(),
    ensures
        0 <= ticks_total(s.take(i)) <= ticks_total(s),
    decreases s.len(),
{
    if s.len() == 0 {
        assert(s.take(i) =~= s);
    } else if i == s.len() {
        assert(s.take(i) =~= s);
        lemma_ticks_total_take(s.drop_last(), s.len() - 1);
        assert(s.drop_last().take(s.len() - 1) =~= s.drop_last());
    } else {
        assert(s.take(i) =~= s.drop_last().take(i));
        lemma_ticks_total_take(s.drop_last(), i);
    }
}

impl FixedSequence {
    /// A sequence over the given notes, with the play head at the start.
    pub fn new(notes: Vec<Midi>) -> (s: FixedSequence)
        ensures
            s@.notes == notes@,
            s@.head == 0,
    {
        FixedSequence { notes, head_position: 0 }
    }

    /// A sequence with no notes.
    pub fn empty() -> (s: FixedSequence)
        ensures
            s@.notes == Seq::<Midi>::empty(),
            s@.head == 0,
    {
        FixedSequence { notes: Vec::new(), head_position: 0 }
    }

    /// A playable copy of this sequence, to hand to a player as one of its
    /// sources.
    pub fn midibox(&self) -> (s: FixedSequence)
        ensures
            s@ == self@,
    {
        let mut notes: Vec<Midi> = Vec::new();
        let n = self.notes.len();
        let mut i: usize = 0;
        while i < n
            invariant
                i <= n,
                n == self.notes@.len(),
                notes@ == self.notes@.take(i as int),
            decreases n - i,
        {
            notes.push(self.notes[i]);
            proof {
                assert(notes@ =~= self.notes@.take(i + 1));
            }
            i = i + 1;
        }
        proof {
            assert(self.notes@.take(n as int) =~= self.notes@);
        }
        FixedSequence { notes, head_position: self.head_position }
    }

    /// How many notes the sequence holds.
    pub fn len(&self) -> (n: usize)
        ensures
            n == self@.notes.len(),
    {
        self.notes.len()
    }

    /// The total duration of one pass over the notes, in ticks.
    pub fn len_ticks(&self) -> (t: u32)
        requires
            ticks_total(self@.notes) <= u32::MAX,
        ensures
            t == ticks_total(self@.notes),
    {
        let n = self.notes.len();
        let mut total: u32 = 0;
        let mut i: usize = 0;
        while i < n
            invariant
                i <= n,
                n == self.notes@.len(),
                ticks_total(self@.notes) <= u32::MAX,
                total == ticks_total(self.notes@.take(i as int)),
            decreases n - i,
        {
            proof {
                assert(self.notes@.take(i + 1).drop_last() =~= self.notes@.take(i as int));
                assert(self.notes@.take(i + 1).last() == self.notes@[i as int]);
                lemma_ticks_total_take(self.notes@, i + 1);
            }
            total = total + self.notes[i].duration;
            i = i + 1;
        }
        proof {
            assert(self.notes@.take(n as int) =~= self.notes@);
        }
        total
    }

    /// Move the play head forward by `ticks` positions, wrapping around the
    /// end of the notes.
    pub fn fast_forward(self, ticks: usize) -> (s: FixedSequence)
        requires
            self@.notes.len() > 0,
            self@.head + ticks <= usize::MAX,
        ensures
            s@.notes == self@.notes,
            s@.head == (self@.head + ticks) % (self@.notes.len() as int),
    {
        let h = (self.head_position + ticks) % self.notes.len();
        FixedSequence { notes: self.notes, head_position: h }
    }

    /// Every note's duration replaced by the given one.
    pub fn duration(self, duration: u32) -> (s: FixedSequence)
        ensures
            s@.head == self@.head,
            s@.notes == self@.notes.map_values(with_duration(duration)),
    {
        let n = self.notes.len();
        let mut out: Vec<Midi> = Vec::new();
        let mut i: usize = 0;
        while i < n
            invariant
                i <= n,
                n == self.notes@.len(),
                out@ == self.notes@.take(i as int).map_values(with_duration(duration)),
            decreases n - i,
        {
            out.push(self.notes[i].set_duration(duration));
            proof {
                assert(out@ =~= self.notes@.take(i + 1).map_values(with_duration(duration)));
            }
            i = i + 1;
        }
        proof {
            assert(self.notes@.take(n as int) =~= self.notes@);
        }
        FixedSequence { notes: out, head_position: self.head_position }
    }

    /// Every note's velocity replaced by the given one.
    pub fn velocity(self, velocity: u8) -> (s: FixedSequence)
        ensures
            s@.head == self@.head,
            s@.notes == self@.notes.map_values(with_velocity(velocity)),
    {
        let n = self.notes.len();
        let mut out: Vec<Midi> = Vec::new();
        let mut i: usize = 0;
        while i < n
            invariant
                i <= n,
                n == self.notes@.len(),
                out@ == self.notes@.take(i as int).map_values(with_velocity(velocity)),
            decreases n - i,
        {
            out.push(self.notes[i].set_velocity(velocity));
            proof {
                assert(out@ =~= self.notes@.take(i + 1).map_values(with_velocity(velocity)));
            }
            i = i + 1;
        }
        proof {
            assert(self.notes@.take(n as int) =~= self.notes@);
        }
        FixedSequence { notes: out, head_position: self.head_position }
    }

    /// Every note's duration multiplied by `factor`.
    pub fn scale_duration(self, factor: u32) -> (s: FixedSequence)
        requires
            forall|i: int|
                0 <= i < self@.notes.len() ==> (#[trigger] self@.notes[i]).duration * factor
                    <= u32::MAX,
        ensures
            s@.head == self@.head,
            s@.notes == self@.notes.map_values(scaled_by(factor)),
    {
        let n = self.notes.len();
        let mut out: Vec<Midi> = Vec::new();
        let mut i: usize = 0;
        while i < n
            invariant
                i <= n,
                n == self.notes@.len(),
                forall|k: int|
                    0 <= k < n ==> (#[trigger] self@.notes[k]).duration * factor <= u32::MAX,
                out@ == self.notes@.take(i as int).map_values(scaled_by(factor)),
            decreases n - i,
        {
            let m = self.notes[i];
            proof {
                assert(m == self@.notes[i as int]);
                assert(self@.notes[i as int].duration * factor <= u32::MAX);
            }
            out.push(m.set_duration(m.duration * factor));
            proof {
                assert(out@ =~= self.notes@.take(i + 1).map_values(scaled_by(factor)));
            }
            i = i + 1;
        }
        proof {
            assert(self.notes@.take(n as int) =~= self.notes@);
        }
        FixedSequence { notes: out, head_position: self.head_position }
    }

    /// This sequence's notes followed by the other's; the play head stays
    /// where it was.
    pub fn extend(self, rhs: &FixedSequence) -> (s: FixedSequence)
        ensures
            s@.head == self@.head,
            s@.notes == self@.notes + rhs@.notes,
    {
        let ghost orig = self.notes@;
        let mut out = self.notes;
        let n = rhs.notes.len();
        let mut i: usize = 0;
        while i < n
            invariant
                i <= n,
                n == rhs.notes@.len(),
                out@ == orig + rhs.notes@.take(i as int),
            decreases n - i,
        {
            out.push(rhs.notes[i]);
            proof {
                assert(out@ =~= orig + rhs.notes@.take(i + 1));
            }
            i = i + 1;
        }
        proof {
            assert(orig + rhs.notes@.take(n as int) =~= orig + rhs.notes@);
        }
        FixedSequence { notes: out, head_position: self.head_position }
    }

    /// The notes repeated `times` times over; the play head stays.
    pub fn repeat(self, times: usize) -> (s: FixedSequence)
        ensures
            s@.head == self@.head,
            s@.notes == seq_repeat(self@.notes, times as nat),
    {
        let n = self.notes.len();
        let mut out: Vec<Midi> = Vec::new();
        let mut k: usize = 0;
        while k < times
            invariant
                k <= times,
                n == self.notes@.len(),
                out@ == seq_repeat(self.notes@, k as nat),
            decreases times - k,
        {
            let ghost before = out@;
            let mut i: usize = 0;
            while i < n
                invariant
                    i <= n,
                    n == self.notes@.len(),
                    out@ == before + self.notes@.take(i as int),
                decreases n - i,
            {
                out.push(self.notes[i]);
                proof {
                    assert(out@ =~= before + self.notes@.take(i + 1));
                }
                i = i + 1;
            }
            proof {
                assert(before + self.notes@.take(n as int) =~= before + self.notes@);
                assert(out@ == seq_repeat(self.notes@, (k + 1) as nat));
            }
            k = k + 1;
        }
        FixedSequence { notes: out, head_position: self.head_position }
    }

    /// The notes in reverse order; the play head stays.
    pub fn reverse(self) -> (s: FixedSequence)
        ensures
            s@.head == self@.head,
            s@.notes.len() == self@.notes.len(),
            forall|i: int|
                0 <= i < self@.notes.len() ==> s@.notes[i] == self@.notes[self@.notes.len() - 1
                    - i],
    {
        let n = self.notes.len();
        let mut out: Vec<Midi> = Vec::new();
        let mut i: usize = 0;
        while i < n
            invariant
                i <= n,
                n == self.notes@.len(),
                out@.len() == i,
                forall|k: int| 0 <= k < i ==> out@[k] == self.notes@[n - 1 - k],
            decreases n - i,
        {
            out.push(self.notes[n - 1 - i]);
            i = i + 1;
        }
        FixedSequence { notes: out, head_position: self.head_position }
    }

    /// Every pitched note raised by the interval; rests stay.
    pub fn transpose_up(self, interval: Interval) -> (s: FixedSequence)
        ensures
            s@.head == self@.head,
            s@.notes == self@.notes.map_values(up_by(interval.semitones)),
    {
        let n = self.notes.len();
        let mut out: Vec<Midi> = Vec::new();
        let mut i: usize = 0;
        while i < n
            invariant
                i <= n,
                n == self.notes@.len(),
                out@ == self.notes@.take(i as int).map_values(up_by(interval.semitones)),
            decreases n - i,
        {
            out.push(self.notes[i].transpose_up(interval.semitones));
            proof {
                assert(out@ =~= self.notes@.take(i + 1).map_values(up_by(interval.semitones)));
            }
            i = i + 1;
        }
        proof {
            assert(self.notes@.take(n as int) =~= self.notes@);
        }
        FixedSequence { notes: out, head_position: self.head_position }
    }

    /// Every pitched note lowered by the interval; rests stay.
    pub fn transpose_down(self, interval: Interval) -> (s: FixedSequence)
        ensures
            s@.head == self@.head,
            s@.notes == self@.notes.map_values(down_by(interval.semitones)),
    {
        let n = self.notes.len();
        let mut out: Vec<Midi> = Vec::new();
        let mut i: usize = 0;
        while i < n
            invariant
                i <= n,
                n == self.notes@.len(),
                out@ == self.notes@.take(i as int).map_values(down_by(interval.semitones)),
            decreases n - i,
        {
            out.push(self.notes[i].transpose_down(interval.semitones));
            proof {
                assert(out@ =~= self.notes@.take(i + 1).map_values(down_by(interval.semitones)));
            }
            i = i + 1;
        }
        proof {
            assert(self.notes@.take(n as int) =~= self.notes@);
        }
        FixedSequence { notes: out, head_position: self.head_position }
    }

    /// Every pitched note harmonized `degree` scale steps up; rests stay,
    /// and a note the scale cannot harmonize is muted.
    pub fn harmonize_up(self, scale: &Scale, degree: usize) -> (s: FixedSequence)
        requires
            scale.wf(),
        ensures
            s@.head == self@.head,
            s@.notes == self@.notes.map_values(harmonized_up(*scale, degree)),
    {
        let n = self.notes.len();
        let mut out: Vec<Midi> = Vec::new();
        let mut i: usize = 0;
        while i < n
            invariant
                i <= n,
                n == self.notes@.len(),
                scale.wf(),
                out@ == self.notes@.take(i as int).map_values(harmonized_up(*scale, degree)),
            decreases n - i,
        {
            let m = self.notes[i];
            match scale.harmonize_up(m, degree) {
                Some(h) => out.push(h),
                None => out.push(Midi { pitch: None, ..m }),
            }
            proof {
                assert(out@ =~= self.notes@.take(i + 1).map_values(harmonized_up(*scale, degree)));
            }
            i = i + 1;
        }
        proof {
            assert(self.notes@.take(n as int) =~= self.notes@);
        }
        FixedSequence { notes: out, head_position: self.head_position }
    }

    /// Every pitched note harmonized `degree` scale steps down; rests stay,
    /// and a note the scale cannot harmonize is muted.
    pub fn harmonize_down(self, scale: &Scale, degree: usize) -> (s: FixedSequence)
        requires
            scale.wf(),
        ensures
            s@.head == self@.head,
            s@.notes == self@.notes.map_values(harmonized_down(*scale, degree)),
    {
        let n = self.notes.len();
        let mut out: Vec<Midi> = Vec::new();
        let mut i: usize = 0;
        while i < n
            invariant
                i <= n,
                n == self.notes@.len(),
                scale.wf(),
                out@ == self.notes@.take(i as int).map_values(harmonized_down(*scale, degree)),
            decreases n - i,
        {
            let m = self.notes[i];
            match scale.harmonize_down(m, degree) {
                Some(h) => out.push(h),
                None => out.push(Midi { pitch: None, ..m }),
            }
            proof {
                assert(out@ =~= self.notes@.take(i + 1).map_values(
                    harmonized_down(*scale, degree),
                ));
            }
            i = i + 1;
        }
        proof {
            assert(self.notes@.take(n as int) =~= self.notes@);
        }
        FixedSequence { notes: out, head_position: self.head_position }
    }

    /// Each note split into a run of one-tick notes adding up to its
    /// duration.
    pub fn split_to_ticks(self) -> (s: FixedSequence)
        ensures
            s@.head == self@.head,
            s@.notes == split_spec(self@.notes),
    {
        let n = self.notes.len();
        let mut out: Vec<Midi> = Vec::new();
        let mut i: usize = 0;
        while i < n
            invariant
                i <= n,
                n == self.notes@.len(),
                out@ == split_spec(self.notes@.take(i as int)),
            decreases n - i,
        {
            let m = self.notes[i];
            let ghost before = out@;
            let d = m.duration;
            let mut j: u32 = 0;
            while j < d
                invariant
                    j <= d,
                    d == m.duration,
                    out@ == before + Seq::new(j as nat, |x: int| Midi { duration: 1, ..m }),
                decreases d - j,
            {
                out.push(m.set_duration(1));
                proof {
                    assert(out@ =~= before + Seq::new(
                        (j + 1) as nat,
                        |x: int| Midi { duration: 1, ..m },
                    ));
                }
                j = j + 1;
            }
            proof {
                assert(self.notes@.take(i + 1).drop_last() =~= self.notes@.take(i as int));
                assert(self.notes@.take(i + 1).last() == m);
                assert(Seq::new(d as nat, |x: int| Midi { duration: 1, ..m }) =~= ticks_of(m));
                assert(out@ == split_spec(self.notes@.take(i + 1)));
            }
            i = i + 1;
        }
        proof {
            assert(self.notes@.take(n as int) =~= self.notes@);
        }
        FixedSequence { notes: out, head_position: self.head_position }
    }

    /// Mute every note whose mask bit is unset; the mask is applied from the
    /// first note and repeats over the whole sequence. An empty mask leaves
    /// an empty sequence.
    pub fn mask(self, mask: Vec<bool>) -> (s: FixedSequence)
        ensures
            s@.head == self@.head,
            s@.notes == masked(self@.notes, mask@),
    {
        if mask.len() == 0 {
            return FixedSequence { notes: Vec::new(), head_position: self.head_position };
        }
        let n = self.notes.len();
        let w = mask.len();
        let mut out: Vec<Midi> = Vec::new();
        let mut i: usize = 0;
        while i < n
            invariant
                i <= n,
                n == self.notes@.len(),
                w == mask@.len(),
                w > 0,
                out@.len() == i,
                forall|k: int|
                    0 <= k < i ==> out@[k] == (if mask@[k % (w as int)] {
                        self.notes@[k]
                    } else {
                        muted(self.notes@[k])
                    }),
            decreases n - i,
        {
            let m = self.notes[i];
            if mask[i % w] {
                out.push(m);
            } else {
                out.push(Midi { pitch: None, ..m });
            }
            i = i + 1;
        }
        proof {
            assert(out@ =~= masked(self@.notes, mask@));
        }
        FixedSequence { notes: out, head_position: self.head_position }
    }

    /// Split each note into one-tick notes, then mute by the mask: each tick
    /// of the expansion plays or is silenced by its own mask bit.
    pub fn split_notes(self, mask: Vec<bool>) -> (s: FixedSequence)
        ensures
            s@.head == self@.head,
            s@.notes == masked(split_spec(self@.notes), mask@),
    {
        let ghost orig = self@;
        let split = self.split_to_ticks();
        split.mask(mask)
    }

    /// One pass over the notes from the play head, each note as its own
    /// single-note batch.
    pub fn render(&self) -> (r: Vec<Vec<Midi>>)
        ensures
            r@.len() == self@.notes.len(),
            forall|i: int|
                0 <= i < r@.len() ==> (#[trigger] r@[i])@ == seq![
                    self@.notes[((self@.head % self@.notes.len()) + i) % (
                    self@.notes.len() as int)],
                ],
    {
        let n = self.notes.len();
        let mut r: Vec<Vec<Midi>> = Vec::new();
        if n == 0 {
            return r;
        }
        let h = self.head_position % n;
        let mut i: usize = 0;
        while i < n
            invariant
                i <= n,
                n == self.notes@.len(),
                n > 0,
                h == self@.head % (n as nat),
                r@.len() == i,
                forall|k: int|
                    0 <= k < i ==> (#[trigger] r@[k])@ == seq![
                        self.notes@[(h + k) % (n as int)],
                    ],
            decreases n - i,
        {
            let idx = if i < n - h {
                h + i
            } else {
                i - (n - h)
            };
            proof {
                assert(idx == (h + i) % (n as int)) by {
                    if i < n - h {
                        assert((h + i) % (n as int) == h + i) by (nonlinear_arith)
                            requires
                                0 <= h + i < n,
                        ;
                    } else {
                        assert((h + i) % (n as int) == h + i - n) by (nonlinear_arith)
                            requires
                                n <= h + i < 2 * n,
                        ;
                    }
                }
            }
            let mut one: Vec<Midi> = Vec::new();
            one.push(self.notes[idx]);
            r.push(one);
            proof {
                assert(r@[i as int]@ =~= seq![self.notes@[(h + i) % (n as int)]]);
            }
            i = i + 1;
        }
        r
    }
}

impl Midibox for FixedSequence {
    fn next(&mut self) -> Option<Vec<Midi>> {
        let n = self.notes.len();
        if n == 0 {
            None
        } else {
            let h = self.head_position % n;
            let m = self.notes[h];
            self.head_position = (h + 1) % n;
            let mut batch: Vec<Midi> = Vec::new();
            batch.push(m);
            Some(batch)
        }
    }
}

} // verus!
