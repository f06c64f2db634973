//! The musical values that the scheduler moves around: a note, the interval
//! and scale vocabulary used to derive new notes, and the raw status bytes of
//! the three-byte wire events.

use vstd::prelude::*;

verus! {

/// Status byte that marks the audible beginning of a note on the wire.
pub const NOTE_ON_MSG: u8 = 0x90;

/// Status byte that marks the audible end of a note on the wire.
pub const NOTE_OFF_MSG: u8 = 0x80;

/// Largest pitch value the three-byte wire format can carry.
pub const MAX_PITCH: u8 = 127;

/// One musical event: either a pitched note or a rest, with a length in ticks
/// and an intensity. A rest keeps a duration and a velocity but never turns
/// into wire bytes.
#[derive(Clone, Copy, Debug, PartialEq, Eq)]
pub struct Midi {
    /// `None` marks a rest; `Some(p)` is a wire pitch, at most `MAX_PITCH`.
    pub pitch: Option<u8>,
    /// How many ticks the note sounds for once admitted.
    pub duration: u32,
    /// Intensity carried verbatim into the wire event.
    pub velocity: u8,
}

impl Midi {
    /// A pitched note.
    pub fn note(pitch: u8, duration: u32, velocity: u8) -> (m: Midi)
        requires
            pitch <= MAX_PITCH,
        ensures
            m.pitch == Some(pitch),
            m.duration == duration,
            m.velocity == velocity,
    {
        Midi { pitch: Some(pitch), duration, velocity }
    }

    /// A rest of the given length.
    pub fn rest(duration: u32) -> (m: Midi)
        ensures
            m.pitch is None,
            m.duration == duration,
            m.velocity == 0,
    {
        Midi { pitch: None, duration, velocity: 0 }
    }

    /// Whether this value is a rest, i.e. carries no pitch.
    pub fn is_rest(&self) -> (r: bool)
        ensures
            r == (self.pitch is None),
    {
        matches!(self.pitch, None)
    }

    /// The wire pitch byte, if any.
    pub fn u8_maybe(&self) -> (r: Option<u8>)
        ensures
            r == self.pitch,
    {
        self.pitch
    }

    /// The same note with its duration replaced.
    pub fn set_duration(self, duration: u32) -> (m: Midi)
        ensures
            m == (Midi { duration, ..self }),
    {
        Midi { duration, ..self }
    }

    /// The same note with its velocity replaced.
    pub fn set_velocity(self, velocity: u8) -> (m: Midi)
        ensures
            m == (Midi { velocity, ..self }),
    {
        Midi { velocity, ..self }
    }

    /// The same note with its pitch replaced; `None` turns it into a rest.
    pub fn set_pitch(self, pitch: Option<u8>) -> (m: Midi)
        requires
            pitch is Some ==> pitch->0 <= MAX_PITCH,
        ensures
            m == (Midi { pitch, ..self }),
    {
        Midi { pitch, ..self }
    }

    /// The same note raised by `semitones`; a rest stays a rest, and a pitch
    /// that would leave the wire range is clamped to `MAX_PITCH`.
    pub fn transpose_up(self, semitones: u8) -> (m: Midi)
        ensures
            m == transposed_up(self, semitones),
    {
        match self.pitch {
            None => self,
            Some(p) => {
                let q: u16 = p as u16 + semitones as u16;
                let np: u8 = if q > MAX_PITCH as u16 {
                    MAX_PITCH
                } else {
                    q as u8
                };
                Midi { pitch: Some(np), ..self }
            },
        }
    }

    /// The same note lowered by `semitones`; a rest stays a rest, and a
    /// pitch that would fall below 0 is clamped to 0.
    pub fn transpose_down(self, semitones: u8) -> (m: Midi)
        ensures
            m == transposed_down(self, semitones),
    {
        match self.pitch {
            None => self,
            Some(p) => {
                let np: u8 = if semitones > p {
                    0
                } else {
                    p - semitones
                };
                Midi { pitch: Some(np), ..self }
            },
        }
    }
}

/// A pitch raised by some semitones, clamped into the wire range.
pub open spec fn pitch_up(p: u8, semitones: u8) -> u8 {
    if p + semitones > MAX_PITCH {
        MAX_PITCH
    } else {
        (p + semitones) as u8
    }
}

/// A pitch lowered by some semitones, clamped at 0.
pub open spec fn pitch_down(p: u8, semitones: u8) -> u8 {
    if semitones > p {
        0
    } else {
        (p - semitones) as u8
    }
}

/// A note raised by some semitones; rests are untouched.
pub open spec fn transposed_up(m: Midi, semitones: u8) -> Midi {
    match m.pitch {
        None => m,
        Some(p) => Midi { pitch: Some(pitch_up(p, semitones)), ..m },
    }
}

/// A note lowered by some semitones; rests are untouched.
pub open spec fn transposed_down(m: Midi, semitones: u8) -> Midi {
    match m.pitch {
        None => m,
        Some(p) => Midi { pitch: Some(pitch_down(p, semitones)), ..m },
    }
}

/// A musical interval, measured in semitones.
#[derive(Clone, Copy, Debug)]
pub struct Interval {
    /// The interval's width in semitones.
    pub semitones: u8,
}

/// Whether a list of pitch classes describes a scale: at least one class,
/// every class below 12, strictly ascending.
pub open spec fn classes_ok(classes: Seq<u8>) -> bool {
    &&& classes.len() >= 1
    &&& forall|i: int| 0 <= i < classes.len() ==> (#[trigger] classes[i]) < 12
    &&& forall|i: int, j: int| 0 <= i < j < classes.len() ==> classes[i] < classes[j]
}

/// A scale, as the strictly ascending pitch classes (semitone offsets within
/// an octave, 0 to 11) of its tones.
#[derive(Clone, Debug)]
pub struct Scale {
    /// The member pitch classes, strictly ascending, each below 12.
    pitch_classes: Vec<u8>,
}

impl Scale {
    /// The member pitch classes.
    pub closed spec fn classes(self) -> Seq<u8> {
        self.pitch_classes@
    }

    /// Whether this scale is well formed; every scale built by [`Scale::new`]
    /// is.
    pub open spec fn wf(self) -> bool {
        classes_ok(self.classes())
    }

    /// A scale from its pitch classes; rejects a list that is empty, out of
    /// range or not strictly ascending.
    pub fn new(pitch_classes: Vec<u8>) -> (r: Option<Scale>)
        ensures
            match r {
                Some(s) => s.wf() && s.classes() == pitch_classes@ && classes_ok(pitch_classes@),
                None => !classes_ok(pitch_classes@),
            },
    {
        let n = pitch_classes.len();
        if n == 0 {
            return None;
        }
        let mut i: usize = 0;
        while i < n
            invariant
                i <= n,
                n == pitch_classes@.len(),
                forall|k: int| 0 <= k < i ==> (#[trigger] pitch_classes@[k]) < 12,
                forall|k: int| 0 < k < i ==> pitch_classes@[k - 1] < #[trigger] pitch_classes@[k],
            decreases n - i,
        {
            if pitch_classes[i] >= 12 {
                return None;
            }
            if i > 0 && pitch_classes[i - 1] >= pitch_classes[i] {
                return None;
            }
            i = i + 1;
        }
        proof {
            assert forall|a: int, b: int|
                0 <= a < b < pitch_classes@.len() implies pitch_classes@[a] < pitch_classes@[b] by {
                lemma_ascending_chain(pitch_classes@, a, b);
            }
        }
        Some(Scale { pitch_classes })
    }

    /// The note `degree` scale steps above `m`: the pitch moves to the
    /// `degree`-th next scale member, climbing an octave each time the scale
    /// wraps. A rest is returned unchanged; a pitch whose class is not in the
    /// scale, or whose target leaves the wire range, harmonizes to `None`.
    pub open spec fn harmonize_up_spec(self, m: Midi, degree: usize) -> Option<Midi> {
        match m.pitch {
            None => Some(m),
            Some(p) => {
                let classes = self.classes();
                let n = classes.len() as int;
                let pc = (p % 12) as u8;
                if !classes.contains(pc) {
                    None
                } else {
                    let i = choose|i: int| 0 <= i < n && classes[i] == pc;
                    let q = degree as int / n;
                    let r = degree as int % n;
                    let j = if r < n - i {
                        i + r
                    } else {
                        i + r - n
                    };
                    let lift = if r < n - i {
                        q
                    } else {
                        q + 1
                    };
                    let np = p - pc + classes[j] + 12 * lift;
                    if np > MAX_PITCH {
                        None
                    } else {
                        Some(Midi { pitch: Some(np as u8), ..m })
                    }
                }
            },
        }
    }

    /// The note `degree` scale steps below `m`, descending an octave each
    /// time the scale wraps; `None` when the pitch's class is not in the
    /// scale or the target falls below 0. A rest is returned unchanged.
    pub open spec fn harmonize_down_spec(self, m: Midi, degree: usize) -> Option<Midi> {
        match m.pitch {
            None => Some(m),
            Some(p) => {
                let classes = self.classes();
                let n = classes.len() as int;
                let pc = (p % 12) as u8;
                if !classes.contains(pc) {
                    None
                } else {
                    let i = choose|i: int| 0 <= i < n && classes[i] == pc;
                    let q = degree as int / n;
                    let r = degree as int % n;
                    let j = if r <= i {
                        i - r
                    } else {
                        i - r + n
                    };
                    let fall = if r <= i {
                        q
                    } else {
                        q + 1
                    };
                    let np = p - pc + classes[j] - 12 * fall;
                    if np < 0 {
                        None
                    } else {
                        Some(Midi { pitch: Some(np as u8), ..m })
                    }
                }
            },
        }
    }

    /// Harmonize a note up by `degree` scale steps; see
    /// [`Scale::harmonize_up_spec`].
    pub fn harmonize_up(&self, m: Midi, degree: usize) -> (r: Option<Midi>)
        requires
            self.wf(),
        ensures
            r == self.harmonize_up_spec(m, degree),
    {
        match m.u8_maybe() {
            None => Some(m),
            Some(p) => {
                let n = self.pitch_classes.len();
                let pc = p % 12;
                match self.find_class(pc) {
                    None => None,
                    Some(i) => {
                        proof {
                            lemma_unique_class(self.classes(), pc, i as int);
                        }
                        let q = degree / n;
                        let r0 = degree % n;
                        if q >= 12 {
                            return None;
                        }
                        let j: usize = if r0 < n - i {
                            i + r0
                        } else {
                            r0 - (n - i)
                        };
                        let lift: u32 = if r0 < n - i {
                            q as u32
                        } else {
                            q as u32 + 1
                        };
                        let np: u32 = p as u32 - pc as u32 + self.pitch_classes[j] as u32 + 12
                            * lift;
                        if np > MAX_PITCH as u32 {
                            None
                        } else {
                            Some(Midi { pitch: Some(np as u8), ..m })
                        }
                    },
                }
            },
        }
    }

    /// Harmonize a note down by `degree` scale steps; see
    /// [`Scale::harmonize_down_spec`].
    pub fn harmonize_down(&self, m: Midi, degree: usize) -> (r: Option<Midi>)
        requires
            self.wf(),
        ensures
            r == self.harmonize_down_spec(m, degree),
    {
        match m.u8_maybe() {
            None => Some(m),
            Some(p) => {
                let n = self.pitch_classes.len();
                let pc = p % 12;
                match self.find_class(pc) {
                    None => None,
                    Some(i) => {
                        proof {
                            lemma_unique_class(self.classes(), pc, i as int);
                        }
                        let q = degree / n;
                        let r0 = degree % n;
                        if q >= 24 {
                            return None;
                        }
                        let j: usize = if r0 <= i {
                            i - r0
                        } else {
                            n - (r0 - i)
                        };
                        let fall: i32 = if r0 <= i {
                            q as i32
                        } else {
                            q as i32 + 1
                        };
                        let np: i32 = p as i32 - pc as i32 + self.pitch_classes[j] as i32 - 12
                            * fall;
                        proof {
                            let classes = self.classes();
                            let ii = i as int;
                            let jj = j as int;
                            if jj < ii {
                                assert(classes[jj] < classes[ii]);
                            }
                            if ii < jj {
                                assert(classes[ii] < classes[jj]);
                            }
                        }
                        if np < 0 {
                            None
                        } else {
                            Some(Midi { pitch: Some(np as u8), ..m })
                        }
                    },
                }
            },
        }
    }

    /// The index of a pitch class among the scale's members, if present.
    fn find_class(&self, pc: u8) -> (r: Option<usize>)
        ensures
            match r {
                Some(i) => i < self.classes().len() && self.classes()[i as int] == pc,
                None => !self.classes().contains(pc),
            },
    {
        let n = self.pitch_classes.len();
        let mut i: usize = 0;
        while i < n
            invariant
                i <= n,
                n == self.classes().len(),
                forall|k: int| 0 <= k < i ==> (#[trigger] self.classes()[k]) != pc,
            decreases n - i,
        {
            if self.pitch_classes[i] == pc {
                return Some(i);
            }
            i = i + 1;
        }
        proof {
            if self.classes().contains(pc) {
                let k = choose|k: int| 0 <= k < self.classes().len() && self.classes()[k] == pc;
            }
        }
        None
    }
}

/// In a strictly ascending list a value occurs at no more than one index, so
/// an index holding `pc` is the one the spec's `choose` picks.
proof fn lemma_unique_class(classes: Seq<u8>, pc: u8, i: int)
    requires
        classes_ok(classes),
        0 <= i < classes.len(),
        classes[i] == pc,
    ensures
        (choose|k: int| 0 <= k < classes.len() && classes[k] == pc) == i,
        classes.contains(pc),
{
    let k = choose|k: int| 0 <= k < classes.len() && classes[k] == pc;
    assert(classes.contains(pc)) by {
        assert(classes[i] == pc);
    }
    assert(0 <= k < classes.len() && classes[k] == pc);
    if k < i {
        assert(classes[k] < classes[i]);
    } else if k > i {
        assert(classes[i] < classes[k]);
    }
}

/// In a list where each element exceeds its predecessor, any earlier element
/// is below any later one.
proof fn lemma_ascending_chain(s: Seq<u8>, a: int, b: int)
    requires
        forall|k: int| 0 < k < s.len() ==> s[k - 1] < #[trigger] s[k],
        0 <= a < b < s.len(),
    ensures
        s[a] < s[b],
    decreases b - a,
{
    if a + 1 < b {
        lemma_ascending_chain(s, a + 1, b);
    }
}

} // verus!
