use midibox::midi::{Interval, Midi, Scale};
use midibox::player::Midibox;
use midibox::sequences::FixedSequence;

fn n(pitch: u8, duration: u32, velocity: u8) -> Midi {
    Midi::note(pitch, duration, velocity)
}

/// Read the notes back out of a sequence through its public face: one call
/// of `render` from a fresh head.
fn notes_of(s: &FixedSequence) -> Vec<Midi> {
    s.render().into_iter().map(|batch| {
        assert_eq!(batch.len(), 1);
        batch[0]
    }).collect()
}

fn c_major() -> Scale {
    Scale::new(vec![0, 2, 4, 5, 7, 9, 11]).unwrap()
}

#[test]
fn new_and_len() {
    let s = FixedSequence::new(vec![n(60, 1, 100), n(62, 2, 100)]);
    assert_eq!(s.len(), 2);
    assert_eq!(notes_of(&s), vec![n(60, 1, 100), n(62, 2, 100)]);
    assert_eq!(FixedSequence::empty().len(), 0);
}

#[test]
fn len_ticks_sums_durations() {
    let s = FixedSequence::new(vec![n(60, 1, 100), n(62, 2, 100), Midi::rest(3)]);
    assert_eq!(s.len_ticks(), 6);
    assert_eq!(FixedSequence::empty().len_ticks(), 0);
}

#[test]
fn fast_forward_wraps_the_head() {
    let s = FixedSequence::new(vec![n(60, 1, 100), n(62, 1, 100), n(64, 1, 100)]);
    let s = s.fast_forward(4);
    // Head 1: rendering starts at the second note.
    let r = notes_of(&s);
    assert_eq!(r[0], n(62, 1, 100));
    assert_eq!(r[1], n(64, 1, 100));
    assert_eq!(r[2], n(60, 1, 100));
}

#[test]
fn duration_and_velocity_rewrite_every_note() {
    let s = FixedSequence::new(vec![n(60, 1, 100), Midi::rest(5)]);
    let d = s.duration(7);
    assert_eq!(notes_of(&d), vec![n(60, 7, 100), Midi::rest(7)]);
    let v = d.velocity(33);
    assert_eq!(
        notes_of(&v),
        vec![n(60, 7, 33), Midi { pitch: None, duration: 7, velocity: 33 }]
    );
}

#[test]
fn scale_duration_multiplies() {
    let s = FixedSequence::new(vec![n(60, 2, 100), n(62, 3, 100)]);
    assert_eq!(notes_of(&s.scale_duration(4)), vec![n(60, 8, 100), n(62, 12, 100)]);
}

#[test]
fn extend_concatenates() {
    let a = FixedSequence::new(vec![n(60, 1, 100)]);
    let b = FixedSequence::new(vec![n(62, 1, 100), n(64, 1, 100)]);
    let joined = a.extend(&b);
    assert_eq!(notes_of(&joined), vec![n(60, 1, 100), n(62, 1, 100), n(64, 1, 100)]);
}

#[test]
fn repeat_loops_the_notes() {
    let s = FixedSequence::new(vec![n(60, 1, 100), n(62, 1, 100)]);
    let r = s.repeat(3);
    assert_eq!(r.len(), 6);
    let out = notes_of(&r);
    assert_eq!(out[0], out[2]);
    assert_eq!(out[1], out[5]);
    let none = FixedSequence::new(vec![n(60, 1, 100)]).repeat(0);
    assert_eq!(none.len(), 0);
}

#[test]
fn reverse_flips_the_order() {
    let s = FixedSequence::new(vec![n(60, 1, 100), n(62, 1, 100), n(64, 1, 100)]);
    assert_eq!(
        notes_of(&s.reverse()),
        vec![n(64, 1, 100), n(62, 1, 100), n(60, 1, 100)]
    );
}

#[test]
fn transpose_moves_pitches_and_keeps_rests() {
    let s = FixedSequence::new(vec![n(60, 1, 100), Midi::rest(1)]);
    let up = s.transpose_up(Interval { semitones: 7 });
    assert_eq!(notes_of(&up)[0], n(67, 1, 100));
    assert!(notes_of(&up)[1].is_rest());
    let down = up.transpose_down(Interval { semitones: 12 });
    assert_eq!(notes_of(&down)[0], n(55, 1, 100));
}

#[test]
fn transpose_clamps_at_the_wire_range() {
    let s = FixedSequence::new(vec![n(120, 1, 100)]);
    assert_eq!(notes_of(&s.transpose_up(Interval { semitones: 20 }))[0], n(127, 1, 100));
    let s = FixedSequence::new(vec![n(5, 1, 100)]);
    assert_eq!(notes_of(&s.transpose_down(Interval { semitones: 20 }))[0], n(0, 1, 100));
}

#[test]
fn harmonize_up_moves_by_scale_steps() {
    let scale = c_major();
    let s = FixedSequence::new(vec![n(60, 1, 100)]);
    // Two scale steps above C4 in C major is E4.
    assert_eq!(notes_of(&s.harmonize_up(&scale, 2))[0], n(64, 1, 100));
    // Seven steps is the octave.
    let s = FixedSequence::new(vec![n(60, 1, 100)]);
    assert_eq!(notes_of(&s.harmonize_up(&scale, 7))[0], n(72, 1, 100));
}

#[test]
fn harmonize_down_moves_by_scale_steps() {
    let scale = c_major();
    let s = FixedSequence::new(vec![n(60, 1, 100)]);
    // Two scale steps below C4 is A3.
    assert_eq!(notes_of(&s.harmonize_down(&scale, 2))[0], n(57, 1, 100));
}

#[test]
fn harmonize_mutes_what_the_scale_cannot_reach() {
    let scale = c_major();
    // C sharp is not in C major: the note is muted, rests stay rests.
    let s = FixedSequence::new(vec![n(61, 2, 100), Midi::rest(3)]);
    let h = notes_of(&s.harmonize_up(&scale, 1));
    assert!(h[0].is_rest());
    assert_eq!(h[0].duration, 2);
    assert!(h[1].is_rest());
    assert_eq!(h[1].duration, 3);
}

#[test]
fn scale_rejects_bad_class_lists() {
    assert!(Scale::new(vec![]).is_none());
    assert!(Scale::new(vec![0, 12]).is_none());
    assert!(Scale::new(vec![0, 4, 2]).is_none());
    assert!(Scale::new(vec![0, 0]).is_none());
    assert!(Scale::new(vec![0, 2, 4]).is_some());
}

#[test]
fn split_to_ticks_expands_durations() {
    let s = FixedSequence::new(vec![n(60, 3, 100), n(62, 1, 100)]);
    let split = s.split_to_ticks();
    assert_eq!(
        notes_of(&split),
        vec![n(60, 1, 100), n(60, 1, 100), n(60, 1, 100), n(62, 1, 100)]
    );
}

#[test]
fn mask_mutes_cyclically() {
    let s = FixedSequence::new(vec![
        n(60, 1, 100),
        n(62, 1, 100),
        n(64, 1, 100),
        n(65, 1, 100),
    ]);
    let masked = s.mask(vec![true, false]);
    let out = notes_of(&masked);
    assert_eq!(out[0], n(60, 1, 100));
    assert!(out[1].is_rest());
    assert_eq!(out[2], n(64, 1, 100));
    assert!(out[3].is_rest());

    let emptied = FixedSequence::new(vec![n(60, 1, 100)]).mask(vec![]);
    assert_eq!(emptied.len(), 0);
}

#[test]
fn split_notes_expands_then_masks() {
    let s = FixedSequence::new(vec![n(60, 2, 100)]);
    let out = notes_of(&s.split_notes(vec![true, false]));
    assert_eq!(out.len(), 2);
    assert_eq!(out[0], n(60, 1, 100));
    assert!(out[1].is_rest());
}

#[test]
fn midibox_copy_plays_like_the_original() {
    let s = FixedSequence::new(vec![n(60, 1, 100), n(62, 1, 100)]);
    let mut handle = s.midibox();
    assert_eq!(handle.next(), Some(vec![n(60, 1, 100)]));
    assert_eq!(handle.next(), Some(vec![n(62, 1, 100)]));
    // The sequence loops.
    assert_eq!(handle.next(), Some(vec![n(60, 1, 100)]));
    // The original is untouched.
    assert_eq!(notes_of(&s)[0], n(60, 1, 100));
}

#[test]
fn empty_sequence_is_exhausted() {
    let mut s = FixedSequence::empty();
    assert_eq!(s.next(), None);
}

#[test]
fn midi_setters_replace_one_field() {
    let m = n(60, 2, 100);
    assert_eq!(m.set_duration(9), n(60, 9, 100));
    assert_eq!(m.set_velocity(1), n(60, 2, 1));
    assert_eq!(m.set_pitch(Some(61)), n(61, 2, 100));
    assert!(m.set_pitch(None).is_rest());
    assert_eq!(m.u8_maybe(), Some(60));
    assert!(!m.is_rest());
}
