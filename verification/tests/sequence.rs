use garlic_crust::garlic_crust::oscillator::BaseWave;
use garlic_crust::garlic_crust::{next_event_option, SeqEvent, SeqMsg};

fn demo_sequence() -> Vec<SeqEvent> {
    vec![
        SeqEvent { time: 0, message: SeqMsg::NoteOn(69, 100) },
        SeqEvent { time: 500, message: SeqMsg::NoteOff },
        SeqEvent { time: 1000, message: SeqMsg::NoteOn(57, 90) },
    ]
}

#[test]
fn next_event_at_start_is_first_event() {
    let seq = demo_sequence();
    assert_eq!(next_event_option(&seq, 0), Some(seq[0]));
}

#[test]
fn next_event_in_middle() {
    let seq = demo_sequence();
    let e = next_event_option(&seq, 2).unwrap();
    assert_eq!(e.time, 1000);
    assert_eq!(e.message, SeqMsg::NoteOn(57, 90));
}

#[test]
fn next_event_at_end_is_none() {
    let seq = demo_sequence();
    assert_eq!(next_event_option(&seq, 3), None);
}

#[test]
fn next_event_of_empty_sequence_is_none() {
    let seq: Vec<SeqEvent> = Vec::new();
    assert_eq!(next_event_option(&seq, 0), None);
}

#[test]
fn note_on_gives_its_key() {
    assert_eq!(SeqMsg::NoteOn(42, 7).note_on_key(), Some(42));
}

#[test]
fn other_messages_give_no_key() {
    assert_eq!(SeqMsg::NoteOff.note_on_key(), None);
    assert_eq!(SeqMsg::SetVel.note_on_key(), None);
    assert_eq!(SeqMsg::SetSlide.note_on_key(), None);
    assert_eq!(SeqMsg::SetPan.note_on_key(), None);
}

#[test]
fn base_waves_are_distinct() {
    let waves = [BaseWave::Sine, BaseWave::Saw, BaseWave::Square, BaseWave::Triangle, BaseWave::Zero];
    for i in 0..waves.len() {
        for j in 0..waves.len() {
            assert_eq!(waves[i] == waves[j], i == j);
        }
    }
}
