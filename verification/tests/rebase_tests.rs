use pjsekai_scores_rs::fraction::Fraction;
use pjsekai_scores_rs::notes::directional::Directional;
use pjsekai_scores_rs::notes::tap::Tap;
use pjsekai_scores_rs::notes::{NoteBase, NoteData, NO_NOTE};
use pjsekai_scores_rs::rebase::{lookup_bar, rebased_notes, referenced_note_bars};

fn arena() -> Vec<NoteData> {
    vec![
        NoteData::Tap(NoteBase::new(Fraction::new(1, 2), 3, 2, 1), Tap),
        NoteData::Directional(
            NoteBase::new(Fraction::from_integer(1), 3, 2, 1),
            Directional { tap_idx: 0 },
        ),
    ]
}

#[test]
fn a_directional_needs_its_tap_bar_too() {
    let notes = arena();
    assert_eq!(
        referenced_note_bars(&notes[1], &notes),
        vec![Fraction::from_integer(1), Fraction::new(1, 2)]
    );
    assert_eq!(referenced_note_bars(&notes[0], &notes), vec![Fraction::new(1, 2)]);
}

#[test]
fn lookup_takes_the_first_entry_for_a_bar() {
    let table = vec![
        (Fraction::zero(), Fraction::from_integer(5)),
        (Fraction::zero(), Fraction::from_integer(6)),
    ];
    assert_eq!(lookup_bar(&table, Fraction::zero()), Some(Fraction::from_integer(5)));
    assert_eq!(lookup_bar(&table, Fraction::from_integer(1)), None);
}

#[test]
fn rebased_notes_are_emitted_unlinked_at_new_bars() {
    let notes = arena();
    let table = vec![
        (Fraction::new(1, 2), Fraction::from_integer(1)),
        (Fraction::from_integer(1), Fraction::from_integer(2)),
    ];
    let out = rebased_notes(&[1], &notes, &table);
    assert_eq!(out.len(), 2);
    assert!(out[0].is_directional());
    assert_eq!(out[0].bar(), Fraction::from_integer(2));
    assert_eq!(out[0].as_directional().unwrap().tap_idx, NO_NOTE);
    assert!(out[1].is_tap());
    assert_eq!(out[1].bar(), Fraction::from_integer(1));
    assert_eq!(out[1].lane(), 3);
}
