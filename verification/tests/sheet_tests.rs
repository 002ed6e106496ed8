use pjsekai_scores_rs::fraction::Fraction;
use pjsekai_scores_rs::notes::directional::{Directional, DirectionalType};
use pjsekai_scores_rs::notes::event::Event;
use pjsekai_scores_rs::notes::slide::Slide;
use pjsekai_scores_rs::notes::tap::Tap;
use pjsekai_scores_rs::notes::{NoteBase, NoteData, NO_NOTE};
use pjsekai_scores_rs::score::Score;
use pjsekai_scores_rs::meta::Meta;
use pjsekai_scores_rs::sheet::{
    among_asset_name, bar_in_sentence, chart_title, escape_xml, event_is_special,
    flick_arrow_type, flick_asset_name, following_visible_slide_path_node, friction_among_kind,
    jacket_href, long_among_kind, next_slide_path_node, next_tick_note,
    next_visible_slide_path_node, normalize_note_asset_extension, note_directional_type,
    note_image_number, sentence_events, sentence_note_steps, sentence_note_visible,
    sentence_segments, slide_chain_visible, slide_path_class, slide_path_pieces, tick_label,
    AmongKind, NoteDrawStep, DEFAULT_JACKET,
};

fn frac(n: i64, d: i64) -> Fraction {
    Fraction::new(n, d)
}

fn tap(bar: Fraction, note_type: i32) -> NoteData {
    NoteData::Tap(NoteBase::new(bar, 2, 3, note_type), Tap)
}

#[test]
fn escapes_markup_characters() {
    assert_eq!(escape_xml("a&b<c>\"d'"), "a&amp;b&lt;c&gt;&quot;d'");
    assert_eq!(escape_xml(""), "");
}

#[test]
fn normalizes_asset_extensions() {
    assert_eq!(normalize_note_asset_extension("  ..PNG ".to_string()), "png");
    assert_eq!(normalize_note_asset_extension("WebP".to_string()), "webp");
    assert_eq!(normalize_note_asset_extension("...".to_string()), "");
}

#[test]
fn column_stretch_reaches_one_bar_around_it() {
    let start = Fraction::from_integer(1);
    let stop = Fraction::from_integer(2);
    assert!(bar_in_sentence(Fraction::zero(), start, stop));
    assert!(bar_in_sentence(frac(5, 2), start, stop));
    assert!(!bar_in_sentence(Fraction::from_integer(3), start, stop));
    assert!(!bar_in_sentence(frac(-1, 2), start, stop));
}

#[test]
fn special_events_change_something_drawn() {
    assert!(!event_is_special(&Event::new(Fraction::zero())));
    assert!(!event_is_special(&Event::new(Fraction::zero()).with_sentence_length(2)));
    assert!(event_is_special(
        &Event::new(Fraction::zero()).with_bpm(Fraction::from_integer(150))
    ));
    assert!(event_is_special(&Event::new(Fraction::zero()).with_text("x".to_string())));
}

#[test]
fn column_events_interleave_bar_marks() {
    let mut score = Score::new();
    score
        .events
        .push(Event::new(frac(1, 2)).with_text("x".to_string()));
    let events = sentence_events(&score, 0, 1);
    let bars: Vec<Fraction> = events.iter().map(|e| e.bar).collect();
    assert_eq!(bars, vec![Fraction::zero(), frac(1, 2), Fraction::from_integer(1)]);
    assert_eq!(events[1].text.as_deref(), Some("x"));
    assert!(sentence_events(&Score::new(), 2, 1).is_empty());
}

#[test]
fn slide_chains_are_walked_to_path_nodes() {
    let score = Score::parse("#00032a: 11\n#00132a: 21\n");
    let notes = &score.notes;
    assert_eq!(next_visible_slide_path_node(0, notes), Some(Some(0)));
    assert_eq!(following_visible_slide_path_node(0, notes), Some(Some(1)));
    assert_eq!(following_visible_slide_path_node(1, notes), Some(None));
    let (end, amongs) = next_slide_path_node(notes, 1).unwrap();
    assert_eq!(end, 1);
    assert!(amongs.is_empty());
    assert_eq!(slide_path_class(&notes[0], notes), "slide");
    assert_eq!(note_image_number(&notes[0], notes), 1);
}

#[test]
fn slide_visibility_follows_its_chain() {
    let score = Score::parse("#00032a: 11\n#00932a: 21\n");
    let notes = &score.notes;
    let five = Fraction::from_integer(5);
    let zero = Fraction::zero();
    // A path node inside the drawn stretch.
    assert_eq!(slide_chain_visible(0, notes, zero, zero), Some(true));
    // The chain crosses the column: one node before it, one after it.
    assert_eq!(
        slide_chain_visible(0, notes, Fraction::from_integer(4), five),
        Some(true)
    );
    // Beyond the end of the chain.
    assert_eq!(
        slide_chain_visible(0, notes, Fraction::from_integer(12), Fraction::from_integer(13)),
        Some(false)
    );
    assert_eq!(
        sentence_note_visible(&notes[1], notes, Fraction::from_integer(4), five),
        Some(true)
    );
    assert_eq!(slide_chain_visible(NO_NOTE, notes, zero, zero), Some(false));
}

#[test]
fn looping_slide_chains_are_reported() {
    let relay = |next| {
        NoteData::Slide(
            NoteBase::new(Fraction::zero(), 2, 1, 3),
            Slide {
                channel: 0,
                decoration: false,
                tap_idx: 0,
                directional_idx: NO_NOTE,
                next_idx: next,
                head_idx: 1,
            },
        )
    };
    let arena = vec![tap(Fraction::zero(), 1), relay(2), relay(1)];
    assert_eq!(next_visible_slide_path_node(1, &arena), None);
    assert_eq!(next_slide_path_node(&arena, 1), None);
    assert_eq!(
        slide_chain_visible(1, &arena, Fraction::zero(), Fraction::zero()),
        None
    );
}

#[test]
fn next_tick_note_finds_the_next_full_tick() {
    let arena = vec![
        tap(Fraction::zero(), 1),
        tap(frac(1, 2), 1),
        tap(Fraction::from_integer(1), 1),
    ];
    assert_eq!(next_tick_note(&arena, &[0, 1, 2], 0), 1);
    assert_eq!(next_tick_note(&arena, &[0, 2], 0), 2);
    assert_eq!(next_tick_note(&arena, &[0], 0), 0);
}

#[test]
fn image_numbers_follow_the_kind_of_note() {
    let arena = vec![
        tap(Fraction::zero(), 1),
        NoteData::Directional(NoteBase::new(Fraction::zero(), 2, 3, 3), Directional::new()),
    ];
    assert_eq!(note_image_number(&arena[0], &arena), 2);
    assert_eq!(note_image_number(&arena[1], &arena), 3);
    assert_eq!(
        note_directional_type(&arena[1], &arena),
        Some(DirectionalType::UpperLeft)
    );
    assert_eq!(note_directional_type(&arena[0], &arena), None);
}

#[test]
fn sheet_columns_follow_the_line_length() {
    let mut score = Score::parse("#00032a: 11\n#00932a: 21\n");
    assert_eq!(
        sentence_segments(&mut score),
        Some(vec![(0, 4), (4, 8), (8, 9)])
    );
    assert_eq!(sentence_segments(&mut Score::new()), Some(vec![]));
}

#[test]
fn drawing_steps_follow_the_kind_of_note() {
    let score = Score::parse("#00032a: 11\n#00132a: 21\n");
    let notes = &score.notes;
    assert_eq!(
        sentence_note_steps(&notes[0], 0),
        vec![NoteDrawStep::SlidePath, NoteDrawStep::NoteImage(0)]
    );
    assert_eq!(sentence_note_steps(&notes[1], 1), vec![NoteDrawStep::NoteImage(1)]);
    let t = tap(Fraction::zero(), 1);
    assert_eq!(sentence_note_steps(&t, 4), vec![NoteDrawStep::NoteImage(4)]);
    let d = NoteData::Directional(NoteBase::new(Fraction::zero(), 2, 3, 1), Directional::new());
    assert_eq!(
        sentence_note_steps(&d, 2),
        vec![NoteDrawStep::FlickImage(2), NoteDrawStep::NoteImage(2)]
    );
    let pieces = slide_path_pieces(notes, 0).unwrap();
    assert_eq!(pieces, vec![(0, 1, vec![])]);
}

#[test]
fn flick_arrows_and_asset_names() {
    let arena = vec![
        NoteData::Directional(NoteBase::new(Fraction::zero(), 2, 3, 4), Directional::new()),
        NoteData::Directional(NoteBase::new(Fraction::zero(), 2, 3, 2), Directional::new()),
        tap(Fraction::zero(), 1),
    ];
    assert_eq!(flick_arrow_type(&arena[0], &arena), Some(DirectionalType::UpperRight));
    assert_eq!(flick_arrow_type(&arena[1], &arena), None);
    assert_eq!(flick_arrow_type(&arena[2], &arena), Some(DirectionalType::Up));
    assert_eq!(flick_asset_name(true, 3, true), "notes_flick_arrow_crtcl_03_diagonal");
    assert_eq!(flick_asset_name(false, 9, false), "notes_flick_arrow_06");
    assert_eq!(among_asset_name(long_among_kind(true)), "notes_long_among_crtcl");
    assert_eq!(friction_among_kind(&arena[0], &arena), AmongKind::FrictionFlick);
    assert_eq!(friction_among_kind(&arena[2], &arena), AmongKind::FrictionLong);
}

#[test]
fn tick_labels_name_the_interval() {
    assert_eq!(tick_label(Fraction::new(1, 4)), Some("/4".to_string()));
    assert_eq!(tick_label(Fraction::new(3, 8)), Some("3/8".to_string()));
    assert_eq!(tick_label(Fraction::zero()), None);
}

#[test]
fn footer_title_and_jacket() {
    let mut meta = Meta::new();
    assert_eq!(chart_title(&meta), "Untitled");
    assert_eq!(jacket_href(&meta), DEFAULT_JACKET);
    meta.title = Some("Song".to_string());
    assert_eq!(chart_title(&meta), "Song");
    meta.artist = Some("Band".to_string());
    assert_eq!(chart_title(&meta), "Song - Band");
    meta.jacket = Some(String::new());
    assert_eq!(jacket_href(&meta), DEFAULT_JACKET);
    meta.jacket = Some("jacket.png".to_string());
    assert_eq!(jacket_href(&meta), "jacket.png");
}
