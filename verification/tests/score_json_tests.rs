use pjsekai_scores_rs::fraction::Fraction;
use pjsekai_scores_rs::meta::Meta;
use pjsekai_scores_rs::notes::NO_NOTE;
use pjsekai_scores_rs::score_json::{
    chart_fits, critical_pair, truthy_text, direction_to_directional, downgrade_critical_tap_type, line_type_to_directional,
    meta_from_json_texts, score_from_chart, ChartData, JsonMetaTexts, RawEvent, RawNote, TickConverter,
};
use pjsekai_scores_rs::notes::tap::TapType;

fn note(id: i64, ticks: i64, lane_start: i32, lane_end: i32, category: i32, base: i32) -> RawNote {
    RawNote {
        id,
        ticks,
        lane_start,
        lane_end,
        category,
        note_base_type: base,
        previous_connection_id: -1,
        next_connection_id: -1,
        direction: 0,
        note_line_type: 0,
        speed: None,
        critical: false,
        is_skip_false: false,
    }
}

fn linked(mut n: RawNote, previous: i64, next: i64) -> RawNote {
    n.previous_connection_id = previous;
    n.next_connection_id = next;
    n
}

fn bpm(id: i64, ticks: i64, value: i64) -> RawEvent {
    RawEvent { id, ticks, event_type: 0, value: Fraction::from_integer(value), tick_length: 0 }
}

fn chart(events: Vec<RawEvent>, notes: Vec<RawNote>) -> ChartData {
    ChartData { meta: Meta::new(), ticks_per_beat: 480, events, notes }
}

#[test]
fn parses_basic_custom_chart_json() {
    // The top-level texts of the chart file: "title", "musicId", "playLevel"
    // and "musicDifficultyType".
    let meta = meta_from_json_texts(&JsonMetaTexts {
        info_title: None,
        title: Some("Example".to_string()),
        chart_title: None,
        info_artist: None,
        artist: None,
        info_author: None,
        author: None,
        designer: None,
        difficulty: Some("master".to_string()),
        chart_difficulty: None,
        play_level: Some("31".to_string()),
        chart_play_level: None,
        song_id: None,
        music_id: Some("42".to_string()),
        music_id_capital: None,
        chart_song_id: None,
        chart_music_id: None,
        chart_music_id_capital: None,
    });
    let mut flick = note(2, 480, 2, 3, 3, 3);
    flick.critical = true;
    flick.direction = 2;
    let data = ChartData {
        meta,
        ticks_per_beat: 480,
        events: vec![
            bpm(1, 0, 120),
            RawEvent {
                id: 2,
                ticks: 1920,
                event_type: 3,
                value: Fraction::from_integer(3),
                tick_length: 1440,
            },
            bpm(3, 3360, 180),
        ],
        notes: vec![note(1, 0, 0, 1, 0, 1), flick],
    };
    let mut score = score_from_chart(&data).unwrap();
    assert_eq!(score.meta.title.as_deref(), Some("Example"));
    assert_eq!(score.meta.songid.as_deref(), Some("42"));
    assert_eq!(score.meta.playlevel.as_deref(), Some("31"));
    assert_eq!(score.meta.difficulty.as_deref(), Some("master"));
    assert_eq!(score.active_notes.len(), 2);
    assert_eq!(score.get_time(Fraction::from_integer(1)), Fraction::from_integer(2));
    assert_eq!(score.get_time(Fraction::new(9, 4)), Fraction::new(15, 4));
}

#[test]
fn connected_chain_uses_ts_slide_types() {
    let data = chart(
        vec![bpm(1, 0, 120)],
        vec![
            linked(note(10, 0, 0, 1, 1, 2), -1, 11),
            linked(note(11, 480, 1, 2, 1, 2), 10, 12),
            linked(note(12, 960, 2, 3, 1, 1), 11, -1),
        ],
    );
    let score = score_from_chart(&data).unwrap();
    let slide_types: Vec<i32> = score
        .active_notes
        .iter()
        .filter_map(|&idx| {
            if score.notes[idx].is_slide() {
                Some(score.notes[idx].note_type())
            } else {
                None
            }
        })
        .collect();
    assert_eq!(slide_types, vec![1, 1, 2]);
}

#[test]
fn standalone_cancel_notes_match_ts_output() {
    let mut cancel = note(1, 0, 0, 1, 7, 9);
    cancel.critical = true;
    let data = chart(vec![bpm(1, 0, 120)], vec![cancel]);
    let score = score_from_chart(&data).unwrap();
    assert_eq!(score.active_notes.len(), 1);
    let n = &score.notes[score.active_notes[0]];
    assert!(n.is_none(&score.notes));
}

#[test]
fn parses_trace_flick_notes() {
    let mut trace = note(1, 0, 0, 1, 8, 4);
    trace.critical = true;
    trace.direction = 2;
    let data = chart(vec![bpm(1, 0, 120)], vec![trace]);
    let score = score_from_chart(&data).unwrap();
    assert_eq!(score.active_notes.len(), 1);
    let n = &score.notes[score.active_notes[0]];
    assert!(n.is_directional());
    assert!(n.is_trend(&score.notes));
    assert!(n.is_critical(&score.notes));
}

#[test]
fn relay_skip_notes_attach_tap_and_do_not_affect_path() {
    let data = chart(
        vec![bpm(1, 0, 120)],
        vec![
            linked(note(1, 0, 0, 1, 1, 2), -1, 2),
            linked(note(2, 480, 1, 2, 2, 5), 1, 3),
            linked(note(3, 481, 2, 3, 2, 5), 2, 4),
            linked(note(4, 960, 3, 4, 2, 5), 3, 5),
            linked(note(5, 1440, 4, 5, 1, 1), 4, -1),
        ],
    );
    let score = score_from_chart(&data).unwrap();
    let slides: Vec<usize> = score
        .active_notes
        .iter()
        .copied()
        .filter(|&idx| score.notes[idx].is_slide())
        .collect();
    assert_eq!(slides.len(), 4);
    let skip_slide = slides
        .iter()
        .copied()
        .find(|&idx| score.notes[idx].bar() == Fraction::new(1, 2))
        .expect("skip relay slide");
    let slide = score.notes[skip_slide].as_slide().unwrap();
    assert_ne!(slide.tap_idx, NO_NOTE);
    assert!(!slide.is_path(score.notes[skip_slide].note_type()));
}

#[test]
fn parses_guide_chains_as_decoration() {
    let data = chart(
        vec![bpm(1, 0, 120)],
        vec![linked(note(1, 0, 0, 1, 9, 10), -1, 2), linked(note(2, 480, 4, 5, 9, 13), 1, -1)],
    );
    let score = score_from_chart(&data).unwrap();
    let slides: Vec<_> = score
        .active_notes
        .iter()
        .filter_map(|&idx| score.notes[idx].as_slide())
        .collect();
    assert_eq!(slides.len(), 2);
    assert!(slides.iter().all(|slide| slide.decoration));
}

#[test]
fn converts_ticks_through_time_signatures() {
    let events = vec![RawEvent {
        id: 1,
        ticks: 1920,
        event_type: 3,
        value: Fraction::from_integer(3),
        tick_length: 1440,
    }];
    let tc = TickConverter::new(&events, 480).unwrap();
    assert_eq!(tc.segments.len(), 2);
    assert_eq!(tc.to_bar(960), Some(Fraction::new(1, 2)));
    assert_eq!(tc.to_bar(1920 + 720), Some(Fraction::new(3, 2)));
    assert_eq!(tc.to_bar(-480), Some(Fraction::new(-1, 4)));
}

#[test]
fn merges_events_at_one_bar() {
    let mut speed = bpm(2, 0, 0);
    speed.event_type = 1;
    speed.value = Fraction::new(3, 2);
    let data = chart(vec![bpm(1, 0, 150), speed], vec![]);
    let score = score_from_chart(&data).unwrap();
    assert_eq!(score.events.len(), 1);
    assert_eq!(score.events[0].bpm, Some(Fraction::from_integer(150)));
    assert_eq!(score.events[0].speed, Some(Fraction::new(3, 2)));
}

#[test]
fn maps_json_note_kinds() {
    assert_eq!(critical_pair(true, TapType::Critical, TapType::Tap), 2);
    assert_eq!(critical_pair(false, TapType::Critical, TapType::Tap), 1);
    assert_eq!(downgrade_critical_tap_type(2), 1);
    assert_eq!(downgrade_critical_tap_type(6), 5);
    assert_eq!(downgrade_critical_tap_type(8), 7);
    assert_eq!(downgrade_critical_tap_type(3), 3);
    assert_eq!(direction_to_directional(1), 3);
    assert_eq!(direction_to_directional(2), 4);
    assert_eq!(direction_to_directional(0), 1);
    assert_eq!(line_type_to_directional(1), 5);
    assert_eq!(line_type_to_directional(2), 2);
    assert_eq!(line_type_to_directional(7), 0);
}

#[test]
fn standalone_taps_in_slide_slots_lose_critical_mark() {
    let mut tap = note(3, 0, 0, 1, 0, 1);
    tap.critical = true;
    let data = chart(
        vec![bpm(1, 0, 120)],
        vec![linked(note(1, 0, 0, 1, 1, 2), -1, 2), linked(note(2, 480, 0, 1, 1, 1), 1, -1), tap],
    );
    let score = score_from_chart(&data).unwrap();
    let taps: Vec<i32> = score
        .active_notes
        .iter()
        .filter(|&&idx| score.notes[idx].is_tap())
        .map(|&idx| score.notes[idx].note_type())
        .collect();
    assert_eq!(taps, vec![1]);
}

#[test]
fn chart_fits_checks_ticks_per_beat_and_lanes() {
    let mut data = chart(vec![], vec![]);
    assert!(chart_fits(&data));
    data.ticks_per_beat = 0;
    assert!(!chart_fits(&data));
}

#[test]
fn text_fields_are_truthy_unless_empty_or_false() {
    assert!(truthy_text("1"));
    assert!(truthy_text("true"));
    assert!(truthy_text("FALSE"));
    assert!(!truthy_text(""));
    assert!(!truthy_text("0"));
    assert!(!truthy_text("false"));
    assert!(!truthy_text("False"));
}
