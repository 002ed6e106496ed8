use pjsekai_scores_rs::notes::event::Event;
use pjsekai_scores_rs::fraction::Fraction;
use pjsekai_scores_rs::notes::NO_NOTE;
use pjsekai_scores_rs::score::{content_looks_json, is_json_extension, path_looks_json, Score};

const CHART: &str = "#TITLE \"Example\"\n#BPM01: 120\n#BPM02: 180\n#00008: 01\n#00108: 02\n#00012: 1100\n#00052: 1100\n#00010: 1100\n";

#[test]
fn parses_meta_notes_and_timing() {
    let mut score = Score::parse(CHART);
    assert_eq!(score.meta.title.as_deref(), Some("Example"));
    assert_eq!(score.notes.len(), 3);
    assert_eq!(score.active_notes.len(), 1);
    let active = score.notes[score.active_notes[0]];
    assert!(active.is_directional());
    assert_eq!(active.as_directional().unwrap().tap_idx, 0);
    assert_eq!(score.get_time(Fraction::from_integer(1)), Fraction::from_integer(2));
    assert_eq!(score.get_time(Fraction::from_integer(2)), Fraction::new(10, 3));
    assert_eq!(
        score.get_time_delta(Fraction::from_integer(1), Fraction::from_integer(2)),
        Fraction::new(4, 3)
    );
}

#[test]
fn drops_notes_outside_playable_lanes_as_skill_events() {
    let mut score = Score::parse(CHART);
    let event = score.get_event(Fraction::zero());
    assert_eq!(event.text.as_deref(), Some("SKILL"));
    assert_eq!(event.bpm, Some(Fraction::from_integer(120)));
    assert_eq!(score.events.len(), 3);
}

#[test]
fn empty_chart_has_default_timing() {
    let mut score = Score::parse("");
    assert_eq!(score.events.len(), 0);
    let timed = score.timed_events().clone();
    assert_eq!(timed.len(), 1);
    assert_eq!(timed[0].1.bpm, Some(Fraction::from_integer(120)));
    assert_eq!(score.get_time(Fraction::from_integer(3)), Fraction::from_integer(6));
}

#[test]
fn rejects_charts_without_a_meaning() {
    assert!(Score::try_parse("#BPM01: 1/0\n").is_none());
    assert!(Score::try_parse("#REQUEST \"ticks_per_beat 0\"\n#TIL00: \"0'0:1.0\"\n").is_none());
    assert!(Score::try_parse(CHART).is_some());
}

#[test]
fn links_slide_chains_by_channel() {
    let chart = "#00032a: 11\n#00132a: 21\n";
    let score = Score::parse(chart);
    assert_eq!(score.notes.len(), 2);
    let first = score.notes[0].as_slide().copied().unwrap();
    let second = score.notes[1].as_slide().copied().unwrap();
    assert_eq!(first.head_idx, 0);
    assert_eq!(first.next_idx, 1);
    assert_eq!(second.head_idx, 0);
    assert_eq!(second.next_idx, NO_NOTE);
    assert_eq!(score.active_notes, vec![0, 1]);
}

#[test]
fn dedups_identical_consecutive_events() {
    let chart = "#BPM01: 150\n#00008: 0101\n#00008: 01\n";
    let score = Score::parse(chart);
    assert_eq!(score.events.len(), 2);
    assert_eq!(score.events[0].bar, Fraction::zero());
    assert_eq!(score.events[1].bar, Fraction::new(1, 2));
}

#[test]
fn detects_json_inputs() {
    assert!(content_looks_json("  \n{\"a\": 1}"));
    assert!(content_looks_json("[1]"));
    assert!(!content_looks_json("#TITLE x"));
    assert!(!content_looks_json("   "));
    assert!(path_looks_json("charts/master.JSON"));
    assert!(!path_looks_json("charts/master.sus"));
    assert!(is_json_extension("Json"));
    assert!(!is_json_extension("jsonl"));
}

#[test]
fn checked_event_and_limited_time_agree_with_exact_ones() {
    let mut score = Score::parse(CHART);
    let bar = Fraction::new(3, 2);
    let event = score.checked_event(bar).unwrap();
    assert_eq!(event.bpm, Some(Fraction::from_integer(180)));
    assert_eq!(score.checked_limited_time(bar), Some(Fraction::new(8, 3)));
    assert_eq!(score.checked_time(bar), Some(Fraction::new(8, 3)));
}

#[test]
fn notes_can_be_changed_in_place() {
    let mut score = Score::parse("#00032a: 11\n#00132a: 21\n");
    score.notes[0].base_mut().lane = 7;
    assert_eq!(score.notes[0].lane(), 7);
    score.notes[0].as_slide_mut().unwrap().decoration = true;
    assert!(score.notes[0].as_slide().unwrap().decoration);
    assert!(score.notes[0].as_directional_mut().is_none());
}

#[test]
fn init_events_sorts_by_bar_and_drops_repeats() {
    let mut score = Score::new();
    score.events.push(Event::new(Fraction::from_integer(2)).with_text("late".to_string()));
    score.events.push(Event::new(Fraction::new(1, 2)).with_text("early".to_string()));
    score.events.push(Event::new(Fraction::new(1, 2)).with_text("early".to_string()));
    score.events.push(Event::new(Fraction::new(1, 2)).with_text("same bar".to_string()));
    score.init_events();
    let texts: Vec<&str> = score.events.iter().map(|e| e.text.as_deref().unwrap()).collect();
    assert_eq!(texts, vec!["early", "same bar", "late"]);
}

#[test]
fn merging_an_event_with_itself_changes_nothing() {
    let e = Event::new(Fraction::new(3, 2))
        .with_bpm(Fraction::from_integer(150))
        .with_text("x".to_string());
    assert!(e.merge(&e).same_as(&e));
}

#[test]
fn plain_json_file_names_are_detected() {
    assert!(path_looks_json("chart.json"));
    assert!(!path_looks_json(".json"));
    assert!(!path_looks_json("chart"));
}

#[test]
fn defaults_are_empty() {
    use_defaults();
}

fn use_defaults() {
    let d = pjsekai_scores_rs::notes::directional::Directional::default();
    assert_eq!(d.tap_idx, NO_NOTE);
    assert_eq!(pjsekai_scores_rs::line::TicksPerBeat::default().0, 480);
    assert!(pjsekai_scores_rs::lyric::Lyric::default().words.is_empty());
    let s = Score::default();
    assert!(s.notes.is_empty() && s.events.is_empty() && s.active_notes.is_empty());
}

#[test]
fn arena_check_finds_links_outside_the_arena() {
    let score = Score::parse("#00032a: 11\n#00132a: 21\n");
    assert!(pjsekai_scores_rs::notes::arena_is_wf(&score.notes));
    let mut notes = score.notes.clone();
    notes.truncate(1);
    assert!(!pjsekai_scores_rs::notes::arena_is_wf(&notes));
}

#[test]
fn notes_in_the_slot_of_a_slide_leave_the_standing_notes() {
    let chart = "#00012: 11\n#00052: 11\n#00032a: 11\n#00013: 11\n";
    let score = Score::parse(chart);
    assert_eq!(score.notes.len(), 4);
    assert_eq!(score.active_notes.len(), 2);
    assert!(score.active_notes[0] < score.active_notes[1]);
    let standing: Vec<_> = score.active_notes.iter().map(|&i| score.notes[i]).collect();
    assert!(standing.iter().any(|n| n.is_slide() && n.lane() == 2));
    assert!(standing.iter().any(|n| n.is_tap() && n.lane() == 3));
    let slide = standing.iter().find(|n| n.is_slide()).unwrap().as_slide().copied().unwrap();
    assert!(score.notes[slide.tap_idx].is_tap());
    assert!(score.notes[slide.directional_idx].is_directional());
}

#[test]
fn elapsed_time_does_not_decrease_under_one_tempo() {
    let mut score = Score::parse("#BPM01: 7\n#00008: 01\n");
    let mut last = score.get_time(Fraction::zero());
    for k in 1..30 {
        let t = score.get_time(Fraction::new(k, 7));
        assert!(last.le(&t));
        last = t;
    }
}

#[test]
fn elapsed_time_does_not_decrease_across_tempo_changes() {
    let chart = "#BPM01: 120\n#BPM02: 7\n#BPM03: 333\n#00008: 01\n#00108: 02\n#00308: 03\n";
    let mut score = Score::parse(chart);
    let mut last = score.get_time(Fraction::zero());
    for k in 1..60 {
        let t = score.get_time(Fraction::new(k, 11));
        assert!(last.le(&t));
        last = t;
    }
}
