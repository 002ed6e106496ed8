use pjsekai_scores_rs::fraction::Fraction;
use pjsekai_scores_rs::lyric::Lyric;

#[test]
fn lyric_pieces_are_spread_over_the_bar() {
    let lyric = Lyric::load("1: a/b\nnot a lyric line\n 3: /c/ \n");
    let words: Vec<(Fraction, String)> =
        lyric.words.iter().map(|w| (w.bar, w.text.clone())).collect();
    assert_eq!(
        words,
        vec![
            (Fraction::from_integer(1), "a".to_string()),
            (Fraction::new(3, 2), "b".to_string()),
            (Fraction::new(10, 3), "c".to_string()),
        ]
    );
}

#[test]
fn try_load_refuses_positions_past_the_integer_range() {
    assert!(Lyric::try_load("9223372036854775807: a/b\n").is_none());
    let lyric = Lyric::try_load("9223372036854775807: a/\n").unwrap();
    assert_eq!(lyric.words.len(), 1);
    assert_eq!(lyric.words[0].bar, Fraction::from_integer(9223372036854775807));
    assert_eq!(Lyric::try_load("").unwrap().words.len(), 0);
}
