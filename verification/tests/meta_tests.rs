use pjsekai_scores_rs::fraction::Fraction;
use pjsekai_scores_rs::meta::Meta;

fn meta(title: Option<&str>, artist: Option<&str>, basebpm: Option<i64>) -> Meta {
    let mut m = Meta::new();
    m.title = title.map(str::to_string);
    m.artist = artist.map(str::to_string);
    m.basebpm = basebpm.map(Fraction::from_integer);
    m
}

fn fields(m: &Meta) -> (Option<String>, Option<String>, Option<Fraction>) {
    (m.title.clone(), m.artist.clone(), m.basebpm)
}

#[test]
fn merge_prefers_set_values_of_the_left_side() {
    let a = meta(Some(""), Some("A"), Some(0));
    let b = meta(Some("B"), Some("ignored"), Some(150));
    assert_eq!(
        fields(&a.merge(&b)),
        (Some("B".to_string()), Some("A".to_string()), Some(Fraction::from_integer(150)))
    );
}

#[test]
fn merge_is_idempotent_and_associative() {
    let a = meta(Some("T"), None, None);
    let b = meta(None, Some("B"), Some(0));
    let c = meta(Some("C"), Some("C"), Some(120));
    assert_eq!(fields(&a.merge(&a)), fields(&a));
    assert_eq!(
        fields(&a.merge(&b).merge(&c)),
        fields(&a.merge(&b.merge(&c)))
    );
    assert_eq!(
        fields(&a.merge(&b).merge(&c)),
        (Some("T".to_string()), Some("B".to_string()), Some(Fraction::from_integer(120)))
    );
}
