use pjsekai_scores_rs::fraction::Fraction;

#[test]
fn test_display() {
    assert_eq!(Fraction::from_integer(1).to_string(), "1.");
    assert_eq!(Fraction::new(1, 2).to_string(), "1/2");
    assert_eq!(Fraction::new(3, 2).to_string(), "1.+1/2");
    assert_eq!(Fraction::from_integer(0).to_string(), "0.");
}

#[test]
fn test_arithmetic() {
    let a = Fraction::new(1, 2);
    let b = Fraction::new(1, 3);
    assert_eq!(a.add(b), Fraction::new(5, 6));
    assert_eq!(a.sub(b), Fraction::new(1, 6));
    assert_eq!(a.mul(b), Fraction::new(1, 6));
}

#[test]
fn test_limit_denominator() {
    let f = Fraction::new(355, 113);
    let limited = f.limit_denominator(10);
    assert_eq!(limited, Fraction::new(22, 7));
}

#[test]
fn keeps_lowest_terms_with_positive_denominator() {
    let f = Fraction::new(6, -4);
    assert_eq!(*f.numer(), -3);
    assert_eq!(*f.denom(), 2);
    assert_eq!(Fraction::new(-7, 2).to_string(), "-3.+-1/2");
    assert_eq!(Fraction::checked_new(1, 0), None);
}

#[test]
fn rounds_and_compares() {
    let f = Fraction::new(-7, 2);
    assert_eq!(f.floor(), -4);
    assert_eq!(f.ceil(), -3);
    assert_eq!(f.trunc(), -3);
    assert!(f.lt(&Fraction::zero()));
    assert!(Fraction::new(1, 3).le(&Fraction::new(2, 6)));
    assert_eq!(Fraction::new(1, 3).div(Fraction::new(2, 3)), Fraction::new(1, 2));
    assert_eq!(Fraction::new(1, 3).neg(), Fraction::new(-1, 3));
    assert_eq!(Fraction::new(-1, 3).abs(), Fraction::new(1, 3));
}

#[test]
fn limits_denominators_like_continued_fractions() {
    assert_eq!(Fraction::new(1, 3).limit_denominator(100), Fraction::new(1, 3));
    assert_eq!(Fraction::new(314159, 100000).limit_denominator(100), Fraction::new(311, 99));
    assert_eq!(Fraction::new(1, 4).limit_denominator(3), Fraction::new(1, 3));
    assert_eq!(Fraction::new(3, 4).limit_denominator(1), Fraction::from_integer(1));
}

#[test]
fn parses_fraction_texts() {
    assert_eq!(Fraction::parse(" 3/4 "), Some(Fraction::new(3, 4)));
    assert_eq!(Fraction::parse("120"), Some(Fraction::from_integer(120)));
    assert_eq!(Fraction::parse("1.5"), Some(Fraction::new(3, 2)));
    assert_eq!(Fraction::parse("abc"), None);
    assert_eq!(Fraction::parse("1/x"), None);
}

#[test]
fn addition_does_not_depend_on_order() {
    let a = Fraction::new(-7, 12);
    let b = Fraction::new(5, 18);
    assert_eq!(a.add(b), b.add(a));
    assert_eq!(a.add(b), Fraction::new(-11, 36));
}

fn no_farther(x: (i128, i128), a: (i128, i128), b: (i128, i128)) -> bool {
    (x.0 * a.1 - a.0 * x.1).abs() * b.1 <= (x.0 * b.1 - b.0 * x.1).abs() * a.1
}

#[test]
fn limited_fractions_are_the_closest_with_small_denominators() {
    let cases = [(314159, 100000, 100), (2, 7, 3), (-17, 23, 5), (1, 4, 3), (355, 113, 50), (7, 10, 9)];
    for &(n, d, max) in cases.iter() {
        let r = Fraction::new(n, d).limit_denominator(max);
        assert!(*r.denom() >= 1 && *r.denom() <= max);
        let x = (n as i128, d as i128);
        let got = (*r.numer() as i128, *r.denom() as i128);
        for q in 1..=(max as i128) {
            for p in (-3 * q)..=(3 * q) {
                assert!(no_farther(x, got, (p, q)), "{}/{} max {}: {}/{} nearer", n, d, max, p, q);
            }
        }
    }
}

#[test]
fn limiting_denominators_keeps_order() {
    let values: Vec<Fraction> = (0..40).map(|k| Fraction::new(k * 7 + 1, 37)).collect();
    for w in values.windows(2) {
        let a = w[0].limit_denominator(6);
        let b = w[1].limit_denominator(6);
        assert!(a.le(&b));
    }
}
