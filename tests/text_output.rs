use admissions::decimal::parse_fixed;
use admissions::format::format_fixed;
use admissions::records::{apply_short_names, Grant, School, Score};
use admissions::subject::Subject;

fn chars(s: &str) -> Vec<char> {
    s.chars().collect()
}

#[test]
fn subject_names_round_trip() {
    for s in [
        Subject::Math,
        Subject::History,
        Subject::Physics,
        Subject::Biology,
        Subject::Chemistry,
        Subject::Geography,
        Subject::Literature,
        Subject::English,
        Subject::Georgian,
    ] {
        assert_eq!(Subject::from(s.to_string().as_str()), Some(s));
    }
    assert_eq!(Subject::from("ქართული"), Some(Subject::Georgian));
    assert_eq!(Subject::from("Math"), None);
    assert_eq!(Subject::Math.color(), "green");
    assert_eq!(Subject::Georgian.color(), "pink");
}

#[test]
fn grant_text() {
    assert_eq!(Grant::Zero.to_string(), "0");
    assert_eq!(Grant::Fifty.to_string(), "50");
    assert_eq!(Grant::Seventy.to_string(), "70");
    assert_eq!(Grant::Hundred.to_string(), "100");
}

#[test]
fn parses_fixed_point() {
    assert_eq!(parse_fixed(&chars("450.00")), Some(4500000));
    assert_eq!(parse_fixed(&chars("-3.5")), Some(-35000));
    assert_eq!(parse_fixed(&chars(".25")), Some(2500));
    assert_eq!(parse_fixed(&chars("7.")), Some(70000));
    assert_eq!(parse_fixed(&chars("+1")), Some(10000));
    assert_eq!(parse_fixed(&chars("1.23456")), Some(12346));
    assert_eq!(parse_fixed(&chars("1.00005")), Some(10001));
    assert_eq!(parse_fixed(&chars("-1.00005")), Some(-10001));
    assert_eq!(parse_fixed(&chars("1.00004999")), Some(10000));
    assert_eq!(parse_fixed(&chars("0.00004")), Some(0));
    assert_eq!(parse_fixed(&chars("123456789012")), Some(1234567890120000));
    assert_eq!(parse_fixed(&chars("0000000000000000000000012")), Some(120000));
    assert_eq!(parse_fixed(&chars("1e5")), Some(1000000000));
    assert_eq!(parse_fixed(&chars("2.5E-1")), Some(2500));
    assert_eq!(parse_fixed(&chars("-.5e+2")), Some(-500000));
    assert_eq!(parse_fixed(&chars("1e400")), None);
    assert_eq!(parse_fixed(&chars("0e999999999999999999999999999999")), Some(0));
    assert_eq!(parse_fixed(&chars("5e-999999999999999999999999999999")), Some(0));
    assert_eq!(parse_fixed(&chars("5e-5")), Some(1));
    assert_eq!(parse_fixed(&chars("1000000000000000")), None);
    assert_eq!(parse_fixed(&chars("inf")), None);
    assert_eq!(parse_fixed(&chars("-NaN")), None);
    assert_eq!(parse_fixed(&chars("1e")), None);
    assert_eq!(parse_fixed(&chars(".")), None);
    assert_eq!(parse_fixed(&chars("")), None);
}

#[test]
fn formats_fixed_point() {
    assert_eq!(format_fixed(200000, 2), "20.00");
    assert_eq!(format_fixed(123456, 2), "12.35");
    assert_eq!(format_fixed(-123449, 1), "-12.3");
    assert_eq!(format_fixed(5, 0), "0");
    assert_eq!(format_fixed(15000, 0), "2");
    assert_eq!(format_fixed(i64::MIN, 0), "-922337203685478");
}

#[test]
fn score_text() {
    assert_eq!(Score::Scaled(1643000).to_string(), "164.30");
    assert_eq!(Score::Equalized(200000).to_string(), "20.00");
    assert_eq!(
        Score::EqualizedAndScaled { scaled: 1643000, equalized: 345678 }.to_string(),
        "34.57-164.3"
    );
    assert_eq!(Score::EqualizedAndScaled { scaled: 1500000, equalized: 0 }.to_string(), "0.00-150");
}

#[test]
fn score_latex() {
    assert_eq!(Score::Scaled(1643000).to_latex(), "{\\color{gray}\\scriptsize164.3}");
    assert_eq!(Score::Equalized(345678).to_latex(), "34.6");
    assert_eq!(
        Score::EqualizedAndScaled { scaled: 1643000, equalized: 345500 }.to_latex(),
        "34.6{\\color{gray}\\scriptsize(164.3)}"
    );
}

#[test]
fn short_names_last_pair_wins() {
    let schools = vec![
        School { id: "001".to_string(), name: "First".to_string(), short_name: None },
        School { id: "002".to_string(), name: "Second".to_string(), short_name: Some("S".to_string()) },
        School { id: "003".to_string(), name: "Third".to_string(), short_name: None },
    ];
    let names = vec![
        ("001".to_string(), "F1".to_string()),
        ("003".to_string(), "T".to_string()),
        ("001".to_string(), "F2".to_string()),
    ];
    let out = apply_short_names(schools, &names);
    assert_eq!(out[0].short_name.as_deref(), Some("F2"));
    assert_eq!(out[1].short_name.as_deref(), Some("S"));
    assert_eq!(out[2].short_name.as_deref(), Some("T"));
    assert_eq!(out[0].name, "First");
}
