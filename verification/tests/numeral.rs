use baumaus::{named_number, named_string, first_string, numbers, Numeral};

fn n(s: &str) -> Numeral {
    Numeral::parse(s).unwrap()
}

fn texts(v: Vec<Numeral>) -> Vec<String> {
    v.iter().map(|n| n.to_text()).collect()
}

#[test]
fn numerals_follow_the_decimal_grammar() {
    for good in ["0", "6000", "-1", "1.", ".5", "-0.25", "-.5", "007"] {
        assert!(Numeral::parse(good).is_some(), "{good}");
        assert_eq!(n(good).to_text(), good);
    }
    for bad in ["", ".", "-", "--1", "1-2", "1.2.3", "1e5", "+1", "a", "-."] {
        assert!(Numeral::parse(bad).is_none(), "{bad}");
    }
}

#[test]
fn numerals_compare_by_value() {
    assert!(n("1").less_than(&n("2")));
    assert!(!n("2").less_than(&n("1")));
    assert!(n("9").less_than(&n("10")));
    assert!(n("-2").less_than(&n("-1")));
    assert!(n("-1").less_than(&n("0")));
    assert!(n("0.09").less_than(&n("0.10")));
    assert!(n("1.5").less_than(&n("1.50001")));
    assert!(n("-0.5").less_than(&n(".25")));
    // equal values
    assert!(!n("1.0").less_than(&n("1")));
    assert!(!n("1").less_than(&n("1.0")));
    assert!(!n("-0").less_than(&n("0")));
    assert!(!n("0").less_than(&n("-0")));
    assert!(!n("007").less_than(&n("7")));
    assert!(!n("12.").less_than(&n("12")));
}

#[test]
fn numbers_keeps_numerals_between_other_characters() {
    assert_eq!(
        texts(numbers("wall([0, 0], [6000, -1.5], thickness = 300);")),
        vec!["0", "0", "6000", "-1.5", "300"]
    );
    // pieces that are not numerals are dropped
    assert_eq!(texts(numbers("a - b . c 1.2.3 4")), vec!["4"]);
    assert_eq!(texts(numbers("id = \"wall-001\"")), vec!["-001"]);
    assert!(numbers("").is_empty());
}

#[test]
fn named_number_reads_the_first_number_after_the_name() {
    let line = "door(\"wall-001\", offset = 1200, width = 900)";
    assert_eq!(named_number(line, "offset").unwrap().to_text(), "1200");
    assert_eq!(named_number(line, "width").unwrap().to_text(), "900");
    assert!(named_number(line, "sill").is_none());
    // the name must be followed by " ="
    assert!(named_number("width=900", "width").is_none());
    assert_eq!(named_number("width = x, 5", "width").unwrap().to_text(), "5");
    assert!(named_number("width = none", "width").is_none());
}

#[test]
fn strings_are_read_between_quotes() {
    assert_eq!(first_string("door(\"wall-002\", offset = 1)").unwrap(), "wall-002");
    assert!(first_string("door(wall)").is_none());
    assert!(first_string("door(\"open").is_none());
    assert_eq!(first_string("x(\"\")").unwrap(), "");
    assert_eq!(named_string("project(name = \"Casa\")", "name").unwrap(), "Casa");
    assert!(named_string("project(name=\"Casa\")", "name").is_none());
    assert!(named_string("project(name = \"Casa)", "name").is_none());
    assert_eq!(
        named_string("wall([0,0],[1,1], id = \"north\")", "id").unwrap(),
        "north"
    );
}
