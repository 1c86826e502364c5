use wmfocus::align::{place, resolve_alignment, HorizontalAlign, Margin, VerticalAlign};
use wmfocus::font::{is_float_str, is_truetype_font, is_valid_color};
use wmfocus::geometry::contains;
use wmfocus::hints::{get_next_hint, required_length, HintError};

#[test]
fn required_length_examples() {
    // A = 2, N = 3: 2^1 = 2 < 3, 2^2 = 4 >= 3.
    assert_eq!(required_length(2, 3), 2);
    assert_eq!(required_length(2, 4), 2);
    assert_eq!(required_length(2, 5), 3);
    assert_eq!(required_length(4, 4), 1);
    assert_eq!(required_length(26, 1), 1);
    assert_eq!(required_length(26, 27), 2);
}

#[test]
fn empty_alphabet_is_an_error() {
    let used: Vec<&String> = Vec::new();
    assert_eq!(get_next_hint(used, "", 1), Err(HintError::EmptyAlphabet));
}

#[test]
fn single_character_alphabet_single_code() {
    let used: Vec<&String> = Vec::new();
    assert_eq!(get_next_hint(used, "x", 1).unwrap(), "x");
}

#[test]
fn batch_over_asdf_consumes_the_alphabet() {
    // Four windows, alphabet "asdf", max_count 4: length 1 and four distinct
    // single-character codes, consuming the whole alphabet.
    assert_eq!(required_length(4, 4), 1);
    let mut owned: Vec<String> = Vec::new();
    for _ in 0..4 {
        let refs: Vec<&String> = owned.iter().collect();
        let code = get_next_hint(refs, "asdf", 4).unwrap();
        assert_eq!(code.chars().count(), 1);
        assert!(!owned.contains(&code));
        assert!("asdf".contains(code.as_str()));
        owned.push(code);
    }
    assert_eq!(owned, ["a", "s", "d", "f"]);
}

#[test]
fn batch_over_ab_has_length_two() {
    let mut owned: Vec<String> = Vec::new();
    for _ in 0..3 {
        let refs: Vec<&String> = owned.iter().collect();
        let code = get_next_hint(refs, "ab", 3).unwrap();
        assert_eq!(code.chars().count(), 2);
        assert!(!owned.contains(&code));
        owned.push(code);
    }
    assert_eq!(owned, ["aa", "ab", "ba"]);
}

#[test]
fn exhausted_enumeration_falls_back_to_first_character() {
    let a = "a".to_string();
    let s = "s".to_string();
    let d = "d".to_string();
    let f = "f".to_string();
    let used: Vec<&String> = vec![&a, &s, &d, &f];
    // Every length-1 code is taken: the first alphabet character comes back,
    // a value that is not unique.
    assert_eq!(get_next_hint(used, "asdf", 4).unwrap(), "a");
}

#[test]
fn contains_examples() {
    assert!(contains((0, 0, 100, 50), (10, 10, 50, 20)));
    // Exceeds the right edge.
    assert!(!contains((0, 0, 100, 50), (10, 10, 95, 20)));
    // Exact fit: boundaries are inclusive.
    assert!(contains((0, 0, 100, 50), (0, 0, 100, 50)));
    assert!(!contains((5, 5, 10, 10), (4, 5, 10, 10)));
    assert!(!contains((5, 5, 10, 10), (5, 4, 10, 10)));
}

#[test]
fn place_without_margin() {
    let m = Margin::zero();
    assert_eq!(
        place((0, 0, 100, 50), (20, 10), HorizontalAlign::Left, VerticalAlign::Top, m),
        (0, 0, 20, 10)
    );
    assert_eq!(
        place((0, 0, 100, 50), (20, 10), HorizontalAlign::Right, VerticalAlign::Bottom, m),
        (80, 40, 20, 10)
    );
    assert_eq!(
        place((0, 0, 100, 50), (20, 10), HorizontalAlign::Center, VerticalAlign::Center, m),
        (40, 20, 20, 10)
    );
}

#[test]
fn place_with_margin() {
    // A margin factor of 1/5 of the container dimensions.
    let m = Margin::new(1, 5).unwrap();
    assert_eq!(
        place((0, 0, 100, 50), (20, 10), HorizontalAlign::Left, VerticalAlign::Top, m),
        (20, 10, 20, 10)
    );
    assert_eq!(
        place((0, 0, 100, 50), (20, 10), HorizontalAlign::Right, VerticalAlign::Bottom, m),
        (60, 30, 20, 10)
    );
}

#[test]
fn place_offset_container() {
    let m = Margin::zero();
    assert_eq!(
        place((30, 40, 100, 50), (20, 10), HorizontalAlign::Center, VerticalAlign::Top, m),
        (70, 40, 20, 10)
    );
}

#[test]
fn margin_construction() {
    assert!(Margin::new(0, 1).is_some());
    assert!(Margin::new(1, 2).is_some());
    assert!(Margin::new(2, 2).is_some());
    assert!(Margin::new(3, 2).is_none());
    assert!(Margin::new(0, 0).is_none());
}

#[test]
fn fill_forces_centering_and_no_margin() {
    let m = Margin::new(1, 5).unwrap();
    let (h, v, eff) = resolve_alignment(true, HorizontalAlign::Left, VerticalAlign::Top, m);
    assert_eq!(h, HorizontalAlign::Center);
    assert_eq!(v, VerticalAlign::Center);
    assert_eq!(eff, Margin::zero());
    let (h2, v2, m2) = resolve_alignment(false, HorizontalAlign::Left, VerticalAlign::Top, m);
    assert_eq!(h2, HorizontalAlign::Left);
    assert_eq!(v2, VerticalAlign::Top);
    assert_eq!(m2, m);
}

#[test]
fn alignment_parsing() {
    assert_eq!(HorizontalAlign::parse("left"), Ok(HorizontalAlign::Left));
    assert_eq!(HorizontalAlign::parse("center"), Ok(HorizontalAlign::Center));
    assert_eq!(HorizontalAlign::parse("right"), Ok(HorizontalAlign::Right));
    assert_eq!(HorizontalAlign::parse("top"), Err(()));
    assert_eq!("left".parse::<HorizontalAlign>(), Ok(HorizontalAlign::Left));
    assert_eq!(VerticalAlign::parse("top"), Ok(VerticalAlign::Top));
    assert_eq!(VerticalAlign::parse("center"), Ok(VerticalAlign::Center));
    assert_eq!(VerticalAlign::parse("bottom"), Ok(VerticalAlign::Bottom));
    assert_eq!(VerticalAlign::parse(""), Err(()));
    assert_eq!("bottom".parse::<VerticalAlign>(), Ok(VerticalAlign::Bottom));
}

#[test]
fn font_spec_validation() {
    assert!(is_truetype_font("Mono:72".to_string()).is_ok());
    assert!(is_truetype_font("Mono:72.5".to_string()).is_ok());
    assert!(is_truetype_font("Mono:1e3".to_string()).is_ok());
    // Only the part up to the second colon is the size.
    assert!(is_truetype_font("Mono:72:extra".to_string()).is_ok());
    assert_eq!(
        is_truetype_font("Mono".to_string()),
        Err("From font format".to_string())
    );
    assert_eq!(
        is_truetype_font("Mono:abc".to_string()),
        Err("invalid float literal".to_string())
    );
    assert_eq!(
        is_truetype_font("Mono:".to_string()),
        Err("cannot parse float from empty string".to_string())
    );
    assert_eq!(
        is_truetype_font("Mono::3".to_string()),
        Err("cannot parse float from empty string".to_string())
    );
}

#[test]
fn float_grammar_matches_std_parsing() {
    let cases = [
        "72", "72.5", "-72.5", "+3", ".5", "5.", "1e3", "1E3", "1e-3", "2.5e+10", "inf", "-inf",
        "Infinity", "NaN", "nan", "", ".", "+", "-", "e3", "1e", "1e+", "--1", "1.2.3", "1f",
        "0x10", " 1", "1 ", "1_000", "12e34", "iNf", "InFiNiTy",
    ];
    for c in cases {
        assert_eq!(
            is_float_str(c),
            c.parse::<f32>().is_ok(),
            "grammar and std disagree on {:?}",
            c
        );
    }
}

#[test]
fn color_validation() {
    assert!(is_valid_color("#dddddd".to_string()).is_ok());
    assert!(is_valid_color("rgba(30, 30, 30, 0.8)".to_string()).is_ok());
    assert!(is_valid_color("red".to_string()).is_ok());
    assert_eq!(
        is_valid_color("notacolor".to_string()),
        Err("Invalid color format".to_string())
    );
}
