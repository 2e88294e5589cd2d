use evaluations::grammar::{freeze_text, replace_first_star_text, rform_text, wrap_text};
use evaluations::synthesis::{stratum_item, stratum_size, Strata};

fn strings(items: &[&str]) -> Vec<String> {
    items.iter().map(|s| s.to_string()).collect()
}

/// The strata of lengths 0 to 8 that a sweep from scratch finds.
fn small_strata() -> Strata {
    let mut nullaries: Vec<Vec<String>> = vec![Vec::new(); 9];
    let mut unaries: Vec<Vec<String>> = vec![Vec::new(); 9];
    nullaries[1] = strings(&["0"]);
    nullaries[4] = strings(&["^(0)"]);
    nullaries[7] = strings(&["^(^(0))"]);
    unaries[4] = strings(&["^(*)"]);
    unaries[7] = strings(&["^(^(*))"]);
    Strata { nullaries, unaries }
}

fn items(s: &Strata, length: u64) -> Vec<(String, bool)> {
    let n = stratum_size(s, length).unwrap();
    (0..n).map(|k| stratum_item(s, length, k)).collect()
}

#[test]
fn grammar_builders() {
    assert_eq!(wrap_text("0"), "^(0)");
    assert_eq!(rform_text("^(#)", "0", "^(0)"), "R(^(#),0,^(0))");
    assert_eq!(freeze_text("^(*)"), "^(#)");
    assert_eq!(freeze_text("R(^(*),*,0)"), "R(^(#),*,0)");
    assert_eq!(replace_first_star_text("R(^(#),*,*)", "0"), "R(^(#),0,*)");
    assert_eq!(replace_first_star_text("^(0)", "0"), "^(0)");
}

#[test]
fn first_strata() {
    let s = small_strata();
    assert_eq!(items(&s, 0), vec![]);
    assert_eq!(items(&s, 1), vec![("0".to_string(), true)]);
    assert_eq!(items(&s, 2), vec![]);
    assert_eq!(items(&s, 3), vec![]);
    assert_eq!(items(&s, 4), vec![("^(0)".to_string(), true), ("^(*)".to_string(), false)]);
    assert_eq!(items(&s, 7), vec![("^(^(0))".to_string(), true), ("^(^(*))".to_string(), false)]);
}

#[test]
fn length_eleven_brings_the_first_recursions() {
    let s = small_strata();
    assert_eq!(stratum_size(&s, 11), Some(3));
    assert_eq!(
        items(&s, 11),
        vec![
            ("R(^(#),0,0)".to_string(), true),
            ("R(^(#),0,*)".to_string(), false),
            ("R(^(#),*,0)".to_string(), false),
        ]
    );
}

#[test]
fn every_form_has_its_stratum_length() {
    let s = small_strata();
    for length in 0..=14u64 {
        for (form, _) in items(&s, length) {
            assert_eq!(form.len() as u64, length, "{}", form);
        }
    }
}

#[test]
fn larger_stratum_is_exhaustive_over_its_rules() {
    let s = small_strata();
    // Length 14: ^(N) for N of length 11 (none held here), R(U#,A,B) with
    // |U|+|A|+|B| = 9, and R(U#,N,*)/R(U#,*,N) with |U|+|N| = 8.
    let got = items(&s, 14);
    let expected = vec![
        ("R(^(#),0,^(0))".to_string(), true),
        ("R(^(#),^(0),0)".to_string(), true),
        ("R(^(^(#)),0,0)".to_string(), true),
        ("R(^(#),^(0),*)".to_string(), false),
        ("R(^(#),*,^(0))".to_string(), false),
        ("R(^(^(#)),0,*)".to_string(), false),
        ("R(^(^(#)),*,0)".to_string(), false),
    ];
    assert_eq!(got, expected);
}
