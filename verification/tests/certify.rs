use evaluations::certify::{certify, expression_for, step_limited_shorter_than, Certification};

#[test]
fn certification_levels() {
    assert!(certify(12, 11, 0) == Certification::Provisional);
    assert!(certify(12, 11, 5) == Certification::Provisional);
    assert!(certify(11, 11, 2) == Certification::Conditional(2));
    assert!(certify(4, 11, 0) == Certification::Definitive);
}

#[test]
fn certification_words() {
    assert_eq!(Certification::Provisional.describe(), "provisional");
    assert_eq!(Certification::Definitive.describe(), "definitive");
    assert_eq!(
        Certification::Conditional(3).describe(),
        "conditional (3 step-limited forms shorter than this await retry)"
    );
}

#[test]
fn step_limited_counting() {
    let contents = "R(R(^(#),#,0),0,^(0))\n\n   \n^(0)\nR(^(#),0,0)\n";
    assert_eq!(step_limited_shorter_than(contents, 5), 1);
    assert_eq!(step_limited_shorter_than(contents, 11), 1);
    assert_eq!(step_limited_shorter_than(contents, 12), 2);
    assert_eq!(step_limited_shorter_than(contents, 100), 3);
    assert_eq!(step_limited_shorter_than("", 100), 0);
}

#[test]
fn index_lookup() {
    let contents = "0\t0\n1\t^(0)\n2\t^(^(0))\nbad line\n2\tlater\n";
    assert_eq!(expression_for(contents, "1"), Some("^(0)".to_string()));
    assert_eq!(expression_for(contents, "2"), Some("^(^(0))".to_string()));
    assert_eq!(expression_for(contents, "3"), None);
    assert_eq!(expression_for(contents, ""), None);
    assert_eq!(expression_for("", "0"), None);
}
