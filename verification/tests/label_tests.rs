use fnplot::label::{replace_all, synthesize_label};

fn chars(s: &str) -> Vec<char> {
    s.chars().collect()
}

fn text(v: &[char]) -> String {
    v.iter().collect()
}

fn subs(pairs: &[(&str, &str)]) -> Vec<(Vec<char>, Vec<char>)> {
    pairs.iter().map(|(p, r)| (chars(p), chars(r))).collect()
}

#[test]
fn marker_becomes_y_equals() {
    let out = synthesize_label(&chars("|x| x + 1"), &subs(&[]));
    assert_eq!(text(&out), "y = x + 1");
}

#[test]
fn label_for_constant_zero_function() {
    let out = synthesize_label(&chars("|x| 0.0"), &subs(&[]));
    assert_eq!(text(&out), "y = 0.0");
}

#[test]
fn unmatched_text_is_unchanged() {
    let out = synthesize_label(&chars("original_fn"), &subs(&[("idx", "3")]));
    assert_eq!(text(&out), "original_fn");
}

#[test]
fn substitution_replaces_every_occurrence() {
    let out = replace_all(&chars("idx + idx"), &chars("idx"), &chars("14"));
    assert_eq!(text(&out), "14 + 14");
}

#[test]
fn later_substitution_does_not_retrigger_earlier() {
    let out = synthesize_label(&chars("n * idx"), &subs(&[("idx", "14"), ("n", "idx")]));
    assert_eq!(text(&out), "idx * 14");
}

#[test]
fn substitution_order_is_the_given_order() {
    let with_order = synthesize_label(&chars("n * idx"), &subs(&[("n", "idx"), ("idx", "14")]));
    assert_eq!(text(&with_order), "14 * 14");
}

#[test]
fn debug_value_substitution() {
    let value = format!("{:?}", "Value");
    let out = synthesize_label(
        &chars("function_ret_closure(ident)"),
        &subs(&[("ident", &value)]),
    );
    assert_eq!(text(&out), "function_ret_closure(\"Value\")");
}

#[test]
fn parameter_value_after_marker() {
    let out = synthesize_label(&chars("|x| w * x"), &subs(&[("w", "2.5")]));
    assert_eq!(text(&out), "y = 2.5 * x");
}

#[test]
fn empty_pattern_is_noop() {
    let out = replace_all(&chars("abc"), &chars(""), &chars("zzz"));
    assert_eq!(text(&out), "abc");
}

#[test]
fn overlapping_occurrences_single_pass() {
    let out = replace_all(&chars("aaa"), &chars("aa"), &chars("b"));
    assert_eq!(text(&out), "ba");
}

#[test]
fn replacement_text_is_not_rescanned() {
    let out = replace_all(&chars("ab"), &chars("ab"), &chars("xabx"));
    assert_eq!(text(&out), "xabx");
}

#[test]
fn empty_input_stays_empty() {
    let out = synthesize_label(&chars(""), &subs(&[("idx", "14")]));
    assert_eq!(text(&out), "");
}
