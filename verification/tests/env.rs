use std::cell::RefCell;
use yarn_berry_fetcher::yarnrc::env::{
    interpolate, skip_fallback, InterpolateError, Operator, Scanner, Token,
};

fn env(pairs: &[(&str, &str)]) -> impl Fn(&str) -> Option<String> {
    let pairs: Vec<(String, String)> = pairs
        .iter()
        .map(|(k, v)| (k.to_string(), v.to_string()))
        .collect();
    move |name: &str| {
        pairs
            .iter()
            .find(|(k, _)| k == name)
            .map(|(_, v)| v.clone())
    }
}

fn resolve(input: &str, pairs: &[(&str, &str)]) -> Result<String, InterpolateError> {
    interpolate(input, &env(pairs))
}

#[test]
fn passes_through_text_without_substitutions() {
    assert_eq!(resolve("plain token", &[]).unwrap(), "plain token");
    assert_eq!(resolve("", &[]).unwrap(), "");
}

#[test]
fn substitutes_a_set_variable() {
    assert_eq!(resolve("${TOKEN}", &[("TOKEN", "abc")]).unwrap(), "abc");
    assert_eq!(
        resolve("Bearer ${TOKEN}!", &[("TOKEN", "abc")]).unwrap(),
        "Bearer abc!"
    );
    assert_eq!(
        resolve("${A}${B}", &[("A", "1"), ("B", "2")]).unwrap(),
        "12"
    );
}

#[test]
fn required_form_accepts_an_empty_value_but_not_a_missing_one() {
    assert_eq!(resolve("${TOKEN}", &[("TOKEN", "")]).unwrap(), "");

    let err = resolve("${TOKEN}", &[]).unwrap_err().message();
    assert_eq!(err, "environment variable not found: TOKEN");
}

#[test]
fn dash_falls_back_only_when_unset() {
    assert_eq!(resolve("${TOKEN-fb}", &[("TOKEN", "abc")]).unwrap(), "abc");
    // Set but empty still counts as set.
    assert_eq!(resolve("${TOKEN-fb}", &[("TOKEN", "")]).unwrap(), "");
    assert_eq!(resolve("${TOKEN-fb}", &[]).unwrap(), "fb");
    assert_eq!(resolve("${TOKEN-}", &[]).unwrap(), "");
}

#[test]
fn colon_dash_falls_back_when_unset_or_empty() {
    assert_eq!(resolve("${TOKEN:-fb}", &[("TOKEN", "abc")]).unwrap(), "abc");
    assert_eq!(resolve("${TOKEN:-fb}", &[("TOKEN", "")]).unwrap(), "fb");
    assert_eq!(resolve("${TOKEN:-fb}", &[]).unwrap(), "fb");
}

#[test]
fn resolves_substitutions_inside_a_used_fallback() {
    assert_eq!(resolve("${A:-${B}}", &[("B", "from-b")]).unwrap(), "from-b");
    assert_eq!(resolve("${A:-${B:-deep}}", &[]).unwrap(), "deep");
    assert_eq!(
        resolve("prefix-${A:-${B}}-suffix", &[("B", "b")]).unwrap(),
        "prefix-b-suffix"
    );
}

#[test]
fn skips_a_fallback_the_value_made_redundant() {
    // B is never read, so its being unset is not an error.
    assert_eq!(resolve("${A:-${B}}", &[("A", "from-a")]).unwrap(), "from-a");
    assert_eq!(
        resolve("${A:-${B}}after", &[("A", "from-a")]).unwrap(),
        "from-aafter"
    );
    assert_eq!(
        resolve("${A:-plain text}", &[("A", "from-a")]).unwrap(),
        "from-a"
    );
}

#[test]
fn ends_a_skipped_fallback_on_the_first_unpaired_closing_brace() {
    assert_eq!(resolve("${A:-x{y}z}", &[("A", "v")]).unwrap(), "vz}");
}

#[test]
fn honours_escapes() {
    assert_eq!(resolve(r"\${TOKEN}", &[]).unwrap(), "${TOKEN}");
    assert_eq!(resolve(r"a\\b", &[]).unwrap(), r"a\b");
    assert_eq!(resolve(r"a\}b", &[]).unwrap(), "a}b");
    // A backslash that escapes nothing stays put.
    assert_eq!(resolve(r"a\nb", &[]).unwrap(), r"a\nb");
}

#[test]
fn treats_an_unmatched_closing_brace_as_text() {
    assert_eq!(resolve("a}b", &[]).unwrap(), "a}b");
    assert_eq!(resolve("${A}}", &[("A", "x")]).unwrap(), "x}");
}

#[test]
fn rejects_syntax_it_cannot_read() {
    for input in ["${}", "${1ABC}", "${A B}", "${A+b}"] {
        let err = resolve(input, &[]).unwrap_err().message();
        assert_eq!(
            err,
            format!("invalid environment variable substitution syntax: {input}")
        );
    }
}

#[test]
fn rejects_a_substitution_that_is_never_closed() {
    let err = resolve("${A:-fb", &[]).unwrap_err().message();
    assert_eq!(err, "incomplete environment variable substitution: ${A:-fb");
}

#[test]
fn the_first_fault_is_reported() {
    let err = resolve("${A} ${}", &[]).unwrap_err().message();
    assert_eq!(err, "environment variable not found: A");
    let err = resolve("${} ${A}", &[]).unwrap_err().message();
    assert_eq!(err, "invalid environment variable substitution syntax: ${} ${A}");
}

#[test]
fn text_around_substitutions_may_hold_any_characters() {
    assert_eq!(resolve("ä${A}→$", &[("A", "ß")]).unwrap(), "äß→$");
    assert_eq!(resolve("$A {b} \\", &[]).unwrap(), "$A {b} \\");
}

#[test]
fn a_used_fallback_keeps_what_follows_it() {
    assert_eq!(resolve("${A:-x}y", &[]).unwrap(), "xy");
    assert_eq!(resolve("${A:-x\\}}y", &[]).unwrap(), "x}y");
}

#[test]
fn tokens_span_bytes() {
    let mut scanner = Scanner::new("ä}→${A:-x");
    let (start, end, token) = scanner.next_token().unwrap();
    assert_eq!((start, end), (2, 3));
    assert!(matches!(token, Token::CloseBrace));
    let (start, end, token) = scanner.next_token().unwrap();
    assert_eq!((start, end), (6, 11));
    assert!(matches!(
        token,
        Token::Variable {
            name: "A",
            operator: Operator::UnsetOrEmpty
        }
    ));
    assert!(scanner.next_token().is_none());
    assert_eq!(scanner.pos, 12);
    assert!(scanner.next_token().is_none());
}

#[test]
fn substitutions_are_parsed_at_bytes() {
    let mut scanner = Scanner::new("ß${NAME}");
    let (start, end, token) = scanner.parse_variable(2).unwrap();
    assert_eq!((start, end), (2, 8));
    assert_eq!(scanner.pos, 8);
    assert!(matches!(
        token,
        Token::Variable {
            name: "NAME",
            operator: Operator::Required
        }
    ));
    let mut scanner = Scanner::new("ß${ä}");
    assert!(scanner.parse_variable(2).is_none());
    assert_eq!(scanner.pos, 0);
}

fn skip(input: &str, pos: usize, depth: isize) -> (usize, usize, isize) {
    let mut scanner = Scanner { input, pos };
    let mut depth = depth;
    let end = skip_fallback(&mut scanner, &mut depth, input.len());
    (end, scanner.pos, depth)
}

#[test]
fn fallbacks_are_skipped_to_their_braces() {
    assert_eq!(skip("${A:-${B}}after", 5, 1), (10, 10, 0));
    assert_eq!(skip(r"x\}y}z", 0, 1), (5, 5, 0));
    assert_eq!(skip("fb", 0, 1), (2, 2, 1));
    assert_eq!(skip("ä${B-}", 0, 3), (7, 7, 3));
    assert_eq!(skip("ä${B-", 0, 3), (6, 6, 4));
    assert_eq!(skip("${}ä}", 0, 1), (3, 3, 0));
}

#[test]
fn texts_are_resolved_one_by_one() {
    let env = [("A", "${B}\\}")];
    for (a, b) in [("x${A}", "y}"), ("\\$", "{A}"), ("${C:-d}", "${A}")] {
        let joined = resolve(&format!("{a}{b}"), &env).unwrap();
        assert_eq!(
            joined,
            resolve(a, &env).unwrap() + &resolve(b, &env).unwrap()
        );
    }
    assert!(resolve("x${A}${B}", &env).is_err());
}

#[test]
fn values_are_not_read_again() {
    assert_eq!(
        resolve("p ${A} q", &[("A", "${X} } \\")]).unwrap(),
        "p ${X} } \\ q"
    );
}

#[test]
fn faults_are_reported_before_unclosed_substitutions() {
    assert_eq!(
        resolve("${A:-${B}", &[]).unwrap_err().message(),
        "environment variable not found: B"
    );
    assert_eq!(
        resolve("${A:-${}", &[("A", "x")]).unwrap(),
        "x"
    );
    assert_eq!(
        resolve("${A:-${B}", &[("A", "x")]).unwrap_err().message(),
        "incomplete environment variable substitution: ${A:-${B}"
    );
}

fn asked(input: &str, pairs: &[(&str, &str)]) -> Vec<String> {
    let names = RefCell::new(Vec::new());
    let known = env(pairs);
    let _ = interpolate(input, &|name: &str| {
        names.borrow_mut().push(name.to_string());
        known(name)
    });
    names.into_inner()
}

#[test]
fn what_is_read_is_asked_in_order() {
    assert_eq!(asked("${A:-${B}}", &[("A", "v")]), ["A"]);
    assert_eq!(asked("${A:-${B}}", &[("B", "v")]), ["A", "B"]);
    assert_eq!(asked("${A:-${B}}", &[("A", ""), ("B", "v")]), ["A", "B"]);
    assert_eq!(
        asked("${B_1}-${A}-${B_1}", &[("A", "1"), ("B_1", "2")]),
        ["B_1", "A", "B_1"]
    );
    assert!(asked(r"\${A} \\", &[("A", "v")]).is_empty());
    // Nothing is asked behind a fault.
    assert_eq!(asked("${A}${B}${C}", &[("A", "v"), ("C", "v")]), ["A", "B"]);
    assert_eq!(asked("${A}${1}${C}", &[("A", "v"), ("C", "v")]), ["A"]);
    // A substitution that is never closed is asked about all the same.
    assert_eq!(asked("${A-x ${B}", &[("B", "v")]), ["A", "B"]);
    assert_eq!(asked("${A-x ${B}", &[("A", "v")]), ["A"]);
}
