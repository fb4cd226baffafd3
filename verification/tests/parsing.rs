use rewriter::parser::parse;
use rewriter::parser::parse_raw_string;
use rewriter::parser::split;
use rewriter::parser::ProgramPart;

fn raw(text: &str) -> ProgramPart {
    ProgramPart::RawString(text.to_string())
}

fn group(children: Vec<ProgramPart>) -> ProgramPart {
    ProgramPart::SubstitutionInvocation(children)
}

#[test]
fn test_split() {
    assert_eq!(split(""), None);
    assert_eq!(split("a"), Some(('a', "")));
    assert_eq!(split("abc"), Some(('a', "bc")));
}

#[test]
fn test_parse_raw_string() {
    assert_eq!(parse_raw_string("abc", 0), ("abc".to_string(), 3));
    assert_eq!(parse_raw_string("ab(c", 0), ("ab".to_string(), 2));
    assert_eq!(parse_raw_string("ab;c", 0), ("ab".to_string(), 2));
    assert_eq!(parse_raw_string("ab)c", 0), ("ab".to_string(), 2));
    // An escaped structural character joins the run.
    assert_eq!(parse_raw_string("ab\\(c(d", 0), ("ab(c".to_string(), 5));
    // A trailing backslash stands for itself.
    assert_eq!(parse_raw_string("ab\\", 0), ("ab\\".to_string(), 3));
    // Reading can start anywhere.
    assert_eq!(parse_raw_string("ab(cd)e", 3), ("cd".to_string(), 5));
}

#[test]
fn test_parse_plain_text() {
    assert_eq!(parse("abc"), group(vec![raw("abc")]));
    assert_eq!(parse(""), group(vec![]));
}

#[test]
fn test_parse_groups() {
    assert_eq!(
        parse("a(b;c)d"),
        group(vec![
            raw("a"),
            group(vec![raw("b"), raw("c")]),
            raw("d"),
        ])
    );
    assert_eq!(
        parse("x(y(z))"),
        group(vec![
            raw("x"),
            group(vec![raw("y"), group(vec![raw("z")])]),
        ])
    );
}

#[test]
fn test_parse_runs_are_maximal() {
    // A separator splits two runs; without one, a single maximal run.
    assert_eq!(parse("a;b"), group(vec![raw("a"), raw("b")]));
    assert_eq!(parse("ab"), group(vec![raw("ab")]));
    assert_eq!(parse("a;;b"), group(vec![raw("a"), raw("b")]));
}

#[test]
fn test_parse_escapes_and_strays() {
    // An escaped opener is plain text.
    assert_eq!(parse("abc\\(def"), group(vec![raw("abc(def")]));
    // A closing delimiter with no open group is a literal character.
    assert_eq!(parse("a)b"), group(vec![raw("a"), raw(")"), raw("b")]));
    // An unterminated group is closed by the end of the input.
    assert_eq!(parse("a(b"), group(vec![raw("a"), group(vec![raw("b")])]));
}
