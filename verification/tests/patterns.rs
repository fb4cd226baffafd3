use rewriter::rules::MatchingError;
use rewriter::rules::PatternCreationError;
use rewriter::rules::PatternRule;
use rewriter::rules::Replacer;
use rewriter::rules::ReplacerResult;
use rewriter::rules::RuleAction;
use rewriter::rules::RuleStack;
use rewriter::Parameters;
use rewriter::Template;

#[derive(Clone)]
enum Rep {
    Minus,
    CountdownStep,
}

impl Replacer for Rep {
    fn replace(&self, captures: &Parameters) -> ReplacerResult<Rep> {
        match self {
            Rep::Minus => {
                let a: i64 = captures.get(1).parse().unwrap();
                let b: i64 = captures.get(2).parse().unwrap();
                ReplacerResult {
                    replacement: format!("{}", a - b),
                    new_rule: None,
                }
            }
            Rep::CountdownStep => {
                let n = captures.get(1).to_string();
                ReplacerResult {
                    replacement: format!("{} (countdown (minus {};1))", n, n),
                    new_rule: Some(minus_rule()),
                }
            }
        }
    }
}

fn minus_rule() -> PatternRule<Rep> {
    PatternRule::new("(minus *;*)", RuleAction::Builtin(Rep::Minus))
        .ok()
        .unwrap()
}

fn countdown_step_rule() -> PatternRule<Rep> {
    PatternRule::new("(countdown *)", RuleAction::Builtin(Rep::CountdownStep))
        .ok()
        .unwrap()
}

fn countdown_base_rule() -> PatternRule<Rep> {
    PatternRule::new("(countdown 0)", RuleAction::Rewrite(Template::parse("0")))
        .ok()
        .unwrap()
}

#[test]
fn test_pattern_creation_errors() {
    let r: Result<PatternRule<Rep>, PatternCreationError> =
        PatternRule::new("*abc", RuleAction::Builtin(Rep::Minus));
    assert_eq!(r.err().unwrap(), PatternCreationError::StarAtBeginning);
    let r: Result<PatternRule<Rep>, PatternCreationError> =
        PatternRule::new("a**b", RuleAction::Builtin(Rep::Minus));
    assert_eq!(r.err().unwrap(), PatternCreationError::AdjacentStars);
    let r: Result<PatternRule<Rep>, PatternCreationError> =
        PatternRule::new("a\\*b*", RuleAction::Builtin(Rep::Minus));
    assert!(r.is_ok());
}

#[test]
fn test_pattern_matching() {
    let rule = PatternRule::<Rep>::new("a*c", RuleAction::Builtin(Rep::Minus))
        .ok()
        .unwrap();
    assert_eq!(rule.matches("abbbc").ok().unwrap(), vec!["abbbc", "bbb"]);
    assert_eq!(rule.matches("ac").ok().unwrap(), vec!["ac", ""]);
    assert_eq!(rule.matches("zzz").err().unwrap(), MatchingError::NotMatched);
    // The first match anywhere in the text counts; `*` takes as little as fits.
    assert_eq!(rule.matches("xacyacz").ok().unwrap(), vec!["ac", ""]);

    let rule = PatternRule::<Rep>::new("a?c", RuleAction::Builtin(Rep::Minus))
        .ok()
        .unwrap();
    assert!(rule.matches("abc").is_ok());
    assert_eq!(rule.matches("abbc").err().unwrap(), MatchingError::NotMatched);

    // A wildcard escaped in the pattern language is a verbatim character.
    let rule = PatternRule::<Rep>::new("a\\*c", RuleAction::Builtin(Rep::Minus))
        .ok()
        .unwrap();
    assert!(rule.matches("a*c").is_ok());
    assert_eq!(rule.matches("abc").err().unwrap(), MatchingError::NotMatched);
}

#[test]
fn test_multibyte_characters_in_patterns() {
    let rule = PatternRule::<Rep>::new("ä?ü*ß", RuleAction::Builtin(Rep::Minus))
        .ok()
        .unwrap();
    assert_eq!(
        rule.matches("xäöü--ßy").ok().unwrap(),
        vec!["äöü--ß", "--"]
    );
}

#[test]
fn test_rewrite_rule_renders_captures() {
    let template = Template::parse("{$1|$2}");
    let rule = PatternRule::<Rep>::new("[*=*]", RuleAction::Rewrite(template))
        .ok()
        .unwrap();
    let mut stack = RuleStack::new();
    stack.push(rule);
    assert_eq!(stack.execute("x[ab=cd]y".into()), "x{ab|cd}y");
}

#[test]
fn test_no_rule_matches_leaves_text_unchanged() {
    let mut stack: RuleStack<Rep> = RuleStack::new();
    assert_eq!(stack.execute("anything".into()), "anything");
    stack.push(minus_rule());
    assert_eq!(stack.execute("no invocation here".into()), "no invocation here");
}

#[test]
fn test_countdown_priority_and_self_extension() {
    let mut stack = RuleStack::new();
    stack.push(minus_rule());
    stack.push(countdown_step_rule());
    stack.push(countdown_base_rule());
    assert_eq!(stack.execute("(countdown 5)".into()), "5 4 3 2 1 0");
}

#[test]
fn test_rule_execution_is_idempotent_once_halted() {
    let mut stack = RuleStack::new();
    stack.push(minus_rule());
    stack.push(countdown_step_rule());
    stack.push(countdown_base_rule());
    let halted = stack.execute("(countdown 3)".into());
    let again = stack.execute(halted.clone());
    assert_eq!(halted, again);
}
