use rewriter::ExecutionOutcome;
use rewriter::Executor;
use rewriter::Parameters;
use rewriter::Registry;
use rewriter::Substitution;
use rewriter::SubstitutionAction;
use rewriter::SubstitutionHandler;
use rewriter::SubstitutionResult;
use rewriter::Template;

enum TestSub {
    Const(String),
    Define,
}

impl Substitution for TestSub {
    fn execute(&self, parameters: &Parameters) -> SubstitutionResult<TestSub> {
        match self {
            TestSub::Const(text) => SubstitutionResult {
                replacement: text.clone(),
                actions: Vec::new(),
            },
            TestSub::Define => {
                let name = parameters.get(0).to_string();
                let replacement = parameters.get(1).to_string();
                SubstitutionResult {
                    replacement: String::new(),
                    actions: vec![SubstitutionAction::NewSubstitution {
                        name,
                        substitution: SubstitutionHandler::Function(TestSub::Const(replacement)),
                    }],
                }
            }
        }
    }
}

fn constant(text: &str) -> SubstitutionHandler<TestSub> {
    SubstitutionHandler::Function(TestSub::Const(text.to_string()))
}

fn create_executor(substitutions: Vec<(&str, SubstitutionHandler<TestSub>)>) -> Executor<TestSub> {
    let mut registry = Registry::new();
    for (name, substitution) in substitutions {
        registry.insert(name.to_string(), substitution);
    }
    Executor { substitutions: registry }
}

fn find_group<'a>(
    executor: &mut Executor<TestSub>,
    program: &'a str,
) -> Option<(&'a str, String, &'a str)> {
    executor
        .find_group(program)
        .map(|(before, group, after)| (before, group.replacement, after))
}

#[test]
fn test_group_finding() {
    let mut executor = create_executor(vec![]);
    assert_eq!(find_group(&mut executor, "abc(def;ghi)jkl"), None);
    assert_eq!(find_group(&mut executor, ""), None);
    assert_eq!(find_group(&mut executor, "abcdef"), None);

    let mut executor = create_executor(vec![("def", constant("..."))]);
    assert_eq!(
        find_group(&mut executor, "abc(def;ghi)jkl"),
        Some(("abc", "...".into(), "jkl"))
    );

    let mut executor = create_executor(vec![("", constant("..."))]);
    assert_eq!(
        find_group(&mut executor, "abc(;ghi)jkl"),
        Some(("abc", "...".into(), "jkl"))
    );
    assert_eq!(
        find_group(&mut executor, "abc()jkl"),
        Some(("abc", "...".into(), "jkl"))
    );
    assert_eq!(
        find_group(&mut executor, "a)(b)c(de)f()jkl"),
        Some(("a)(b)c(de)f", "...".into(), "jkl"))
    );
}

#[test]
fn test_execution() {
    let mut executor = create_executor(vec![]);
    assert_eq!(executor.execute("abcdef".into()), "abcdef");
    assert_eq!(executor.execute("abc()de(blah)f".into()), "abc()de(blah)f");

    let mut executor = create_executor(vec![(
        "blah",
        SubstitutionHandler::Template(Template::parse("1:$0,2:$1,3:$2")),
    )]);
    assert_eq!(executor.execute("abc(blah)def".into()), "abc1:,2:,3:def");
    assert_eq!(executor.execute("abc(blah;a)def".into()), "abc1:a,2:,3:def");
    assert_eq!(
        executor.execute("abc(blah;;b)def".into()),
        "abc1:,2:b,3:def"
    );
    assert_eq!(executor.execute("abc(bla)def".into()), "abc(bla)def");
    assert_eq!(
        executor.execute("abc(blah;;;c)def".into()),
        "abc1:,2:,3:cdef"
    );
    assert_eq!(
        executor.execute("abc(blah;a;b;c)def".into()),
        "abc1:a,2:b,3:cdef"
    );

    let mut executor = create_executor(vec![
        ("a", constant("!")),
        ("b", constant(".")),
        ("c", constant(")(")),
    ]);
    assert_eq!(executor.execute("(a(c)b)".into()), "!.");
}

#[test]
fn test_substitution_actions() {
    let mut executor = create_executor(vec![
        ("define", SubstitutionHandler::Function(TestSub::Define)),
        ("b", constant(".")),
        ("c", constant(")(")),
    ]);
    assert_eq!(executor.execute("(define;a;!)(a(c)b)".into()), "!.");
}

#[test]
fn test_text_without_opener_is_unchanged() {
    let mut executor = create_executor(vec![("a", constant("!"))]);
    assert_eq!(executor.execute("Hello, world!".into()), "Hello, world!");
}

#[test]
fn test_escaped_opener_is_inert() {
    let mut executor = create_executor(vec![("def", constant("..."))]);
    assert_eq!(executor.execute("abc\\(def".into()), "abc\\(def");
    assert_eq!(find_group(&mut executor, "abc\\(def;ghi)jkl"), None);
}

#[test]
fn test_escaped_characters_join_parameters() {
    let mut executor = create_executor(vec![(
        "blah",
        SubstitutionHandler::Template(Template::parse("1:$0,2:$1,3:$2")),
    )]);
    assert_eq!(
        executor.execute("abc(blah;x\\;y\\)z)def".into()),
        "abc1:x;y)z,2:,3:def"
    );
}

#[test]
fn test_trailing_escape_finds_no_group() {
    let mut executor = create_executor(vec![("a", constant("!"))]);
    assert_eq!(find_group(&mut executor, "(a\\"), None);
    assert_eq!(executor.execute("(a\\".into()), "(a\\");
}

#[test]
fn test_execution_is_idempotent_once_halted() {
    let mut executor = create_executor(vec![
        ("define", SubstitutionHandler::Function(TestSub::Define)),
        ("b", constant(".")),
        ("c", constant(")(")),
    ]);
    let halted = executor.execute("x(define;a;!)y(a(c)b)z(w)".into());
    let again = executor.execute(halted.clone());
    assert_eq!(halted, again);
}

#[test]
fn test_dynamic_registration_is_visible_in_same_call() {
    let mut executor = create_executor(vec![(
        "define",
        SubstitutionHandler::Function(TestSub::Define),
    )]);
    assert_eq!(
        executor.execute("(define;greet;hi)[(greet)]".into()),
        "[hi]"
    );
}

#[test]
fn test_step_performs_at_most_one_rewrite() {
    let mut executor = create_executor(vec![
        ("a", constant("!")),
        ("b", constant(".")),
        ("c", constant(")(")),
    ]);
    assert_eq!(executor.step("xyz"), None);
    assert_eq!(executor.step("(a(c)b)"), Some("(a)(b)".to_string()));
}

#[test]
fn test_step_limit_is_distinguishable() {
    let mut executor = create_executor(vec![("a", constant("!"))]);
    let out = executor.execute_bounded("(a)".into(), 0);
    assert!(matches!(out, ExecutionOutcome::StepLimitExceeded(t) if t == "(a)"));
    let out = executor.execute_bounded("(a)".into(), 5);
    assert!(matches!(out, ExecutionOutcome::Halted(t) if t == "!"));
    let out = executor.execute_bounded("no groups".into(), 0);
    assert!(matches!(out, ExecutionOutcome::Halted(t) if t == "no groups"));
}

#[test]
fn test_later_binding_shadows_earlier() {
    let mut registry = Registry::new();
    registry.insert("n".to_string(), constant("old"));
    registry.insert("n".to_string(), constant("new"));
    let mut executor = Executor { substitutions: registry };
    assert_eq!(executor.execute("(n)".into()), "new");
}

#[test]
fn test_multibyte_characters_are_handled_by_character() {
    let mut executor = create_executor(vec![("grüß", constant("λ"))]);
    assert_eq!(
        executor.execute("héllo(grüß;ä)wörld".into()),
        "hélloλwörld"
    );
    assert_eq!(
        find_group(&mut executor, "héllo(grüß)wörld"),
        Some(("héllo", "λ".into(), "wörld"))
    );
}

#[test]
fn test_parameters_get_defaults_to_empty() {
    let parameters = Parameters::new(vec!["x".to_string(), "y".to_string()]);
    assert_eq!(parameters.get(0), "x");
    assert_eq!(parameters.get(1), "y");
    assert_eq!(parameters.get(2), "");
    assert_eq!(parameters.get(1000), "");
}

#[test]
fn test_template_marker_rule() {
    let params = Parameters::new(vec!["A".to_string(), "B".to_string()]);
    assert_eq!(Template::parse("x$0y$1z").render(&params), "xAyBz");
    assert_eq!(Template::parse("$$0").render(&params), "$0");
    assert_eq!(Template::parse("\\$0").render(&params), "$0");
    assert_eq!(Template::parse("$x").render(&params), "$x");
    assert_eq!(Template::parse("a$9b").render(&params), "ab");
    assert_eq!(Template::parse("$01").render(&params), "B");
    assert_eq!(Template::parse("$").render(&params), "$");
}
