use pawliki::eliza::Eliza;
use pawliki::chatbot::Pawlicki;
use pawliki::script::{Keyword, Reflection, Rule, Script, Synonym, Transform};
use pawliki::pattern::permutations;
use pawliki::keystack::{populate_keystack, sort_keywords};
use pawliki::engine::assemble;
use pawliki::usage::{get_reassembly, RuleUsage};

fn s(x: &str) -> String {
    x.to_string()
}

fn rule(decomposition: &str, reassembly: &[&str], memorise: bool) -> Rule {
    Rule {
        memorise,
        lookup: false,
        decomposition_rule: s(decomposition),
        lookup_rule: s(""),
        reassembly_rules: reassembly.iter().map(|r| s(r)).collect(),
    }
}

fn keyword(key: &str, rank: u8, rules: Vec<Rule>) -> Keyword {
    Keyword { key: s(key), rank, rules }
}

fn script() -> Script {
    Script {
        greetings: vec![s("How do you do.")],
        farewells: vec![],
        fallbacks: vec![s("Please go on."), s("I see.")],
        transforms: vec![Transform { word: s("remember"), equivalents: vec![s("recollect")] }],
        synonyms: vec![Synonym { word: s("family"), equivalents: vec![s("mother"), s("father")] }],
        reflections: vec![
            Reflection { word: s("i"), inverse: s("you"), twoway: true },
            Reflection { word: s("my"), inverse: s("your"), twoway: true },
        ],
        keywords: vec![
            keyword(
                "remember",
                5,
                vec![rule(
                    "(.*)remember (.*)",
                    &["Do you often think of $2 ?", "Does thinking of $2 bring anything else to mind ?"],
                    false,
                )],
            ),
            keyword("my", 2, vec![rule("(.*)my (.*)", &["Lets discuss further why your $2 ."], true)]),
            keyword("family", 3, vec![rule("(.*) @family (.*)", &["Tell me more about your family."], false)]),
            keyword("what", 1, vec![rule("(.*)", &["GOTO why"], false)]),
            keyword("why", 1, vec![rule("(.*)", &["Why do you ask?"], false)]),
            keyword("broken", 1, vec![rule("(.*)broken(.*)", &["You said $3"], false)]),
            keyword("loop", 1, vec![rule("(.*)", &["GOTO loop"], false)]),
        ],
    }
}

#[test]
fn eliza_uses_reassembly_rules_in_turn() {
    let mut e = Eliza::from_script(script());
    assert_eq!(e.respond("I remember my dog"), s("Do you often think of your dog ?"));
    assert_eq!(e.respond("I remember my dog"), s("Does thinking of your dog bring anything else to mind ?"));
    assert_eq!(e.respond("I remember my dog"), s("Do you often think of your dog ?"));
}

#[test]
fn eliza_transforms_before_matching() {
    let mut e = Eliza::from_script(script());
    assert_eq!(e.respond("I RECOLLECT THE SEA"), s("Do you often think of the sea ?"));
}

#[test]
fn eliza_memory_then_fallback() {
    let mut e = Eliza::from_script(script());
    // the rule for "my" memorises its response; with nothing else found, memory answers
    assert_eq!(e.respond("my car is red"), s("Lets discuss further why your car is red ."));
    // nothing matches and nothing is remembered: a fallback statement
    let r = e.respond("hello there");
    assert!(r == s("Please go on.") || r == s("I see."));
}

#[test]
fn eliza_follows_goto() {
    let mut e = Eliza::from_script(script());
    assert_eq!(e.respond("what is this"), s("Why do you ask?"));
}

#[test]
fn eliza_synonyms_expand_patterns() {
    let mut e = Eliza::from_script(script());
    // "family" is the keyword found; only the variant written with "mother" matches
    assert_eq!(e.respond("family is my mother too"), s("Tell me more about your family."));
}

#[test]
fn eliza_bounded_search() {
    let mut e = Eliza::from_script(script());
    // a keyword is found but no keyword may be searched
    assert_eq!(e.try_respond("why not", 0), None);
    assert_eq!(e.try_respond("why not", 1), Some(s("Why do you ask?")));
    // a GOTO that never ends is cut off
    assert_eq!(e.try_respond("loop", 50), None);
    // a rule naming a capture that does not exist
    assert_eq!(e.try_respond("it is broken now", 10), None);
}

#[test]
fn eliza_greets_and_says_goodbye() {
    let e = Eliza::from_script(script());
    assert_eq!(e.greet(), s("How do you do."));
    assert_eq!(e.farewell(), s("Goodbye."));
}

#[test]
fn pawlicki_defaults() {
    let mut sc = script();
    sc.greetings = vec![];
    sc.fallbacks = vec![];
    let mut p = Pawlicki::from_script(sc);
    assert_eq!(p.greet(), s("Hello, I am Pawlicki"));
    assert_eq!(p.farewell(), s("Goodbye."));
    assert_eq!(p.fallback(), s("Go on."));
    assert_eq!(p.respond("nothing to see"), s("Go on."));
    assert_eq!(p.respond("I remember my dog"), s("Do you often think of your dog ?"));
}

#[test]
fn permutations_of_a_rule() {
    let syns = vec![Synonym { word: s("family"), equivalents: vec![s("mother"), s("father")] }];
    let ps: Vec<String> = permutations("(.*) my (.* @family)", &syns).iter().map(|p| p.source().clone()).collect();
    assert_eq!(ps, vec![s("(.*) my (.* family)"), s("(.*) my (.* mother)"), s("(.*) my (.* father)")]);
    let none: Vec<String> = permutations("@a @b", &syns).iter().map(|p| p.source().clone()).collect();
    assert!(none.is_empty());
    // a pattern that does not compile is left out
    let bad: Vec<String> = permutations("(unclosed", &syns).iter().map(|p| p.source().clone()).collect();
    assert!(bad.is_empty());
}

#[test]
fn keystack_highest_rank_first() {
    let kws = script().keywords;
    let (active, stack) = populate_keystack(vec![s("nothing"), s("my family remember"), s("why")], &kws);
    assert_eq!(active, Some(s("my family remember")));
    let keys: Vec<String> = stack.iter().map(|k| k.key.clone()).collect();
    assert_eq!(keys, vec![s("remember"), s("family"), s("my")]);
    let (none, empty) = populate_keystack(vec![s("nothing at all")], &kws);
    assert_eq!(none, None);
    assert!(empty.is_empty());
}

#[test]
fn sort_is_stable() {
    let v = vec![keyword("a", 1, vec![]), keyword("b", 3, vec![]), keyword("c", 1, vec![]), keyword("d", 3, vec![])];
    let keys: Vec<String> = sort_keywords(&v).iter().map(|k| k.key.clone()).collect();
    assert_eq!(keys, vec![s("b"), s("d"), s("a"), s("c")]);
}

#[test]
fn reassembly_prefers_unused_then_least_used() {
    let mut usage = RuleUsage::new();
    let rules = vec![s("one"), s("two"), s("three")];
    assert_eq!(get_reassembly(&mut usage, "d", &rules), Ok(Some(s("one"))));
    assert_eq!(get_reassembly(&mut usage, "d", &rules), Ok(Some(s("two"))));
    assert_eq!(get_reassembly(&mut usage, "d", &rules), Ok(Some(s("three"))));
    assert_eq!(get_reassembly(&mut usage, "d", &rules), Ok(Some(s("one"))));
    assert_eq!(get_reassembly(&mut usage, "d", &rules), Ok(Some(s("two"))));
    // another decomposition keeps its own counts
    assert_eq!(get_reassembly(&mut usage, "e", &rules), Ok(Some(s("one"))));
    assert_eq!(get_reassembly(&mut usage, "d", &vec![]), Ok(None));
}

#[test]
fn assemble_fills_captures() {
    let rs = vec![Reflection { word: s("my"), inverse: s("your"), twoway: true }];
    let caps = vec![Some(s("i love my cat")), Some(s("i love ")), Some(s("my cat"))];
    assert_eq!(assemble("Why $2 ?", &caps, &rs), Ok(Some(s("Why your cat ?"))));
    assert_eq!(assemble("No captures here", &caps, &rs), Ok(Some(s("No captures here"))));
    // beyond the captures
    assert_eq!(assemble("$9", &caps, &rs), Ok(None));
    assert_eq!(assemble("$x", &caps, &rs), Ok(None));
    // the capture just past the last is read: the engine would panic
    assert_eq!(assemble("$3", &caps, &rs), Err(()));
    let partial = vec![Some(s("ab")), None];
    assert_eq!(assemble("$1", &partial, &rs), Err(()));
}

#[test]
fn memory_keeps_what_was_remembered_in_order() {
    let mut e = Eliza::from_script(script());
    // "my" outranks "why": its response is remembered, and "why" answers
    assert_eq!(e.respond("why my car"), s("Why do you ask?"));
    assert_eq!(e.respond("why my dog"), s("Why do you ask?"));
    // with no keyword, what was remembered comes back, oldest first
    assert_eq!(e.respond("nothing here"), s("Lets discuss further why your car ."));
    assert_eq!(e.respond("nothing here"), s("Lets discuss further why your dog ."));
}
