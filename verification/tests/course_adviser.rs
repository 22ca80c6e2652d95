use pawliki::pawliki::database::{Course, Data, Database, Term};
use pawliki::pawliki::{assemble, get_query, get_reassembly, Pawlicki};
use pawliki::script::{Keyword, Reflection, Rule, Script};
use pawliki::usage::RuleUsage;

fn s(x: &str) -> String {
    x.to_string()
}

fn course(id: &str, spring: bool, fall: bool, prereqs: &[&str], instructor: &str) -> Course {
    Course {
        id: s(id),
        name: format!("Course {}", id),
        term: Term { spring, fall },
        credits: s("4"),
        prerequisites: prereqs.iter().map(|p| s(p)).collect(),
        instructor: s(instructor),
        description: s("A course."),
    }
}

fn catalogue() -> Database {
    Database {
        majors: vec![],
        clusters: vec![],
        courses: vec![
            course("csc101", true, true, &[], "smith"),
            course("csc102", false, true, &["csc101"], "jones"),
            course("csc201", true, false, &["csc101", "csc102"], "smith"),
        ],
    }
}

fn caps(xs: &[Option<&str>]) -> Vec<Option<String>> {
    xs.iter().map(|x| x.map(|y| s(y))).collect()
}

fn lookup_rule(dr: &str, lr: &str, reassembly: &[&str]) -> Rule {
    Rule {
        memorise: false,
        lookup: true,
        decomposition_rule: s(dr),
        lookup_rule: s(lr),
        reassembly_rules: reassembly.iter().map(|r| s(r)).collect(),
    }
}

fn script() -> Script {
    Script {
        greetings: vec![],
        farewells: vec![s("See you.")],
        fallbacks: vec![],
        transforms: vec![],
        synonyms: vec![],
        reflections: vec![Reflection { word: s("my"), inverse: s("your"), twoway: true }],
        keywords: vec![
            Keyword {
                key: s("teaches"),
                rank: 2,
                rules: vec![lookup_rule("(.*)teaches (.+)", "get_instructor", &["$1 teaches that course."])],
            },
            Keyword {
                key: s("before"),
                rank: 1,
                rules: vec![lookup_rule(
                    "(.*)before (.+)",
                    "get_prereq",
                    &["The courses to take first @", "Nothing comes before #2."],
                )],
            },
            Keyword {
                key: s("when"),
                rank: 1,
                rules: vec![lookup_rule("(.*)when is (.+)", "get_term_of_course", &["It is offered @"])],
            },
        ],
    }
}

#[test]
fn a_query_argument_comes_from_the_capture_after_a_plus() {
    let db = catalogue();
    let c = caps(&[Some("who teaches csc 101"), Some("who "), Some("csc 101")]);
    match get_query(&db, "(.*)teaches (.+)", "get_instructor", &c) {
        Ok(Data::Instructor(i)) => assert_eq!(i, s("smith")),
        other => panic!("unexpected {:?}", other),
    }
    // the course id is picked out of a longer capture
    let c = caps(&[Some("x"), Some("x"), Some("the class csc201 please")]);
    match get_query(&db, "(.*)teaches (.+)", "get_instructor", &c) {
        Ok(Data::Instructor(i)) => assert_eq!(i, s("smith")),
        other => panic!("unexpected {:?}", other),
    }
}

#[test]
fn a_query_that_needs_an_argument_and_gets_none_fails() {
    let db = catalogue();
    let c = caps(&[Some("anything"), Some("anything")]);
    assert!(get_query(&db, "(.*)", "get_instructor", &c).is_err());
    match get_query(&db, "(.*)", "get_all_courses", &c) {
        Ok(Data::Courses(cs)) => assert_eq!(cs.len(), 3),
        other => panic!("unexpected {:?}", other),
    }
}

#[test]
fn reassembly_follows_the_count_found() {
    let rules = vec![s("It has $1 prerequisites."), s("It has no prerequisites.")];
    let mut usage = RuleUsage::new();
    let r = get_reassembly(&mut usage, "d", &rules, &Data::Number(s("2")));
    assert_eq!(r, Ok(Some(s("It has $1 prerequisites."))));
    let r = get_reassembly(&mut usage, "d", &rules, &Data::Number(s("0")));
    assert_eq!(r, Ok(Some(s("It has no prerequisites."))));
    assert_eq!(usage.get(&s("dIt has no prerequisites.")), Some(1));
    assert_eq!(usage.get(&s("dIt has $1 prerequisites.")), None);
    let r = get_reassembly(&mut usage, "d", &rules, &Data::Number(s("lots")));
    assert_eq!(r, Err(()));
}

#[test]
fn reassembly_with_courses_prefers_a_rule_that_lists_them() {
    let rules = vec![s("No courses."), s("They @")];
    let mut usage = RuleUsage::new();
    let some = Data::Courses(vec![course("csc101", true, true, &[], "a")]);
    assert_eq!(get_reassembly(&mut usage, "k", &rules, &some), Ok(Some(s("They @"))));
    let none = Data::Courses(vec![]);
    assert_eq!(get_reassembly(&mut usage, "k", &rules, &none), Ok(Some(s("They @"))));
    assert_eq!(get_reassembly(&mut usage, "k", &rules, &Data::Nothing), Ok(Some(s("They @"))));
    let empty: Vec<String> = vec![];
    assert_eq!(get_reassembly(&mut usage, "k", &empty, &Data::Nothing), Ok(None));
}

#[test]
fn assembling_fills_in_the_data() {
    let no_caps = caps(&[Some("x")]);
    let refl: Vec<Reflection> = vec![];
    assert_eq!(
        assemble("$1 teaches that course.", &no_caps, &refl, &Data::Instructor(s("smith"))),
        Ok(Some(s("SMITH teaches that course. ")))
    );
    let two = Data::Courses(vec![course("csc101", true, true, &[], "a"), course("csc102", true, true, &[], "a")]);
    assert_eq!(assemble("Take @", &no_caps, &refl, &two), Ok(Some(s("Take are CSC101 and CSC102. "))));
    let four = Data::Courses(vec![
        course("a1", true, true, &[], "a"),
        course("b2", true, true, &[], "a"),
        course("c3", true, true, &[], "a"),
        course("d4", true, true, &[], "a"),
    ]);
    assert_eq!(assemble("@", &no_caps, &refl, &four), Ok(Some(s("are A1, B2, C3, and D4. "))));
    assert_eq!(
        assemble("It runs @", &no_caps, &refl, &Data::Term(Term { spring: false, fall: true })),
        Ok(Some(s("It runs only fall ")))
    );
    assert_eq!(assemble("There are $1", &no_caps, &refl, &Data::Number(s("3"))), Ok(Some(s("There are 3 "))));
}

#[test]
fn assembling_picks_the_course_id_out_of_a_capture() {
    let c = caps(&[Some("is csc 101 please hard"), Some("csc 101 please")]);
    let refl: Vec<Reflection> = vec![];
    assert_eq!(assemble("Is #1 hard?", &c, &refl, &Data::Nothing), Ok(Some(s("Is CSC 101 hard? "))));
    // a capture beyond those there are makes the rule invalid
    assert_eq!(assemble("Is #5 hard?", &c, &refl, &Data::Nothing), Ok(None));
    // a value that is not a number too
    assert_eq!(assemble("Is $x hard?", &c, &refl, &Data::Nothing), Ok(None));
    // the capture just past the last one is read: the adviser would panic
    assert_eq!(assemble("Is #2 hard?", &c, &refl, &Data::Nothing), Err(()));
    // a second course asked of a list of one
    let one = Data::Courses(vec![course("csc101", true, true, &[], "a")]);
    assert_eq!(assemble("$1 $2", &c, &refl, &one), Err(()));
}

#[test]
fn the_adviser_answers_from_the_catalogue() {
    let mut p = Pawlicki::new(script(), catalogue());
    assert_eq!(p.try_respond("Who TEACHES csc201", 10), Some(Some(s("SMITH teaches that course. "))));
    assert_eq!(p.try_respond("when is csc 102", 10), Some(Some(s("It is offered only fall "))));
    assert_eq!(
        p.try_respond("what comes before csc201", 10),
        Some(Some(s("The courses to take first are CSC101 and CSC102. ")))
    );
    assert_eq!(p.try_respond("what comes before csc101", 10), Some(Some(s("Nothing comes before CSC101. "))));
}

#[test]
fn the_adviser_without_an_answer_calls_for_a_fallback() {
    let mut p = Pawlicki::new(script(), catalogue());
    assert_eq!(p.respond("lovely weather"), None);
    assert_eq!(p.try_respond("lovely weather", 10), Some(None));
    // no keyword may be searched
    assert_eq!(p.try_respond("who teaches csc101", 0), None);
}

#[test]
fn the_adviser_greets_and_knows_its_fallbacks() {
    let p = Pawlicki::new(script(), catalogue());
    assert_eq!(p.greet(), s("Hello, I am Pawlicki"));
    assert_eq!(p.farewell(), s("See you."));
    assert_eq!(p.fallbacks().len(), 24);
    assert_eq!(p.fallbacks()[0], s("Don't you think that's a little harsh?"));
}

#[test]
fn a_larger_allowance_gives_the_same_answer() {
    let mut a = Pawlicki::new(script(), catalogue());
    let mut b = Pawlicki::new(script(), catalogue());
    assert_eq!(a.try_respond("who teaches csc102", 1), b.try_respond("who teaches csc102", 1000));
    assert_eq!(a.try_respond("who teaches csc102", 1), Some(Some(s("JONES teaches that course. "))));
}
