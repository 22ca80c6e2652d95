use pawliki::chatbot::database as first;
use pawliki::pawliki::database::{needs_arg_exec, Course, Data, Database, Term};
use pawliki::pawliki::db::{Data as DbData, DB};

fn s(x: &str) -> String {
    x.to_string()
}

fn course(id: &str, name: &str, spring: bool, fall: bool, prereqs: &[&str], instructor: &str) -> Course {
    Course {
        id: s(id),
        name: s(name),
        term: Term { spring, fall },
        credits: s("4"),
        prerequisites: prereqs.iter().map(|p| s(p)).collect(),
        instructor: s(instructor),
        description: format!("All about {}", name),
    }
}

fn catalogue() -> Database {
    Database {
        majors: vec![],
        clusters: vec![],
        courses: vec![
            course("csc101", "Intro", true, true, &[], "SMITH"),
            course("csc102", "Data", false, true, &["csc101"], "JONES"),
            course("csc201", "Systems", true, false, &["csc101", "csc102", "mth999"], "SMITH"),
            course("csc102", "Data Again", true, false, &["csc101"], "LEE"),
        ],
    }
}

fn ids(cs: &[Course]) -> Vec<String> {
    cs.iter().map(|c| c.id.clone()).collect()
}

#[test]
fn ids_without_the_department_get_it() {
    let db = catalogue();
    assert_eq!(db.get_instructor("101"), Some(s("SMITH")));
    assert_eq!(db.get_instructor("csc101"), Some(s("SMITH")));
    assert_eq!(db.get_instructor("999"), None);
}

#[test]
fn the_last_listing_of_an_id_wins() {
    let db = catalogue();
    assert_eq!(db.get_instructor("102"), Some(s("LEE")));
    assert_eq!(db.get_description_by_id("102"), Some(s("All about Data Again")));
    let t = db.get_term_of_course("102").unwrap();
    assert!(t.spring && !t.fall);
}

#[test]
fn the_first_listing_is_the_course_by_id() {
    let db = catalogue();
    assert_eq!(db.get_course_by_id("102").map(|c| c.name), Some(s("Data")));
    assert!(db.get_course_by_id("csc999").is_none());
}

#[test]
fn prerequisites_are_the_listed_courses_found() {
    let db = catalogue();
    // mth999 is not in the catalogue; csc102 is listed twice
    assert_eq!(ids(&db.get_prerequisites("201").unwrap()), vec![s("csc101"), s("csc102"), s("csc102")]);
    assert_eq!(db.count_prerequisites("201"), Some(s("3")));
    assert_eq!(db.count_prerequisites("101"), Some(s("0")));
    assert_eq!(db.count_prerequisites("777"), None);
}

#[test]
fn terms_and_instructors_filter_in_order() {
    let db = catalogue();
    assert_eq!(ids(&db.get_fall_courses().unwrap()), vec![s("csc101"), s("csc102")]);
    assert_eq!(ids(&db.get_spring_courses().unwrap()), vec![s("csc101"), s("csc201"), s("csc102")]);
    assert_eq!(ids(&db.get_courses_by_prof("SMITH").unwrap()), vec![s("csc101"), s("csc201")]);
    assert_eq!(db.get_courses_by_prof("NOBODY").unwrap().len(), 0);
    assert_eq!(db.get_all_courses().unwrap().len(), 4);
}

#[test]
fn query_executor_dispatches_by_name() {
    let db = catalogue();
    match db.query_executor("get_instructor", &vec![s("201")]) {
        Data::Instructor(i) => assert_eq!(i, s("SMITH")),
        other => panic!("unexpected {:?}", other),
    }
    match db.query_executor("prereq_count", &vec![s("102")]) {
        Data::Number(n) => assert_eq!(n, s("1")),
        other => panic!("unexpected {:?}", other),
    }
    match db.query_executor("get_term_of_course", &vec![s("201")]) {
        Data::Term(t) => assert!(t.spring && !t.fall),
        other => panic!("unexpected {:?}", other),
    }
    match db.query_executor("get_fall_courses", &vec![]) {
        Data::Courses(cs) => assert_eq!(cs.len(), 2),
        other => panic!("unexpected {:?}", other),
    }
    assert!(matches!(db.query_executor("get_instructor", &vec![s("555")]), Data::Nothing));
    assert!(matches!(db.query_executor("no_such_query", &vec![]), Data::Nothing));
}

#[test]
fn queries_that_read_an_argument() {
    assert!(needs_arg_exec("get_instructor"));
    assert!(needs_arg_exec("get_description"));
    assert!(!needs_arg_exec("get_all_courses"));
    assert!(!needs_arg_exec("get_spring_courses"));
    assert!(!needs_arg_exec("anything"));
}

#[test]
fn the_earlier_catalogue_takes_ids_as_given() {
    let c = catalogue();
    let db = DB { majors: vec![], clusters: vec![], courses: c.courses.clone() };
    assert_eq!(db.get_instructor("101"), None);
    assert_eq!(db.get_instructor("csc102"), Some(s("LEE")));
    assert_eq!(ids(&db.get_prerequisites("csc201").unwrap()), vec![s("csc101"), s("csc102"), s("csc102")]);
    assert_eq!(db.get_course_by_id("csc102").map(|c| c.name), Some(s("Data")));
    match db.query_executor("get_description", &vec![s("csc101")]) {
        DbData::Description(d) => assert_eq!(d, s("All about Intro")),
        other => panic!("unexpected {:?}", other),
    }
    assert!(matches!(db.query_executor("prereq_count", &vec![s("csc101")]), DbData::Nothing));
}

fn first_course(id: &str, crn: &str, prereqs: &[&str]) -> first::Course {
    first::Course {
        id: s(id),
        crn: s(crn),
        title: format!("Title {}", id),
        term: s("Fall"),
        credits: s("3"),
        instructor: s("KIM"),
        prerequisites: prereqs.iter().map(|p| s(p)).collect(),
    }
}

#[test]
fn the_first_catalogue_answers_by_exact_id() {
    let db = first::Database {
        courses: vec![
            first_course("CSC110", "1001", &[]),
            first_course("CSC210", "1002", &["CSC110", "MTH140"]),
            first_course("CSC110", "1003", &["MTH100"]),
        ],
    };
    assert_eq!(db.get_crn_from_id(&s("CSC110")), Some(s("1003")));
    assert_eq!(db.get_title_from_id(&s("CSC210")), Some(s("Title CSC210")));
    assert_eq!(db.get_term_from_id(&s("CSC210")), Some(s("Fall")));
    assert_eq!(db.get_credits_from_id(&s("CSC210")), Some(s("3")));
    assert_eq!(db.get_instructor_from_id(&s("CSC210")), Some(s("KIM")));
    assert_eq!(db.get_prerequisites_from_id(&s("CSC210")), Some(s("CSC110 & MTH140")));
    assert_eq!(db.get_prerequisites_from_id(&s("CSC110")), Some(s("MTH100")));
    assert_eq!(db.get_crn_from_id(&s("csc110")), None);
    assert_eq!(db.courses[0].get_title(), &s("Title CSC110"));
}

#[test]
fn a_course_with_no_prerequisites_lists_nothing() {
    let db = first::Database { courses: vec![first_course("CSC100", "9", &[])] };
    assert_eq!(db.get_prerequisites_from_id(&s("CSC100")), Some(s("")));
}
