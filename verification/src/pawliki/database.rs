//! The course catalogue of the second adviser, and the queries its rules run.
use vstd::prelude::*;
use crate::text::{str_eq, chars_of, contains, contains_exec, decimal, decimal_exec, opt_view, string_of, strs};
use crate::script::copy_strings;

verus! {

/// A degree and its courses.
#[derive(Debug, Clone)]
pub struct Major {
    pub degree: String,
    pub premajor_courses: Vec<String>,
    pub core_courses: Vec<String>,
    pub advanced_courses: Vec<String>,
}

/// A cluster of related words.
#[derive(Debug, Clone)]
pub struct Cluster {
    pub word: String,
    pub inverse: String,
    pub twoway: bool,
}

/// The terms in which a course is offered.
#[derive(Debug, Clone, Copy)]
pub struct Term {
    pub spring: bool,
    pub fall: bool,
}

/// A course as the catalogue lists it.
#[derive(Debug, Clone)]
pub struct Course {
    pub id: String,
    pub name: String,
    pub term: Term,
    pub credits: String,
    pub prerequisites: Vec<String>,
    pub instructor: String,
    pub description: String,
}

/// The catalogue.
#[derive(Debug)]
pub struct Database {
    pub majors: Vec<Major>,
    pub clusters: Vec<Cluster>,
    pub courses: Vec<Course>,
}

/// What a query found.
#[derive(Debug)]
pub enum Data {
    Number(String),
    ACourse(Course),
    ACluster(Cluster),
    Instructor(String),
    Description(String),
    Courses(Vec<Course>),
    Clusters(Vec<Cluster>),
    Term(Term),
    Nothing,
}

pub struct ClusterView {
    pub word: Seq<char>,
    pub inverse: Seq<char>,
    pub twoway: bool,
}

pub struct CourseView {
    pub id: Seq<char>,
    pub name: Seq<char>,
    pub term: Term,
    pub credits: Seq<char>,
    pub prerequisites: Seq<Seq<char>>,
    pub instructor: Seq<char>,
    pub description: Seq<char>,
}

pub enum DataView {
    Number(Seq<char>),
    ACourse(CourseView),
    ACluster(ClusterView),
    Instructor(Seq<char>),
    Description(Seq<char>),
    Courses(Seq<CourseView>),
    Clusters(Seq<ClusterView>),
    Term(Term),
    Nothing,
}

impl View for Cluster {
    type V = ClusterView;

    open spec fn view(&self) -> ClusterView {
        ClusterView { word: self.word@, inverse: self.inverse@, twoway: self.twoway }
    }
}

impl View for Course {
    type V = CourseView;

    open spec fn view(&self) -> CourseView {
        CourseView {
            id: self.id@,
            name: self.name@,
            term: self.term,
            credits: self.credits@,
            prerequisites: strs(self.prerequisites@),
            instructor: self.instructor@,
            description: self.description@,
        }
    }
}

/// The views of courses.
pub open spec fn course_views(s: Seq<Course>) -> Seq<CourseView> {
    s.map_values(|c: Course| c@)
}

/// The views of clusters.
pub open spec fn cluster_views(s: Seq<Cluster>) -> Seq<ClusterView> {
    s.map_values(|c: Cluster| c@)
}

impl View for Data {
    type V = DataView;

    open spec fn view(&self) -> DataView {
        match self {
            Data::Number(s) => DataView::Number(s@),
            Data::ACourse(c) => DataView::ACourse(c@),
            Data::ACluster(c) => DataView::ACluster(c@),
            Data::Instructor(s) => DataView::Instructor(s@),
            Data::Description(s) => DataView::Description(s@),
            Data::Courses(cs) => DataView::Courses(course_views(cs@)),
            Data::Clusters(cs) => DataView::Clusters(cluster_views(cs@)),
            Data::Term(t) => DataView::Term(*t),
            Data::Nothing => DataView::Nothing,
        }
    }
}

impl View for Database {
    type V = Seq<CourseView>;

    /// The courses of the catalogue, which every query reads.
    open spec fn view(&self) -> Seq<CourseView> {
        course_views(self.courses@)
    }
}

impl Course {
    /// A copy of the course.
    pub fn duplicate(&self) -> (r: Course)
        ensures
            r@ == self@,
    {
        Course {
            id: self.id.clone(),
            name: self.name.clone(),
            term: self.term,
            credits: self.credits.clone(),
            prerequisites: copy_strings(&self.prerequisites),
            instructor: self.instructor.clone(),
            description: self.description.clone(),
        }
    }
}

// ------------------------------------------------------------------------
// Specifications of the queries
// ------------------------------------------------------------------------

/// The department prefix of course ids.
pub open spec fn dept() -> Seq<char> {
    seq!['c', 's', 'c']
}

/// The id a query looks up: `id` itself when it holds "csc", else "csc" before it.
pub open spec fn full_id(id: Seq<char>) -> Seq<char> {
    if contains(id, dept()) {
        id
    } else {
        dept() + id
    }
}

/// The courses that `keep` accepts, in order.
pub open spec fn courses_where(cs: Seq<CourseView>, keep: spec_fn(CourseView) -> bool) -> Seq<CourseView>
    decreases cs.len(),
{
    if cs.len() == 0 {
        seq![]
    } else if keep(cs.last()) {
        courses_where(cs.drop_last(), keep).push(cs.last())
    } else {
        courses_where(cs.drop_last(), keep)
    }
}

/// The courses whose id is `id`, in order.
pub open spec fn courses_with_id(cs: Seq<CourseView>, id: Seq<char>) -> Seq<CourseView> {
    courses_where(cs, |c: CourseView| c.id == id)
}

/// The courses taught by `prof`, in order.
pub open spec fn courses_by(cs: Seq<CourseView>, prof: Seq<char>) -> Seq<CourseView> {
    courses_where(cs, |c: CourseView| c.instructor == prof)
}

/// The courses offered in the fall.
pub open spec fn fall_courses(cs: Seq<CourseView>) -> Seq<CourseView> {
    courses_where(cs, |c: CourseView| c.term.fall)
}

/// The courses offered in the spring.
pub open spec fn spring_courses(cs: Seq<CourseView>) -> Seq<CourseView> {
    courses_where(cs, |c: CourseView| c.term.spring)
}

/// The index of the last course among the first `n` whose id is `id`.
pub open spec fn last_with_id(cs: Seq<CourseView>, id: Seq<char>, n: int) -> Option<int>
    decreases n,
{
    if n <= 0 || n > cs.len() {
        None
    } else if cs[n - 1].id == id {
        Some(n - 1)
    } else {
        last_with_id(cs, id, n - 1)
    }
}

/// The last course whose id is `id`.
pub open spec fn last_course(cs: Seq<CourseView>, id: Seq<char>) -> Option<CourseView> {
    match last_with_id(cs, id, cs.len() as int) {
        Some(i) => Some(cs[i]),
        None => None,
    }
}

/// The index of the first course at or after `i` whose id is `id`.
pub open spec fn first_with_id(cs: Seq<CourseView>, id: Seq<char>, i: int) -> Option<int>
    decreases cs.len() - i,
{
    if i < 0 || i >= cs.len() {
        None
    } else if cs[i].id == id {
        Some(i)
    } else {
        first_with_id(cs, id, i + 1)
    }
}

/// The courses named by the prerequisites, each id in turn, every course with that id.
pub open spec fn prerequisite_courses(cs: Seq<CourseView>, ids: Seq<Seq<char>>) -> Seq<CourseView>
    decreases ids.len(),
{
    if ids.len() == 0 {
        seq![]
    } else {
        prerequisite_courses(cs, ids.drop_last()) + courses_with_id(cs, ids.last())
    }
}

/// `get_instructor`: the instructor of the last course with the id.
pub open spec fn instructor_of(cs: Seq<CourseView>, id: Seq<char>) -> Option<Seq<char>> {
    match last_course(cs, full_id(id)) {
        Some(c) => Some(c.instructor),
        None => None,
    }
}

/// `get_prerequisites`: the prerequisite courses of the last course with the id.
pub open spec fn prerequisites_of(cs: Seq<CourseView>, id: Seq<char>) -> Option<Seq<CourseView>> {
    match last_course(cs, full_id(id)) {
        Some(c) => Some(prerequisite_courses(cs, c.prerequisites)),
        None => None,
    }
}

/// `count_prerequisites`: how many prerequisite courses, in decimal.
pub open spec fn prerequisite_count(cs: Seq<CourseView>, id: Seq<char>) -> Option<Seq<char>> {
    match prerequisites_of(cs, id) {
        Some(ps) => Some(decimal(ps.len())),
        None => None,
    }
}

/// `get_course_by_id`: the first course with the id.
pub open spec fn course_by_id(cs: Seq<CourseView>, id: Seq<char>) -> Option<CourseView> {
    match first_with_id(cs, full_id(id), 0) {
        Some(i) => Some(cs[i]),
        None => None,
    }
}

/// `get_term_of_course`: the terms of the last course with the id.
pub open spec fn term_of(cs: Seq<CourseView>, id: Seq<char>) -> Option<Term> {
    match last_course(cs, full_id(id)) {
        Some(c) => Some(c.term),
        None => None,
    }
}

/// `get_description_by_id`: the description of the last course with the id.
pub open spec fn description_of(cs: Seq<CourseView>, id: Seq<char>) -> Option<Seq<char>> {
    match last_course(cs, full_id(id)) {
        Some(c) => Some(c.description),
        None => None,
    }
}

pub proof fn lemma_last_with_id(cs: Seq<CourseView>, id: Seq<char>, n: int)
    requires
        0 <= n <= cs.len(),
    ensures
        last_with_id(cs, id, n) matches Some(i) ==> 0 <= i < n && cs[i].id == id,
    decreases n,
{
    if n > 0 && cs[n - 1].id != id {
        lemma_last_with_id(cs, id, n - 1);
    }
}

pub proof fn lemma_first_with_id(cs: Seq<CourseView>, id: Seq<char>, i: int)
    requires
        0 <= i,
    ensures
        first_with_id(cs, id, i) matches Some(j) ==> i <= j < cs.len() && cs[j].id == id,
    decreases cs.len() - i,
{
    if i < cs.len() && cs[i].id != id {
        lemma_first_with_id(cs, id, i + 1);
    }
}

// ------------------------------------------------------------------------
// The queries
// ------------------------------------------------------------------------

/// Copies of the courses, in order.
pub fn copy_courses(v: &Vec<Course>) -> (r: Vec<Course>)
    ensures
        course_views(r@) == course_views(v@),
{
    let mut r: Vec<Course> = Vec::new();
    let mut i: usize = 0;
    while i < v.len()
        invariant
            i <= v.len(),
            r.len() == i,
            forall|k: int| 0 <= k < i ==> #[trigger] r@[k]@ == v@[k]@,
        decreases v.len() - i,
    {
        r.push(v[i].duplicate());
        i = i + 1;
    }
    assert(course_views(r@) =~= course_views(v@));
    r
}

/// The id that the queries look up for `id`.
pub fn full_id_exec(id: &str) -> (r: String)
    ensures
        r@ == full_id(id@),
{
    let cs = chars_of(id);
    let d: Vec<char> = vec!['c', 's', 'c'];
    assert(d@ =~= dept());
    if contains_exec(&cs, &d) {
        string_of(&cs)
    } else {
        let mut r = string_of(&d);
        r.append(id);
        r
    }
}

/// The index of the last course whose id is `id`.
pub fn find_last_in(courses: &Vec<Course>, id: &String) -> (r: Option<usize>)
    ensures
        r matches Some(i) ==> i < courses.len() && last_with_id(course_views(courses@), id@, courses@.len() as int) == Some(i as int),
        r is None ==> last_with_id(course_views(courses@), id@, courses@.len() as int) is None,
{
    let mut i = courses.len();
    while i > 0
        invariant
            i <= courses.len(),
            last_with_id(course_views(courses@), id@, courses@.len() as int) == last_with_id(course_views(courses@), id@, i as int),
        decreases i,
    {
        if courses[i - 1].id == *id {
            return Some(i - 1);
        }
        i = i - 1;
    }
    None
}

/// The courses whose id is `id`, in order.
pub fn courses_with_in(courses: &Vec<Course>, id: &String) -> (r: Vec<Course>)
    ensures
        course_views(r@) == courses_with_id(course_views(courses@), id@),
{
    let ghost cs = course_views(courses@);
    let mut r: Vec<Course> = Vec::new();
    let mut i: usize = 0;
    while i < courses.len()
        invariant
            i <= courses.len(),
            cs == course_views(courses@),
            course_views(r@) == courses_with_id(cs.take(i as int), id@),
        decreases courses.len() - i,
    {
        assert(cs.take(i + 1).drop_last() =~= cs.take(i as int));
        if courses[i].id == *id {
            let ghost before = r@;
            r.push(courses[i].duplicate());
            assert(course_views(r@) =~= course_views(before).push(cs[i as int]));
        }
        i = i + 1;
    }
    assert(cs.take(i as int) =~= cs);
    r
}

/// The courses named by the prerequisites of the last course whose id is `id`.
pub fn prerequisites_in(courses: &Vec<Course>, id: &String) -> (r: Option<Vec<Course>>)
    ensures
        match r {
            Some(v) => match last_course(course_views(courses@), id@) {
                Some(c) => course_views(v@) == prerequisite_courses(course_views(courses@), c.prerequisites),
                None => false,
            },
            None => last_course(course_views(courses@), id@) is None,
        },
{
    let ghost cs = course_views(courses@);
    match find_last_in(courses, id) {
        Some(i) => {
            let prereqs = &courses[i].prerequisites;
            let ghost ids = strs(prereqs@);
            let mut temp: Vec<Course> = Vec::new();
            let mut k: usize = 0;
            while k < prereqs.len()
                invariant
                    k <= prereqs.len(),
                    cs == course_views(courses@),
                    ids == strs(prereqs@),
                    course_views(temp@) == prerequisite_courses(cs, ids.take(k as int)),
                decreases prereqs.len() - k,
            {
                let mut found = courses_with_in(courses, &prereqs[k]);
                let ghost before = temp@;
                let ghost fv = course_views(found@);
                temp.append(&mut found);
                assert(course_views(temp@) =~= course_views(before) + fv);
                assert(ids.take(k + 1).drop_last() =~= ids.take(k as int));
                k = k + 1;
            }
            assert(ids.take(k as int) =~= ids);
            Some(temp)
        },
        None => None,
    }
}

/// The first course whose id is `id`.
pub fn first_in(courses: &Vec<Course>, id: &String) -> (r: Option<Course>)
    ensures
        match r {
            Some(c) => match first_with_id(course_views(courses@), id@, 0) {
                Some(i) => c@ == course_views(courses@)[i],
                None => false,
            },
            None => first_with_id(course_views(courses@), id@, 0) is None,
        },
{
    let mut i: usize = 0;
    while i < courses.len()
        invariant
            i <= courses.len(),
            first_with_id(course_views(courses@), id@, 0) == first_with_id(course_views(courses@), id@, i as int),
        decreases courses.len() - i,
    {
        if courses[i].id == *id {
            return Some(courses[i].duplicate());
        }
        i = i + 1;
    }
    None
}

/// The courses taught by `prof`, in order.
pub fn by_prof_in(courses: &Vec<Course>, prof: &str) -> (r: Vec<Course>)
    ensures
        course_views(r@) == courses_by(course_views(courses@), prof@),
{
    let prof_s = prof.to_owned();
    let ghost cs = course_views(courses@);
    let mut classes: Vec<Course> = Vec::new();
    let mut i: usize = 0;
    while i < courses.len()
        invariant
            i <= courses.len(),
            cs == course_views(courses@),
            prof_s@ == prof@,
            course_views(classes@) == courses_by(cs.take(i as int), prof@),
        decreases courses.len() - i,
    {
        assert(cs.take(i + 1).drop_last() =~= cs.take(i as int));
        if courses[i].instructor == prof_s {
            let ghost before = classes@;
            classes.push(courses[i].duplicate());
            assert(course_views(classes@) =~= course_views(before).push(cs[i as int]));
        }
        i = i + 1;
    }
    assert(cs.take(i as int) =~= cs);
    classes
}

impl Database {
    /// The instructor of the course `id` ("csc" is put before an id without it).
    pub fn get_instructor(&self, id: &str) -> (r: Option<String>)
        ensures
            opt_view(r) == instructor_of(self@, id@),
    {
        let temp_id = full_id_exec(id);
        match find_last_in(&self.courses, &temp_id) {
            Some(i) => Some(self.courses[i].instructor.clone()),
            None => None,
        }
    }

    /// The courses that the prerequisites of the course `id` name.
    pub fn get_prerequisites(&self, id: &str) -> (r: Option<Vec<Course>>)
        ensures
            match r {
                Some(v) => prerequisites_of(self@, id@) == Some(course_views(v@)),
                None => prerequisites_of(self@, id@) is None,
            },
    {
        let temp_id = full_id_exec(id);
        prerequisites_in(&self.courses, &temp_id)
    }

    /// How many courses the prerequisites of the course `id` name, in decimal.
    pub fn count_prerequisites(&self, id: &str) -> (r: Option<String>)
        ensures
            opt_view(r) == prerequisite_count(self@, id@),
    {
        match self.get_prerequisites(id) {
            Some(courses) => {
                let d = decimal_exec(courses.len());
                Some(string_of(&d))
            },
            None => None,
        }
    }

    /// The first course whose id is `id`.
    pub fn get_course_by_id(&self, id: &str) -> (r: Option<Course>)
        ensures
            match r {
                Some(c) => course_by_id(self@, id@) == Some(c@),
                None => course_by_id(self@, id@) is None,
            },
    {
        let temp_id = full_id_exec(id);
        first_in(&self.courses, &temp_id)
    }

    /// The courses taught by `prof`.
    pub fn get_courses_by_prof(&self, prof: &str) -> (r: Option<Vec<Course>>)
        ensures
            r matches Some(v) && course_views(v@) == courses_by(self@, prof@),
    {
        Some(by_prof_in(&self.courses, prof))
    }

    /// All the courses.
    pub fn get_all_courses(&self) -> (r: Option<Vec<Course>>)
        ensures
            r matches Some(v) && course_views(v@) == self@,
    {
        Some(copy_courses(&self.courses))
    }

    /// The terms of the course `id`.
    pub fn get_term_of_course(&self, id: &str) -> (r: Option<Term>)
        ensures
            r == term_of(self@, id@),
    {
        let temp_id = full_id_exec(id);
        match find_last_in(&self.courses, &temp_id) {
            Some(i) => Some(self.courses[i].term),
            None => None,
        }
    }

    /// The courses offered in the fall.
    pub fn get_fall_courses(&self) -> (r: Option<Vec<Course>>)
        ensures
            r matches Some(v) && course_views(v@) == fall_courses(self@),
    {
        let ghost cs = self@;
        let mut temp: Vec<Course> = Vec::new();
        let mut i: usize = 0;
        while i < self.courses.len()
            invariant
                i <= self.courses.len(),
                cs == self@,
                course_views(temp@) == fall_courses(cs.take(i as int)),
            decreases self.courses.len() - i,
        {
            assert(cs.take(i + 1).drop_last() =~= cs.take(i as int));
            if self.courses[i].term.fall {
                let ghost before = temp@;
                temp.push(self.courses[i].duplicate());
                assert(course_views(temp@) =~= course_views(before).push(cs[i as int]));
            }
            i = i + 1;
        }
        assert(cs.take(i as int) =~= cs);
        Some(temp)
    }

    /// The courses offered in the spring.
    pub fn get_spring_courses(&self) -> (r: Option<Vec<Course>>)
        ensures
            r matches Some(v) && course_views(v@) == spring_courses(self@),
    {
        let ghost cs = self@;
        let mut temp: Vec<Course> = Vec::new();
        let mut i: usize = 0;
        while i < self.courses.len()
            invariant
                i <= self.courses.len(),
                cs == self@,
                course_views(temp@) == spring_courses(cs.take(i as int)),
            decreases self.courses.len() - i,
        {
            assert(cs.take(i + 1).drop_last() =~= cs.take(i as int));
            if self.courses[i].term.spring {
                let ghost before = temp@;
                temp.push(self.courses[i].duplicate());
                assert(course_views(temp@) =~= course_views(before).push(cs[i as int]));
            }
            i = i + 1;
        }
        assert(cs.take(i as int) =~= cs);
        Some(temp)
    }

    /// The description of the course `id`.
    pub fn get_description_by_id(&self, id: &str) -> (r: Option<String>)
        ensures
            opt_view(r) == description_of(self@, id@),
    {
        let temp_id = full_id_exec(id);
        match find_last_in(&self.courses, &temp_id) {
            Some(i) => Some(self.courses[i].description.clone()),
            None => None,
        }
    }
}


// ------------------------------------------------------------------------
// Running a named query
// ------------------------------------------------------------------------

/// The queries that read their first argument.
pub open spec fn needs_arg(name: Seq<char>) -> bool {
    name == "get_instructor"@ || name == "get_prereq"@ || name == "prereq_count"@ || name
        == "get_term_of_course"@ || name == "get_course_by_id"@ || name == "get_courses_by_prof"@
        || name == "get_description"@
}

/// Whether the query `name` reads its first argument.
pub fn needs_arg_exec(name: &str) -> (r: bool)
    ensures
        r == needs_arg(name@),
{
    str_eq(name, "get_instructor") || str_eq(name, "get_prereq") || str_eq(name, "prereq_count")
        || str_eq(name, "get_term_of_course") || str_eq(name, "get_course_by_id") || str_eq(
        name,
        "get_courses_by_prof",
    ) || str_eq(name, "get_description")
}

/// What the query `name` finds for `args` (`Nothing` for an unknown name).
pub open spec fn query(cs: Seq<CourseView>, name: Seq<char>, args: Seq<Seq<char>>) -> DataView {
    if name == "get_instructor"@ {
        match instructor_of(cs, args[0]) {
            Some(s) => DataView::Instructor(s),
            None => DataView::Nothing,
        }
    } else if name == "get_prereq"@ {
        match prerequisites_of(cs, args[0]) {
            Some(c) => DataView::Courses(c),
            None => DataView::Nothing,
        }
    } else if name == "prereq_count"@ {
        match prerequisite_count(cs, args[0]) {
            Some(n) => DataView::Number(n),
            None => DataView::Nothing,
        }
    } else if name == "get_all_courses"@ {
        DataView::Courses(cs)
    } else if name == "get_term_of_course"@ {
        match term_of(cs, args[0]) {
            Some(t) => DataView::Term(t),
            None => DataView::Nothing,
        }
    } else if name == "get_fall_courses"@ {
        DataView::Courses(fall_courses(cs))
    } else if name == "get_spring_courses"@ {
        DataView::Courses(spring_courses(cs))
    } else if name == "get_course_by_id"@ {
        match course_by_id(cs, args[0]) {
            Some(c) => DataView::ACourse(c),
            None => DataView::Nothing,
        }
    } else if name == "get_courses_by_prof"@ {
        DataView::Courses(courses_by(cs, args[0]))
    } else if name == "get_description"@ {
        match description_of(cs, args[0]) {
            Some(d) => DataView::Description(d),
            None => DataView::Nothing,
        }
    } else {
        DataView::Nothing
    }
}

impl Database {
    /// Runs the query `fun_name` with the arguments `args`.
    pub fn query_executor(&self, fun_name: &str, args: &Vec<String>) -> (r: Data)
        requires
            needs_arg(fun_name@) ==> args.len() > 0,
        ensures
            r@ == query(self@, fun_name@, strs(args@)),
    {
        if str_eq(fun_name, "get_instructor") {
            match self.get_instructor(args[0].as_str()) {
                Some(s) => Data::Instructor(s),
                None => Data::Nothing,
            }
        } else if str_eq(fun_name, "get_prereq") {
            match self.get_prerequisites(args[0].as_str()) {
                Some(c) => Data::Courses(c),
                None => Data::Nothing,
            }
        } else if str_eq(fun_name, "prereq_count") {
            match self.count_prerequisites(args[0].as_str()) {
                Some(n) => Data::Number(n),
                None => Data::Nothing,
            }
        } else if str_eq(fun_name, "get_all_courses") {
            match self.get_all_courses() {
                Some(c) => Data::Courses(c),
                None => Data::Nothing,
            }
        } else if str_eq(fun_name, "get_term_of_course") {
            match self.get_term_of_course(args[0].as_str()) {
                Some(t) => Data::Term(t),
                None => Data::Nothing,
            }
        } else if str_eq(fun_name, "get_fall_courses") {
            match self.get_fall_courses() {
                Some(c) => Data::Courses(c),
                None => Data::Nothing,
            }
        } else if str_eq(fun_name, "get_spring_courses") {
            match self.get_spring_courses() {
                Some(c) => Data::Courses(c),
                None => Data::Nothing,
            }
        } else if str_eq(fun_name, "get_course_by_id") {
            match self.get_course_by_id(args[0].as_str()) {
                Some(c) => Data::ACourse(c),
                None => Data::Nothing,
            }
        } else if str_eq(fun_name, "get_courses_by_prof") {
            match self.get_courses_by_prof(args[0].as_str()) {
                Some(c) => Data::Courses(c),
                None => Data::Nothing,
            }
        } else if str_eq(fun_name, "get_description") {
            match self.get_description_by_id(args[0].as_str()) {
                Some(d) => Data::Description(d),
                None => Data::Nothing,
            }
        } else {
            Data::Nothing
        }
    }
}

pub proof fn lemma_courses_where_filter(cs: Seq<CourseView>, keep: spec_fn(CourseView) -> bool)
    ensures
        courses_where(cs, keep) == cs.filter(keep),
    decreases cs.len(),
{
    reveal(Seq::filter);
    if cs.len() > 0 {
        lemma_courses_where_filter(cs.drop_last(), keep);
    }
}

/// The queries that list courses give, in catalogue order, exactly the courses
/// that meet their condition: the spring courses are those whose term has
/// spring set, the fall courses those whose term has fall set, the courses by a
/// professor those they teach, and all courses the whole catalogue.
pub proof fn lemma_query_lists(cs: Seq<CourseView>, args: Seq<Seq<char>>)
    ensures
        query(cs, "get_spring_courses"@, args) == DataView::Courses(cs.filter(|c: CourseView| c.term.spring)),
        query(cs, "get_fall_courses"@, args) == DataView::Courses(cs.filter(|c: CourseView| c.term.fall)),
        query(cs, "get_all_courses"@, args) == DataView::Courses(cs),
        args.len() > 0 ==> query(cs, "get_courses_by_prof"@, args) == DataView::Courses(
            cs.filter(|c: CourseView| c.instructor == args[0]),
        ),
{
    reveal_strlit("get_instructor");
    reveal_strlit("get_prereq");
    reveal_strlit("prereq_count");
    reveal_strlit("get_all_courses");
    reveal_strlit("get_term_of_course");
    reveal_strlit("get_fall_courses");
    reveal_strlit("get_spring_courses");
    reveal_strlit("get_course_by_id");
    reveal_strlit("get_courses_by_prof");
    assert("get_instructor"@.len() == 14);
    assert("get_prereq"@.len() == 10);
    assert("prereq_count"@.len() == 12);
    assert("get_all_courses"@.len() == 15);
    assert("get_term_of_course"@.len() == 18);
    assert("get_fall_courses"@.len() == 16);
    assert("get_spring_courses"@.len() == 18);
    assert("get_course_by_id"@.len() == 16);
    assert("get_courses_by_prof"@.len() == 19);
    assert("get_spring_courses"@ != "get_instructor"@);
    assert("get_spring_courses"@ != "get_prereq"@);
    assert("get_spring_courses"@ != "prereq_count"@);
    assert("get_spring_courses"@ != "get_all_courses"@);
    assert("get_spring_courses"@[4] == 's');
    assert("get_term_of_course"@[4] == 't');
    assert("get_spring_courses"@ != "get_term_of_course"@);
    assert("get_spring_courses"@ != "get_fall_courses"@);
    assert("get_fall_courses"@ != "get_instructor"@);
    assert("get_fall_courses"@ != "get_prereq"@);
    assert("get_fall_courses"@ != "prereq_count"@);
    assert("get_fall_courses"@ != "get_all_courses"@);
    assert("get_fall_courses"@ != "get_term_of_course"@);
    assert("get_all_courses"@ != "get_instructor"@);
    assert("get_all_courses"@ != "get_prereq"@);
    assert("get_all_courses"@ != "prereq_count"@);
    assert("get_courses_by_prof"@ != "get_instructor"@);
    assert("get_courses_by_prof"@ != "get_prereq"@);
    assert("get_courses_by_prof"@ != "prereq_count"@);
    assert("get_courses_by_prof"@ != "get_all_courses"@);
    assert("get_courses_by_prof"@ != "get_term_of_course"@);
    assert("get_courses_by_prof"@ != "get_fall_courses"@);
    assert("get_courses_by_prof"@ != "get_spring_courses"@);
    assert("get_courses_by_prof"@ != "get_course_by_id"@);
    let spring = |c: CourseView| c.term.spring;
    let fall = |c: CourseView| c.term.fall;
    lemma_courses_where_filter(cs, spring);
    lemma_courses_where_filter(cs, fall);
    assert(query(cs, "get_spring_courses"@, args) == DataView::Courses(spring_courses(cs)));
    assert(spring_courses(cs) == courses_where(cs, spring));
    assert(query(cs, "get_fall_courses"@, args) == DataView::Courses(fall_courses(cs)));
    assert(fall_courses(cs) == courses_where(cs, fall));
    if args.len() > 0 {
        let p = args[0];
        let by = |c: CourseView| c.instructor == p;
        lemma_courses_where_filter(cs, by);
    }
}

proof fn lemma_last_with_id_last(cs: Seq<CourseView>, id: Seq<char>, n: int)
    requires
        0 <= n <= cs.len(),
    ensures
        last_with_id(cs, id, n) matches Some(i) ==> 0 <= i < n && cs[i].id == id && forall|j: int|
            i < j < n ==> #[trigger] cs[j].id != id,
        last_with_id(cs, id, n) is None ==> forall|j: int| 0 <= j < n ==> #[trigger] cs[j].id != id,
    decreases n,
{
    if n > 0 && cs[n - 1].id != id {
        lemma_last_with_id_last(cs, id, n - 1);
    }
}

proof fn lemma_first_with_id_first(cs: Seq<CourseView>, id: Seq<char>, i: int)
    requires
        0 <= i,
    ensures
        first_with_id(cs, id, i) matches Some(k) ==> i <= k < cs.len() && cs[k].id == id && forall|j: int|
            i <= j < k ==> #[trigger] cs[j].id != id,
        first_with_id(cs, id, i) is None ==> forall|j: int| i <= j < cs.len() ==> #[trigger] cs[j].id != id,
    decreases cs.len() - i,
{
    if i < cs.len() && cs[i].id != id {
        lemma_first_with_id_first(cs, id, i + 1);
    }
}

/// The queries by course id read the catalogue's listing of that id (with
/// `csc` put before an id that lacks it): the instructor, terms and description
/// come from the last course listed with the id, the course by id is the first
/// one listed, and each is absent exactly when no course has the id.
pub proof fn lemma_queries_by_id(cs: Seq<CourseView>, id: Seq<char>)
    ensures
        ({
            let fid = full_id(id);
            &&& instructor_of(cs, id) is None <==> forall|j: int| 0 <= j < cs.len() ==> #[trigger] cs[j].id != fid
            &&& instructor_of(cs, id) matches Some(x) ==> exists|i: int|
                0 <= i < cs.len() && #[trigger] cs[i].id == fid && cs[i].instructor == x && forall|j: int|
                    i < j < cs.len() ==> #[trigger] cs[j].id != fid
            &&& term_of(cs, id) matches Some(t) ==> exists|i: int|
                0 <= i < cs.len() && #[trigger] cs[i].id == fid && cs[i].term == t && forall|j: int|
                    i < j < cs.len() ==> #[trigger] cs[j].id != fid
            &&& description_of(cs, id) matches Some(x) ==> exists|i: int|
                0 <= i < cs.len() && #[trigger] cs[i].id == fid && cs[i].description == x && forall|j: int|
                    i < j < cs.len() ==> #[trigger] cs[j].id != fid
            &&& course_by_id(cs, id) is None <==> forall|j: int| 0 <= j < cs.len() ==> #[trigger] cs[j].id != fid
            &&& course_by_id(cs, id) matches Some(c) ==> exists|i: int|
                0 <= i < cs.len() && #[trigger] cs[i].id == fid && cs[i] == c && forall|j: int|
                    0 <= j < i ==> #[trigger] cs[j].id != fid
        }),
{
    let fid = full_id(id);
    lemma_last_with_id_last(cs, fid, cs.len() as int);
    lemma_first_with_id_first(cs, fid, 0);
    match last_with_id(cs, fid, cs.len() as int) {
        Some(i) => {
            assert(cs[i].id == fid);
        },
        None => {},
    }
    match first_with_id(cs, fid, 0) {
        Some(i) => {
            assert(cs[i].id == fid);
        },
        None => {},
    }
}

} // verus!
