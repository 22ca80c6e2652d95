//! An earlier form of the catalogue, whose queries take course ids exactly as given.
use vstd::prelude::*;
use crate::text::{opt_view, str_eq, strs};
pub use crate::pawliki::database::{Cluster, Course, Major, Term};
use crate::pawliki::database::{
    by_prof_in, cluster_views, copy_courses, course_views, courses_by, find_last_in, first_in,
    first_with_id, last_course, prerequisite_courses, prerequisites_in, ClusterView, CourseView,
};

verus! {

/// The catalogue.
pub struct DB {
    pub majors: Vec<Major>,
    pub clusters: Vec<Cluster>,
    pub courses: Vec<Course>,
}

/// What a query found.
#[derive(Debug)]
pub enum Data {
    ACourse(Course),
    ACluster(Cluster),
    Instructor(String),
    Description(String),
    Courses(Vec<Course>),
    Clusters(Vec<Cluster>),
    Nothing,
}

pub enum DataView {
    ACourse(CourseView),
    ACluster(ClusterView),
    Instructor(Seq<char>),
    Description(Seq<char>),
    Courses(Seq<CourseView>),
    Clusters(Seq<ClusterView>),
    Nothing,
}

impl View for Data {
    type V = DataView;

    open spec fn view(&self) -> DataView {
        match self {
            Data::ACourse(c) => DataView::ACourse(c@),
            Data::ACluster(c) => DataView::ACluster(c@),
            Data::Instructor(s) => DataView::Instructor(s@),
            Data::Description(s) => DataView::Description(s@),
            Data::Courses(cs) => DataView::Courses(course_views(cs@)),
            Data::Clusters(cs) => DataView::Clusters(cluster_views(cs@)),
            Data::Nothing => DataView::Nothing,
        }
    }
}

impl View for DB {
    type V = Seq<CourseView>;

    /// The courses of the catalogue, which every query reads.
    open spec fn view(&self) -> Seq<CourseView> {
        course_views(self.courses@)
    }
}

/// The queries that read their first argument.
pub open spec fn needs_arg(name: Seq<char>) -> bool {
    name == "get_instructor"@ || name == "get_prereq"@ || name == "get_course_by_id"@ || name
        == "get_courses_by_prof"@ || name == "get_description"@
}

/// What the query `name` finds for `args` (`Nothing` for an unknown name).
pub open spec fn query(cs: Seq<CourseView>, name: Seq<char>, args: Seq<Seq<char>>) -> DataView {
    if name == "get_instructor"@ {
        match last_course(cs, args[0]) {
            Some(c) => DataView::Instructor(c.instructor),
            None => DataView::Nothing,
        }
    } else if name == "get_prereq"@ {
        match last_course(cs, args[0]) {
            Some(c) => DataView::Courses(prerequisite_courses(cs, c.prerequisites)),
            None => DataView::Nothing,
        }
    } else if name == "get_all_courses"@ {
        DataView::Courses(cs)
    } else if name == "get_course_by_id"@ {
        match first_with_id(cs, args[0], 0) {
            Some(i) => DataView::ACourse(cs[i]),
            None => DataView::Nothing,
        }
    } else if name == "get_courses_by_prof"@ {
        DataView::Courses(courses_by(cs, args[0]))
    } else if name == "get_description"@ {
        match last_course(cs, args[0]) {
            Some(c) => DataView::Description(c.description),
            None => DataView::Nothing,
        }
    } else {
        DataView::Nothing
    }
}

impl DB {
    /// The instructor of the last course whose id is `id`.
    pub fn get_instructor(&self, id: &str) -> (r: Option<String>)
        ensures
            opt_view(r) == (match last_course(self@, id@) {
                Some(c) => Some(c.instructor),
                None => None,
            }),
    {
        match find_last_in(&self.courses, &id.to_owned()) {
            Some(i) => Some(self.courses[i].instructor.clone()),
            None => None,
        }
    }

    /// The courses that the prerequisites of the last course whose id is `id` name.
    pub fn get_prerequisites(&self, id: &str) -> (r: Option<Vec<Course>>)
        ensures
            match r {
                Some(v) => match last_course(self@, id@) {
                    Some(c) => course_views(v@) == prerequisite_courses(self@, c.prerequisites),
                    None => false,
                },
                None => last_course(self@, id@) is None,
            },
    {
        prerequisites_in(&self.courses, &id.to_owned())
    }

    /// The first course whose id is `id`.
    pub fn get_course_by_id(&self, id: &str) -> (r: Option<Course>)
        ensures
            match r {
                Some(c) => match first_with_id(self@, id@, 0) {
                    Some(i) => c@ == self@[i],
                    None => false,
                },
                None => first_with_id(self@, id@, 0) is None,
            },
    {
        first_in(&self.courses, &id.to_owned())
    }

    /// The courses taught by `prof`.
    pub fn get_courses_by_prof(&self, prof: &str) -> (r: Option<Vec<Course>>)
        ensures
            r matches Some(v) && course_views(v@) == courses_by(self@, prof@),
    {
        Some(by_prof_in(&self.courses, prof))
    }

    /// All the courses.
    pub fn get_all_courses(&self) -> (r: Option<Vec<Course>>)
        ensures
            r matches Some(v) && course_views(v@) == self@,
    {
        Some(copy_courses(&self.courses))
    }

    /// The description of the last course whose id is `id`.
    pub fn get_description_by_id(&self, id: &str) -> (r: Option<String>)
        ensures
            opt_view(r) == (match last_course(self@, id@) {
                Some(c) => Some(c.description),
                None => None,
            }),
    {
        match find_last_in(&self.courses, &id.to_owned()) {
            Some(i) => Some(self.courses[i].description.clone()),
            None => None,
        }
    }

    /// Runs the query `fun_name` with the arguments `args`.
    pub fn query_executor(&self, fun_name: &str, args: &Vec<String>) -> (r: Data)
        requires
            needs_arg(fun_name@) ==> args.len() > 0,
        ensures
            r@ == query(self@, fun_name@, strs(args@)),
    {
        if str_eq(fun_name, "get_instructor") {
            match self.get_instructor(args[0].as_str()) {
                Some(s) => Data::Instructor(s),
                None => Data::Nothing,
            }
        } else if str_eq(fun_name, "get_prereq") {
            match self.get_prerequisites(args[0].as_str()) {
                Some(c) => Data::Courses(c),
                None => Data::Nothing,
            }
        } else if str_eq(fun_name, "get_all_courses") {
            match self.get_all_courses() {
                Some(c) => Data::Courses(c),
                None => Data::Nothing,
            }
        } else if str_eq(fun_name, "get_course_by_id") {
            match self.get_course_by_id(args[0].as_str()) {
                Some(c) => Data::ACourse(c),
                None => Data::Nothing,
            }
        } else if str_eq(fun_name, "get_courses_by_prof") {
            match self.get_courses_by_prof(args[0].as_str()) {
                Some(c) => Data::Courses(c),
                None => Data::Nothing,
            }
        } else if str_eq(fun_name, "get_description") {
            match self.get_description_by_id(args[0].as_str()) {
                Some(d) => Data::Description(d),
                None => Data::Nothing,
            }
        } else {
            Data::Nothing
        }
    }
}

/// The earlier catalogue's listing queries: all courses are the whole
/// catalogue, and the courses by a professor are, in catalogue order, exactly
/// those the professor teaches.
pub proof fn lemma_db_query_lists(cs: Seq<CourseView>, args: Seq<Seq<char>>)
    ensures
        query(cs, "get_all_courses"@, args) == DataView::Courses(cs),
        args.len() > 0 ==> query(cs, "get_courses_by_prof"@, args) == DataView::Courses(
            cs.filter(|c: CourseView| c.instructor == args[0]),
        ),
{
    reveal_strlit("get_instructor");
    reveal_strlit("get_prereq");
    reveal_strlit("get_all_courses");
    reveal_strlit("get_course_by_id");
    reveal_strlit("get_courses_by_prof");
    assert("get_instructor"@.len() == 14);
    assert("get_prereq"@.len() == 10);
    assert("get_all_courses"@.len() == 15);
    assert("get_course_by_id"@.len() == 16);
    assert("get_courses_by_prof"@.len() == 19);
    if args.len() > 0 {
        let p = args[0];
        let by = |c: CourseView| c.instructor == p;
        crate::pawliki::database::lemma_courses_where_filter(cs, by);
        assert(query(cs, "get_courses_by_prof"@, args) == DataView::Courses(courses_by(cs, p)));
    }
}

} // verus!
