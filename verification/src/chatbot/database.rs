//! The course catalogue of the first adviser.
use vstd::prelude::*;
use crate::text::{strs, opt_view};

verus! {

/// A timetable (it holds nothing yet).
#[derive(Debug)]
pub struct Schedule {}

/// A term of the academic year.
#[derive(Debug)]
pub enum Term {
    Spring,
    Fall,
}

/// A course as the catalogue lists it.
#[derive(Debug, Clone)]
pub struct Course {
    pub id: String,
    pub crn: String,
    pub title: String,
    pub term: String,
    pub credits: String,
    pub instructor: String,
    pub prerequisites: Vec<String>,
}

/// The catalogue.
#[derive(Debug)]
pub struct Database {
    pub courses: Vec<Course>,
}

pub struct CourseView {
    pub id: Seq<char>,
    pub crn: Seq<char>,
    pub title: Seq<char>,
    pub term: Seq<char>,
    pub credits: Seq<char>,
    pub instructor: Seq<char>,
    pub prerequisites: Seq<Seq<char>>,
}

impl View for Course {
    type V = CourseView;

    open spec fn view(&self) -> CourseView {
        CourseView {
            id: self.id@,
            crn: self.crn@,
            title: self.title@,
            term: self.term@,
            credits: self.credits@,
            instructor: self.instructor@,
            prerequisites: strs(self.prerequisites@),
        }
    }
}

/// The views of courses.
pub open spec fn course_views(s: Seq<Course>) -> Seq<CourseView> {
    s.map_values(|c: Course| c@)
}

impl View for Database {
    type V = Seq<CourseView>;

    open spec fn view(&self) -> Seq<CourseView> {
        course_views(self.courses@)
    }
}

/// The index of the last course among the first `n` whose id is `id`.
pub open spec fn last_with_id(cs: Seq<CourseView>, id: Seq<char>, n: int) -> Option<int>
    decreases n,
{
    if n <= 0 || n > cs.len() {
        None
    } else if cs[n - 1].id == id {
        Some(n - 1)
    } else {
        last_with_id(cs, id, n - 1)
    }
}

/// The last course whose id is `id`.
pub open spec fn course_with_id(cs: Seq<CourseView>, id: Seq<char>) -> Option<CourseView> {
    match last_with_id(cs, id, cs.len() as int) {
        Some(i) => Some(cs[i]),
        None => None,
    }
}

pub proof fn lemma_last_with_id(cs: Seq<CourseView>, id: Seq<char>, n: int)
    requires
        0 <= n <= cs.len(),
    ensures
        last_with_id(cs, id, n) matches Some(i) ==> 0 <= i < n && cs[i].id == id,
    decreases n,
{
    if n > 0 && cs[n - 1].id != id {
        lemma_last_with_id(cs, id, n - 1);
    }
}

/// The words joined, `sep` between each two.
pub open spec fn join(ws: Seq<Seq<char>>, sep: Seq<char>) -> Seq<char>
    decreases ws.len(),
{
    if ws.len() == 0 {
        seq![]
    } else if ws.len() == 1 {
        ws[0]
    } else {
        join(ws.drop_last(), sep) + sep + ws.last()
    }
}

impl Course {
    /// The title of the course.
    pub fn get_title(&self) -> (r: &String)
        ensures
            r@ == self.title@,
    {
        let title: &String = &self.title;
        title
    }
}

impl Database {
    /// The index of the last course whose id is `id`.
    fn find_last(&self, id: &String) -> (r: Option<usize>)
        ensures
            r matches Some(i) ==> i < self.courses.len() && last_with_id(self@, id@, self@.len() as int) == Some(i as int),
            r is None ==> last_with_id(self@, id@, self@.len() as int) is None,
    {
        let mut i = self.courses.len();
        while i > 0
            invariant
                i <= self.courses.len(),
                last_with_id(self@, id@, self@.len() as int) == last_with_id(self@, id@, i as int),
            decreases i,
        {
            if self.courses[i - 1].id == *id {
                return Some(i - 1);
            }
            i = i - 1;
        }
        None
    }

    /// The CRN of the (last) course with id `id`.
    pub fn get_crn_from_id(&self, id: &String) -> (r: Option<String>)
        ensures
            opt_view(r) == (match course_with_id(self@, id@) {
                Some(c) => Some(c.crn),
                None => None,
            }),
    {
        match self.find_last(id) {
            Some(i) => Some(self.courses[i].crn.clone()),
            None => None,
        }
    }

    /// The title of the (last) course with id `id`.
    pub fn get_title_from_id(&self, id: &String) -> (r: Option<String>)
        ensures
            opt_view(r) == (match course_with_id(self@, id@) {
                Some(c) => Some(c.title),
                None => None,
            }),
    {
        match self.find_last(id) {
            Some(i) => Some(self.courses[i].title.clone()),
            None => None,
        }
    }

    /// The term of the (last) course with id `id`.
    pub fn get_term_from_id(&self, id: &String) -> (r: Option<String>)
        ensures
            opt_view(r) == (match course_with_id(self@, id@) {
                Some(c) => Some(c.term),
                None => None,
            }),
    {
        match self.find_last(id) {
            Some(i) => Some(self.courses[i].term.clone()),
            None => None,
        }
    }

    /// The credits of the (last) course with id `id`.
    pub fn get_credits_from_id(&self, id: &String) -> (r: Option<String>)
        ensures
            opt_view(r) == (match course_with_id(self@, id@) {
                Some(c) => Some(c.credits),
                None => None,
            }),
    {
        match self.find_last(id) {
            Some(i) => Some(self.courses[i].credits.clone()),
            None => None,
        }
    }

    /// The instructor of the (last) course with id `id`.
    pub fn get_instructor_from_id(&self, id: &String) -> (r: Option<String>)
        ensures
            opt_view(r) == (match course_with_id(self@, id@) {
                Some(c) => Some(c.instructor),
                None => None,
            }),
    {
        match self.find_last(id) {
            Some(i) => Some(self.courses[i].instructor.clone()),
            None => None,
        }
    }

    /// The prerequisites of the (last) course with id `id`, joined by " & ".
    pub fn get_prerequisites_from_id(&self, id: &String) -> (r: Option<String>)
        ensures
            opt_view(r) == (match course_with_id(self@, id@) {
                Some(c) => Some(join(c.prerequisites, " & "@)),
                None => None,
            }),
    {
        match self.find_last(id) {
            Some(i) => {
                let prereqs = &self.courses[i].prerequisites;
                let ghost ps = strs(prereqs@);
                let mut temp = String::new();
                let mut index: usize = 0;
                while index < prereqs.len()
                    invariant
                        index <= prereqs.len(),
                        ps == strs(prereqs@),
                        index < prereqs.len() ==> temp@ == (if index == 0 {
                            Seq::<char>::empty()
                        } else {
                            join(ps.take(index as int), " & "@) + " & "@
                        }),
                        index == prereqs.len() && index > 0 ==> temp@ == join(ps, " & "@),
                        index == 0 ==> temp@ == Seq::<char>::empty(),
                    decreases prereqs.len() - index,
                {
                    assert(ps.take(index + 1).drop_last() =~= ps.take(index as int));
                    if index > 0 {
                        assert(join(ps.take(index + 1), " & "@) == join(ps.take(index as int), " & "@) + " & "@ + ps[index as int]);
                    } else {
                        assert(join(ps.take(1), " & "@) == ps[0]);
                    }
                    temp.append(prereqs[index].as_str());
                    if index != prereqs.len() - 1 {
                        temp.append(" & ");
                    } else {
                        assert(ps.take(index + 1) =~= ps);
                    }
                    index = index + 1;
                }
                if prereqs.len() == 0 {
                    assert(ps =~= Seq::<Seq<char>>::empty());
                }
                assert(temp@ == join(ps, " & "@));
                assert(ps == self@[i as int].prerequisites);
                proof {
                    lemma_last_with_id(self@, id@, self@.len() as int);
                }
                assert(course_with_id(self@, id@) == Some(self@[i as int]));
                Some(temp)
            },
            None => None,
        }
    }
}

proof fn lemma_last_with_id_last(cs: Seq<CourseView>, id: Seq<char>, n: int)
    requires
        0 <= n <= cs.len(),
    ensures
        last_with_id(cs, id, n) matches Some(i) ==> 0 <= i < n && cs[i].id == id && forall|j: int|
            i < j < n ==> #[trigger] cs[j].id != id,
        last_with_id(cs, id, n) is None ==> forall|j: int| 0 <= j < n ==> #[trigger] cs[j].id != id,
    decreases n,
{
    if n > 0 && cs[n - 1].id != id {
        lemma_last_with_id_last(cs, id, n - 1);
    }
}

/// The catalogue answers for a course id from the last course listed with
/// exactly that id, and has no answer exactly when no course has it.
pub proof fn lemma_course_with_id_is_last(cs: Seq<CourseView>, id: Seq<char>)
    ensures
        course_with_id(cs, id) is None <==> forall|j: int| 0 <= j < cs.len() ==> #[trigger] cs[j].id != id,
        course_with_id(cs, id) matches Some(c) ==> exists|i: int|
            0 <= i < cs.len() && #[trigger] cs[i] == c && c.id == id && forall|j: int|
                i < j < cs.len() ==> #[trigger] cs[j].id != id,
{
    lemma_last_with_id_last(cs, id, cs.len() as int);
    match last_with_id(cs, id, cs.len() as int) {
        Some(i) => {
            assert(cs[i].id == id);
        },
        None => {},
    }
}

/// Prerequisites are listed with " & " between each two: none gives nothing,
/// one gives itself, and each further one is put after " & ".
pub proof fn lemma_join_prerequisites(ws: Seq<Seq<char>>, w: Seq<char>)
    ensures
        join(seq![], " & "@) == Seq::<char>::empty(),
        join(seq![w], " & "@) == w,
        ws.len() > 0 ==> join(ws.push(w), " & "@) == join(ws, " & "@) + " & "@ + w,
{
    assert(ws.push(w).drop_last() =~= ws);
}

} // verus!
