//! The second course adviser, Pawliki: an ELIZA engine whose rules can consult
//! the course catalogue.
pub mod database;
pub mod db;

use vstd::prelude::*;
use crate::text::{
    push_all, split_words, to_uppercase, uppercase, words, chars_of, contains, contains_exec, parse_u16, parse_u16_exec, parse_usize, parse_usize_exec,
    replace_all, replace_exec, scrub, scrub_exec, split_exec, split_from, string_of, strs, views,
};
use crate::pattern::{compile, find, groups_view, regex_find, regex_valid};
use crate::script::{refl_views, Reflection, ReflectionView};

use crate::rewrite::{reflect, reflected};
use std::collections::VecDeque;
use crate::usage::{usage_grows, usage_key, RuleUsage};
use crate::script::{kw_views, Keyword, KeywordView, RuleView, Script, ScriptView};
use crate::keystack::{find_keyword, lemma_find_keyword};
use crate::pattern::{captures, pattern_views, patterns_of, permutations, regex_captures, Pattern};
use crate::rewrite::{goto_target, is_goto};
use crate::engine::{
    with_memory_before, extends, lemma_extends_refl, lemma_extends_trans, outcome_state, find_keyword_in, input_phrases, reply_matches, search_matches, state_of, Outcome, Reply, ReplyResult,
    SearchResult, State, StateView,
};
use crate::keystack::{keystack_of, populate_keystack};
use crate::rewrite::{get_phrases, transform};
use crate::text::{opt_view, to_lowercase};
use crate::script::or_default;
use crate::eliza::picked;
use crate::pawliki::database::{course_views, needs_arg, needs_arg_exec, query, Course, CourseView, Data, DataView, Database, Term};

verus! {

// ------------------------------------------------------------------------
// Looking data up for a rule
// ------------------------------------------------------------------------

/// The pattern of a course id: three letters, three digits.
pub open spec fn course_id_pattern() -> Seq<char> {
    "[[:alpha:]]{3}[[:digit:]]{3}"@
}

/// The character that marks a piece of a decomposition rule as a query argument.
pub open spec fn plus() -> Seq<char> {
    seq!['+']
}

/// The text of capture `i`, or nothing.
pub open spec fn capture_text(caps: Seq<Option<Seq<char>>>, i: int) -> Seq<char> {
    if 0 <= i < caps.len() && caps[i] is Some {
        caps[i]->0
    } else {
        seq![]
    }
}

/// The query argument drawn from capture `i`: its text without spaces, or the
/// course id found in it.
pub open spec fn query_arg(caps: Seq<Option<Seq<char>>>, i: int) -> Seq<char> {
    let c = replace_all(capture_text(caps, i), seq![' '], seq![]);
    match regex_find(course_id_pattern(), c) {
        Some(m) => m,
        None => c,
    }
}

/// The query arguments for the first `n` pieces of a decomposition rule split at
/// `)`: one for each piece holding `+`, drawn from the capture after the piece's index.
pub open spec fn query_args(pieces: Seq<Seq<char>>, caps: Seq<Option<Seq<char>>>, n: int) -> Seq<Seq<char>>
    decreases n,
{
    if n <= 0 || n > pieces.len() {
        seq![]
    } else if contains(pieces[n - 1], plus()) {
        query_args(pieces, caps, n - 1).push(query_arg(caps, n))
    } else {
        query_args(pieces, caps, n - 1)
    }
}

proof fn lemma_query_args_grow(pieces: Seq<Seq<char>>, caps: Seq<Option<Seq<char>>>, n: int, m: int)
    requires
        0 <= n <= m <= pieces.len(),
    ensures
        query_args(pieces, caps, n).len() <= query_args(pieces, caps, m).len(),
    decreases m - n,
{
    if n < m {
        lemma_query_args_grow(pieces, caps, n, m - 1);
    }
}

/// The outcome of a lookup.
pub enum Lookup {
    /// The adviser would panic: the course-id pattern does not compile, or the
    /// query needs an argument and the rule gives none.
    Panicked,
    /// What the query found.
    Found(DataView),
}

/// The lookup a rule with decomposition `dr` and lookup rule `lr` makes for the captures.
pub open spec fn lookup(cs: Seq<crate::pawliki::database::CourseView>, dr: Seq<char>, lr: Seq<char>, caps: Seq<Option<Seq<char>>>) -> Lookup {
    let pieces = split_from(dr, seq![')'], 0);
    let args = query_args(pieces, caps, pieces.len() as int);
    if args.len() > 0 && !regex_valid(course_id_pattern()) {
        Lookup::Panicked
    } else if needs_arg(lr) && args.len() == 0 {
        Lookup::Panicked
    } else {
        Lookup::Found(query(cs, lr, args))
    }
}

/// Runs the lookup rule `lr` with arguments drawn from the captures where the
/// decomposition rule `dr` has pieces holding `+`; `Err(())` where the adviser
/// would panic.
pub fn get_query(database: &Database, dr: &str, lr: &str, caps: &Vec<Option<String>>) -> (r: Result<Data, ()>)
    ensures
        match lookup(database@, dr@, lr@, crate::pattern::groups_view(caps@)) {
            Lookup::Panicked => r is Err,
            Lookup::Found(d) => r matches Ok(x) && x@ == d,
        },
{
    let ghost cv = crate::pattern::groups_view(caps@);
    let drc = chars_of(dr);
    let close: Vec<char> = vec![')'];
    assert(close@ =~= seq![')']);
    let pieces = split_exec(&drc, &close);
    let ghost pv = views(pieces@);
    assert(pv == split_from(dr@, seq![')'], 0));
    let plus_v: Vec<char> = vec!['+'];
    let space: Vec<char> = vec![' '];
    let empty: Vec<char> = Vec::new();
    assert(plus_v@ =~= plus());
    assert(space@ =~= seq![' ']);
    assert(empty@ =~= Seq::<char>::empty());
    let mut params: Vec<String> = Vec::new();
    let mut count: usize = 0;
    while count < pieces.len()
        invariant
            count <= pieces.len(),
            pv == views(pieces@),
            pv == split_from(dr@, seq![')'], 0),
            pv.len() == pieces.len(),
            cv == crate::pattern::groups_view(caps@),
            plus_v@ == plus(),
            space@ == seq![' '],
            empty@ == Seq::<char>::empty(),
            strs(params@) == query_args(pv, cv, count as int),
            params.len() > 0 ==> regex_valid(course_id_pattern()),
        decreases pieces.len() - count,
    {
        assert(pv[count as int] == pieces@[count as int]@);
        if contains_exec(&pieces[count], &plus_v) {
            let text: Vec<char> = if count + 1 < caps.len() {
                match &caps[count + 1] {
                    Some(m) => chars_of(m.as_str()),
                    None => Vec::new(),
                }
            } else {
                Vec::new()
            };
            assert(text@ == capture_text(cv, count + 1));
            let capture = replace_exec(&text, &space, &empty);
            let capture_s = string_of(&capture);
            let re = match compile("[[:alpha:]]{3}[[:digit:]]{3}") {
                Some(p) => p,
                None => {
                    proof {
                        lemma_query_args_grow(pv, cv, count + 1, pv.len() as int);
                    }
                    return Err(());
                },
            };
            let arg = match find(&re, capture_s.as_str()) {
                Some(m) => m,
                None => capture_s,
            };
            let ghost before = params@;
            params.push(arg);
            assert(strs(params@) =~= strs(before).push(query_arg(cv, count + 1)));
        }
        count = count + 1;
    }
    assert(pv.len() == pieces.len());
    if needs_arg_exec(lr) && params.len() == 0 {
        return Err(());
    }
    Ok(database.query_executor(lr, &params))
}


// ------------------------------------------------------------------------
// Choosing a reassembly rule in the light of the data
// ------------------------------------------------------------------------

/// What the data decides about the rule at hand, before usage is considered.
pub enum Stage {
    /// Go on to the next rule.
    Skip,
    /// Stop with this choice.
    Stop(Option<Seq<char>>),
    /// Weigh the rule by its usage, with this choice so far.
    Weigh(Option<Seq<char>>),
    /// The adviser would panic: a count is not a number that fits in 16 bits.
    Halt,
}

/// What the data decides about `rule` (the last of the rules when `last`).
pub open spec fn data_stage(d: DataView, rule: Seq<char>, last: bool, best: Option<Seq<char>>) -> Stage {
    match d {
        DataView::Nothing => if last {
            Stage::Stop(Some(rule))
        } else {
            Stage::Skip
        },
        DataView::Number(n) => match parse_u16(n) {
            None => Stage::Halt,
            Some(v) => if v > 0 {
                Stage::Stop(Some(rule))
            } else if last {
                Stage::Weigh(Some(rule))
            } else {
                Stage::Skip
            },
        },
        DataView::Courses(cs) => if contains(rule, crate::pattern::at_sign()) && cs.len() > 0 {
            Stage::Stop(Some(rule))
        } else if last {
            Stage::Weigh(Some(rule))
        } else {
            Stage::Skip
        },
        DataView::Term(_) => Stage::Weigh(Some(rule)),
        _ => Stage::Weigh(best),
    }
}

/// The outcome of choosing a reassembly rule with data.
pub enum Choice {
    /// The adviser would panic.
    Panicked,
    /// The rule chosen and the usage after the choice.
    Chosen(Option<Seq<char>>, Map<Seq<char>, nat>),
}

/// The chosen rule has its count grown by one, where it has one.
pub open spec fn finish_choice(u: Map<Seq<char>, nat>, id: Seq<char>, best: Option<Seq<char>>) -> Choice {
    match best {
        None => Choice::Chosen(None, u),
        Some(b) => {
            let k = usage_key(id, b);
            if u.contains_key(k) {
                if u[k] + 1 > usize::MAX {
                    Choice::Panicked
                } else {
                    Choice::Chosen(Some(b), u.insert(k, u[k] + 1))
                }
            } else {
                Choice::Chosen(Some(b), u)
            }
        },
    }
}

/// The choice among `rules[i..]`, `best` and `count` being the choice so far and
/// its usage: the data may skip a rule or settle the choice; otherwise a rule
/// never used is chosen at once, and a used rule is chosen when it was used less
/// than the choice so far.
pub open spec fn choose_with_data(
    u: Map<Seq<char>, nat>,
    id: Seq<char>,
    rules: Seq<Seq<char>>,
    d: DataView,
    i: int,
    best: Option<Seq<char>>,
    count: Option<nat>,
) -> Choice
    decreases rules.len() - i,
{
    if i < 0 || i >= rules.len() {
        finish_choice(u, id, best)
    } else {
        let rule = rules[i];
        match data_stage(d, rule, i == rules.len() - 1, best) {
            Stage::Halt => Choice::Panicked,
            Stage::Skip => choose_with_data(u, id, rules, d, i + 1, best, count),
            Stage::Stop(b) => finish_choice(u, id, b),
            Stage::Weigh(b) => {
                let k = usage_key(id, rule);
                if u.contains_key(k) {
                    let x = u[k];
                    match count {
                        Some(c) => if x < c {
                            choose_with_data(u, id, rules, d, i + 1, Some(rule), Some(x))
                        } else {
                            choose_with_data(u, id, rules, d, i + 1, b, count)
                        },
                        None => choose_with_data(u, id, rules, d, i + 1, Some(rule), Some(x)),
                    }
                } else {
                    finish_choice(u.insert(k, 0), id, Some(rule))
                }
            },
        }
    }
}

/// Grows the count of `best`, where it has one; `Err(())` where it cannot grow.
fn finish_exec(usage: &mut RuleUsage, id: &str, best: Option<String>) -> (r: Result<Option<String>, ()>)
    requires
        old(usage).wf(),
    ensures
        final(usage).wf(),
        match finish_choice(old(usage).counts(), id@, opt_str(best)) {
            Choice::Panicked => r is Err && final(usage).counts() == old(usage).counts(),
            Choice::Chosen(b, after) => r matches Ok(x) && opt_str(x) == b && final(usage).counts() == after,
        },
{
    match best {
        None => Ok(None),
        Some(b) => {
            let mut key = String::from_str(id);
            key.append(b.as_str());
            match usage.get(&key) {
                Some(c) => {
                    if c == usize::MAX {
                        return Err(());
                    }
                    usage.set(&key, c + 1);
                    Ok(Some(b))
                },
                None => Ok(Some(b)),
            }
        },
    }
}

/// The view of an optional string.
pub open spec fn opt_str(o: Option<String>) -> Option<Seq<char>> {
    crate::text::opt_view(o)
}

/// Chooses the reassembly rule for the decomposition `id` in the light of the
/// data a lookup found, and counts its use; `Err(())` where the adviser would panic.
pub fn get_reassembly(usage: &mut RuleUsage, id: &str, rules: &Vec<String>, data: &Data) -> (r: Result<Option<String>, ()>)
    requires
        old(usage).wf(),
    ensures
        final(usage).wf(),
        match choose_with_data(old(usage).counts(), id@, strs(rules@), data@, 0, None, None) {
            Choice::Panicked => r is Err && final(usage).counts() == old(usage).counts(),
            Choice::Chosen(b, after) => r matches Ok(x) && opt_str(x) == b && final(usage).counts() == after,
        },
{
    let ghost rs = strs(rules@);
    let ghost u0 = usage.counts();
    let ghost target = choose_with_data(u0, id@, rs, data@, 0, None, None);
    let mut best: Option<String> = None;
    let mut count: Option<usize> = None;
    let mut index: usize = 0;
    proof {
        usage.lemma_counts_bounded();
    }
    while index < rules.len()
        invariant
            index <= rules.len(),
            usage.wf(),
            usage.counts() == u0,
            u0 == old(usage).counts(),
            rs == strs(rules@),
            forall|k: Seq<char>| #[trigger] u0.contains_key(k) ==> u0[k] <= usize::MAX,
            target == choose_with_data(old(usage).counts(), id@, strs(rules@), data@, 0, None, None),
            target == choose_with_data(u0, id@, rs, data@, index as int, opt_str(best), match count {
                Some(c) => Some(c as nat),
                None => None,
            }),
        decreases rules.len() - index,
    {
        let rule = &rules[index];
        assert(rs[index as int] == rule@);
        let last = index == rules.len() - 1;
        let mut weigh = true;
        match data {
            Data::Nothing => {
                if last {
                    return finish_exec(usage, id, Some(rule.clone()));
                }
                weigh = false;
            },
            Data::Number(n) => {
                let nc = chars_of(n.as_str());
                match parse_u16_exec(&nc) {
                    None => {
                        return Err(());
                    },
                    Some(v) => {
                        if v > 0 {
                            return finish_exec(usage, id, Some(rule.clone()));
                        } else if last {
                            best = Some(rule.clone());
                        } else {
                            weigh = false;
                        }
                    },
                }
            },
            Data::Courses(cs) => {
                let rc = chars_of(rule.as_str());
                let at: Vec<char> = vec!['@'];
                assert(at@ =~= crate::pattern::at_sign());
                if contains_exec(&rc, &at) && cs.len() > 0 {
                    return finish_exec(usage, id, Some(rule.clone()));
                } else if last {
                    best = Some(rule.clone());
                } else {
                    weigh = false;
                }
            },
            Data::Term(_) => {
                best = Some(rule.clone());
            },
            _ => {},
        }
        if weigh {
            let mut key = String::from_str(id);
            key.append(rule.as_str());
            assert(key@ == usage_key(id@, rs[index as int]));
            match usage.get(&key) {
                Some(u) => {
                    match count {
                        Some(c) => {
                            if u < c {
                                best = Some(rule.clone());
                                count = Some(u);
                            }
                        },
                        None => {
                            best = Some(rule.clone());
                            count = Some(u);
                        },
                    }
                },
                None => {
                    usage.set(&key, 0);
                    return finish_exec(usage, id, Some(rule.clone()));
                },
            }
        }
        index = index + 1;
    }
    finish_exec(usage, id, best)
}


// ------------------------------------------------------------------------
// Assembling a response with data
// ------------------------------------------------------------------------

/// The pattern of a course id in a capture: three letters, perhaps a space, three digits.
pub open spec fn class_pattern() -> Seq<char> {
    "[[:alpha:]]{3}\\s??[[:digit:]]{3}"@
}

/// The course id of `c`, in upper case.
pub open spec fn upper_id(c: CourseView) -> Seq<char> {
    uppercase(c.id)
}

/// The first `n` ids of a list of four or more courses, with commas and a final "and".
pub open spec fn id_list(cs: Seq<CourseView>, n: int) -> Seq<char>
    decreases n,
{
    if n <= 0 || n > cs.len() {
        seq![]
    } else {
        id_list(cs, n - 1) + upper_id(cs[n - 1]) + if n - 1 < cs.len() - 2 {
            ", "@
        } else if n - 1 == cs.len() - 2 {
            ", and "@
        } else {
            "."@
        }
    }
}

/// The courses as an answer reads them: "is X.", "are X and Y.", "are X, Y, and Z.", ...
pub open spec fn courses_phrase(cs: Seq<CourseView>) -> Seq<char> {
    if cs.len() == 1 {
        "is "@ + upper_id(cs[0]) + "."@
    } else if cs.len() == 2 {
        "are "@ + upper_id(cs[0]) + " and "@ + upper_id(cs[1]) + "."@
    } else if cs.len() == 3 {
        "are "@ + upper_id(cs[0]) + ", "@ + upper_id(cs[1]) + ", and "@ + upper_id(cs[2]) + "."@
    } else {
        "are "@ + id_list(cs, cs.len() as int)
    }
}

/// The terms as an answer reads them.
pub open spec fn term_phrase(t: Term) -> Seq<char> {
    if t.spring && t.fall {
        "both spring and fall"@
    } else if !t.spring && t.fall {
        "only fall"@
    } else {
        "only spring"@
    }
}

/// The word `w` of a reassembly rule with `@` filled in from the data.
pub open spec fn at_part(w: Seq<char>, d: DataView) -> Seq<char> {
    if contains(w, crate::pattern::at_sign()) {
        match d {
            DataView::Courses(cs) => replace_all(w, crate::pattern::at_sign(), courses_phrase(cs)),
            DataView::Term(t) => replace_all(w, crate::pattern::at_sign(), term_phrase(t)),
            _ => w,
        }
    } else {
        w
    }
}

/// The course-id marker.
pub open spec fn hash_sign() -> Seq<char> {
    seq!['#']
}

/// How filling in a word ends.
pub enum WordOut {
    /// The adviser would panic.
    Panicked,
    /// The word so far, whether it is valid, and how many courses have been named.
    Filled(Seq<char>, bool, nat),
}

/// The word with `#n` filled in by the course id in capture `n`.
pub open spec fn hash_part(w: Seq<char>, temp: Seq<char>, caps: Seq<Option<Seq<char>>>, rs: Seq<ReflectionView>, counter: nat) -> WordOut {
    if contains(w, hash_sign()) {
        let sc = scrub(w, true);
        match parse_usize(sc) {
            Some(n) => if n < caps.len() + 1 {
                if n >= caps.len() || caps[n as int] is None {
                    WordOut::Panicked
                } else if !regex_valid(class_pattern()) {
                    WordOut::Panicked
                } else {
                    let class0 = uppercase(reflected(caps[n as int]->0, rs));
                    let class = match regex_find(class_pattern(), class0) {
                        Some(m) => m,
                        None => class0,
                    };
                    WordOut::Filled(replace_all(replace_all(temp, sc, class), hash_sign(), seq![]), true, counter)
                }
            } else {
                WordOut::Filled(temp, false, counter)
            },
            None => WordOut::Filled(temp, false, counter),
        }
    } else {
        WordOut::Filled(temp, true, counter)
    }
}

/// The word with `$n` filled in from the data.
pub open spec fn dollar_part(w: Seq<char>, temp: Seq<char>, ok: bool, d: DataView, counter: nat) -> WordOut {
    let dl = crate::engine::dollar();
    if contains(w, dl) {
        let sc = scrub(w, true);
        if parse_usize(sc) is Some {
            match d {
                DataView::Number(n) => WordOut::Filled(replace_all(replace_all(temp, sc, n), dl, seq![]), ok, counter),
                DataView::Instructor(x) => WordOut::Filled(
                    replace_all(uppercase(replace_all(temp, sc, x)), dl, seq![]),
                    ok,
                    counter,
                ),
                DataView::Description(x) => WordOut::Filled(replace_all(replace_all(temp, sc, x), dl, seq![]), ok, counter),
                DataView::Courses(c) => if counter >= c.len() {
                    WordOut::Panicked
                } else {
                    WordOut::Filled(
                        replace_all(uppercase(replace_all(temp, sc, c[counter as int].id)), dl, seq![]),
                        ok,
                        counter + 1,
                    )
                },
                _ => WordOut::Filled(temp, ok, counter),
            }
        } else {
            WordOut::Filled(temp, false, counter)
        }
    } else {
        WordOut::Filled(temp, ok, counter)
    }
}

/// The outcome of filling in a reassembly rule with data.
pub enum Assembled {
    /// The adviser would panic.
    Panicked,
    /// A word names a capture or a value that is not a number, or beyond the captures.
    Invalid,
    /// The response.
    Text(Seq<char>),
}

/// The words `ws[k..]` filled in and appended to `res`, each followed by a space.
pub open spec fn assemble_data_words(
    ws: Seq<Seq<char>>,
    k: int,
    res: Seq<char>,
    caps: Seq<Option<Seq<char>>>,
    rs: Seq<ReflectionView>,
    d: DataView,
    counter: nat,
) -> Assembled
    decreases ws.len() - k,
{
    if k < 0 || k >= ws.len() {
        Assembled::Text(res)
    } else {
        let w = ws[k];
        match hash_part(w, at_part(w, d), caps, rs, counter) {
            WordOut::Panicked => Assembled::Panicked,
            WordOut::Filled(t2, ok1, _) => match dollar_part(w, t2, ok1, d, counter) {
                WordOut::Panicked => Assembled::Panicked,
                WordOut::Filled(t3, ok2, c2) => if !ok2 {
                    Assembled::Invalid
                } else {
                    assemble_data_words(ws, k + 1, res + t3 + seq![' '], caps, rs, d, c2)
                },
            },
        }
    }
}

/// The response a reassembly rule gives for the captures and the data.
pub open spec fn assembled_with_data(rule: Seq<char>, caps: Seq<Option<Seq<char>>>, rs: Seq<ReflectionView>, d: DataView) -> Assembled {
    assemble_data_words(words(rule), 0, seq![], caps, rs, d, 0)
}

/// The upper-case id of a course, as characters.
fn upper_id_exec(c: &Course) -> (r: Vec<char>)
    ensures
        r@ == upper_id(c@),
{
    let u = to_uppercase(c.id.as_str());
    chars_of(u.as_str())
}

/// The courses as an answer reads them.
fn courses_phrase_exec(cs: &Vec<Course>) -> (r: Vec<char>)
    ensures
        r@ == courses_phrase(course_views(cs@)),
{
    let ghost cv = course_views(cs@);
    let mut out = String::new();
    if cs.len() == 1 {
        out.append("is ");
        out.append(string_of(&upper_id_exec(&cs[0])).as_str());
        out.append(".");
    } else if cs.len() == 2 {
        out.append("are ");
        out.append(string_of(&upper_id_exec(&cs[0])).as_str());
        out.append(" and ");
        out.append(string_of(&upper_id_exec(&cs[1])).as_str());
        out.append(".");
    } else if cs.len() == 3 {
        out.append("are ");
        out.append(string_of(&upper_id_exec(&cs[0])).as_str());
        out.append(", ");
        out.append(string_of(&upper_id_exec(&cs[1])).as_str());
        out.append(", and ");
        out.append(string_of(&upper_id_exec(&cs[2])).as_str());
        out.append(".");
    } else {
        out.append("are ");
        let ghost head = out@;
        let mut index: usize = 0;
        while index < cs.len()
            invariant
                index <= cs.len(),
                cv == course_views(cs@),
                cs.len() == 0 || cs.len() >= 4,
                out@ == head + id_list(cv, index as int),
            decreases cs.len() - index,
        {
            let id = upper_id_exec(&cs[index]);
            out.append(string_of(&id).as_str());
            if index < cs.len() - 2 {
                out.append(", ");
            } else if index == cs.len() - 2 {
                out.append(", and ");
            } else {
                out.append(".");
            }
            index = index + 1;
        }
        assert(head == "are "@);
    }
    chars_of(out.as_str())
}

/// The terms as an answer reads them.
fn term_phrase_exec(t: Term) -> (r: Vec<char>)
    ensures
        r@ == term_phrase(t),
{
    let s = if t.spring && t.fall {
        "both spring and fall"
    } else if !t.spring && t.fall {
        "only fall"
    } else {
        "only spring"
    };
    chars_of(s)
}

/// Fills in the reassembly rule word by word: `@` from the data, `#n` with the
/// course id in capture `n`, `$n` from the data; `Ok(None)` where a word names an
/// invalid capture or value, `Err(())` where the adviser would panic.
pub fn assemble(rule: &str, caps: &Vec<Option<String>>, reflections: &Vec<Reflection>, data: &Data) -> (r: Result<Option<String>, ()>)
    ensures
        match assembled_with_data(rule@, groups_view(caps@), refl_views(reflections@), data@) {
            Assembled::Panicked => r is Err,
            Assembled::Invalid => r == Ok::<Option<String>, ()>(None),
            Assembled::Text(t) => r matches Ok(Some(x)) && x@ == t,
        },
{
    let ghost cv = groups_view(caps@);
    let ghost rs = refl_views(reflections@);
    let ghost dv = data@;
    let rule_chars = chars_of(rule);
    let ws = split_words(&rule_chars);
    let at: Vec<char> = vec!['@'];
    let hash: Vec<char> = vec!['#'];
    let dollar_v: Vec<char> = vec!['$'];
    let empty: Vec<char> = Vec::new();
    assert(at@ =~= crate::pattern::at_sign());
    assert(hash@ =~= hash_sign());
    assert(dollar_v@ =~= crate::engine::dollar());
    assert(empty@ =~= Seq::<char>::empty());
    let mut res: Vec<char> = Vec::new();
    let mut counter: usize = 0;
    let mut k: usize = 0;
    while k < ws.len()
        invariant
            k <= ws.len(),
            views(ws@) == words(rule@),
            at@ == crate::pattern::at_sign(),
            hash@ == hash_sign(),
            dollar_v@ == crate::engine::dollar(),
            empty@ == Seq::<char>::empty(),
            cv == groups_view(caps@),
            rs == refl_views(reflections@),
            dv == data@,
            counter <= k,
            assembled_with_data(rule@, cv, rs, dv) == assemble_data_words(views(ws@), k as int, res@, cv, rs, dv, counter as nat),
        decreases ws.len() - k,
    {
        let w = &ws[k];
        assert(views(ws@)[k as int] == w@);
        let mut temp = w.clone();
        if contains_exec(w, &at) {
            match data {
                Data::Courses(cs) => {
                    let phrase = courses_phrase_exec(cs);
                    temp = replace_exec(&temp, &at, &phrase);
                },
                Data::Term(t) => {
                    let phrase = term_phrase_exec(*t);
                    temp = replace_exec(&temp, &at, &phrase);
                },
                _ => {},
            }
        }
        assert(temp@ == at_part(w@, dv));
        let mut ok = true;
        if contains_exec(w, &hash) {
            let sc = scrub_exec(w, true);
            match parse_usize_exec(&sc) {
                Some(n) => {
                    if n <= caps.len() {
                        if n == caps.len() {
                            return Err(());
                        }
                        match &caps[n] {
                            None => {
                                return Err(());
                            },
                            Some(c) => {
                                let refl = reflect(c.as_str(), reflections);
                                let upper = to_uppercase(refl.as_str());
                                let re = match compile("[[:alpha:]]{3}\\s??[[:digit:]]{3}") {
                                    Some(p) => p,
                                    None => {
                                        return Err(());
                                    },
                                };
                                let class = match find(&re, upper.as_str()) {
                                    Some(m) => m,
                                    None => upper,
                                };
                                let class_chars = chars_of(class.as_str());
                                let t1 = replace_exec(&temp, &sc, &class_chars);
                                temp = replace_exec(&t1, &hash, &empty);
                            },
                        }
                    } else {
                        ok = false;
                    }
                },
                None => {
                    ok = false;
                },
            }
        }
        assert(hash_part(w@, at_part(w@, dv), cv, rs, counter as nat) == WordOut::Filled(temp@, ok, counter as nat));
        let ghost counter0 = counter;
        let ghost t2 = temp@;
        let ghost ok1 = ok;
        if contains_exec(w, &dollar_v) {
            let sc = scrub_exec(w, true);
            match parse_usize_exec(&sc) {
                Some(_n) => {
                    match data {
                        Data::Number(n) => {
                            let nc = chars_of(n.as_str());
                            let t1 = replace_exec(&temp, &sc, &nc);
                            temp = replace_exec(&t1, &dollar_v, &empty);
                        },
                        Data::Instructor(x) => {
                            let xc = chars_of(x.as_str());
                            let t1 = replace_exec(&temp, &sc, &xc);
                            let up = to_uppercase(string_of(&t1).as_str());
                            temp = replace_exec(&chars_of(up.as_str()), &dollar_v, &empty);
                        },
                        Data::Description(x) => {
                            let xc = chars_of(x.as_str());
                            let t1 = replace_exec(&temp, &sc, &xc);
                            temp = replace_exec(&t1, &dollar_v, &empty);
                        },
                        Data::Courses(c) => {
                            if counter >= c.len() {
                                return Err(());
                            }
                            let idc = chars_of(c[counter].id.as_str());
                            let t1 = replace_exec(&temp, &sc, &idc);
                            let up = to_uppercase(string_of(&t1).as_str());
                            temp = replace_exec(&chars_of(up.as_str()), &dollar_v, &empty);
                            counter = counter + 1;
                        },
                        _ => {},
                    }
                },
                None => {
                    ok = false;
                },
            }
        }
        assert(dollar_part(w@, t2, ok1, dv, counter0 as nat) == WordOut::Filled(temp@, ok, counter as nat));
        if !ok {
            return Ok(None);
        }
        let ghost res0 = res@;
        assert(assemble_data_words(views(ws@), k as int, res0, cv, rs, dv, counter0 as nat)
            == assemble_data_words(views(ws@), k + 1, res0 + temp@ + seq![' '], cv, rs, dv, counter as nat));
        push_all(&mut res, &temp);
        res.push(' ');
        assert(res@ =~= res0 + temp@ + seq![' ']);
        k = k + 1;
    }
    Ok(Some(string_of(&res)))
}


// ------------------------------------------------------------------------
// Searching for a response
// ------------------------------------------------------------------------

/// The search for a response to `phrase`, rules that look data up consulting
/// the courses `cs`: keywords are taken from the front of
/// `stack`, at most `fuel` of them; each rule of a keyword is tried with every
/// pattern it expands to.
pub open spec fn search_d(sv: ScriptView, cs: Seq<CourseView>, st: StateView, phrase: Seq<char>, stack: Seq<KeywordView>, fuel: nat) -> Outcome
    decreases fuel, 0int, 0int,
{
    if stack.len() == 0 {
        Outcome::NoAnswer(st)
    } else if fuel == 0 {
        Outcome::Exhausted(st)
    } else {
        try_rules_d(sv, cs, st, phrase, stack[0].rules, 0, stack.drop_first(), (fuel - 1) as nat)
    }
}

/// The rules `rules[i..]` of a keyword, tried in order.
pub open spec fn try_rules_d(
    sv: ScriptView,
    cs: Seq<CourseView>,
    st: StateView,
    phrase: Seq<char>,
    rules: Seq<RuleView>,
    i: int,
    stack: Seq<KeywordView>,
    fuel: nat,
) -> Outcome
    decreases fuel, if 0 <= i <= rules.len() {
        rules.len() - i + 1
    } else {
        1int
    }, 0int,
{
    if i < 0 || i >= rules.len() {
        search_d(sv, cs, st, phrase, stack, fuel)
    } else {
        try_patterns_d(
            sv,
            cs,
            st,
            phrase,
            rules,
            i,
            patterns_of(rules[i].decomposition, sv.synonyms),
            0,
            stack,
            fuel,
        )
    }
}

/// The patterns `pats[j..]` of rule `rules[i]`, tried in order.
pub open spec fn try_patterns_d(
    sv: ScriptView,
    cs: Seq<CourseView>,
    st: StateView,
    phrase: Seq<char>,
    rules: Seq<RuleView>,
    i: int,
    pats: Seq<Seq<char>>,
    j: int,
    stack: Seq<KeywordView>,
    fuel: nat,
) -> Outcome
    decreases fuel, if 0 <= i < rules.len() {
        rules.len() - i
    } else {
        0int
    }, if 0 <= j <= pats.len() {
        pats.len() - j + 1
    } else {
        1int
    },
{
    if i < 0 || i >= rules.len() {
        Outcome::NoAnswer(st)
    } else if j < 0 || j >= pats.len() {
        try_rules_d(sv, cs, st, phrase, rules, i + 1, stack, fuel)
    } else {
        let r = rules[i];
        match regex_captures(pats[j], phrase) {
            None => try_patterns_d(sv, cs, st, phrase, rules, i, pats, j + 1, stack, fuel),
            Some(caps) => match (if r.lookup {
                lookup(cs, r.decomposition, r.lookup_rule, caps)
            } else {
                Lookup::Found(DataView::Nothing)
            }) {
                Lookup::Panicked => Outcome::Panicked(st),
                Lookup::Found(d) => match choose_with_data(st.usage, r.decomposition, r.reassembly, d, 0, None, None) {
                Choice::Panicked => Outcome::Panicked(st),
                Choice::Chosen(choice, usage) => {
                    let st1 = StateView { memory: st.memory, usage };
                    match choice {
                        None => try_patterns_d(sv, cs, st1, phrase, rules, i, pats, j + 1, stack, fuel),
                        Some(a) => match goto_target(a) {
                            Some(g) => match find_keyword(sv.keywords, g, 0) {
                                Some(k) => search_d(
                                    sv,
                                    cs,
                                    st1,
                                    phrase,
                                    seq![sv.keywords[k]] + stack,
                                    fuel,
                                ),
                                None => try_patterns_d(sv, cs, st1, phrase, rules, i, pats, j + 1, stack, fuel),
                            },
                            None => match assembled_with_data(a, caps, sv.reflections, d) {
                                Assembled::Panicked => Outcome::Panicked(st1),
                                Assembled::Invalid => try_patterns_d(
                                    sv,
                                    cs,
                                    st1,
                                    phrase,
                                    rules,
                                    i,
                                    pats,
                                    j + 1,
                                    stack,
                                    fuel,
                                ),
                                Assembled::Text(resp) => if r.memorise {
                                    try_patterns_d(
                                        sv,
                                        cs,
                                        StateView { memory: st1.memory.push(resp), usage },
                                        phrase,
                                        rules,
                                        i,
                                        pats,
                                        j + 1,
                                        stack,
                                        fuel,
                                    )
                                } else {
                                    Outcome::Answered(resp, st1)
                                },
                            },
                        },
                    }
                },
            },
            },
        }
    }
}


fn search_with_data(
    database: &Database,
    script: &Script,
    memory_in: VecDeque<String>,
    usage_in: RuleUsage,
    phrase: &String,
    keystack: VecDeque<Keyword>,
    limit: Option<usize>,
    Ghost(fuel): Ghost<nat>,
) -> (r: (SearchResult, VecDeque<String>, RuleUsage))
    requires
        usage_in.wf(),
        limit matches Some(l) ==> fuel == l,
        limit is None ==> !(search_d(
            script@,
            database@,
            state_of(&memory_in, &usage_in),
            phrase@,
            kw_views(keystack@),
            fuel,
        ) is Exhausted),
    ensures
        r.2.wf(),
        search_matches(
            r.0,
            state_of(&r.1, &r.2),
            search_d(script@, database@, state_of(&memory_in, &usage_in), phrase@, kw_views(keystack@), fuel),
        ),
    {
        let mut memory = memory_in;
        let mut usage = usage_in;
        let ghost sv = script@;
        let ghost ks0 = kw_views(keystack@);
        let ghost target = search_d(sv, database@, state_of(&memory, &usage), phrase@, ks0, fuel);
        let mut stack = keystack;
        let mut budget = limit;
        let ghost mut left: nat = fuel;
        loop
            invariant
                usage.wf(),
                sv == script@,
                budget matches Some(b) ==> left == b,
                budget is None ==> !(target is Exhausted),
                target == search_d(sv, database@, state_of(&memory, &usage), phrase@, kw_views(stack@), left),
                target == search_d(script@, database@, state_of(&memory_in, &usage_in), phrase@, kw_views(keystack@), fuel),
            decreases left,
        {
            if stack.len() == 0 {
                assert(kw_views(stack@).len() == 0);
                assert(target == Outcome::NoAnswer(state_of(&memory, &usage)));
                assert(search_matches(SearchResult::NoAnswer, state_of(&memory, &usage), target));
                
                return (SearchResult::NoAnswer, memory, usage);
            }
            match budget {
                Some(b) => {
                    if b == 0 {
                        return (SearchResult::Exhausted, memory, usage);
                    }
                    budget = Some(b - 1);
                },
                None => {},
            }
            assert(left > 0);
            let ghost sview = kw_views(stack@);
            let next = stack.pop_front().unwrap();
            assert(kw_views(stack@) =~= sview.drop_first());
            proof {
                left = (left - 1) as nat;
            }
            let ghost rules = next@.rules;
            let mut jumped = false;
            let mut i: usize = 0;
            while i < next.rules.len() && !jumped
                invariant
                    usage.wf(),
                    sv == script@,
                    rules == next@.rules,
                    i <= next.rules.len(),
                    budget matches Some(b) ==> left == b,
                    budget is None ==> !(target is Exhausted),
                    target == search_d(script@, database@, state_of(&memory_in, &usage_in), phrase@, kw_views(keystack@), fuel),
                    !jumped ==> target == try_rules_d(sv, database@, state_of(&memory, &usage), phrase@, rules, i as int, kw_views(stack@), left),
                    jumped ==> target == search_d(sv, database@, state_of(&memory, &usage), phrase@, kw_views(stack@), left),
                decreases next.rules.len() - i, if jumped { 0int } else { 1int },
            {
                let r = &next.rules[i];
                assert(rules[i as int] == r@);
                let pats = permutations(r.decomposition_rule.as_str(), &script.synonyms);
                let ghost pv = pattern_views(pats@);
                let mut j: usize = 0;
                while j < pats.len() && !jumped
                    invariant
                        usage.wf(),
                        sv == script@,
                        rules == next@.rules,
                        i < next.rules.len(),
                        rules[i as int] == r@,
                        j <= pats.len(),
                        pv == pattern_views(pats@),
                        pv == patterns_of(r@.decomposition, sv.synonyms),
                        budget matches Some(b) ==> left == b,
                        budget is None ==> !(target is Exhausted),
                        target == search_d(script@, database@, state_of(&memory_in, &usage_in), phrase@, kw_views(keystack@), fuel),
                        !jumped ==> target == try_patterns_d(sv, database@, state_of(&memory, &usage), phrase@, rules, i as int, pv, j as int, kw_views(stack@), left),
                        jumped ==> target == search_d(sv, database@, state_of(&memory, &usage), phrase@, kw_views(stack@), left),
                    decreases pats.len() - j, if jumped { 0int } else { 1int },
                {
                    assert(pv[j as int] == pats@[j as int]@);
                    match captures(&pats[j], phrase.as_str()) {
                        None => {},
                        Some(caps) => {
                            let data = if r.lookup {
                                match get_query(database, r.decomposition_rule.as_str(), r.lookup_rule.as_str(), &caps) {
                                    Ok(d) => d,
                                    Err(()) => {
                                        return (SearchResult::Panicked, memory, usage);
                                    },
                                }
                            } else {
                                Data::Nothing
                            };
                            let picked = get_reassembly(&mut usage, r.decomposition_rule.as_str(), &r.reassembly_rules, &data);
                            match picked {
                                Err(()) => {
                                    return (SearchResult::Panicked, memory, usage);
                                },
                                Ok(None) => {},
                                Ok(Some(assem)) => {
                                    match is_goto(assem.as_str()) {
                                        Some(goto) => {
                                            let ghost kws = kw_views(script.keywords@);
                                            proof {
                                                lemma_find_keyword(kws, goto@, 0);
                                            }
                                            match find_keyword_in(&script.keywords, &goto) {
                                                Some(k) => {
                                                    let entry = script.keywords[k].duplicate();
                                                    let ghost before = kw_views(stack@);
                                                    stack.push_front(entry);
                                                    assert(kw_views(stack@) =~= seq![kws[k as int]] + before);
                                                    jumped = true;
                                                },
                                                None => {},
                                            }
                                        },
                                        None => {
                                            match assemble(assem.as_str(), &caps, &script.reflections, &data) {
                                                Err(()) => {
                                                    return (SearchResult::Panicked, memory, usage);
                                                },
                                                Ok(None) => {},
                                                Ok(Some(resp)) => {
                                                    if r.memorise {
                                                        let ghost before = strs(memory@);
                                                        memory.push_back(resp);
                                                        assert(strs(memory@) =~= before.push(resp@));
                                                    } else {
                                                        return (SearchResult::Answered(resp), memory, usage);
                                                    }
                                                },
                                            }
                                        },
                                    }
                                },
                            }
                        },
                    }
                    if !jumped {
                        j = j + 1;
                    }
                }
                if !jumped {
                    i = i + 1;
                }
            }
        }
    }



// ------------------------------------------------------------------------
// Answering an input
// ------------------------------------------------------------------------

/// The answer to `input`, as `reply_of` gives it, rules that look data up
/// consulting the courses `cs`.
pub open spec fn reply_of_d(sv: ScriptView, cs: Seq<CourseView>, st: StateView, input: Seq<char>, fuel: nat) -> Reply {
    let (active, stack) = keystack_of(input_phrases(sv, input), sv.keywords);
    let o = match active {
        Some(p) => search_d(sv, cs, st, p, stack, fuel),
        None => Outcome::NoAnswer(st),
    };
    match o {
        Outcome::Answered(t, s) => Reply::Answer(t, s),
        Outcome::NoAnswer(s) => if s.memory.len() > 0 {
            Reply::Remembered(s.memory[0], StateView { memory: s.memory.drop_first(), usage: s.usage })
        } else {
            Reply::Fallback(s)
        },
        Outcome::Panicked(s) => Reply::Panicked(s),
        Outcome::Exhausted(s) => Reply::Exhausted(s),
    }
}

/// Answering `input` ends, within `fuel` keywords, without a panic.
pub open spec fn completes_d(sv: ScriptView, cs: Seq<CourseView>, st: StateView, input: Seq<char>, fuel: nat) -> bool {
    !(reply_of_d(sv, cs, st, input, fuel) is Panicked) && !(reply_of_d(sv, cs, st, input, fuel) is Exhausted)
}

/// Answering `input` ends without a panic.
pub open spec fn can_respond_d(sv: ScriptView, cs: Seq<CourseView>, st: StateView, input: Seq<char>) -> bool {
    exists|f: nat| completes_d(sv, cs, st, input, f)
}

/// The answer to `input` when it ends.
pub open spec fn reply_d(sv: ScriptView, cs: Seq<CourseView>, st: StateView, input: Seq<char>) -> Reply {
    reply_of_d(sv, cs, st, input, choose|f: nat| completes_d(sv, cs, st, input, f))
}

/// The response `r` and the state `st` are those of the reply `o`, `None`
/// standing for the fallback that is due.
pub open spec fn answered(o: Reply, r: Option<Seq<char>>, st: StateView) -> bool {
    match o {
        Reply::Answer(t, s) => r == Some(t) && st == s,
        Reply::Remembered(t, s) => r == Some(t) && st == s,
        Reply::Fallback(s) => r is None && st == s,
        _ => false,
    }
}

/// The statements the adviser falls back on.
pub open spec fn default_fallbacks() -> Seq<Seq<char>> {
    seq![
        "Don't you think that's a little harsh?"@,
        "I am only an adviser."@,
        "What does that suggest to you?"@,
        "Do you feel strongly about discussing such things?"@,
        "That is interesting. Please continue."@,
        "Don't you think that's enough advising for today already?"@,
        "That is interesting. Please continue."@,
        "Tell me more!"@,
        "I don't understand you fully."@,
        "Did you know my son who is a veteran?"@,
        "That sounds like a tough situation."@,
        "Im really sorry to hear that."@,
        "Please go on."@,
        "Maybe you could elaborate, I don't think I understand the problem."@,
        "Well, that is not really something I can help you with."@,
        "I think you are all set to complete the major requirements, so don't worry about it."@,
        "Could you send me the question again in an email, I think I should be able to find the answer though."@,
        "Well, as long as the Corona Virus doesn't get us."@,
        "Tell me more about that."@,
        "Are you worried about that ?"@,
        "Sometimes these things just aren't easy."@,
        "How about we just wait and find out?"@,
        "Oh I did say that already."@,
        "Maybe you should ask Danielle Vander Horst, I don't think I know the answer. "@,
    ]
}

/// Answers `input` with the given memory and usage table.
fn reply_with_data(
    script: &Script,
    database: &Database,
    state: &mut State,
    input: &str,
    limit: Option<usize>,
    Ghost(fuel): Ghost<nat>,
) -> (r: ReplyResult)
    requires
        old(state).wf(),
        limit matches Some(l) ==> fuel == l,
        limit is None ==> !(reply_of_d(script@, database@, old(state)@, input@, fuel) is Exhausted),
    ensures
        final(state).wf(),
        reply_matches(r, final(state)@, reply_of_d(script@, database@, old(state)@, input@, fuel)),
{
    let lower = to_lowercase(input);
    let t = transform(lower.as_str(), &script.transforms);
    let ps = get_phrases(t.as_str());
    assert(strs(ps@) == input_phrases(script@, input@));
    let (active, stack) = populate_keystack(ps, &script.keywords);
    let o = match active {
        Some(p) => {
            let mut memory: VecDeque<String> = VecDeque::new();
            std::mem::swap(&mut memory, &mut state.memory);
            let mut usage = RuleUsage::new();
            std::mem::swap(&mut usage, &mut state.rule_usage);
            let (r, memory, usage) = search_with_data(database, script, memory, usage, &p, stack, limit, Ghost(fuel));
            state.memory = memory;
            state.rule_usage = usage;
            r
        },
        None => SearchResult::NoAnswer,
    };
    match o {
        SearchResult::Answered(x) => ReplyResult::Answer(x),
        SearchResult::NoAnswer => {
            let ghost before = state@;
            match state.memory.pop_front() {
                Some(m) => {
                    assert(state@.memory =~= before.memory.drop_first());
                    ReplyResult::Remembered(m)
                },
                None => ReplyResult::Fallback,
            }
        },
        SearchResult::Panicked => ReplyResult::Panicked,
        SearchResult::Exhausted => ReplyResult::Exhausted,
    }
}

/// The adviser: a script, the catalogue, what it remembers, and the statements it falls back on.
pub struct Pawlicki {
    script: Script,
    database: Database,
    state: State,
    fallbacks: Vec<String>,
}

impl Pawlicki {
    /// The script.
    pub closed spec fn script_view(&self) -> ScriptView {
        self.script@
    }

    /// The courses of the catalogue.
    pub closed spec fn database_view(&self) -> Seq<CourseView> {
        self.database@
    }

    /// The remembered responses and the usage of the reassembly rules.
    pub closed spec fn state_view(&self) -> StateView {
        self.state@
    }

    /// The statements the adviser falls back on.
    pub closed spec fn fallbacks_view(&self) -> Seq<Seq<char>> {
        strs(self.fallbacks@)
    }

    pub closed spec fn wf(&self) -> bool {
        self.state.wf()
    }

    /// The adviser with a script and a catalogue, nothing remembered, no rule
    /// used, and its fallback statements.
    pub fn new(script: Script, database: Database) -> (e: Pawlicki)
        ensures
            e.wf(),
            e.script_view() == script@,
            e.database_view() == database@,
            e.state_view().memory == Seq::<Seq<char>>::empty(),
            e.state_view().usage == Map::<Seq<char>, nat>::empty(),
            e.fallbacks_view() == default_fallbacks(),
    {
        let mut fallbacks: Vec<String> = Vec::new();
        fallbacks.push("Don't you think that's a little harsh?".to_owned());
        fallbacks.push("I am only an adviser.".to_owned());
        fallbacks.push("What does that suggest to you?".to_owned());
        fallbacks.push("Do you feel strongly about discussing such things?".to_owned());
        fallbacks.push("That is interesting. Please continue.".to_owned());
        fallbacks.push("Don't you think that's enough advising for today already?".to_owned());
        fallbacks.push("That is interesting. Please continue.".to_owned());
        fallbacks.push("Tell me more!".to_owned());
        fallbacks.push("I don't understand you fully.".to_owned());
        fallbacks.push("Did you know my son who is a veteran?".to_owned());
        fallbacks.push("That sounds like a tough situation.".to_owned());
        fallbacks.push("Im really sorry to hear that.".to_owned());
        fallbacks.push("Please go on.".to_owned());
        fallbacks.push("Maybe you could elaborate, I don't think I understand the problem.".to_owned());
        fallbacks.push("Well, that is not really something I can help you with.".to_owned());
        fallbacks.push("I think you are all set to complete the major requirements, so don't worry about it.".to_owned());
        fallbacks.push("Could you send me the question again in an email, I think I should be able to find the answer though.".to_owned());
        fallbacks.push("Well, as long as the Corona Virus doesn't get us.".to_owned());
        fallbacks.push("Tell me more about that.".to_owned());
        fallbacks.push("Are you worried about that ?".to_owned());
        fallbacks.push("Sometimes these things just aren't easy.".to_owned());
        fallbacks.push("How about we just wait and find out?".to_owned());
        fallbacks.push("Oh I did say that already.".to_owned());
        fallbacks.push("Maybe you should ask Danielle Vander Horst, I don't think I know the answer. ".to_owned());
        let e = Pawlicki { script, database, state: State::new(), fallbacks };
        assert(e.fallbacks_view() =~= default_fallbacks());
        e
    }

    /// The statements the adviser falls back on.
    pub fn fallbacks(&self) -> (r: &Vec<String>)
        ensures
            strs(r@) == self.fallbacks_view(),
    {
        &self.fallbacks
    }

    /// A greeting picked at random from the script.
    pub fn greet(&self) -> (r: String)
        ensures
            picked(self.script_view().greetings, r@, "Hello, I am Pawlicki"@),
    {
        or_default(self.script.rand_greet(), "Hello, I am Pawlicki")
    }

    /// A farewell picked at random from the script.
    pub fn farewell(&self) -> (r: String)
        ensures
            picked(self.script_view().farewells, r@, "Goodbye."@),
    {
        or_default(self.script.rand_farewell(), "Goodbye.")
    }

    /// Responds to `input` from its keywords, looking data up where a rule says
    /// so, else from memory; `None` when a fallback statement is due.
    pub fn respond(&mut self, input: &str) -> (r: Option<String>)
        requires
            old(self).wf(),
            can_respond_d(old(self).script_view(), old(self).database_view(), old(self).state_view(), input@),
        ensures
            final(self).wf(),
            final(self).script_view() == old(self).script_view(),
            final(self).database_view() == old(self).database_view(),
            final(self).fallbacks_view() == old(self).fallbacks_view(),
            answered(
                reply_d(old(self).script_view(), old(self).database_view(), old(self).state_view(), input@),
                opt_view(r),
                final(self).state_view(),
            ),
    {
        let ghost f = choose|f: nat| completes_d(self.script@, self.database@, self.state@, input@, f);
        match reply_with_data(&self.script, &self.database, &mut self.state, input, None, Ghost(f)) {
            ReplyResult::Answer(x) => Some(x),
            ReplyResult::Remembered(x) => Some(x),
            ReplyResult::Fallback => None,
            _ => {
                proof {
                    assert(false);
                }
                None
            },
        }
    }

    /// Responds to `input` as `respond` does, searching at most `max_steps`
    /// keywords: `Some(Some(text))` for a response, `Some(None)` when a fallback
    /// is due, `None` where the search runs out of steps or the adviser would panic.
    pub fn try_respond(&mut self, input: &str, max_steps: usize) -> (r: Option<Option<String>>)
        requires
            old(self).wf(),
        ensures
            final(self).wf(),
            final(self).script_view() == old(self).script_view(),
            final(self).database_view() == old(self).database_view(),
            final(self).fallbacks_view() == old(self).fallbacks_view(),
            match reply_of_d(old(self).script_view(), old(self).database_view(), old(self).state_view(), input@, max_steps as nat) {
                Reply::Panicked(s) => r is None && final(self).state_view() == s,
                Reply::Exhausted(s) => r is None && final(self).state_view() == s,
                o => r matches Some(x) && answered(o, opt_view(x), final(self).state_view()),
            },
    {
        match reply_with_data(&self.script, &self.database, &mut self.state, input, Some(max_steps), Ghost(max_steps as nat)) {
            ReplyResult::Answer(x) => Some(Some(x)),
            ReplyResult::Remembered(x) => Some(Some(x)),
            ReplyResult::Fallback => Some(None),
            _ => None,
        }
    }
}


// ------------------------------------------------------------------------
// Laws of the search and of the answer
// ------------------------------------------------------------------------

/// A search that ends within `f1` keywords ends the same way with any larger allowance.
pub proof fn lemma_search_d_fuel(
    sv: ScriptView,
    cs: Seq<CourseView>,
    st: StateView,
    phrase: Seq<char>,
    stack: Seq<KeywordView>,
    f1: nat,
    f2: nat,
)
    requires
        f1 <= f2,
        !(search_d(sv, cs, st, phrase, stack, f1) is Exhausted),
    ensures
        search_d(sv, cs, st, phrase, stack, f2) == search_d(sv, cs, st, phrase, stack, f1),
    decreases f1, 0int, 0int,
{
    if stack.len() > 0 {
        lemma_try_rules_d_fuel(sv, cs, st, phrase, stack[0].rules, 0, stack.drop_first(), (f1 - 1) as nat, (f2 - 1) as nat);
    }
}

proof fn lemma_try_rules_d_fuel(
    sv: ScriptView,
    cs: Seq<CourseView>,
    st: StateView,
    phrase: Seq<char>,
    rules: Seq<RuleView>,
    i: int,
    stack: Seq<KeywordView>,
    f1: nat,
    f2: nat,
)
    requires
        f1 <= f2,
        !(try_rules_d(sv, cs, st, phrase, rules, i, stack, f1) is Exhausted),
    ensures
        try_rules_d(sv, cs, st, phrase, rules, i, stack, f2) == try_rules_d(sv, cs, st, phrase, rules, i, stack, f1),
    decreases f1, if 0 <= i <= rules.len() {
        rules.len() - i + 1
    } else {
        1int
    }, 0int,
{
    if i < 0 || i >= rules.len() {
        lemma_search_d_fuel(sv, cs, st, phrase, stack, f1, f2);
    } else {
        lemma_try_patterns_d_fuel(
            sv,
            cs,
            st,
            phrase,
            rules,
            i,
            patterns_of(rules[i].decomposition, sv.synonyms),
            0,
            stack,
            f1,
            f2,
        );
    }
}

proof fn lemma_try_patterns_d_fuel(
    sv: ScriptView,
    cs: Seq<CourseView>,
    st: StateView,
    phrase: Seq<char>,
    rules: Seq<RuleView>,
    i: int,
    pats: Seq<Seq<char>>,
    j: int,
    stack: Seq<KeywordView>,
    f1: nat,
    f2: nat,
)
    requires
        f1 <= f2,
        !(try_patterns_d(sv, cs, st, phrase, rules, i, pats, j, stack, f1) is Exhausted),
    ensures
        try_patterns_d(sv, cs, st, phrase, rules, i, pats, j, stack, f2) == try_patterns_d(
            sv,
            cs,
            st,
            phrase,
            rules,
            i,
            pats,
            j,
            stack,
            f1,
        ),
    decreases f1, if 0 <= i < rules.len() {
        rules.len() - i
    } else {
        0int
    }, if 0 <= j <= pats.len() {
        pats.len() - j + 1
    } else {
        1int
    },
{
    if i < 0 || i >= rules.len() {
    } else if j < 0 || j >= pats.len() {
        lemma_try_rules_d_fuel(sv, cs, st, phrase, rules, i + 1, stack, f1, f2);
    } else {
        let r = rules[i];
        match regex_captures(pats[j], phrase) {
            None => lemma_try_patterns_d_fuel(sv, cs, st, phrase, rules, i, pats, j + 1, stack, f1, f2),
            Some(caps) => match (if r.lookup {
                lookup(cs, r.decomposition, r.lookup_rule, caps)
            } else {
                Lookup::Found(DataView::Nothing)
            }) {
                Lookup::Panicked => {},
                Lookup::Found(d) => match choose_with_data(st.usage, r.decomposition, r.reassembly, d, 0, None, None) {
                    Choice::Panicked => {},
                    Choice::Chosen(choice, usage) => {
                        let st1 = StateView { memory: st.memory, usage };
                        match choice {
                            None => lemma_try_patterns_d_fuel(sv, cs, st1, phrase, rules, i, pats, j + 1, stack, f1, f2),
                            Some(a) => match goto_target(a) {
                                Some(g) => match find_keyword(sv.keywords, g, 0) {
                                    Some(k) => lemma_search_d_fuel(sv, cs, st1, phrase, seq![sv.keywords[k]] + stack, f1, f2),
                                    None => lemma_try_patterns_d_fuel(sv, cs, st1, phrase, rules, i, pats, j + 1, stack, f1, f2),
                                },
                                None => match assembled_with_data(a, caps, sv.reflections, d) {
                                    Assembled::Panicked => {},
                                    Assembled::Invalid => lemma_try_patterns_d_fuel(
                                        sv,
                                        cs,
                                        st1,
                                        phrase,
                                        rules,
                                        i,
                                        pats,
                                        j + 1,
                                        stack,
                                        f1,
                                        f2,
                                    ),
                                    Assembled::Text(resp) => if r.memorise {
                                        lemma_try_patterns_d_fuel(
                                            sv,
                                            cs,
                                            StateView { memory: st1.memory.push(resp), usage },
                                            phrase,
                                            rules,
                                            i,
                                            pats,
                                            j + 1,
                                            stack,
                                            f1,
                                            f2,
                                        );
                                    },
                                },
                            },
                        }
                    },
                },
            },
        }
    }
}

/// An answer that ends within `f1` keywords is the same with any larger allowance.
pub proof fn lemma_reply_d_fuel(sv: ScriptView, cs: Seq<CourseView>, st: StateView, input: Seq<char>, f1: nat, f2: nat)
    requires
        f1 <= f2,
        completes_d(sv, cs, st, input, f1),
    ensures
        reply_of_d(sv, cs, st, input, f2) == reply_of_d(sv, cs, st, input, f1),
{
    let (active, stack) = keystack_of(input_phrases(sv, input), sv.keywords);
    if let Some(p) = active {
        lemma_search_d_fuel(sv, cs, st, p, stack, f1, f2);
    }
}

/// Where answering within `f` keywords ends, that is the answer: a bounded
/// attempt (`try_respond`) that ends gives what `respond` gives.
pub proof fn lemma_reply_d_is_bounded_reply(sv: ScriptView, cs: Seq<CourseView>, st: StateView, input: Seq<char>, f: nat)
    requires
        completes_d(sv, cs, st, input, f),
    ensures
        can_respond_d(sv, cs, st, input),
        reply_d(sv, cs, st, input) == reply_of_d(sv, cs, st, input, f),
{
    let f0 = choose|f0: nat| completes_d(sv, cs, st, input, f0);
    let m = if f0 <= f {
        f
    } else {
        f0
    };
    lemma_reply_d_fuel(sv, cs, st, input, f0, m);
    lemma_reply_d_fuel(sv, cs, st, input, f, m);
}

/// When no phrase of the input holds a keyword, the catalogue is not consulted:
/// the oldest remembered response is given and forgotten, and with nothing
/// remembered a fallback is due and nothing changes.
pub proof fn lemma_reply_d_without_keyword(sv: ScriptView, cs: Seq<CourseView>, st: StateView, input: Seq<char>, fuel: nat)
    requires
        keystack_of(input_phrases(sv, input), sv.keywords).0 is None,
    ensures
        st.memory.len() > 0 ==> reply_of_d(sv, cs, st, input, fuel) == Reply::Remembered(
            st.memory[0],
            StateView { memory: st.memory.drop_first(), usage: st.usage },
        ),
        st.memory.len() == 0 ==> reply_of_d(sv, cs, st, input, fuel) == Reply::Fallback(st),
{
}

proof fn lemma_finish_choice_grows(u: Map<Seq<char>, nat>, id: Seq<char>, best: Option<Seq<char>>)
    ensures
        finish_choice(u, id, best) matches Choice::Chosen(_, after) ==> usage_grows(u, after),
{
}

/// Choosing a reassembly rule in the light of the data only adds counts or
/// makes them grow.
pub proof fn lemma_choose_with_data_grows(
    u: Map<Seq<char>, nat>,
    id: Seq<char>,
    rules: Seq<Seq<char>>,
    d: DataView,
    i: int,
    best: Option<Seq<char>>,
    count: Option<nat>,
)
    ensures
        choose_with_data(u, id, rules, d, i, best, count) matches Choice::Chosen(_, after) ==> usage_grows(
            u,
            after,
        ),
    decreases rules.len() - i,
{
    if i < 0 || i >= rules.len() {
        lemma_finish_choice_grows(u, id, best);
    } else {
        let rule = rules[i];
        match data_stage(d, rule, i == rules.len() - 1, best) {
            Stage::Halt => {},
            Stage::Skip => lemma_choose_with_data_grows(u, id, rules, d, i + 1, best, count),
            Stage::Stop(b) => lemma_finish_choice_grows(u, id, b),
            Stage::Weigh(b) => {
                let k = usage_key(id, rule);
                if u.contains_key(k) {
                    let x = u[k];
                    match count {
                        Some(c) => if x < c {
                            lemma_choose_with_data_grows(u, id, rules, d, i + 1, Some(rule), Some(x));
                        } else {
                            lemma_choose_with_data_grows(u, id, rules, d, i + 1, b, count);
                        },
                        None => lemma_choose_with_data_grows(u, id, rules, d, i + 1, Some(rule), Some(x)),
                    }
                } else {
                    lemma_finish_choice_grows(u.insert(k, 0), id, Some(rule));
                }
            },
        }
    }
}

/// A search that consults the courses ends in a state that extends the state
/// it started from.
pub proof fn lemma_search_d_extends(
    sv: ScriptView,
    cs: Seq<CourseView>,
    st: StateView,
    phrase: Seq<char>,
    stack: Seq<KeywordView>,
    fuel: nat,
)
    ensures
        extends(st, outcome_state(search_d(sv, cs, st, phrase, stack, fuel))),
    decreases fuel, 0int, 0int,
{
    lemma_extends_refl(st);
    if stack.len() > 0 && fuel > 0 {
        lemma_try_rules_d_extends(sv, cs, st, phrase, stack[0].rules, 0, stack.drop_first(), (fuel - 1) as nat);
    }
}

proof fn lemma_try_rules_d_extends(
    sv: ScriptView,
    cs: Seq<CourseView>,
    st: StateView,
    phrase: Seq<char>,
    rules: Seq<RuleView>,
    i: int,
    stack: Seq<KeywordView>,
    fuel: nat,
)
    ensures
        extends(st, outcome_state(try_rules_d(sv, cs, st, phrase, rules, i, stack, fuel))),
    decreases fuel, if 0 <= i <= rules.len() {
        rules.len() - i + 1
    } else {
        1int
    }, 0int,
{
    if i < 0 || i >= rules.len() {
        lemma_search_d_extends(sv, cs, st, phrase, stack, fuel);
    } else {
        lemma_try_patterns_d_extends(
            sv,
            cs,
            st,
            phrase,
            rules,
            i,
            patterns_of(rules[i].decomposition, sv.synonyms),
            0,
            stack,
            fuel,
        );
    }
}

proof fn lemma_try_patterns_d_extends(
    sv: ScriptView,
    cs: Seq<CourseView>,
    st: StateView,
    phrase: Seq<char>,
    rules: Seq<RuleView>,
    i: int,
    pats: Seq<Seq<char>>,
    j: int,
    stack: Seq<KeywordView>,
    fuel: nat,
)
    ensures
        extends(st, outcome_state(try_patterns_d(sv, cs, st, phrase, rules, i, pats, j, stack, fuel))),
    decreases fuel, if 0 <= i < rules.len() {
        rules.len() - i
    } else {
        0int
    }, if 0 <= j <= pats.len() {
        pats.len() - j + 1
    } else {
        1int
    },
{
    lemma_extends_refl(st);
    if i < 0 || i >= rules.len() {
    } else if j < 0 || j >= pats.len() {
        lemma_try_rules_d_extends(sv, cs, st, phrase, rules, i + 1, stack, fuel);
    } else {
        let r = rules[i];
        match regex_captures(pats[j], phrase) {
            None => lemma_try_patterns_d_extends(sv, cs, st, phrase, rules, i, pats, j + 1, stack, fuel),
            Some(caps) => match (if r.lookup {
                lookup(cs, r.decomposition, r.lookup_rule, caps)
            } else {
                Lookup::Found(DataView::Nothing)
            }) {
                Lookup::Panicked => {},
                Lookup::Found(d) => {
                    lemma_choose_with_data_grows(st.usage, r.decomposition, r.reassembly, d, 0, None, None);
                    match choose_with_data(st.usage, r.decomposition, r.reassembly, d, 0, None, None) {
                        Choice::Panicked => {},
                        Choice::Chosen(choice, usage) => {
                            let st1 = StateView { memory: st.memory, usage };
                            assert(extends(st, st1));
                            let out = try_patterns_d(sv, cs, st, phrase, rules, i, pats, j, stack, fuel);
                            match choice {
                                None => {
                                    lemma_try_patterns_d_extends(sv, cs, st1, phrase, rules, i, pats, j + 1, stack, fuel);
                                    lemma_extends_trans(st, st1, outcome_state(out));
                                },
                                Some(a) => match goto_target(a) {
                                    Some(g) => match find_keyword(sv.keywords, g, 0) {
                                        Some(k) => {
                                            lemma_search_d_extends(sv, cs, st1, phrase, seq![sv.keywords[k]] + stack, fuel);
                                            lemma_extends_trans(st, st1, outcome_state(out));
                                        },
                                        None => {
                                            lemma_try_patterns_d_extends(sv, cs, st1, phrase, rules, i, pats, j + 1, stack, fuel);
                                            lemma_extends_trans(st, st1, outcome_state(out));
                                        },
                                    },
                                    None => match assembled_with_data(a, caps, sv.reflections, d) {
                                        Assembled::Panicked => {},
                                        Assembled::Invalid => {
                                            lemma_try_patterns_d_extends(sv, cs, st1, phrase, rules, i, pats, j + 1, stack, fuel);
                                            lemma_extends_trans(st, st1, outcome_state(out));
                                        },
                                        Assembled::Text(resp) => if r.memorise {
                                            let st2 = StateView { memory: st1.memory.push(resp), usage };
                                            assert(st2.memory.subrange(0, st1.memory.len() as int) =~= st1.memory);
                                            lemma_try_patterns_d_extends(sv, cs, st2, phrase, rules, i, pats, j + 1, stack, fuel);
                                            lemma_extends_trans(st, st1, st2);
                                            lemma_extends_trans(st, st2, outcome_state(out));
                                        },
                                    },
                                },
                            }
                        },
                    }
                },
            },
        }
    }
}

/// Answering an input keeps what was remembered and what was counted: the
/// state after an answer, a fallback or a failed search extends the state
/// before (responses of memorising rules added at the back, counts only
/// growing); when the response comes from memory, it is the front of such an
/// extended memory, and it is taken off.
pub proof fn lemma_reply_d_extends(sv: ScriptView, cs: Seq<CourseView>, st: StateView, input: Seq<char>, fuel: nat)
    ensures
        match reply_of_d(sv, cs, st, input, fuel) {
            Reply::Remembered(t, s) => exists|m: StateView|
                #[trigger] extends(st, m) && m.memory.len() > 0 && t == m.memory[0] && s.memory
                    == m.memory.drop_first() && s.usage == m.usage,
            Reply::Answer(_, s) => extends(st, s),
            Reply::Fallback(s) => extends(st, s),
            Reply::Panicked(s) => extends(st, s),
            Reply::Exhausted(s) => extends(st, s),
        },
{
    lemma_extends_refl(st);
    let (active, stack) = keystack_of(input_phrases(sv, input), sv.keywords);
    let o = match active {
        Some(p) => search_d(sv, cs, st, p, stack, fuel),
        None => Outcome::NoAnswer(st),
    };
    if let Some(p) = active {
        lemma_search_d_extends(sv, cs, st, p, stack, fuel);
    }
    assert(extends(st, outcome_state(o)));
}

/// A search that consults the courses never reads the memory: with `m` before
/// the memory it starts from, it ends as it would without `m`, with `m` still
/// at the front.
pub proof fn lemma_search_d_memory(
    sv: ScriptView,
    cs: Seq<CourseView>,
    m: Seq<Seq<char>>,
    st: StateView,
    phrase: Seq<char>,
    stack: Seq<KeywordView>,
    fuel: nat,
)
    ensures
        search_d(sv, cs, StateView { memory: m + st.memory, usage: st.usage }, phrase, stack, fuel)
            == with_memory_before(search_d(sv, cs, st, phrase, stack, fuel), m),
    decreases fuel, 0int, 0int,
{
    if stack.len() > 0 && fuel > 0 {
        lemma_try_rules_d_memory(sv, cs, m, st, phrase, stack[0].rules, 0, stack.drop_first(), (fuel - 1) as nat);
    }
}

proof fn lemma_try_rules_d_memory(
    sv: ScriptView,
    cs: Seq<CourseView>,
    m: Seq<Seq<char>>,
    st: StateView,
    phrase: Seq<char>,
    rules: Seq<RuleView>,
    i: int,
    stack: Seq<KeywordView>,
    fuel: nat,
)
    ensures
        try_rules_d(sv, cs, StateView { memory: m + st.memory, usage: st.usage }, phrase, rules, i, stack, fuel)
            == with_memory_before(try_rules_d(sv, cs, st, phrase, rules, i, stack, fuel), m),
    decreases fuel, if 0 <= i <= rules.len() {
        rules.len() - i + 1
    } else {
        1int
    }, 0int,
{
    if i < 0 || i >= rules.len() {
        lemma_search_d_memory(sv, cs, m, st, phrase, stack, fuel);
    } else {
        lemma_try_patterns_d_memory(
            sv,
            cs,
            m,
            st,
            phrase,
            rules,
            i,
            patterns_of(rules[i].decomposition, sv.synonyms),
            0,
            stack,
            fuel,
        );
    }
}

proof fn lemma_try_patterns_d_memory(
    sv: ScriptView,
    cs: Seq<CourseView>,
    m: Seq<Seq<char>>,
    st: StateView,
    phrase: Seq<char>,
    rules: Seq<RuleView>,
    i: int,
    pats: Seq<Seq<char>>,
    j: int,
    stack: Seq<KeywordView>,
    fuel: nat,
)
    ensures
        try_patterns_d(sv, cs, StateView { memory: m + st.memory, usage: st.usage }, phrase, rules, i, pats, j, stack, fuel)
            == with_memory_before(try_patterns_d(sv, cs, st, phrase, rules, i, pats, j, stack, fuel), m),
    decreases fuel, if 0 <= i < rules.len() {
        rules.len() - i
    } else {
        0int
    }, if 0 <= j <= pats.len() {
        pats.len() - j + 1
    } else {
        1int
    },
{
    if i < 0 || i >= rules.len() {
    } else if j < 0 || j >= pats.len() {
        lemma_try_rules_d_memory(sv, cs, m, st, phrase, rules, i + 1, stack, fuel);
    } else {
        let r = rules[i];
        match regex_captures(pats[j], phrase) {
            None => lemma_try_patterns_d_memory(sv, cs, m, st, phrase, rules, i, pats, j + 1, stack, fuel),
            Some(caps) => match (if r.lookup {
                lookup(cs, r.decomposition, r.lookup_rule, caps)
            } else {
                Lookup::Found(DataView::Nothing)
            }) {
                Lookup::Panicked => {},
                Lookup::Found(d) => match choose_with_data(st.usage, r.decomposition, r.reassembly, d, 0, None, None) {
                    Choice::Panicked => {},
                    Choice::Chosen(choice, usage) => {
                        let st1 = StateView { memory: st.memory, usage };
                        match choice {
                            None => lemma_try_patterns_d_memory(sv, cs, m, st1, phrase, rules, i, pats, j + 1, stack, fuel),
                            Some(a) => match goto_target(a) {
                                Some(g) => match find_keyword(sv.keywords, g, 0) {
                                    Some(k) => lemma_search_d_memory(sv, cs, m, st1, phrase, seq![sv.keywords[k]] + stack, fuel),
                                    None => lemma_try_patterns_d_memory(sv, cs, m, st1, phrase, rules, i, pats, j + 1, stack, fuel),
                                },
                                None => match assembled_with_data(a, caps, sv.reflections, d) {
                                    Assembled::Panicked => {},
                                    Assembled::Invalid => lemma_try_patterns_d_memory(sv, cs, m, st1, phrase, rules, i, pats, j + 1, stack, fuel),
                                    Assembled::Text(resp) => if r.memorise {
                                        let st2 = StateView { memory: st1.memory.push(resp), usage };
                                        assert((m + st1.memory).push(resp) =~= m + st2.memory);
                                        lemma_try_patterns_d_memory(sv, cs, m, st2, phrase, rules, i, pats, j + 1, stack, fuel);
                                    },
                                },
                            },
                        }
                    },
                },
            },
        }
    }
}

/// The responses that memorising rules assemble while `input` is answered
/// with the courses `cs`, in the order they are assembled: what the search ends
/// up remembering when it starts from an empty memory.
pub open spec fn memorised_d(sv: ScriptView, cs: Seq<CourseView>, st: StateView, input: Seq<char>, fuel: nat) -> Seq<Seq<char>> {
    let (active, stack) = keystack_of(input_phrases(sv, input), sv.keywords);
    match active {
        Some(p) => outcome_state(
            search_d(sv, cs, StateView { memory: seq![], usage: st.usage }, p, stack, fuel),
        ).memory,
        None => seq![],
    }
}

/// After an answer the memory is the old memory followed by the responses
/// memorised in this call, in order; when the response comes from memory, it
/// is the first of those, and it is taken off.
pub proof fn lemma_reply_d_memory(sv: ScriptView, cs: Seq<CourseView>, st: StateView, input: Seq<char>, fuel: nat)
    ensures
        ({
            let n = st.memory + memorised_d(sv, cs, st, input, fuel);
            match reply_of_d(sv, cs, st, input, fuel) {
                Reply::Remembered(t, s) => n.len() > 0 && t == n[0] && s.memory == n.drop_first(),
                Reply::Answer(_, s) => s.memory == n,
                Reply::Fallback(s) => s.memory == n,
                Reply::Panicked(s) => s.memory == n,
                Reply::Exhausted(s) => s.memory == n,
            }
        }),
{
    let (active, stack) = keystack_of(input_phrases(sv, input), sv.keywords);
    let st0 = StateView { memory: seq![], usage: st.usage };
    assert(st.memory + st0.memory =~= st.memory);
    assert(StateView { memory: st.memory + st0.memory, usage: st0.usage } == st);
    if let Some(p) = active {
        lemma_search_d_memory(sv, cs, st.memory, st0, p, stack, fuel);
    } else {
        assert(st.memory + memorised_d(sv, cs, st, input, fuel) =~= st.memory);
    }
}

/// A GOTO jumps to its target: when the first pattern of the first rule of
/// the keyword on top of the stack matches the phrase, the data it finds (if
/// any) is found, and the reassembly rule chosen is a GOTO to a keyword of the
/// script, the search goes on with that keyword ahead of the rest of the stack,
/// so the target is the very next keyword searched and its answer is the answer.
pub proof fn lemma_goto_d_jumps_to_target(
    sv: ScriptView,
    cs: Seq<CourseView>,
    st: StateView,
    phrase: Seq<char>,
    stack: Seq<KeywordView>,
    fuel: nat,
    caps: Seq<Option<Seq<char>>>,
    d: DataView,
    a: Seq<char>,
    usage: Map<Seq<char>, nat>,
    g: Seq<char>,
)
    requires
        fuel > 0,
        stack.len() > 0,
        stack[0].rules.len() > 0,
        patterns_of(stack[0].rules[0].decomposition, sv.synonyms).len() > 0,
        regex_captures(patterns_of(stack[0].rules[0].decomposition, sv.synonyms)[0], phrase) == Some(caps),
        (if stack[0].rules[0].lookup {
            lookup(cs, stack[0].rules[0].decomposition, stack[0].rules[0].lookup_rule, caps)
        } else {
            Lookup::Found(DataView::Nothing)
        }) == Lookup::Found(d),
        choose_with_data(st.usage, stack[0].rules[0].decomposition, stack[0].rules[0].reassembly, d, 0, None, None)
            == Choice::Chosen(Some(a), usage),
        goto_target(a) == Some(g),
        exists|k: int| 0 <= k < sv.keywords.len() && #[trigger] sv.keywords[k].key == g,
    ensures
        ({
            let k = find_keyword(sv.keywords, g, 0)->0;
            &&& find_keyword(sv.keywords, g, 0) is Some
            &&& 0 <= k < sv.keywords.len()
            &&& sv.keywords[k].key == g
            &&& search_d(sv, cs, st, phrase, stack, fuel) == search_d(
                sv,
                cs,
                StateView { memory: st.memory, usage },
                phrase,
                seq![sv.keywords[k]] + stack.drop_first(),
                (fuel - 1) as nat,
            )
        }),
{
    lemma_find_keyword(sv.keywords, g, 0);
    let k0 = choose|k: int| 0 <= k < sv.keywords.len() && #[trigger] sv.keywords[k].key == g;
    assert(sv.keywords[k0].key == g);
    let k = find_keyword(sv.keywords, g, 0)->0;
    let rules = stack[0].rules;
    let rest = stack.drop_first();
    let f = (fuel - 1) as nat;
    let pats = patterns_of(rules[0].decomposition, sv.synonyms);
    let st1 = StateView { memory: st.memory, usage };
    assert(search_d(sv, cs, st, phrase, stack, fuel) == try_rules_d(sv, cs, st, phrase, rules, 0, rest, f));
    assert(try_rules_d(sv, cs, st, phrase, rules, 0, rest, f) == try_patterns_d(
        sv,
        cs,
        st,
        phrase,
        rules,
        0,
        pats,
        0,
        rest,
        f,
    ));
    assert(try_patterns_d(sv, cs, st, phrase, rules, 0, pats, 0, rest, f) == search_d(
        sv,
        cs,
        st1,
        phrase,
        seq![sv.keywords[k]] + rest,
        f,
    ));
}

/// The term phrase names the terms a course is offered in: both, when spring
/// and fall are both set; only fall when fall alone is set; only spring when
/// spring alone is set (and, as the adviser has it, when neither is).
pub proof fn lemma_term_phrase(t: Term)
    ensures
        t.spring && t.fall ==> term_phrase(t) == "both spring and fall"@,
        !t.spring && t.fall ==> term_phrase(t) == "only fall"@,
        t.spring && !t.fall ==> term_phrase(t) == "only spring"@,
        !t.spring && !t.fall ==> term_phrase(t) == "only spring"@,
{
}

/// The data's term phrase is what fills `@` in a reassembly rule.
pub proof fn lemma_at_takes_term_phrase(w: Seq<char>, t: Term)
    requires
        contains(w, crate::pattern::at_sign()),
    ensures
        at_part(w, DataView::Term(t)) == replace_all(w, crate::pattern::at_sign(), term_phrase(t)),
{
}

proof fn lemma_zero_count_takes_last(
    u: Map<Seq<char>, nat>,
    id: Seq<char>,
    rules: Seq<Seq<char>>,
    n: Seq<char>,
    i: int,
)
    requires
        0 <= i < rules.len(),
        parse_u16(n) == Some(0u16),
    ensures
        choose_with_data(u, id, rules, DataView::Number(n), i, None, None) matches Choice::Chosen(b, _) ==> b
            == Some(rules.last()),
    decreases rules.len() - i,
{
    if i < rules.len() - 1 {
        lemma_zero_count_takes_last(u, id, rules, n, i + 1);
    } else {
        let k = usage_key(id, rules[i]);
        if u.contains_key(k) {
            assert(choose_with_data(u, id, rules, DataView::Number(n), i, None, None) == choose_with_data(
                u,
                id,
                rules,
                DataView::Number(n),
                i + 1,
                Some(rules[i]),
                Some(u[k]),
            ));
        }
    }
}

/// With a count of prerequisites as the data, a count above zero chooses the
/// first reassembly rule, and a count of zero chooses the last one.
pub proof fn lemma_count_chooses_rule(u: Map<Seq<char>, nat>, id: Seq<char>, rules: Seq<Seq<char>>, n: Seq<char>, v: u16)
    requires
        rules.len() > 0,
        parse_u16(n) == Some(v),
    ensures
        v > 0 ==> (choose_with_data(u, id, rules, DataView::Number(n), 0, None, None) matches Choice::Chosen(b, _)
            ==> b == Some(rules[0])),
        v == 0 ==> (choose_with_data(u, id, rules, DataView::Number(n), 0, None, None) matches Choice::Chosen(b, _)
            ==> b == Some(rules.last())),
{
    if v == 0 {
        lemma_zero_count_takes_last(u, id, rules, n, 0);
    }
}

proof fn lemma_skips_to_last(
    u: Map<Seq<char>, nat>,
    id: Seq<char>,
    rules: Seq<Seq<char>>,
    d: DataView,
    i: int,
)
    requires
        0 <= i < rules.len(),
        forall|k: int| i <= k < rules.len() - 1 ==> data_stage(d, #[trigger] rules[k], false, None) == Stage::Skip,
        data_stage(d, rules.last(), true, None) == Stage::Stop(Some(rules.last()))
            || data_stage(d, rules.last(), true, None) == Stage::Weigh(Some(rules.last())),
    ensures
        choose_with_data(u, id, rules, d, i, None, None) matches Choice::Chosen(b, _) ==> b == Some(rules.last()),
    decreases rules.len() - i,
{
    if i < rules.len() - 1 {
        assert(data_stage(d, rules[i], false, None) == Stage::Skip);
        lemma_skips_to_last(u, id, rules, d, i + 1);
    } else {
        let k = usage_key(id, rules[i]);
        if u.contains_key(k) {
            assert(choose_with_data(u, id, rules, d, i, None, None) == choose_with_data(
                u,
                id,
                rules,
                d,
                i + 1,
                Some(rules[i]),
                Some(u[k]),
            ));
        }
    }
}

proof fn lemma_courses_take_first_at(
    u: Map<Seq<char>, nat>,
    id: Seq<char>,
    rules: Seq<Seq<char>>,
    cs: Seq<CourseView>,
    j: int,
    i: int,
)
    requires
        cs.len() > 0,
        0 <= j <= i < rules.len(),
        contains(rules[i], crate::pattern::at_sign()),
        forall|k: int| 0 <= k < i ==> !contains(#[trigger] rules[k], crate::pattern::at_sign()),
    ensures
        choose_with_data(u, id, rules, DataView::Courses(cs), j, None, None) matches Choice::Chosen(b, _) ==> b
            == Some(rules[i]),
    decreases i - j,
{
    if j < i {
        assert(!contains(rules[j], crate::pattern::at_sign()));
        lemma_courses_take_first_at(u, id, rules, cs, j + 1, i);
    }
}

/// How the data a lookup found decides the reassembly rule: with courses
/// found, the first rule that holds `@` (where they are listed) is chosen;
/// with an empty list of courses, or with nothing found, the last rule is
/// chosen.
pub proof fn lemma_data_chooses_rule(
    u: Map<Seq<char>, nat>,
    id: Seq<char>,
    rules: Seq<Seq<char>>,
    cs: Seq<CourseView>,
    i: int,
)
    requires
        rules.len() > 0,
    ensures
        cs.len() > 0 && 0 <= i < rules.len() && contains(rules[i], crate::pattern::at_sign()) && (forall|k: int|
            0 <= k < i ==> !contains(#[trigger] rules[k], crate::pattern::at_sign())) ==> (choose_with_data(
            u,
            id,
            rules,
            DataView::Courses(cs),
            0,
            None,
            None,
        ) matches Choice::Chosen(b, _) ==> b == Some(rules[i])),
        choose_with_data(u, id, rules, DataView::Courses(seq![]), 0, None, None) matches Choice::Chosen(b, _) ==> b
            == Some(rules.last()),
        choose_with_data(u, id, rules, DataView::Nothing, 0, None, None) matches Choice::Chosen(b, _) ==> b
            == Some(rules.last()),
{
    if cs.len() > 0 && 0 <= i < rules.len() && contains(rules[i], crate::pattern::at_sign()) && (forall|k: int|
        0 <= k < i ==> !contains(#[trigger] rules[k], crate::pattern::at_sign())) {
        lemma_courses_take_first_at(u, id, rules, cs, 0, i);
    }
    lemma_skips_to_last(u, id, rules, DataView::Courses(seq![]), 0);
    lemma_skips_to_last(u, id, rules, DataView::Nothing, 0);
}

/// The courses as an answer lists them, by upper-case id: "is A." for one,
/// "are A and B." for two, "are A, B, and C." for three.
pub proof fn lemma_courses_phrase(cs: Seq<CourseView>)
    ensures
        cs.len() == 1 ==> courses_phrase(cs) == "is "@ + uppercase(cs[0].id) + "."@,
        cs.len() == 2 ==> courses_phrase(cs) == "are "@ + uppercase(cs[0].id) + " and "@ + uppercase(cs[1].id) + "."@,
        cs.len() == 3 ==> courses_phrase(cs) == "are "@ + uppercase(cs[0].id) + ", "@ + uppercase(cs[1].id)
            + ", and "@ + uppercase(cs[2].id) + "."@,
{
}

} // verus!
