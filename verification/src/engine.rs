//! The ELIZA engine: answering a phrase from the keywords found in it.
use vstd::prelude::*;
use std::collections::VecDeque;
use crate::text::{
    phrases, lowercase, to_lowercase, chars_of, contains, contains_exec, parse_usize, parse_usize_exec, replace_all, replace_exec,
    scrub, scrub_exec, split_words, string_of, strs, views, words,
};
use crate::script::{kw_views, refl_views, Keyword, KeywordView, Reflection, ReflectionView, Rule, RuleView, Script, ScriptView};
use crate::rewrite::{get_phrases, goto_target, is_goto, reflect, reflected, transform, transformed};
use crate::keystack::{find_keyword, keystack_of, lemma_find_keyword, populate_keystack};
use crate::pattern::{pattern_views, captures, groups_view, patterns_of, permutations, regex_captures, Pattern};
use crate::usage::{get_reassembly, lemma_select_rule_grows, select_rule, usage_grows, Pick, RuleUsage};

verus! {

// ------------------------------------------------------------------------
// Assembling a response
// ------------------------------------------------------------------------

/// The outcome of filling in a reassembly rule.
pub enum Assembly {
    /// A capture that the rule names does not exist (the engine would panic).
    Missing,
    /// The rule names a capture that is not a number, or beyond the captures.
    Invalid,
    /// The response.
    Text(Seq<char>),
}

/// The capture marker.
pub open spec fn dollar() -> Seq<char> {
    seq!['$']
}

/// Fills in the words `ws[k..]` of a reassembly rule, `temp` holding the text so far:
/// each word holding `$` names capture `n` (its letters and digits); `n` is
/// replaced in the text by the reflected capture and the `$` signs are removed.
pub open spec fn assemble_words(
    ws: Seq<Seq<char>>,
    k: int,
    temp: Seq<char>,
    caps: Seq<Option<Seq<char>>>,
    rs: Seq<ReflectionView>,
) -> Assembly
    decreases ws.len() - k,
{
    if k < 0 || k >= ws.len() {
        Assembly::Text(temp)
    } else if contains(ws[k], dollar()) {
        let id = scrub(ws[k], true);
        match parse_usize(id) {
            Some(n) => if n < caps.len() + 1 {
                if n >= caps.len() || caps[n as int] is None {
                    Assembly::Missing
                } else {
                    let reflected_capture = reflected(caps[n as int]->0, rs);
                    assemble_words(
                        ws,
                        k + 1,
                        replace_all(replace_all(temp, id, reflected_capture), dollar(), seq![]),
                        caps,
                        rs,
                    )
                }
            } else {
                Assembly::Invalid
            },
            None => Assembly::Invalid,
        }
    } else {
        assemble_words(ws, k + 1, temp, caps, rs)
    }
}

/// The response a reassembly rule gives for the captures of a match.
pub open spec fn assembled(rule: Seq<char>, caps: Seq<Option<Seq<char>>>, rs: Seq<ReflectionView>) -> Assembly {
    assemble_words(words(rule), 0, rule, caps, rs)
}

/// Fills in the reassembly rule `rule` with the captures: `Ok(None)` where the
/// rule names an invalid capture, `Err(())` where it names a capture that does
/// not exist.
pub fn assemble(rule: &str, caps: &Vec<Option<String>>, reflections: &Vec<Reflection>) -> (r: Result<Option<String>, ()>)
    ensures
        match assembled(rule@, groups_view(caps@), refl_views(reflections@)) {
            Assembly::Missing => r is Err,
            Assembly::Invalid => r == Ok::<Option<String>, ()>(None),
            Assembly::Text(t) => r matches Ok(Some(s)) && s@ == t,
        },
{
    let ghost rs = refl_views(reflections@);
    let ghost cv = groups_view(caps@);
    let rule_chars = chars_of(rule);
    let ws = split_words(&rule_chars);
    let mut temp = rule_chars.clone();
    let dollar_v: Vec<char> = vec!['$'];
    let empty: Vec<char> = Vec::new();
    assert(dollar_v@ =~= dollar());
    assert(empty@ =~= Seq::<char>::empty());
    let mut k: usize = 0;
    while k < ws.len()
        invariant
            k <= ws.len(),
            views(ws@) == words(rule@),
            dollar_v@ == dollar(),
            empty@ == Seq::<char>::empty(),
            rs == refl_views(reflections@),
            cv == groups_view(caps@),
            assembled(rule@, cv, rs) == assemble_words(views(ws@), k as int, temp@, cv, rs),
        decreases ws.len() - k,
    {
        let w = &ws[k];
        assert(views(ws@)[k as int] == w@);
        if contains_exec(w, &dollar_v) {
            let id = scrub_exec(w, true);
            match parse_usize_exec(&id) {
                Some(n) => {
                    if n <= caps.len() {
                        if n == caps.len() {
                            return Err(());
                        }
                        match &caps[n] {
                            None => {
                                return Err(());
                            },
                            Some(c) => {
                                let refl = reflect(c.as_str(), reflections);
                                let refl_chars = chars_of(refl.as_str());
                                let t1 = replace_exec(&temp, &id, &refl_chars);
                                temp = replace_exec(&t1, &dollar_v, &empty);
                            },
                        }
                    } else {
                        return Ok(None);
                    }
                },
                None => {
                    return Ok(None);
                },
            }
        }
        k = k + 1;
    }
    Ok(Some(string_of(&temp)))
}


// ------------------------------------------------------------------------
// What the engine remembers
// ------------------------------------------------------------------------

/// The responses kept for later and the usage of the reassembly rules.
pub struct State {
    pub memory: VecDeque<String>,
    pub rule_usage: RuleUsage,
}

/// The model of `State`.
pub struct StateView {
    pub memory: Seq<Seq<char>>,
    pub usage: Map<Seq<char>, nat>,
}

impl View for State {
    type V = StateView;

    open spec fn view(&self) -> StateView {
        StateView { memory: strs(self.memory@), usage: self.rule_usage.counts() }
    }
}

impl State {
    /// Nothing remembered, no rule used.
    pub fn new() -> (r: State)
        ensures
            r.wf(),
            r@.memory == Seq::<Seq<char>>::empty(),
            r@.usage == Map::<Seq<char>, nat>::empty(),
    {
        let r = State { memory: VecDeque::new(), rule_usage: RuleUsage::new() };
        assert(r@.memory =~= Seq::<Seq<char>>::empty());
        r
    }

    pub open spec fn wf(&self) -> bool {
        self.rule_usage.wf()
    }
}

// ------------------------------------------------------------------------
// Searching for a response
// ------------------------------------------------------------------------

/// How a search for a response ends.
pub enum Outcome {
    /// A response was found.
    Answered(Seq<char>, StateView),
    /// The key stack ran out without a response.
    NoAnswer(StateView),
    /// The engine would panic: a rule's count cannot grow, or a reassembly rule
    /// names a capture that does not exist.
    Panicked(StateView),
    /// More keywords were taken from the stack than the search was allowed.
    Exhausted(StateView),
}

/// The search for a response to `phrase`: keywords are taken from the front of
/// `stack`, at most `fuel` of them; each rule of a keyword is tried with every
/// pattern it expands to.
pub open spec fn search(sv: ScriptView, st: StateView, phrase: Seq<char>, stack: Seq<KeywordView>, fuel: nat) -> Outcome
    decreases fuel, 0int, 0int,
{
    if stack.len() == 0 {
        Outcome::NoAnswer(st)
    } else if fuel == 0 {
        Outcome::Exhausted(st)
    } else {
        try_rules(sv, st, phrase, stack[0].rules, 0, stack.drop_first(), (fuel - 1) as nat)
    }
}

/// The rules `rules[i..]` of a keyword, tried in order.
pub open spec fn try_rules(
    sv: ScriptView,
    st: StateView,
    phrase: Seq<char>,
    rules: Seq<RuleView>,
    i: int,
    stack: Seq<KeywordView>,
    fuel: nat,
) -> Outcome
    decreases fuel, if 0 <= i <= rules.len() {
        rules.len() - i + 1
    } else {
        1int
    }, 0int,
{
    if i < 0 || i >= rules.len() {
        search(sv, st, phrase, stack, fuel)
    } else {
        try_patterns(
            sv,
            st,
            phrase,
            rules,
            i,
            patterns_of(rules[i].decomposition, sv.synonyms),
            0,
            stack,
            fuel,
        )
    }
}

/// The patterns `pats[j..]` of rule `rules[i]`, tried in order.
pub open spec fn try_patterns(
    sv: ScriptView,
    st: StateView,
    phrase: Seq<char>,
    rules: Seq<RuleView>,
    i: int,
    pats: Seq<Seq<char>>,
    j: int,
    stack: Seq<KeywordView>,
    fuel: nat,
) -> Outcome
    decreases fuel, if 0 <= i < rules.len() {
        rules.len() - i
    } else {
        0int
    }, if 0 <= j <= pats.len() {
        pats.len() - j + 1
    } else {
        1int
    },
{
    if i < 0 || i >= rules.len() {
        Outcome::NoAnswer(st)
    } else if j < 0 || j >= pats.len() {
        try_rules(sv, st, phrase, rules, i + 1, stack, fuel)
    } else {
        let r = rules[i];
        match regex_captures(pats[j], phrase) {
            None => try_patterns(sv, st, phrase, rules, i, pats, j + 1, stack, fuel),
            Some(caps) => match select_rule(st.usage, r.decomposition, r.reassembly) {
                Pick::Overflow => Outcome::Panicked(st),
                Pick::Chosen(choice, usage) => {
                    let st1 = StateView { memory: st.memory, usage };
                    match choice {
                        None => try_patterns(sv, st1, phrase, rules, i, pats, j + 1, stack, fuel),
                        Some(a) => match goto_target(a) {
                            Some(g) => match find_keyword(sv.keywords, g, 0) {
                                Some(k) => search(
                                    sv,
                                    st1,
                                    phrase,
                                    seq![sv.keywords[k]] + stack,
                                    fuel,
                                ),
                                None => try_patterns(sv, st1, phrase, rules, i, pats, j + 1, stack, fuel),
                            },
                            None => match assembled(a, caps, sv.reflections) {
                                Assembly::Missing => Outcome::Panicked(st1),
                                Assembly::Invalid => try_patterns(
                                    sv,
                                    st1,
                                    phrase,
                                    rules,
                                    i,
                                    pats,
                                    j + 1,
                                    stack,
                                    fuel,
                                ),
                                Assembly::Text(resp) => if r.memorise {
                                    try_patterns(
                                        sv,
                                        StateView { memory: st1.memory.push(resp), usage },
                                        phrase,
                                        rules,
                                        i,
                                        pats,
                                        j + 1,
                                        stack,
                                        fuel,
                                    )
                                } else {
                                    Outcome::Answered(resp, st1)
                                },
                            },
                        },
                    }
                },
            },
        }
    }
}

/// How the executable search ended.
pub enum SearchResult {
    Answered(String),
    NoAnswer,
    Panicked,
    Exhausted,
}

/// The executable result and the state after it agree with an outcome.
pub open spec fn search_matches(r: SearchResult, st: StateView, o: Outcome) -> bool {
    match o {
        Outcome::Answered(t, s) => r matches SearchResult::Answered(x) && x@ == t && st == s,
        Outcome::NoAnswer(s) => r is NoAnswer && st == s,
        Outcome::Panicked(s) => r is Panicked && st == s,
        Outcome::Exhausted(s) => r is Exhausted && st == s,
    }
}

/// The state made of a memory and a usage table.
pub open spec fn state_of(memory: &VecDeque<String>, usage: &RuleUsage) -> StateView {
    StateView { memory: strs(memory@), usage: usage.counts() }
}

impl State {
    /// Searches for a response to `phrase`, taking keywords from the front of
    /// `keystack`. With `limit`, at most that many keywords are taken; without
    /// one, the search must end (`fuel` bounds it).
    pub fn get_response(
        &mut self,
        script: &Script,
        phrase: &String,
        keystack: VecDeque<Keyword>,
        limit: Option<usize>,
        Ghost(fuel): Ghost<nat>,
    ) -> (r: SearchResult)
        requires
            old(self).wf(),
            limit matches Some(l) ==> fuel == l,
            limit is None ==> !(search(
                script@,
                old(self)@,
                phrase@,
                kw_views(keystack@),
                fuel,
            ) is Exhausted),
        ensures
            final(self).wf(),
            search_matches(
                r,
                final(self)@,
                search(script@, old(self)@, phrase@, kw_views(keystack@), fuel),
            ),
    {
        let mut memory: VecDeque<String> = VecDeque::new();
        std::mem::swap(&mut memory, &mut self.memory);
        let mut usage = RuleUsage::new();
        std::mem::swap(&mut usage, &mut self.rule_usage);
        let (r, memory, usage) = search_with(script, memory, usage, phrase, keystack, limit, Ghost(fuel));
        self.memory = memory;
        self.rule_usage = usage;
        r
    }
}

/// Searches for a response to `phrase` with the given memory and usage table.
fn search_with(
    script: &Script,
    memory_in: VecDeque<String>,
    usage_in: RuleUsage,
    phrase: &String,
    keystack: VecDeque<Keyword>,
    limit: Option<usize>,
    Ghost(fuel): Ghost<nat>,
) -> (r: (SearchResult, VecDeque<String>, RuleUsage))
    requires
        usage_in.wf(),
        limit matches Some(l) ==> fuel == l,
        limit is None ==> !(search(
            script@,
            state_of(&memory_in, &usage_in),
            phrase@,
            kw_views(keystack@),
            fuel,
        ) is Exhausted),
    ensures
        r.2.wf(),
        search_matches(
            r.0,
            state_of(&r.1, &r.2),
            search(script@, state_of(&memory_in, &usage_in), phrase@, kw_views(keystack@), fuel),
        ),
    {
        let mut memory = memory_in;
        let mut usage = usage_in;
        let ghost sv = script@;
        let ghost ks0 = kw_views(keystack@);
        let ghost target = search(sv, state_of(&memory, &usage), phrase@, ks0, fuel);
        let mut stack = keystack;
        let mut budget = limit;
        let ghost mut left: nat = fuel;
        loop
            invariant
                usage.wf(),
                sv == script@,
                budget matches Some(b) ==> left == b,
                budget is None ==> !(target is Exhausted),
                target == search(sv, state_of(&memory, &usage), phrase@, kw_views(stack@), left),
                target == search(script@, state_of(&memory_in, &usage_in), phrase@, kw_views(keystack@), fuel),
            decreases left,
        {
            if stack.len() == 0 {
                assert(kw_views(stack@).len() == 0);
                assert(target == Outcome::NoAnswer(state_of(&memory, &usage)));
                assert(search_matches(SearchResult::NoAnswer, state_of(&memory, &usage), target));
                
                return (SearchResult::NoAnswer, memory, usage);
            }
            match budget {
                Some(b) => {
                    if b == 0 {
                        return (SearchResult::Exhausted, memory, usage);
                    }
                    budget = Some(b - 1);
                },
                None => {},
            }
            assert(left > 0);
            let ghost sview = kw_views(stack@);
            let next = stack.pop_front().unwrap();
            assert(kw_views(stack@) =~= sview.drop_first());
            proof {
                left = (left - 1) as nat;
            }
            let ghost rules = next@.rules;
            let mut jumped = false;
            let mut i: usize = 0;
            while i < next.rules.len() && !jumped
                invariant
                    usage.wf(),
                    sv == script@,
                    rules == next@.rules,
                    i <= next.rules.len(),
                    budget matches Some(b) ==> left == b,
                    budget is None ==> !(target is Exhausted),
                    target == search(script@, state_of(&memory_in, &usage_in), phrase@, kw_views(keystack@), fuel),
                    !jumped ==> target == try_rules(sv, state_of(&memory, &usage), phrase@, rules, i as int, kw_views(stack@), left),
                    jumped ==> target == search(sv, state_of(&memory, &usage), phrase@, kw_views(stack@), left),
                decreases next.rules.len() - i, if jumped { 0int } else { 1int },
            {
                let r = &next.rules[i];
                assert(rules[i as int] == r@);
                let pats = permutations(r.decomposition_rule.as_str(), &script.synonyms);
                let ghost pv = pattern_views(pats@);
                let mut j: usize = 0;
                while j < pats.len() && !jumped
                    invariant
                        usage.wf(),
                        sv == script@,
                        rules == next@.rules,
                        i < next.rules.len(),
                        rules[i as int] == r@,
                        j <= pats.len(),
                        pv == pattern_views(pats@),
                        pv == patterns_of(r@.decomposition, sv.synonyms),
                        budget matches Some(b) ==> left == b,
                        budget is None ==> !(target is Exhausted),
                        target == search(script@, state_of(&memory_in, &usage_in), phrase@, kw_views(keystack@), fuel),
                        !jumped ==> target == try_patterns(sv, state_of(&memory, &usage), phrase@, rules, i as int, pv, j as int, kw_views(stack@), left),
                        jumped ==> target == search(sv, state_of(&memory, &usage), phrase@, kw_views(stack@), left),
                    decreases pats.len() - j, if jumped { 0int } else { 1int },
                {
                    assert(pv[j as int] == pats@[j as int]@);
                    match captures(&pats[j], phrase.as_str()) {
                        None => {},
                        Some(caps) => {
                            let picked = get_reassembly(&mut usage, r.decomposition_rule.as_str(), &r.reassembly_rules);
                            match picked {
                                Err(()) => {
                                    return (SearchResult::Panicked, memory, usage);
                                },
                                Ok(None) => {},
                                Ok(Some(assem)) => {
                                    match is_goto(assem.as_str()) {
                                        Some(goto) => {
                                            let ghost kws = kw_views(script.keywords@);
                                            proof {
                                                lemma_find_keyword(kws, goto@, 0);
                                            }
                                            match find_keyword_in(&script.keywords, &goto) {
                                                Some(k) => {
                                                    let entry = script.keywords[k].duplicate();
                                                    let ghost before = kw_views(stack@);
                                                    stack.push_front(entry);
                                                    assert(kw_views(stack@) =~= seq![kws[k as int]] + before);
                                                    jumped = true;
                                                },
                                                None => {},
                                            }
                                        },
                                        None => {
                                            match assemble(assem.as_str(), &caps, &script.reflections) {
                                                Err(()) => {
                                                    return (SearchResult::Panicked, memory, usage);
                                                },
                                                Ok(None) => {},
                                                Ok(Some(resp)) => {
                                                    if r.memorise {
                                                        let ghost before = strs(memory@);
                                                        memory.push_back(resp);
                                                        assert(strs(memory@) =~= before.push(resp@));
                                                    } else {
                                                        return (SearchResult::Answered(resp), memory, usage);
                                                    }
                                                },
                                            }
                                        },
                                    }
                                },
                            }
                        },
                    }
                    if !jumped {
                        j = j + 1;
                    }
                }
                if !jumped {
                    i = i + 1;
                }
            }
        }
    }

/// The index of the first keyword whose key is `w`.
pub fn find_keyword_in(kws: &Vec<Keyword>, w: &String) -> (r: Option<usize>)
    ensures
        r matches Some(i) ==> find_keyword(kw_views(kws@), w@, 0) == Some(
            i as int,
        ) && i < kws.len(),
        r is None ==> find_keyword(kw_views(kws@), w@, 0) is None,
{
    let ghost v = kw_views(kws@);
    let mut i: usize = 0;
    while i < kws.len()
        invariant
            i <= kws.len(),
            v == kw_views(kws@),
            find_keyword(v, w@, 0) == find_keyword(v, w@, i as int),
        decreases kws.len() - i,
    {
        if kws[i].key == *w {
            return Some(i);
        }
        i = i + 1;
    }
    None
}


// ------------------------------------------------------------------------
// Answering an input
// ------------------------------------------------------------------------

/// The phrases of an input: lower-cased, transformed, split.
pub open spec fn input_phrases(sv: ScriptView, input: Seq<char>) -> Seq<Seq<char>> {
    phrases(transformed(lowercase(input), sv.transforms))
}

/// How answering an input ends.
pub enum Reply {
    /// A response assembled for the input.
    Answer(Seq<char>, StateView),
    /// No response was found; the oldest remembered response is given.
    Remembered(Seq<char>, StateView),
    /// No response was found and nothing is remembered: a fallback is due.
    Fallback(StateView),
    /// The engine would panic.
    Panicked(StateView),
    /// The search took more keywords than it was allowed.
    Exhausted(StateView),
}

/// The answer to `input`: the active phrase is searched with its key stack; when
/// that gives no response, the oldest remembered response is used, and when
/// nothing is remembered a fallback is due.
pub open spec fn reply_of(sv: ScriptView, st: StateView, input: Seq<char>, fuel: nat) -> Reply {
    let (active, stack) = keystack_of(input_phrases(sv, input), sv.keywords);
    let o = match active {
        Some(p) => search(sv, st, p, stack, fuel),
        None => Outcome::NoAnswer(st),
    };
    match o {
        Outcome::Answered(t, s) => Reply::Answer(t, s),
        Outcome::NoAnswer(s) => if s.memory.len() > 0 {
            Reply::Remembered(s.memory[0], StateView { memory: s.memory.drop_first(), usage: s.usage })
        } else {
            Reply::Fallback(s)
        },
        Outcome::Panicked(s) => Reply::Panicked(s),
        Outcome::Exhausted(s) => Reply::Exhausted(s),
    }
}

/// Answering `input` ends, within `fuel` keywords, without a panic.
pub open spec fn completes(sv: ScriptView, st: StateView, input: Seq<char>, fuel: nat) -> bool {
    !(reply_of(sv, st, input, fuel) is Panicked) && !(reply_of(sv, st, input, fuel) is Exhausted)
}

/// Answering `input` ends without a panic.
pub open spec fn can_respond(sv: ScriptView, st: StateView, input: Seq<char>) -> bool {
    exists|f: nat| completes(sv, st, input, f)
}

/// The answer to `input` when it ends.
pub open spec fn reply(sv: ScriptView, st: StateView, input: Seq<char>) -> Reply {
    reply_of(sv, st, input, choose|f: nat| completes(sv, st, input, f))
}

/// How the executable answer ended.
pub enum ReplyResult {
    Answer(String),
    Remembered(String),
    Fallback,
    Panicked,
    Exhausted,
}

/// The executable answer and the state after it agree with a reply.
pub open spec fn reply_matches(r: ReplyResult, st: StateView, o: Reply) -> bool {
    match o {
        Reply::Answer(t, s) => r matches ReplyResult::Answer(x) && x@ == t && st == s,
        Reply::Remembered(t, s) => r matches ReplyResult::Remembered(x) && x@ == t && st == s,
        Reply::Fallback(s) => r is Fallback && st == s,
        Reply::Panicked(s) => r is Panicked && st == s,
        Reply::Exhausted(s) => r is Exhausted && st == s,
    }
}

impl State {
    /// Answers `input`; with `limit`, at most that many keywords are searched,
    /// without one, the answer must end (`fuel` bounds it).
    pub fn reply(&mut self, script: &Script, input: &str, limit: Option<usize>, Ghost(fuel): Ghost<nat>) -> (r: ReplyResult)
        requires
            old(self).wf(),
            limit matches Some(l) ==> fuel == l,
            limit is None ==> !(reply_of(script@, old(self)@, input@, fuel) is Exhausted),
        ensures
            final(self).wf(),
            reply_matches(r, final(self)@, reply_of(script@, old(self)@, input@, fuel)),
    {
        let lower = to_lowercase(input);
        let t = transform(lower.as_str(), &script.transforms);
        let ps = get_phrases(t.as_str());
        assert(strs(ps@) == input_phrases(script@, input@));
        let (active, stack) = populate_keystack(ps, &script.keywords);
        let o = match active {
            Some(p) => self.get_response(script, &p, stack, limit, Ghost(fuel)),
            None => SearchResult::NoAnswer,
        };
        match o {
            SearchResult::Answered(x) => ReplyResult::Answer(x),
            SearchResult::NoAnswer => {
                let ghost before = self@;
                match self.memory.pop_front() {
                    Some(m) => {
                        assert(self@.memory =~= before.memory.drop_first());
                        ReplyResult::Remembered(m)
                    },
                    None => ReplyResult::Fallback,
                }
            },
            SearchResult::Panicked => ReplyResult::Panicked,
            SearchResult::Exhausted => ReplyResult::Exhausted,
        }
    }
}


// ------------------------------------------------------------------------
// Laws of the search and of the answer
// ------------------------------------------------------------------------

/// A search that ends within `f1` keywords ends the same way with any larger allowance.
pub proof fn lemma_search_fuel(sv: ScriptView, st: StateView, phrase: Seq<char>, stack: Seq<KeywordView>, f1: nat, f2: nat)
    requires
        f1 <= f2,
        !(search(sv, st, phrase, stack, f1) is Exhausted),
    ensures
        search(sv, st, phrase, stack, f2) == search(sv, st, phrase, stack, f1),
    decreases f1, 0int, 0int,
{
    if stack.len() > 0 {
        lemma_try_rules_fuel(sv, st, phrase, stack[0].rules, 0, stack.drop_first(), (f1 - 1) as nat, (f2 - 1) as nat);
    }
}

proof fn lemma_try_rules_fuel(
    sv: ScriptView,
    st: StateView,
    phrase: Seq<char>,
    rules: Seq<RuleView>,
    i: int,
    stack: Seq<KeywordView>,
    f1: nat,
    f2: nat,
)
    requires
        f1 <= f2,
        !(try_rules(sv, st, phrase, rules, i, stack, f1) is Exhausted),
    ensures
        try_rules(sv, st, phrase, rules, i, stack, f2) == try_rules(sv, st, phrase, rules, i, stack, f1),
    decreases f1, if 0 <= i <= rules.len() {
        rules.len() - i + 1
    } else {
        1int
    }, 0int,
{
    if i < 0 || i >= rules.len() {
        lemma_search_fuel(sv, st, phrase, stack, f1, f2);
    } else {
        lemma_try_patterns_fuel(
            sv,
            st,
            phrase,
            rules,
            i,
            patterns_of(rules[i].decomposition, sv.synonyms),
            0,
            stack,
            f1,
            f2,
        );
    }
}

proof fn lemma_try_patterns_fuel(
    sv: ScriptView,
    st: StateView,
    phrase: Seq<char>,
    rules: Seq<RuleView>,
    i: int,
    pats: Seq<Seq<char>>,
    j: int,
    stack: Seq<KeywordView>,
    f1: nat,
    f2: nat,
)
    requires
        f1 <= f2,
        !(try_patterns(sv, st, phrase, rules, i, pats, j, stack, f1) is Exhausted),
    ensures
        try_patterns(sv, st, phrase, rules, i, pats, j, stack, f2) == try_patterns(sv, st, phrase, rules, i, pats, j, stack, f1),
    decreases f1, if 0 <= i < rules.len() {
        rules.len() - i
    } else {
        0int
    }, if 0 <= j <= pats.len() {
        pats.len() - j + 1
    } else {
        1int
    },
{
    if i < 0 || i >= rules.len() {
    } else if j < 0 || j >= pats.len() {
        lemma_try_rules_fuel(sv, st, phrase, rules, i + 1, stack, f1, f2);
    } else {
        let r = rules[i];
        match regex_captures(pats[j], phrase) {
            None => lemma_try_patterns_fuel(sv, st, phrase, rules, i, pats, j + 1, stack, f1, f2),
            Some(caps) => match select_rule(st.usage, r.decomposition, r.reassembly) {
                Pick::Overflow => {},
                Pick::Chosen(choice, usage) => {
                    let st1 = StateView { memory: st.memory, usage };
                    match choice {
                        None => lemma_try_patterns_fuel(sv, st1, phrase, rules, i, pats, j + 1, stack, f1, f2),
                        Some(a) => match goto_target(a) {
                            Some(g) => match find_keyword(sv.keywords, g, 0) {
                                Some(k) => lemma_search_fuel(sv, st1, phrase, seq![sv.keywords[k]] + stack, f1, f2),
                                None => lemma_try_patterns_fuel(sv, st1, phrase, rules, i, pats, j + 1, stack, f1, f2),
                            },
                            None => match assembled(a, caps, sv.reflections) {
                                Assembly::Missing => {},
                                Assembly::Invalid => lemma_try_patterns_fuel(sv, st1, phrase, rules, i, pats, j + 1, stack, f1, f2),
                                Assembly::Text(resp) => if r.memorise {
                                    lemma_try_patterns_fuel(
                                        sv,
                                        StateView { memory: st1.memory.push(resp), usage },
                                        phrase,
                                        rules,
                                        i,
                                        pats,
                                        j + 1,
                                        stack,
                                        f1,
                                        f2,
                                    );
                                },
                            },
                        },
                    }
                },
            },
        }
    }
}

/// An answer that ends within `f1` keywords is the same with any larger allowance.
pub proof fn lemma_reply_fuel(sv: ScriptView, st: StateView, input: Seq<char>, f1: nat, f2: nat)
    requires
        f1 <= f2,
        completes(sv, st, input, f1),
    ensures
        reply_of(sv, st, input, f2) == reply_of(sv, st, input, f1),
{
    let (active, stack) = keystack_of(input_phrases(sv, input), sv.keywords);
    if let Some(p) = active {
        lemma_search_fuel(sv, st, p, stack, f1, f2);
    }
}

/// Where answering within `f` keywords ends, that is the answer: a bounded
/// attempt (`try_respond`) that ends gives what `respond` gives.
pub proof fn lemma_reply_is_bounded_reply(sv: ScriptView, st: StateView, input: Seq<char>, f: nat)
    requires
        completes(sv, st, input, f),
    ensures
        can_respond(sv, st, input),
        reply(sv, st, input) == reply_of(sv, st, input, f),
{
    let f0 = choose|f0: nat| completes(sv, st, input, f0);
    let m = if f0 <= f {
        f
    } else {
        f0
    };
    lemma_reply_fuel(sv, st, input, f0, m);
    lemma_reply_fuel(sv, st, input, f, m);
}

/// When no phrase of the input holds a keyword, the oldest remembered response
/// is given and forgotten; with nothing remembered a fallback is due and nothing changes.
pub proof fn lemma_reply_without_keyword(sv: ScriptView, st: StateView, input: Seq<char>, fuel: nat)
    requires
        keystack_of(input_phrases(sv, input), sv.keywords).0 is None,
    ensures
        st.memory.len() > 0 ==> reply_of(sv, st, input, fuel) == Reply::Remembered(
            st.memory[0],
            StateView { memory: st.memory.drop_first(), usage: st.usage },
        ),
        st.memory.len() == 0 ==> reply_of(sv, st, input, fuel) == Reply::Fallback(st),
{
}

/// `b` is `a` with, perhaps, more responses remembered at the back of its
/// memory, and with more rules counted or counted more often.
pub open spec fn extends(a: StateView, b: StateView) -> bool {
    &&& a.memory.len() <= b.memory.len()
    &&& b.memory.subrange(0, a.memory.len() as int) == a.memory
    &&& usage_grows(a.usage, b.usage)
}

/// The state in which a search ends.
pub open spec fn outcome_state(o: Outcome) -> StateView {
    match o {
        Outcome::Answered(_, s) => s,
        Outcome::NoAnswer(s) => s,
        Outcome::Panicked(s) => s,
        Outcome::Exhausted(s) => s,
    }
}

pub(crate) proof fn lemma_extends_trans(a: StateView, b: StateView, c: StateView)
    requires
        extends(a, b),
        extends(b, c),
    ensures
        extends(a, c),
{
    assert(c.memory.subrange(0, a.memory.len() as int) =~= c.memory.subrange(0, b.memory.len() as int).subrange(
        0,
        a.memory.len() as int,
    ));
}

pub(crate) proof fn lemma_extends_refl(a: StateView)
    ensures
        extends(a, a),
{
    assert(a.memory.subrange(0, a.memory.len() as int) =~= a.memory);
}

/// A search ends in a state that extends the state it started from.
pub proof fn lemma_search_extends(sv: ScriptView, st: StateView, phrase: Seq<char>, stack: Seq<KeywordView>, fuel: nat)
    ensures
        extends(st, outcome_state(search(sv, st, phrase, stack, fuel))),
    decreases fuel, 0int, 0int,
{
    lemma_extends_refl(st);
    if stack.len() > 0 && fuel > 0 {
        lemma_try_rules_extends(sv, st, phrase, stack[0].rules, 0, stack.drop_first(), (fuel - 1) as nat);
    }
}

proof fn lemma_try_rules_extends(
    sv: ScriptView,
    st: StateView,
    phrase: Seq<char>,
    rules: Seq<RuleView>,
    i: int,
    stack: Seq<KeywordView>,
    fuel: nat,
)
    ensures
        extends(st, outcome_state(try_rules(sv, st, phrase, rules, i, stack, fuel))),
    decreases fuel, if 0 <= i <= rules.len() {
        rules.len() - i + 1
    } else {
        1int
    }, 0int,
{
    if i < 0 || i >= rules.len() {
        lemma_search_extends(sv, st, phrase, stack, fuel);
    } else {
        lemma_try_patterns_extends(
            sv,
            st,
            phrase,
            rules,
            i,
            patterns_of(rules[i].decomposition, sv.synonyms),
            0,
            stack,
            fuel,
        );
    }
}

proof fn lemma_try_patterns_extends(
    sv: ScriptView,
    st: StateView,
    phrase: Seq<char>,
    rules: Seq<RuleView>,
    i: int,
    pats: Seq<Seq<char>>,
    j: int,
    stack: Seq<KeywordView>,
    fuel: nat,
)
    ensures
        extends(st, outcome_state(try_patterns(sv, st, phrase, rules, i, pats, j, stack, fuel))),
    decreases fuel, if 0 <= i < rules.len() {
        rules.len() - i
    } else {
        0int
    }, if 0 <= j <= pats.len() {
        pats.len() - j + 1
    } else {
        1int
    },
{
    lemma_extends_refl(st);
    if i < 0 || i >= rules.len() {
    } else if j < 0 || j >= pats.len() {
        lemma_try_rules_extends(sv, st, phrase, rules, i + 1, stack, fuel);
    } else {
        let r = rules[i];
        match regex_captures(pats[j], phrase) {
            None => lemma_try_patterns_extends(sv, st, phrase, rules, i, pats, j + 1, stack, fuel),
            Some(caps) => {
                lemma_select_rule_grows(st.usage, r.decomposition, r.reassembly);
                match select_rule(st.usage, r.decomposition, r.reassembly) {
                    Pick::Overflow => {},
                    Pick::Chosen(choice, usage) => {
                        let st1 = StateView { memory: st.memory, usage };
                        assert(extends(st, st1));
                        let out = try_patterns(sv, st, phrase, rules, i, pats, j, stack, fuel);
                        match choice {
                            None => {
                                lemma_try_patterns_extends(sv, st1, phrase, rules, i, pats, j + 1, stack, fuel);
                                lemma_extends_trans(st, st1, outcome_state(out));
                            },
                            Some(a) => match goto_target(a) {
                                Some(g) => match find_keyword(sv.keywords, g, 0) {
                                    Some(k) => {
                                        lemma_search_extends(sv, st1, phrase, seq![sv.keywords[k]] + stack, fuel);
                                        lemma_extends_trans(st, st1, outcome_state(out));
                                    },
                                    None => {
                                        lemma_try_patterns_extends(sv, st1, phrase, rules, i, pats, j + 1, stack, fuel);
                                        lemma_extends_trans(st, st1, outcome_state(out));
                                    },
                                },
                                None => match assembled(a, caps, sv.reflections) {
                                    Assembly::Missing => {},
                                    Assembly::Invalid => {
                                        lemma_try_patterns_extends(sv, st1, phrase, rules, i, pats, j + 1, stack, fuel);
                                        lemma_extends_trans(st, st1, outcome_state(out));
                                    },
                                    Assembly::Text(resp) => if r.memorise {
                                        let st2 = StateView { memory: st1.memory.push(resp), usage };
                                        assert(st2.memory.subrange(0, st1.memory.len() as int) =~= st1.memory);
                                        lemma_try_patterns_extends(sv, st2, phrase, rules, i, pats, j + 1, stack, fuel);
                                        lemma_extends_trans(st, st1, st2);
                                        lemma_extends_trans(st, st2, outcome_state(out));
                                    },
                                },
                            },
                        }
                    },
                }
            },
        }
    }
}

/// Answering an input keeps what was remembered and what was counted: the
/// state after an answer, a fallback or a failed search extends the state
/// before (responses of memorising rules added at the back, counts only
/// growing); when the response comes from memory, it is the front of such an
/// extended memory, and it is taken off.
pub proof fn lemma_reply_extends(sv: ScriptView, st: StateView, input: Seq<char>, fuel: nat)
    ensures
        match reply_of(sv, st, input, fuel) {
            Reply::Remembered(t, s) => exists|m: StateView|
                #[trigger] extends(st, m) && m.memory.len() > 0 && t == m.memory[0] && s.memory
                    == m.memory.drop_first() && s.usage == m.usage,
            Reply::Answer(_, s) => extends(st, s),
            Reply::Fallback(s) => extends(st, s),
            Reply::Panicked(s) => extends(st, s),
            Reply::Exhausted(s) => extends(st, s),
        },
{
    lemma_extends_refl(st);
    let (active, stack) = keystack_of(input_phrases(sv, input), sv.keywords);
    let o = match active {
        Some(p) => search(sv, st, p, stack, fuel),
        None => Outcome::NoAnswer(st),
    };
    if let Some(p) = active {
        lemma_search_extends(sv, st, p, stack, fuel);
    }
    assert(extends(st, outcome_state(o)));
}

/// The outcome `o` with `m` put before the memory it ends with.
pub open spec fn with_memory_before(o: Outcome, m: Seq<Seq<char>>) -> Outcome {
    match o {
        Outcome::Answered(t, s) => Outcome::Answered(t, StateView { memory: m + s.memory, usage: s.usage }),
        Outcome::NoAnswer(s) => Outcome::NoAnswer(StateView { memory: m + s.memory, usage: s.usage }),
        Outcome::Panicked(s) => Outcome::Panicked(StateView { memory: m + s.memory, usage: s.usage }),
        Outcome::Exhausted(s) => Outcome::Exhausted(StateView { memory: m + s.memory, usage: s.usage }),
    }
}

/// A search never reads the memory: with `m` before the memory it starts
/// from, it ends as it would without `m`, with `m` still at the front.
pub proof fn lemma_search_memory(
    sv: ScriptView,
    m: Seq<Seq<char>>,
    st: StateView,
    phrase: Seq<char>,
    stack: Seq<KeywordView>,
    fuel: nat,
)
    ensures
        search(sv, StateView { memory: m + st.memory, usage: st.usage }, phrase, stack, fuel)
            == with_memory_before(search(sv, st, phrase, stack, fuel), m),
    decreases fuel, 0int, 0int,
{
    if stack.len() > 0 && fuel > 0 {
        lemma_try_rules_memory(sv, m, st, phrase, stack[0].rules, 0, stack.drop_first(), (fuel - 1) as nat);
    }
}

proof fn lemma_try_rules_memory(
    sv: ScriptView,
    m: Seq<Seq<char>>,
    st: StateView,
    phrase: Seq<char>,
    rules: Seq<RuleView>,
    i: int,
    stack: Seq<KeywordView>,
    fuel: nat,
)
    ensures
        try_rules(sv, StateView { memory: m + st.memory, usage: st.usage }, phrase, rules, i, stack, fuel)
            == with_memory_before(try_rules(sv, st, phrase, rules, i, stack, fuel), m),
    decreases fuel, if 0 <= i <= rules.len() {
        rules.len() - i + 1
    } else {
        1int
    }, 0int,
{
    if i < 0 || i >= rules.len() {
        lemma_search_memory(sv, m, st, phrase, stack, fuel);
    } else {
        lemma_try_patterns_memory(
            sv,
            m,
            st,
            phrase,
            rules,
            i,
            patterns_of(rules[i].decomposition, sv.synonyms),
            0,
            stack,
            fuel,
        );
    }
}

proof fn lemma_try_patterns_memory(
    sv: ScriptView,
    m: Seq<Seq<char>>,
    st: StateView,
    phrase: Seq<char>,
    rules: Seq<RuleView>,
    i: int,
    pats: Seq<Seq<char>>,
    j: int,
    stack: Seq<KeywordView>,
    fuel: nat,
)
    ensures
        try_patterns(sv, StateView { memory: m + st.memory, usage: st.usage }, phrase, rules, i, pats, j, stack, fuel)
            == with_memory_before(try_patterns(sv, st, phrase, rules, i, pats, j, stack, fuel), m),
    decreases fuel, if 0 <= i < rules.len() {
        rules.len() - i
    } else {
        0int
    }, if 0 <= j <= pats.len() {
        pats.len() - j + 1
    } else {
        1int
    },
{
    if i < 0 || i >= rules.len() {
    } else if j < 0 || j >= pats.len() {
        lemma_try_rules_memory(sv, m, st, phrase, rules, i + 1, stack, fuel);
    } else {
        let r = rules[i];
        match regex_captures(pats[j], phrase) {
            None => lemma_try_patterns_memory(sv, m, st, phrase, rules, i, pats, j + 1, stack, fuel),
            Some(caps) => match select_rule(st.usage, r.decomposition, r.reassembly) {
                Pick::Overflow => {},
                Pick::Chosen(choice, usage) => {
                    let st1 = StateView { memory: st.memory, usage };
                    match choice {
                        None => lemma_try_patterns_memory(sv, m, st1, phrase, rules, i, pats, j + 1, stack, fuel),
                        Some(a) => match goto_target(a) {
                            Some(g) => match find_keyword(sv.keywords, g, 0) {
                                Some(k) => lemma_search_memory(sv, m, st1, phrase, seq![sv.keywords[k]] + stack, fuel),
                                None => lemma_try_patterns_memory(sv, m, st1, phrase, rules, i, pats, j + 1, stack, fuel),
                            },
                            None => match assembled(a, caps, sv.reflections) {
                                Assembly::Missing => {},
                                Assembly::Invalid => lemma_try_patterns_memory(sv, m, st1, phrase, rules, i, pats, j + 1, stack, fuel),
                                Assembly::Text(resp) => if r.memorise {
                                    let st2 = StateView { memory: st1.memory.push(resp), usage };
                                    assert((m + st1.memory).push(resp) =~= m + st2.memory);
                                    lemma_try_patterns_memory(sv, m, st2, phrase, rules, i, pats, j + 1, stack, fuel);
                                },
                            },
                        },
                    }
                },
            },
        }
    }
}

/// The responses that memorising rules assemble while `input` is answered, in
/// the order they are assembled: what the search ends up remembering when it
/// starts from an empty memory.
pub open spec fn memorised(sv: ScriptView, st: StateView, input: Seq<char>, fuel: nat) -> Seq<Seq<char>> {
    let (active, stack) = keystack_of(input_phrases(sv, input), sv.keywords);
    match active {
        Some(p) => outcome_state(
            search(sv, StateView { memory: seq![], usage: st.usage }, p, stack, fuel),
        ).memory,
        None => seq![],
    }
}

/// After an answer the memory is the old memory followed by the responses
/// memorised in this call, in order; when the response comes from memory, it
/// is the first of those, and it is taken off.
pub proof fn lemma_reply_memory(sv: ScriptView, st: StateView, input: Seq<char>, fuel: nat)
    ensures
        ({
            let n = st.memory + memorised(sv, st, input, fuel);
            match reply_of(sv, st, input, fuel) {
                Reply::Remembered(t, s) => n.len() > 0 && t == n[0] && s.memory == n.drop_first(),
                Reply::Answer(_, s) => s.memory == n,
                Reply::Fallback(s) => s.memory == n,
                Reply::Panicked(s) => s.memory == n,
                Reply::Exhausted(s) => s.memory == n,
            }
        }),
{
    let (active, stack) = keystack_of(input_phrases(sv, input), sv.keywords);
    let st0 = StateView { memory: seq![], usage: st.usage };
    assert(st.memory + st0.memory =~= st.memory);
    assert(StateView { memory: st.memory + st0.memory, usage: st0.usage } == st);
    if let Some(p) = active {
        lemma_search_memory(sv, st.memory, st0, p, stack, fuel);
    } else {
        assert(st.memory + memorised(sv, st, input, fuel) =~= st.memory);
    }
}

/// A GOTO jumps to its target: when the first pattern of the first rule of
/// the keyword on top of the stack matches the phrase and the reassembly rule
/// chosen is a GOTO to a keyword of the script, the search goes on with that
/// keyword ahead of the rest of the stack, so the target is the very next
/// keyword searched and its answer is the answer.
pub proof fn lemma_goto_jumps_to_target(
    sv: ScriptView,
    st: StateView,
    phrase: Seq<char>,
    stack: Seq<KeywordView>,
    fuel: nat,
    a: Seq<char>,
    usage: Map<Seq<char>, nat>,
    g: Seq<char>,
)
    requires
        fuel > 0,
        stack.len() > 0,
        stack[0].rules.len() > 0,
        patterns_of(stack[0].rules[0].decomposition, sv.synonyms).len() > 0,
        regex_captures(patterns_of(stack[0].rules[0].decomposition, sv.synonyms)[0], phrase) is Some,
        select_rule(st.usage, stack[0].rules[0].decomposition, stack[0].rules[0].reassembly) == Pick::Chosen(
            Some(a),
            usage,
        ),
        goto_target(a) == Some(g),
        exists|k: int| 0 <= k < sv.keywords.len() && #[trigger] sv.keywords[k].key == g,
    ensures
        ({
            let k = find_keyword(sv.keywords, g, 0)->0;
            &&& find_keyword(sv.keywords, g, 0) is Some
            &&& 0 <= k < sv.keywords.len()
            &&& sv.keywords[k].key == g
            &&& search(sv, st, phrase, stack, fuel) == search(
                sv,
                StateView { memory: st.memory, usage },
                phrase,
                seq![sv.keywords[k]] + stack.drop_first(),
                (fuel - 1) as nat,
            )
        }),
{
    lemma_find_keyword(sv.keywords, g, 0);
    let k0 = choose|k: int| 0 <= k < sv.keywords.len() && #[trigger] sv.keywords[k].key == g;
    assert(sv.keywords[k0].key == g);
    let k = find_keyword(sv.keywords, g, 0)->0;
    let rules = stack[0].rules;
    let rest = stack.drop_first();
    let f = (fuel - 1) as nat;
    let pats = patterns_of(rules[0].decomposition, sv.synonyms);
    let st1 = StateView { memory: st.memory, usage };
    assert(search(sv, st, phrase, stack, fuel) == try_rules(sv, st, phrase, rules, 0, rest, f));
    assert(try_rules(sv, st, phrase, rules, 0, rest, f) == try_patterns(sv, st, phrase, rules, 0, pats, 0, rest, f));
    assert(try_patterns(sv, st, phrase, rules, 0, pats, 0, rest, f) == search(
        sv,
        st1,
        phrase,
        seq![sv.keywords[k]] + rest,
        f,
    ));
}

proof fn lemma_assemble_words_plain(ws: Seq<Seq<char>>, k: int, temp: Seq<char>, caps: Seq<Option<Seq<char>>>, rs: Seq<ReflectionView>)
    requires
        0 <= k <= ws.len(),
        forall|q: int| 0 <= q < ws.len() ==> !contains(#[trigger] ws[q], dollar()),
    ensures
        assemble_words(ws, k, temp, caps, rs) == Assembly::Text(temp),
    decreases ws.len() - k,
{
    if k < ws.len() {
        assert(!contains(ws[k], dollar()));
        lemma_assemble_words_plain(ws, k + 1, temp, caps, rs);
    }
}

/// A reassembly rule none of whose words names a capture (holds `$`) is the
/// response exactly as written, whatever the captures.
pub proof fn lemma_assembled_plain(rule: Seq<char>, caps: Seq<Option<Seq<char>>>, rs: Seq<ReflectionView>)
    requires
        forall|q: int| 0 <= q < words(rule).len() ==> !contains(#[trigger] words(rule)[q], dollar()),
    ensures
        assembled(rule, caps, rs) == Assembly::Text(rule),
{
    lemma_assemble_words_plain(words(rule), 0, rule, caps, rs);
}

} // verus!
