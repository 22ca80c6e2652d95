//! Regular expressions, from the `regex` crate, and the decomposition patterns
//! a rule expands to.
use vstd::prelude::*;
use crate::text::{
    chars_of, contains, contains_exec, replace_all, replace_exec, scrub, scrub_exec, split_words,
    string_of, views, words,
};
use crate::script::{syn_views, Synonym, SynonymView};

verus! {

#[verifier::external_type_specification]
#[verifier::external_body]
pub struct ExRegex(regex::Regex);

/// A compiled regular expression together with the pattern it was compiled from.
pub struct Pattern {
    source: String,
    compiled: regex::Regex,
}

impl View for Pattern {
    type V = Seq<char>;

    /// The pattern the expression was compiled from.
    closed spec fn view(&self) -> Seq<char> {
        self.source@
    }
}

/// The views of compiled patterns.
pub open spec fn pattern_views(s: Seq<Pattern>) -> Seq<Seq<char>> {
    s.map_values(|p: Pattern| p@)
}

impl Pattern {
    /// The pattern the expression was compiled from.
    pub fn source(&self) -> (r: &String)
        ensures
            r@ == self@,
    {
        &self.source
    }
}

/// Whether `regex::Regex::new` accepts the pattern.
pub uninterp spec fn regex_valid(pattern: Seq<char>) -> bool;

/// What `regex::Regex::captures` returns for the pattern and the text: the
/// capture groups of the leftmost-first match, group 0 being the whole match.
pub uninterp spec fn regex_captures(pattern: Seq<char>, text: Seq<char>) -> Option<Seq<Option<Seq<char>>>>;

/// What `regex::Regex::find` returns for the pattern and the text: the text of
/// the leftmost-first match.
pub uninterp spec fn regex_find(pattern: Seq<char>, text: Seq<char>) -> Option<Seq<char>>;

/// The views of capture groups.
pub open spec fn groups_view(g: Seq<Option<String>>) -> Seq<Option<Seq<char>>> {
    g.map_values(|o: Option<String>| match o {
        Some(s) => Some(s@),
        None => None,
    })
}

/// `regex::Regex::new`: compiles `source`, or fails; whether it succeeds is named
/// `regex_valid`, and the compiled expression keeps `source` as its view.
#[verifier::external_body]
pub(crate) fn compile(source: &str) -> (r: Option<Pattern>)
    ensures
        r is Some <==> regex_valid(source@),
        r matches Some(p) ==> p@ == source@,
{
    match regex::Regex::new(source) {
        Ok(compiled) => Some(Pattern { source: source.to_string(), compiled }),
        Err(_) => None,
    }
}

/// `regex::Regex::captures`: the capture groups of the first match of `p` in
/// `text`, each the text it matched or `None` where it took no part. The result
/// is named `regex_captures`; the crate documents that a match has at least one
/// group and that group 0, the whole match, is always present.
#[verifier::external_body]
pub(crate) fn captures(p: &Pattern, text: &str) -> (r: Option<Vec<Option<String>>>)
    ensures
        r matches Some(g) ==> regex_captures(p@, text@) == Some(groups_view(g@)) && g.len() >= 1
            && g@[0] is Some,
        r is None ==> regex_captures(p@, text@) is None,
{
    p.compiled.captures(text).map(|c| c.iter().map(|m| m.map(|m| m.as_str().to_string())).collect())
}

/// `regex::Regex::find`: the text of the first match of `p` in `text`; the
/// result is named `regex_find`.
#[verifier::external_body]
pub(crate) fn find(p: &Pattern, text: &str) -> (r: Option<String>)
    ensures
        r matches Some(m) ==> regex_find(p@, text@) == Some(m@),
        r is None ==> regex_find(p@, text@) is None,
{
    p.compiled.find(text).map(|m| m.as_str().to_string())
}

// ------------------------------------------------------------------------
// Decomposition patterns
// ------------------------------------------------------------------------

/// The number of times `c` occurs in `s`.
pub open spec fn count_char(s: Seq<char>, c: char) -> nat
    decreases s.len(),
{
    if s.len() == 0 {
        0
    } else {
        count_char(s.drop_last(), c) + if s.last() == c {
            1nat
        } else {
            0nat
        }
    }
}

/// The synonym marker.
pub open spec fn at_sign() -> Seq<char> {
    seq!['@']
}

/// The index of the first synonym whose word is `w`.
pub open spec fn find_synonym(syns: Seq<SynonymView>, w: Seq<char>, i: int) -> Option<int>
    decreases syns.len() - i,
{
    if i < 0 || i >= syns.len() {
        None
    } else if syns[i].word == w {
        Some(i)
    } else {
        find_synonym(syns, w, i + 1)
    }
}

pub proof fn lemma_find_synonym(syns: Seq<SynonymView>, w: Seq<char>, i: int)
    requires
        0 <= i,
    ensures
        find_synonym(syns, w, i) matches Some(j) ==> i <= j < syns.len() && syns[j].word == w,
    decreases syns.len() - i,
{
    if i < syns.len() && syns[i].word != w {
        lemma_find_synonym(syns, w, i + 1);
    }
}

/// The decomposition with the synonym word `name` replaced by each equivalent in
/// turn, the marker removed.
pub open spec fn variants(decomposition: Seq<char>, name: Seq<char>, equivalents: Seq<Seq<char>>) -> Seq<Seq<char>> {
    equivalents.map_values(
        |e: Seq<char>| replace_all(replace_all(decomposition, name, e), at_sign(), seq![]),
    )
}

/// For each word holding the marker, the variants for the synonym it names.
pub open spec fn synonym_variants(
    decomposition: Seq<char>,
    ws: Seq<Seq<char>>,
    syns: Seq<SynonymView>,
) -> Seq<Seq<char>>
    decreases ws.len(),
{
    if ws.len() == 0 {
        seq![]
    } else {
        let prev = synonym_variants(decomposition, ws.drop_last(), syns);
        let w = ws.last();
        if contains(w, at_sign()) {
            let name = scrub(w, false);
            match find_synonym(syns, name, 0) {
                Some(i) => prev + variants(decomposition, name, syns[i].equivalents),
                None => prev,
            }
        } else {
            prev
        }
    }
}

/// The patterns a decomposition rule stands for: none when it holds more than
/// one `@`; itself when it holds none; with one, the rule without the `@`, then
/// the rule with the synonym word replaced by each of its equivalents.
pub open spec fn candidate_patterns(decomposition: Seq<char>, syns: Seq<SynonymView>) -> Seq<Seq<char>> {
    let n = count_char(decomposition, '@');
    if n > 1 {
        seq![]
    } else if n == 0 {
        seq![decomposition]
    } else {
        seq![replace_all(decomposition, at_sign(), seq![])] + synonym_variants(
            decomposition,
            words(decomposition),
            syns,
        )
    }
}

/// The patterns that compile, in order.
pub open spec fn valid_only(ps: Seq<Seq<char>>) -> Seq<Seq<char>>
    decreases ps.len(),
{
    if ps.len() == 0 {
        seq![]
    } else if regex_valid(ps.last()) {
        valid_only(ps.drop_last()).push(ps.last())
    } else {
        valid_only(ps.drop_last())
    }
}

/// The compiled patterns of a decomposition rule.
pub open spec fn patterns_of(decomposition: Seq<char>, syns: Seq<SynonymView>) -> Seq<Seq<char>> {
    valid_only(candidate_patterns(decomposition, syns))
}

/// The number of times `c` occurs in `s`.
fn count_char_exec(s: &Vec<char>, c: char) -> (n: usize)
    ensures
        n as nat == count_char(s@, c),
{
    let mut n: usize = 0;
    let mut i: usize = 0;
    while i < s.len()
        invariant
            i <= s.len(),
            n as nat == count_char(s@.take(i as int), c),
            n <= i,
        decreases s.len() - i,
    {
        assert(s@.take(i + 1).drop_last() =~= s@.take(i as int));
        if s[i] == c {
            n = n + 1;
        }
        i = i + 1;
    }
    assert(s@.take(i as int) =~= s@);
    n
}

/// The index of the first synonym whose word is `w`.
fn find_synonym_exec(syns: &Vec<Synonym>, w: &String) -> (r: Option<usize>)
    ensures
        r matches Some(i) ==> find_synonym(syn_views(syns@), w@, 0) == Some(
            i as int,
        ) && i < syns.len(),
        r is None ==> find_synonym(syn_views(syns@), w@, 0) is None,
{
    let ghost v = syn_views(syns@);
    let mut i: usize = 0;
    while i < syns.len()
        invariant
            i <= syns.len(),
            v == syn_views(syns@),
            find_synonym(v, w@, 0) == find_synonym(v, w@, i as int),
        decreases syns.len() - i,
    {
        if syns[i].word == *w {
            return Some(i);
        }
        i = i + 1;
    }
    None
}

/// Compiles every regular-expression permutation of a decomposition rule: the
/// rule itself, or, with a `@word`, the rule once for the word and once for
/// each of its synonyms. Patterns that do not compile are left out.
pub fn permutations(decomposition: &str, synonyms: &Vec<Synonym>) -> (r: Vec<Pattern>)
    ensures
        pattern_views(r@) == patterns_of(
            decomposition@,
            syn_views(synonyms@),
        ),
{
    let ghost syns = syn_views(synonyms@);
    let d = chars_of(decomposition);
    let n = count_char_exec(&d, '@');
    let mut cands: Vec<Vec<char>> = Vec::new();
    if n > 1 {
        assert(candidate_patterns(decomposition@, syns) =~= Seq::<Seq<char>>::empty());
    } else if n == 0 {
        cands.push(d.clone());
        assert(views(cands@) =~= candidate_patterns(decomposition@, syns));
    } else {
        let at: Vec<char> = vec!['@'];
        let empty: Vec<char> = Vec::new();
        assert(at@ =~= at_sign());
        assert(empty@ =~= Seq::<char>::empty());
        cands.push(replace_exec(&d, &at, &empty));
        let ws = split_words(&d);
        let mut i: usize = 0;
        while i < ws.len()
            invariant
                i <= ws.len(),
                syns == syn_views(synonyms@),
                views(ws@) == words(d@),
                d@ == decomposition@,
                at@ == at_sign(),
                empty@ == Seq::<char>::empty(),
                views(cands@) == seq![replace_all(d@, at_sign(), seq![])] + synonym_variants(
                    d@,
                    views(ws@).take(i as int),
                    syns,
                ),
            decreases ws.len() - i,
        {
            let w = &ws[i];
            assert(views(ws@).take(i + 1).drop_last() =~= views(ws@).take(i as int));
            assert(views(ws@).take(i + 1).last() == w@);
            if contains_exec(w, &at) {
                let name = scrub_exec(w, false);
                let name_s = string_of(&name);
                proof {
                    lemma_find_synonym(syns, name@, 0);
                }
                match find_synonym_exec(synonyms, &name_s) {
                    Some(k) => {
                        let eqs = &synonyms[k].equivalents;
                        let ghost base = views(cands@);
                        let mut j: usize = 0;
                        while j < eqs.len()
                            invariant
                                j <= eqs.len(),
                                at@ == at_sign(),
                                empty@ == Seq::<char>::empty(),
                                views(cands@) == base + variants(
                                    d@,
                                    name@,
                                    syns[k as int].equivalents.take(j as int),
                                ),
                                syns[k as int].equivalents.len() == eqs.len(),
                                forall|q: int|
                                    0 <= q < eqs.len() ==> #[trigger] syns[k as int].equivalents[q]
                                        == eqs@[q]@,
                            decreases eqs.len() - j,
                        {
                            let e = chars_of(eqs[j].as_str());
                            let replaced = replace_exec(&d, &name, &e);
                            let v = replace_exec(&replaced, &at, &empty);
                            let ghost before = views(cands@);
                            cands.push(v);
                            assert(views(cands@) =~= before.push(v@));
                            assert(syns[k as int].equivalents.take(j + 1) =~= syns[k as int].equivalents.take(
                                j as int,
                            ).push(e@));
                            assert(variants(d@, name@, syns[k as int].equivalents.take(j + 1))
                                =~= variants(d@, name@, syns[k as int].equivalents.take(j as int)).push(
                                v@,
                            ));
                            j = j + 1;
                        }
                        assert(syns[k as int].equivalents.take(j as int)
                            =~= syns[k as int].equivalents);
                    },
                    None => {},
                }
            }
            i = i + 1;
        }
        assert(views(ws@).take(i as int) =~= views(ws@));
    }
    let ghost cv = views(cands@);
    assert(cv == candidate_patterns(decomposition@, syns));
    let mut out: Vec<Pattern> = Vec::new();
    let mut i: usize = 0;
    while i < cands.len()
        invariant
            i <= cands.len(),
            cv == views(cands@),
            pattern_views(out@) == valid_only(cv.take(i as int)),
        decreases cands.len() - i,
    {
        let src = string_of(&cands[i]);
        let ghost before = out@;
        assert(cv.take(i + 1).drop_last() =~= cv.take(i as int));
        assert(cv.take(i + 1).last() == src@);
        match compile(src.as_str()) {
            Some(p) => {
                out.push(p);
                assert(pattern_views(out@) =~= pattern_views(before).push(
                    src@,
                ));
            },
            None => {},
        }
        i = i + 1;
    }
    assert(cv.take(i as int) =~= cv);
    out
}

} // verus!
