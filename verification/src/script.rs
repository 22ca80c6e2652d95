//! The conversation script: what an engine says and how it rewrites what it hears.
use vstd::prelude::*;
use rand::seq::SliceRandom;
use crate::text::strs;

verus! {

/// Words that are rewritten to `word` before the input is examined.
#[derive(Debug)]
pub struct Transform {
    pub word: String,
    pub equivalents: Vec<String>,
}

/// A family of words that a decomposition rule may stand for with `@word`.
#[derive(Debug)]
pub struct Synonym {
    pub word: String,
    pub equivalents: Vec<String>,
}

/// A word that is swapped for `inverse` (and back, when `twoway`) when a
/// captured phrase is reflected.
#[derive(Debug)]
pub struct Reflection {
    pub word: String,
    pub inverse: String,
    pub twoway: bool,
}

/// A decomposition rule and the reassembly rules that answer a phrase it matches.
#[derive(Debug)]
pub struct Rule {
    pub memorise: bool,
    pub lookup: bool,
    pub decomposition_rule: String,
    pub lookup_rule: String,
    pub reassembly_rules: Vec<String>,
}

/// A keyword, its rank and its rules.
#[derive(Debug)]
pub struct Keyword {
    pub key: String,
    pub rank: u8,
    pub rules: Vec<Rule>,
}

/// A whole script.
pub struct Script {
    pub greetings: Vec<String>,
    pub farewells: Vec<String>,
    pub fallbacks: Vec<String>,
    pub transforms: Vec<Transform>,
    pub synonyms: Vec<Synonym>,
    pub reflections: Vec<Reflection>,
    pub keywords: Vec<Keyword>,
}

pub struct TransformView {
    pub word: Seq<char>,
    pub equivalents: Seq<Seq<char>>,
}

pub struct SynonymView {
    pub word: Seq<char>,
    pub equivalents: Seq<Seq<char>>,
}

pub struct ReflectionView {
    pub word: Seq<char>,
    pub inverse: Seq<char>,
    pub twoway: bool,
}

pub struct RuleView {
    pub memorise: bool,
    pub lookup: bool,
    pub decomposition: Seq<char>,
    pub lookup_rule: Seq<char>,
    pub reassembly: Seq<Seq<char>>,
}

pub struct KeywordView {
    pub key: Seq<char>,
    pub rank: u8,
    pub rules: Seq<RuleView>,
}

pub struct ScriptView {
    pub greetings: Seq<Seq<char>>,
    pub farewells: Seq<Seq<char>>,
    pub fallbacks: Seq<Seq<char>>,
    pub transforms: Seq<TransformView>,
    pub synonyms: Seq<SynonymView>,
    pub reflections: Seq<ReflectionView>,
    pub keywords: Seq<KeywordView>,
}

/// The views of transforms.
pub open spec fn transform_views(s: Seq<Transform>) -> Seq<TransformView> {
    s.map_values(|t: Transform| t@)
}

/// The views of synonyms.
pub open spec fn syn_views(s: Seq<Synonym>) -> Seq<SynonymView> {
    s.map_values(|t: Synonym| t@)
}

/// The views of reflections.
pub open spec fn refl_views(s: Seq<Reflection>) -> Seq<ReflectionView> {
    s.map_values(|t: Reflection| t@)
}

/// The views of rules.
pub open spec fn rule_views(s: Seq<Rule>) -> Seq<RuleView> {
    s.map_values(|t: Rule| t@)
}

/// The views of keywords.
pub open spec fn kw_views(s: Seq<Keyword>) -> Seq<KeywordView> {
    s.map_values(|t: Keyword| t@)
}

impl View for Transform {
    type V = TransformView;

    open spec fn view(&self) -> TransformView {
        TransformView { word: self.word@, equivalents: strs(self.equivalents@) }
    }
}

impl View for Synonym {
    type V = SynonymView;

    open spec fn view(&self) -> SynonymView {
        SynonymView { word: self.word@, equivalents: strs(self.equivalents@) }
    }
}

impl View for Reflection {
    type V = ReflectionView;

    open spec fn view(&self) -> ReflectionView {
        ReflectionView { word: self.word@, inverse: self.inverse@, twoway: self.twoway }
    }
}

impl View for Rule {
    type V = RuleView;

    open spec fn view(&self) -> RuleView {
        RuleView {
            memorise: self.memorise,
            lookup: self.lookup,
            decomposition: self.decomposition_rule@,
            lookup_rule: self.lookup_rule@,
            reassembly: strs(self.reassembly_rules@),
        }
    }
}

impl View for Keyword {
    type V = KeywordView;

    open spec fn view(&self) -> KeywordView {
        KeywordView { key: self.key@, rank: self.rank, rules: rule_views(self.rules@) }
    }
}

impl View for Script {
    type V = ScriptView;

    open spec fn view(&self) -> ScriptView {
        ScriptView {
            greetings: strs(self.greetings@),
            farewells: strs(self.farewells@),
            fallbacks: strs(self.fallbacks@),
            transforms: transform_views(self.transforms@),
            synonyms: syn_views(self.synonyms@),
            reflections: refl_views(self.reflections@),
            keywords: kw_views(self.keywords@),
        }
    }
}

/// A copy of a list of strings.
pub fn copy_strings(v: &Vec<String>) -> (r: Vec<String>)
    ensures
        strs(r@) == strs(v@),
{
    let mut r: Vec<String> = Vec::new();
    let mut i: usize = 0;
    while i < v.len()
        invariant
            i <= v.len(),
            r.len() == i,
            forall|k: int| 0 <= k < i ==> #[trigger] r@[k]@ == v@[k]@,
        decreases v.len() - i,
    {
        r.push(v[i].clone());
        i = i + 1;
    }
    assert(strs(r@) =~= strs(v@));
    r
}

impl Rule {
    /// A copy of the rule.
    pub fn duplicate(&self) -> (r: Rule)
        ensures
            r@ == self@,
    {
        Rule {
            memorise: self.memorise,
            lookup: self.lookup,
            decomposition_rule: self.decomposition_rule.clone(),
            lookup_rule: self.lookup_rule.clone(),
            reassembly_rules: copy_strings(&self.reassembly_rules),
        }
    }
}

impl Keyword {
    /// A copy of the keyword.
    pub fn duplicate(&self) -> (r: Keyword)
        ensures
            r@ == self@,
    {
        let mut rules: Vec<Rule> = Vec::new();
        let mut i: usize = 0;
        while i < self.rules.len()
            invariant
                i <= self.rules.len(),
                rules.len() == i,
                forall|k: int| 0 <= k < i ==> #[trigger] rules@[k]@ == self.rules@[k]@,
            decreases self.rules.len() - i,
        {
            rules.push(self.rules[i].duplicate());
            i = i + 1;
        }
        let r = Keyword { key: self.key.clone(), rank: self.rank, rules };
        assert(r@.rules =~= self@.rules);
        r
    }
}


/// `SliceRandom::choose` with the thread's generator: a random element of
/// `items`, or `None` when there are none. Which element comes back depends on
/// chance; what holds of every outcome is stated.
#[verifier::external_body]
fn choose_from(items: &Vec<String>) -> (r: Option<&String>)
    ensures
        r is None <==> items.len() == 0,
        r matches Some(s) ==> strs(items@).contains(s@),
{
    items.choose(&mut rand::thread_rng())
}

impl Script {
    /// A greeting picked at random, if there are any.
    pub fn rand_greet(&self) -> (r: Option<&String>)
        ensures
            r is None <==> self@.greetings.len() == 0,
            r matches Some(s) ==> self@.greetings.contains(s@),
    {
        choose_from(&self.greetings)
    }

    /// A farewell picked at random, if there are any.
    pub fn rand_farewell(&self) -> (r: Option<&String>)
        ensures
            r is None <==> self@.farewells.len() == 0,
            r matches Some(s) ==> self@.farewells.contains(s@),
    {
        choose_from(&self.farewells)
    }

    /// A fallback statement picked at random, if there are any.
    pub fn rand_fallback(&self) -> (r: Option<&String>)
        ensures
            r is None <==> self@.fallbacks.len() == 0,
            r matches Some(s) ==> self@.fallbacks.contains(s@),
    {
        choose_from(&self.fallbacks)
    }
}

/// `s` if there is one, otherwise the default.
pub fn or_default(s: Option<&String>, default: &str) -> (r: String)
    ensures
        s matches Some(x) ==> r@ == x@,
        s is None ==> r@ == default@,
{
    match s {
        Some(x) => x.clone(),
        None => default.to_owned(),
    }
}

} // verus!
