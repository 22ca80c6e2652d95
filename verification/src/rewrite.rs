//! Rewriting text with a script: transforms, reflections, phrases, words and GOTOs.
use vstd::prelude::*;
use crate::text::{
    is_word, joined, lemma_trim_joined, lemma_words_are_words, lemma_words_of_joined, chars_of, contains, contains_exec, is_whitespace, is_ws, lemma_skip_word, phrases, push_all,
    push_range, remove_ws, remove_ws_exec, replace_all, replace_exec, skip_word, split_phrases,
    split_words, string_of, strings_of, strs, trim, trim_exec, words,
};
use crate::script::{refl_views, transform_views, Reflection, ReflectionView, Transform, TransformView};

verus! {

/// The words of `phrase` (`str::split_whitespace`).
pub fn get_words(phrase: &str) -> (r: Vec<String>)
    ensures
        strs(r@) == words(phrase@),
{
    let cs = chars_of(phrase);
    let ws = split_words(&cs);
    strings_of(&ws)
}

/// The phrases of `input`: split at " but ", then at `.`, `,` and `?`, each trimmed.
pub fn get_phrases(input: &str) -> (r: Vec<String>)
    ensures
        strs(r@) == phrases(input@),
{
    let cs = chars_of(input);
    let ps = split_phrases(&cs);
    strings_of(&ps)
}

// ------------------------------------------------------------------------
// Transforms
// ------------------------------------------------------------------------

/// `s[i..]` with each word (a maximal run of non-whitespace) equal to `e`
/// replaced by `w`; other words and all whitespace are kept as they are.
pub open spec fn replace_word_from(s: Seq<char>, i: int, e: Seq<char>, w: Seq<char>) -> Seq<char>
    decreases s.len() - i,
{
    if i < 0 || i >= s.len() {
        seq![]
    } else if is_ws(s[i]) {
        seq![s[i]] + replace_word_from(s, i + 1, e, w)
    } else {
        let j = skip_word(s, i);
        proof {
            lemma_skip_word(s, i);
            lemma_skip_word(s, i + 1);
        }
        (if s.subrange(i, j) == e {
            w
        } else {
            s.subrange(i, j)
        }) + replace_word_from(s, j, e, w)
    }
}

/// `s` with each whole word equal to `e` replaced by `w`.
pub open spec fn replace_word(s: Seq<char>, e: Seq<char>, w: Seq<char>) -> Seq<char> {
    replace_word_from(s, 0, e, w)
}

/// `s` after each of `equivalents`, in turn, has been replaced by `word`
/// wherever it is a whole word of the text at that point.
pub open spec fn replace_each(s: Seq<char>, equivalents: Seq<Seq<char>>, word: Seq<char>) -> Seq<char>
    decreases equivalents.len(),
{
    if equivalents.len() == 0 {
        s
    } else {
        replace_word(replace_each(s, equivalents.drop_last(), word), equivalents.last(), word)
    }
}

/// `s` after every transform, in order, has replaced the whole words equal to
/// its equivalents by its word; each transform works on the text the previous
/// ones left.
pub open spec fn transformed(s: Seq<char>, transforms: Seq<TransformView>) -> Seq<char>
    decreases transforms.len(),
{
    if transforms.len() == 0 {
        s
    } else {
        let t = transforms.last();
        replace_each(transformed(s, transforms.drop_last()), t.equivalents, t.word)
    }
}

/// Whether `s[i..j]` is `e`.
fn slice_is(s: &Vec<char>, i: usize, j: usize, e: &Vec<char>) -> (r: bool)
    requires
        i <= j <= s.len(),
    ensures
        r == (s@.subrange(i as int, j as int) == e@),
{
    if j - i != e.len() {
        assert(s@.subrange(i as int, j as int).len() != e@.len());
        return false;
    }
    let mut k: usize = 0;
    while k < e.len()
        invariant
            k <= e.len(),
            j - i == e.len(),
            i <= j <= s.len(),
            forall|q: int| 0 <= q < k ==> s@[i + q] == e@[q],
        decreases e.len() - k,
    {
        if s[i + k] != e[k] {
            assert(s@.subrange(i as int, j as int)[k as int] != e@[k as int]);
            return false;
        }
        k = k + 1;
    }
    assert(s@.subrange(i as int, j as int) =~= e@);
    true
}

/// `s` with each whole word equal to `e` replaced by `w`.
fn replace_word_exec(s: &Vec<char>, e: &Vec<char>, w: &Vec<char>) -> (r: Vec<char>)
    ensures
        r@ == replace_word(s@, e@, w@),
{
    let mut out: Vec<char> = Vec::new();
    let mut i: usize = 0;
    while i < s.len()
        invariant
            i <= s.len(),
            out@ + replace_word_from(s@, i as int, e@, w@) == replace_word(s@, e@, w@),
        decreases s.len() - i,
    {
        if is_whitespace(s[i]) {
            let ghost before = out@;
            out.push(s[i]);
            assert(before + replace_word_from(s@, i as int, e@, w@) =~= out@ + replace_word_from(
                s@,
                i + 1,
                e@,
                w@,
            ));
            i = i + 1;
        } else {
            let mut j: usize = i;
            while j < s.len() && !is_whitespace(s[j])
                invariant
                    i <= j <= s.len(),
                    skip_word(s@, i as int) == skip_word(s@, j as int),
                decreases s.len() - j,
            {
                j = j + 1;
            }
            proof {
                lemma_skip_word(s@, i as int);
            }
            let ghost before = out@;
            if slice_is(s, i, j, e) {
                push_all(&mut out, w);
            } else {
                push_range(&mut out, s, i, j);
            }
            assert(before + replace_word_from(s@, i as int, e@, w@) =~= out@ + replace_word_from(
                s@,
                j as int,
                e@,
                w@,
            ));
            i = j;
        }
    }
    assert(out@ =~= replace_word(s@, e@, w@));
    out
}

/// Rewrites `input` with the script's transforms: each transform in turn,
/// and each of its equivalents in turn, replaces the whole words of the text
/// equal to the equivalent by the transform's word, keeping the whitespace
/// between words as it is.
pub fn transform(input: &str, transforms: &Vec<Transform>) -> (r: String)
    ensures
        r@ == transformed(input@, transform_views(transforms@)),
        transforms.len() == 0 ==> r@ == input@,
{
    let ghost ts = transform_views(transforms@);
    let mut cur = chars_of(input);
    let mut i: usize = 0;
    while i < transforms.len()
        invariant
            i <= transforms.len(),
            ts == transform_views(transforms@),
            cur@ == transformed(input@, ts.take(i as int)),
        decreases transforms.len() - i,
    {
        let t = &transforms[i];
        let word = chars_of(t.word.as_str());
        let ghost base = cur@;
        let mut j: usize = 0;
        while j < t.equivalents.len()
            invariant
                j <= t.equivalents.len(),
                word@ == t.word@,
                cur@ == replace_each(base, strs(t.equivalents@).take(j as int), word@),
            decreases t.equivalents.len() - j,
        {
            let eq = chars_of(t.equivalents[j].as_str());
            cur = replace_word_exec(&cur, &eq, &word);
            assert(strs(t.equivalents@).take(j + 1).drop_last() =~= strs(t.equivalents@).take(
                j as int,
            ));
            j = j + 1;
        }
        assert(strs(t.equivalents@).take(j as int) =~= strs(t.equivalents@));
        assert(ts.take(i + 1).drop_last() =~= ts.take(i as int));
        i = i + 1;
    }
    assert(ts.take(i as int) =~= ts);
    string_of(&cur)
}

/// Transforming changes nothing without transforms, and transforming with
/// `ts1` followed by `ts2` is transforming with `ts1` and then with `ts2`.
pub proof fn lemma_transformed_compose(s: Seq<char>, ts1: Seq<TransformView>, ts2: Seq<TransformView>)
    ensures
        transformed(s, seq![]) == s,
        transformed(s, ts1 + ts2) == transformed(transformed(s, ts1), ts2),
    decreases ts2.len(),
{
    if ts2.len() == 0 {
        assert(ts1 + ts2 =~= ts1);
    } else {
        lemma_transformed_compose(s, ts1, ts2.drop_last());
        assert((ts1 + ts2).drop_last() =~= ts1 + ts2.drop_last());
        assert((ts1 + ts2).last() == ts2.last());
    }
}

// ------------------------------------------------------------------------
// Reflections
// ------------------------------------------------------------------------

/// The reflection applies to `w`: `w` is its word, or its inverse when it is two-way.
pub open spec fn reflects(r: ReflectionView, w: Seq<char>) -> bool {
    r.word == w || (r.twoway && r.inverse == w)
}

/// The index of the first reflection that applies to `w`.
pub open spec fn find_reflection(rs: Seq<ReflectionView>, w: Seq<char>, i: int) -> Option<int>
    decreases rs.len() - i,
{
    if i < 0 || i >= rs.len() {
        None
    } else if reflects(rs[i], w) {
        Some(i)
    } else {
        find_reflection(rs, w, i + 1)
    }
}

/// What `find_reflection` returns: the first reflection at or after `i` that applies.
pub proof fn lemma_find_reflection(rs: Seq<ReflectionView>, w: Seq<char>, i: int)
    requires
        0 <= i,
    ensures
        find_reflection(rs, w, i) matches Some(j) ==> i <= j < rs.len() && reflects(rs[j], w),
    decreases rs.len() - i,
{
    if i < rs.len() && !reflects(rs[i], w) {
        lemma_find_reflection(rs, w, i + 1);
    }
}

/// `w` after the first reflection that applies to it, if any.
pub open spec fn reflect_word(rs: Seq<ReflectionView>, w: Seq<char>) -> Seq<char> {
    match find_reflection(rs, w, 0) {
        Some(i) => if rs[i].word == w {
            rs[i].inverse
        } else {
            rs[i].word
        },
        None => w,
    }
}

/// Each word reflected and followed by a space.
pub open spec fn reflected_words(rs: Seq<ReflectionView>, ws: Seq<Seq<char>>) -> Seq<char>
    decreases ws.len(),
{
    if ws.len() == 0 {
        seq![]
    } else {
        reflected_words(rs, ws.drop_last()) + reflect_word(rs, ws.last()) + seq![' ']
    }
}

/// The reflection of a phrase: every word reflected, the words joined by spaces.
pub open spec fn reflected(input: Seq<char>, rs: Seq<ReflectionView>) -> Seq<char> {
    trim(reflected_words(rs, words(input)))
}

/// The index of the first reflection that applies to `w`.
fn find_reflection_exec(rs: &Vec<Reflection>, w: &String) -> (r: Option<usize>)
    ensures
        r matches Some(i) ==> find_reflection(refl_views(rs@), w@, 0) == Some(
            i as int,
        ),
        r is None ==> find_reflection(refl_views(rs@), w@, 0) is None,
{
    let ghost v = refl_views(rs@);
    let mut i: usize = 0;
    while i < rs.len()
        invariant
            i <= rs.len(),
            v == refl_views(rs@),
            find_reflection(v, w@, 0) == find_reflection(v, w@, i as int),
        decreases rs.len() - i,
    {
        let r = &rs[i];
        if r.word == *w || (r.twoway && r.inverse == *w) {
            return Some(i);
        }
        i = i + 1;
    }
    None
}

/// Reflects every word of `input` (swapping "I" and "you" and the like).
pub fn reflect(input: &str, reflections: &Vec<Reflection>) -> (r: String)
    ensures
        r@ == reflected(input@, refl_views(reflections@)),
{
    let ghost rs = refl_views(reflections@);
    let ws = get_words(input);
    let mut out: Vec<char> = Vec::new();
    let mut i: usize = 0;
    while i < ws.len()
        invariant
            i <= ws.len(),
            rs == refl_views(reflections@),
            strs(ws@) == words(input@),
            out@ == reflected_words(rs, strs(ws@).take(i as int)),
        decreases ws.len() - i,
    {
        let w = &ws[i];
        assert(strs(ws@)[i as int] == w@);
        proof {
            lemma_find_reflection(rs, w@, 0);
        }
        match find_reflection_exec(reflections, w) {
            Some(k) => {
                let r = &reflections[k];
                if r.word == *w {
                    push_all(&mut out, &chars_of(r.inverse.as_str()));
                } else {
                    push_all(&mut out, &chars_of(r.word.as_str()));
                }
            },
            None => {
                push_all(&mut out, &chars_of(w.as_str()));
            },
        }
        out.push(' ');
        assert(strs(ws@).take(i + 1).drop_last() =~= strs(ws@).take(i as int));
        i = i + 1;
    }
    assert(strs(ws@).take(i as int) =~= strs(ws@));
    let t = trim_exec(&out);
    string_of(&t)
}

// ------------------------------------------------------------------------
// GOTO statements
// ------------------------------------------------------------------------

/// The marker of a GOTO reassembly rule.
pub open spec fn goto_marker() -> Seq<char> {
    seq!['G', 'O', 'T', 'O']
}

/// The keyword a reassembly rule jumps to: the rule without "GOTO" and without
/// whitespace, when it holds "GOTO".
pub open spec fn goto_target(statement: Seq<char>) -> Option<Seq<char>> {
    if contains(statement, goto_marker()) {
        Some(remove_ws(replace_all(statement, goto_marker(), seq![])))
    } else {
        None
    }
}

/// Returns `None` if `statement` is not a GOTO, otherwise the keyword it jumps to.
pub fn is_goto(statement: &str) -> (r: Option<String>)
    ensures
        r matches Some(g) ==> goto_target(statement@) == Some(g@),
        r is None ==> goto_target(statement@) is None,
{
    let s = chars_of(statement);
    let marker: Vec<char> = vec!['G', 'O', 'T', 'O'];
    assert(marker@ =~= goto_marker());
    if contains_exec(&s, &marker) {
        let empty: Vec<char> = Vec::new();
        let replaced = replace_exec(&s, &marker, &empty);
        assert(empty@ =~= Seq::<char>::empty());
        let cleaned = remove_ws_exec(&replaced);
        Some(string_of(&cleaned))
    } else {
        None
    }
}

// ------------------------------------------------------------------------
// Laws of reflection
// ------------------------------------------------------------------------

/// Reflections that can be undone: each is two-way, its word and inverse are
/// words, and all the words and inverses are different from one another.
pub open spec fn reflections_invertible(rs: Seq<ReflectionView>) -> bool {
    &&& forall|i: int|
        0 <= i < rs.len() ==> #[trigger] rs[i].twoway && is_word(rs[i].word) && is_word(rs[i].inverse)
    &&& forall|i: int, j: int|
        #![trigger rs[i], rs[j]]
        0 <= i < rs.len() && 0 <= j < rs.len() ==> rs[i].word != rs[j].inverse
    &&& forall|i: int, j: int|
        #![trigger rs[i], rs[j]]
        0 <= i < j < rs.len() ==> rs[i].word != rs[j].word && rs[i].inverse != rs[j].inverse
}

/// Each word reflected.
pub open spec fn reflect_all(rs: Seq<ReflectionView>, ws: Seq<Seq<char>>) -> Seq<Seq<char>> {
    ws.map_values(|w: Seq<char>| reflect_word(rs, w))
}

proof fn lemma_find_reflection_is(rs: Seq<ReflectionView>, w: Seq<char>, i: int, n: int)
    requires
        0 <= i <= n < rs.len(),
        reflects(rs[n], w),
        forall|k: int| i <= k < n ==> !reflects(#[trigger] rs[k], w),
    ensures
        find_reflection(rs, w, i) == Some(n),
    decreases n - i,
{
    if i < n {
        lemma_find_reflection_is(rs, w, i + 1, n);
    }
}

proof fn lemma_find_reflection_none(rs: Seq<ReflectionView>, w: Seq<char>, i: int)
    requires
        0 <= i <= rs.len(),
        forall|k: int| i <= k < rs.len() ==> !reflects(#[trigger] rs[k], w),
    ensures
        find_reflection(rs, w, i) is None,
    decreases rs.len() - i,
{
    if i < rs.len() {
        lemma_find_reflection_none(rs, w, i + 1);
    }
}

/// With invertible reflections, a word reflected twice is the word, and a
/// reflected word is a word.
proof fn lemma_reflect_word_twice(rs: Seq<ReflectionView>, w: Seq<char>)
    requires
        reflections_invertible(rs),
        is_word(w),
    ensures
        is_word(reflect_word(rs, w)),
        reflect_word(rs, reflect_word(rs, w)) == w,
{
    lemma_find_reflection(rs, w, 0);
    match find_reflection(rs, w, 0) {
        None => {},
        Some(i) => {
            assert(rs[i].twoway && is_word(rs[i].word) && is_word(rs[i].inverse));
            assert(rs[i].word != rs[i].inverse);
            let v = reflect_word(rs, w);
            assert forall|k: int| 0 <= k < i implies !reflects(#[trigger] rs[k], v) by {
                assert(rs[k].word != rs[i].inverse && rs[i].word != rs[k].inverse);
                assert(rs[k].word != rs[i].word && rs[k].inverse != rs[i].inverse);
            }
            lemma_find_reflection_is(rs, v, 0, i);
        },
    }
}

proof fn lemma_reflected_words_joined(rs: Seq<ReflectionView>, ws: Seq<Seq<char>>)
    requires
        ws.len() > 0,
    ensures
        reflected_words(rs, ws) == joined(reflect_all(rs, ws)) + seq![' '],
    decreases ws.len(),
{
    let init = ws.drop_last();
    assert(reflect_all(rs, ws).drop_last() =~= reflect_all(rs, init));
    if ws.len() == 1 {
        assert(reflected_words(rs, init) =~= Seq::<char>::empty());
        assert(reflected_words(rs, ws) =~= joined(reflect_all(rs, ws)) + seq![' ']);
    } else {
        lemma_reflected_words_joined(rs, init);
        assert(reflected_words(rs, ws) =~= joined(reflect_all(rs, ws)) + seq![' ']);
    }
}

/// With invertible reflections, a reflected phrase is its reflected words
/// joined by single spaces, and those are words.
proof fn lemma_reflected_is_joined(input: Seq<char>, rs: Seq<ReflectionView>)
    requires
        reflections_invertible(rs),
    ensures
        reflected(input, rs) == joined(reflect_all(rs, words(input))),
        forall|k: int|
            0 <= k < words(input).len() ==> is_word(#[trigger] reflect_all(rs, words(input))[k]),
{
    let ws = words(input);
    lemma_words_are_words(input);
    assert forall|k: int| 0 <= k < ws.len() implies is_word(#[trigger] reflect_all(rs, ws)[k]) by {
        lemma_reflect_word_twice(rs, ws[k]);
    }
    let rws = reflect_all(rs, ws);
    assert forall|k: int| 0 <= k < rws.len() implies is_word(#[trigger] rws[k]) by {
        assert(is_word(reflect_all(rs, ws)[k]));
    }
    lemma_trim_joined(rws);
    if ws.len() > 0 {
        lemma_reflected_words_joined(rs, ws);
    } else {
        assert(rws =~= Seq::<Seq<char>>::empty());
    }
}

/// Reflecting a phrase twice with invertible reflections (each two-way, its
/// word and inverse single words, all of them different) gives back the words
/// of the phrase, joined by single spaces.
pub proof fn lemma_reflect_round_trip(input: Seq<char>, rs: Seq<ReflectionView>)
    requires
        reflections_invertible(rs),
    ensures
        reflected(reflected(input, rs), rs) == joined(words(input)),
{
    let ws = words(input);
    let rws = reflect_all(rs, ws);
    lemma_reflected_is_joined(input, rs);
    assert forall|k: int| 0 <= k < rws.len() implies is_word(#[trigger] rws[k]) by {
        assert(is_word(reflect_all(rs, words(input))[k]));
    }
    lemma_words_of_joined(rws);
    lemma_reflected_is_joined(reflected(input, rs), rs);
    lemma_words_are_words(input);
    assert forall|k: int| 0 <= k < ws.len() implies #[trigger] reflect_all(rs, rws)[k] == ws[k] by {
        lemma_reflect_word_twice(rs, ws[k]);
    }
    assert(reflect_all(rs, rws) =~= ws);
}

} // verus!
