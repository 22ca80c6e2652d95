//! Finding the keywords of an input and ordering them by rank.
use vstd::prelude::*;
use std::collections::VecDeque;
use crate::text::{strs, words};
use crate::script::{kw_views, Keyword, KeywordView};
use crate::rewrite::get_words;

verus! {

/// The index of the first keyword at or after `i` whose key is `w`.
pub open spec fn find_keyword(kws: Seq<KeywordView>, w: Seq<char>, i: int) -> Option<int>
    decreases kws.len() - i,
{
    if i < 0 || i >= kws.len() {
        None
    } else if kws[i].key == w {
        Some(i)
    } else {
        find_keyword(kws, w, i + 1)
    }
}

/// What `find_keyword` returns: the first keyword at or after `i` with key `w`.
pub proof fn lemma_find_keyword(kws: Seq<KeywordView>, w: Seq<char>, i: int)
    requires
        0 <= i,
    ensures
        find_keyword(kws, w, i) matches Some(j) ==> i <= j < kws.len() && kws[j].key == w
            && forall|k: int| i <= k < j ==> kws[k].key != w,
        find_keyword(kws, w, i) is None ==> forall|k: int| i <= k < kws.len() ==> kws[k].key != w,
    decreases kws.len() - i,
{
    if i < kws.len() && kws[i].key != w {
        lemma_find_keyword(kws, w, i + 1);
    }
}

/// The keyword of each word that has one, in the order of the words.
pub open spec fn matched_keywords(kws: Seq<KeywordView>, ws: Seq<Seq<char>>) -> Seq<KeywordView>
    decreases ws.len(),
{
    if ws.len() == 0 {
        seq![]
    } else {
        let m = matched_keywords(kws, ws.drop_last());
        match find_keyword(kws, ws.last(), 0) {
            Some(i) => m.push(kws[i]),
            None => m,
        }
    }
}

/// The index of the first phrase at or after `i` with a keyword in it.
pub open spec fn first_active(ps: Seq<Seq<char>>, kws: Seq<KeywordView>, i: int) -> Option<int>
    decreases ps.len() - i,
{
    if i < 0 || i >= ps.len() {
        None
    } else if matched_keywords(kws, words(ps[i])).len() > 0 {
        Some(i)
    } else {
        first_active(ps, kws, i + 1)
    }
}

pub proof fn lemma_first_active(ps: Seq<Seq<char>>, kws: Seq<KeywordView>, i: int)
    requires
        0 <= i,
    ensures
        first_active(ps, kws, i) matches Some(j) ==> i <= j < ps.len() && matched_keywords(
            kws,
            words(ps[j]),
        ).len() > 0,
    decreases ps.len() - i,
{
    if i < ps.len() && matched_keywords(kws, words(ps[i])).len() == 0 {
        lemma_first_active(ps, kws, i + 1);
    }
}

/// `x` placed after every element of rank at least its own.
pub open spec fn insert_desc(sorted: Seq<KeywordView>, x: KeywordView) -> Seq<KeywordView>
    decreases sorted.len(),
{
    if sorted.len() == 0 {
        seq![x]
    } else if sorted.last().rank >= x.rank {
        sorted.push(x)
    } else {
        insert_desc(sorted.drop_last(), x).push(sorted.last())
    }
}

/// `s` in descending order of rank, equal ranks in the order given: a stable
/// sort, by insertion.
pub open spec fn sort_desc(s: Seq<KeywordView>) -> Seq<KeywordView>
    decreases s.len(),
{
    if s.len() == 0 {
        seq![]
    } else {
        insert_desc(sort_desc(s.drop_last()), s.last())
    }
}

/// The phrase that the engine answers and its keywords, highest rank first.
pub open spec fn keystack_of(ps: Seq<Seq<char>>, kws: Seq<KeywordView>) -> (
    Option<Seq<char>>,
    Seq<KeywordView>,
) {
    match first_active(ps, kws, 0) {
        Some(j) => (Some(ps[j]), sort_desc(matched_keywords(kws, words(ps[j])))),
        None => (None, seq![]),
    }
}

/// Inserting at the position a scan from the back finds is `insert_desc`.
proof fn lemma_insert_desc_at(sorted: Seq<KeywordView>, x: KeywordView, pos: int)
    requires
        0 <= pos <= sorted.len(),
        forall|k: int| pos <= k < sorted.len() ==> sorted[k].rank < x.rank,
        pos > 0 ==> sorted[pos - 1].rank >= x.rank,
    ensures
        insert_desc(sorted, x) == sorted.insert(pos, x),
    decreases sorted.len(),
{
    if sorted.len() == 0 {
        assert(sorted.insert(pos, x) =~= seq![x]);
    } else if pos == sorted.len() {
        assert(sorted.insert(pos, x) =~= sorted.push(x));
    } else {
        lemma_insert_desc_at(sorted.drop_last(), x, pos);
        assert(sorted.drop_last().insert(pos, x).push(sorted.last()) =~= sorted.insert(pos, x));
    }
}

/// The index of the first keyword whose key is `w`.
fn find_keyword_exec(kws: &Vec<Keyword>, w: &String) -> (r: Option<usize>)
    ensures
        r matches Some(i) ==> find_keyword(kw_views(kws@), w@, 0) == Some(
            i as int,
        ) && i < kws.len(),
        r is None ==> find_keyword(kw_views(kws@), w@, 0) is None,
{
    let ghost v = kw_views(kws@);
    let mut i: usize = 0;
    while i < kws.len()
        invariant
            i <= kws.len(),
            v == kw_views(kws@),
            find_keyword(v, w@, 0) == find_keyword(v, w@, i as int),
        decreases kws.len() - i,
    {
        if kws[i].key == *w {
            return Some(i);
        }
        i = i + 1;
    }
    None
}

/// For each phrase in turn, looks each of its words up among the keywords; the
/// first phrase in which any is found is the active phrase, and its keywords,
/// highest rank first, make the key stack.
pub fn populate_keystack(phrases: Vec<String>, keywords: &Vec<Keyword>) -> (r: (
    Option<String>,
    VecDeque<Keyword>,
))
    ensures
        ({
            let (active, stack) = keystack_of(strs(phrases@), kw_views(keywords@));
            &&& r.0 matches Some(p) ==> active == Some(p@)
            &&& r.0 is None ==> active is None
            &&& kw_views(r.1@) == stack
        }),
{
    let ghost kws = kw_views(keywords@);
    let ghost ps = strs(phrases@);
    let mut i: usize = 0;
    while i < phrases.len()
        invariant
            i <= phrases.len(),
            kws == kw_views(keywords@),
            ps == strs(phrases@),
            first_active(ps, kws, 0) == first_active(ps, kws, i as int),
        decreases phrases.len() - i,
    {
        let ws = get_words(phrases[i].as_str());
        let ghost wv = strs(ws@);
        let mut found: Vec<Keyword> = Vec::new();
        let mut j: usize = 0;
        while j < ws.len()
            invariant
                j <= ws.len(),
                kws == kw_views(keywords@),
                wv == strs(ws@),
                kw_views(found@) == matched_keywords(kws, wv.take(j as int)),
            decreases ws.len() - j,
        {
            let ghost before = found@;
            match find_keyword_exec(keywords, &ws[j]) {
                Some(k) => {
                    found.push(keywords[k].duplicate());
                    assert(kw_views(found@) =~= kw_views(before).push(kws[k as int]));
                },
                None => {},
            }
            assert(wv.take(j + 1).drop_last() =~= wv.take(j as int));
            assert(wv.take(j + 1).last() == ws@[j as int]@);
            j = j + 1;
        }
        assert(wv.take(j as int) =~= wv);
        assert(ps[i as int] == phrases@[i as int]@);
        if found.len() > 0 {
            let active = phrases[i].clone();
            let stack = sort_keywords(&found);
            return (Some(active), stack);
        }
        i = i + 1;
    }
    (None, VecDeque::new())
}

/// The keywords in descending order of rank, equal ranks kept in order.
pub fn sort_keywords(v: &Vec<Keyword>) -> (r: VecDeque<Keyword>)
    ensures
        kw_views(r@) == sort_desc(kw_views(v@)),
{
    let ghost s = kw_views(v@);
    let mut out: VecDeque<Keyword> = VecDeque::new();
    let mut i: usize = 0;
    while i < v.len()
        invariant
            i <= v.len(),
            s == kw_views(v@),
            kw_views(out@) == sort_desc(s.take(i as int)),
        decreases v.len() - i,
    {
        let x = v[i].duplicate();
        let ghost xv = x@;
        let ghost sorted = kw_views(out@);
        let mut pos = out.len();
        while pos > 0 && out[pos - 1].rank < x.rank
            invariant
                pos <= out.len(),
                sorted == kw_views(out@),
                forall|k: int| pos <= k < sorted.len() ==> sorted[k].rank < xv.rank,
                xv == x@,
            decreases pos,
        {
            pos = pos - 1;
        }
        proof {
            lemma_insert_desc_at(sorted, xv, pos as int);
            assert(s.take(i + 1).drop_last() =~= s.take(i as int));
        }
        out.insert(pos, x);
        assert(kw_views(out@) =~= sorted.insert(pos as int, xv));
        i = i + 1;
    }
    assert(s.take(i as int) =~= s);
    out
}


// ------------------------------------------------------------------------
// Laws of the key stack
// ------------------------------------------------------------------------

/// The keywords are in descending order of rank.
pub open spec fn ranks_descending(s: Seq<KeywordView>) -> bool {
    forall|i: int, j: int| 0 <= i < j < s.len() ==> s[i].rank >= s[j].rank
}

proof fn lemma_insert_desc(sorted: Seq<KeywordView>, x: KeywordView)
    requires
        ranks_descending(sorted),
    ensures
        ranks_descending(insert_desc(sorted, x)),
        insert_desc(sorted, x).to_multiset() == sorted.to_multiset().insert(x),
        insert_desc(sorted, x).len() == sorted.len() + 1,
    decreases sorted.len(),
{
    broadcast use vstd::multiset::group_multiset_axioms, vstd::seq_lib::group_to_multiset_ensures;
    if sorted.len() == 0 {
        assert(seq![x] =~= Seq::<KeywordView>::empty().push(x));
    } else if sorted.last().rank >= x.rank {
    } else {
        let init = sorted.drop_last();
        assert(ranks_descending(init));
        lemma_insert_desc(init, x);
        let r = insert_desc(init, x);
        assert(sorted =~= init.push(sorted.last()));
        assert forall|i: int, j: int| 0 <= i < j < r.len() + 1 implies r.push(sorted.last())[i].rank
            >= r.push(sorted.last())[j].rank by {
            if j == r.len() {
                // every element of r is x or an element of init, all of rank above sorted.last()
                assert(r.to_multiset().count(r[i]) > 0);
                if r[i] != x {
                    assert(init.to_multiset().count(r[i]) > 0);
                    let k = choose|k: int| 0 <= k < init.len() && init[k] == r[i];
                    assert(sorted[k] == init[k]);
                }
            }
        }
    }
}

/// Sorting the key stack orders it by descending rank and keeps every keyword:
/// the result is a permutation of the input.
pub proof fn lemma_sort_desc(s: Seq<KeywordView>)
    ensures
        ranks_descending(sort_desc(s)),
        sort_desc(s).to_multiset() == s.to_multiset(),
        sort_desc(s).len() == s.len(),
    decreases s.len(),
{
    broadcast use vstd::multiset::group_multiset_axioms, vstd::seq_lib::group_to_multiset_ensures;
    if s.len() > 0 {
        lemma_sort_desc(s.drop_last());
        lemma_insert_desc(sort_desc(s.drop_last()), s.last());
        assert(s =~= s.drop_last().push(s.last()));
    }
}


/// The keywords of `s` whose rank is `r`, in their order in `s`.
pub open spec fn of_rank(s: Seq<KeywordView>, r: u8) -> Seq<KeywordView> {
    s.filter(|k: KeywordView| k.rank == r)
}

proof fn lemma_insert_desc_of_rank(sorted: Seq<KeywordView>, x: KeywordView, r: u8)
    ensures
        of_rank(insert_desc(sorted, x), r) == if x.rank == r {
            of_rank(sorted, r).push(x)
        } else {
            of_rank(sorted, r)
        },
    decreases sorted.len(),
{
    reveal(Seq::filter);
    if sorted.len() == 0 {
        assert(seq![x].drop_last() =~= sorted);
    } else if sorted.last().rank >= x.rank {
        assert(sorted.push(x).drop_last() =~= sorted);
    } else {
        let init = sorted.drop_last();
        lemma_insert_desc_of_rank(init, x, r);
        let r2 = insert_desc(init, x);
        assert(r2.push(sorted.last()).drop_last() =~= r2);
    }
}

/// Sorting the key stack is stable: the keywords of any one rank keep the order
/// in which they were found.
pub proof fn lemma_sort_desc_stable(s: Seq<KeywordView>, r: u8)
    ensures
        of_rank(sort_desc(s), r) == of_rank(s, r),
    decreases s.len(),
{
    reveal(Seq::filter);
    if s.len() > 0 {
        lemma_sort_desc_stable(s.drop_last(), r);
        lemma_insert_desc_of_rank(sort_desc(s.drop_last()), s.last(), r);
    }
}


proof fn lemma_matched_keywords(kws: Seq<KeywordView>, ws: Seq<Seq<char>>)
    ensures
        forall|k: int| 0 <= k < matched_keywords(kws, ws).len() ==> ws.contains(
            #[trigger] matched_keywords(kws, ws)[k].key,
        ) && kws.contains(matched_keywords(kws, ws)[k]),
    decreases ws.len(),
{
    if ws.len() > 0 {
        let init = ws.drop_last();
        lemma_matched_keywords(kws, init);
        lemma_find_keyword(kws, ws.last(), 0);
        let m = matched_keywords(kws, init);
        assert forall|k: int| 0 <= k < matched_keywords(kws, ws).len() implies ws.contains(
            #[trigger] matched_keywords(kws, ws)[k].key,
        ) && kws.contains(matched_keywords(kws, ws)[k]) by {
            if k < m.len() {
                assert(matched_keywords(kws, ws)[k] == m[k]);
                let q = choose|q: int| 0 <= q < init.len() && init[q] == m[k].key;
                assert(ws[q] == init[q]);
            } else {
                let i = find_keyword(kws, ws.last(), 0)->0;
                assert(matched_keywords(kws, ws)[k] == kws[i]);
                assert(ws[ws.len() - 1] == ws.last());
            }
        }
    }
}

proof fn lemma_first_active_is_first(ps: Seq<Seq<char>>, kws: Seq<KeywordView>, i: int)
    requires
        0 <= i,
    ensures
        first_active(ps, kws, i) matches Some(j) ==> forall|q: int|
            i <= q < j ==> matched_keywords(kws, words(#[trigger] ps[q])).len() == 0,
        first_active(ps, kws, i) is None ==> forall|q: int|
            i <= q < ps.len() ==> matched_keywords(kws, words(#[trigger] ps[q])).len() == 0,
    decreases ps.len() - i,
{
    if i < ps.len() && matched_keywords(kws, words(ps[i])).len() == 0 {
        lemma_first_active_is_first(ps, kws, i + 1);
    }
}

/// The active phrase is the first phrase in which a keyword occurs, and the key
/// stack holds, highest rank first, the keywords of its words: each is one of the
/// script's keywords and its key is a word of the phrase. Without such a phrase
/// the stack is empty.
pub proof fn lemma_keystack_of(ps: Seq<Seq<char>>, kws: Seq<KeywordView>)
    ensures
        ({
            let (active, stack) = keystack_of(ps, kws);
            &&& active matches Some(p) ==> exists|j: int|
                0 <= j < ps.len() && ps[j] == p && (forall|q: int|
                    0 <= q < j ==> matched_keywords(kws, words(#[trigger] ps[q])).len() == 0)
            &&& active matches Some(p) ==> stack.len() > 0 && ranks_descending(stack) && forall|k: int|
                0 <= k < stack.len() ==> words(p).contains(#[trigger] stack[k].key) && kws.contains(stack[k])
            &&& active is None ==> stack.len() == 0 && forall|q: int|
                0 <= q < ps.len() ==> matched_keywords(kws, words(#[trigger] ps[q])).len() == 0
        }),
{
    broadcast use vstd::multiset::group_multiset_axioms, vstd::seq_lib::group_to_multiset_ensures;
    lemma_first_active(ps, kws, 0);
    lemma_first_active_is_first(ps, kws, 0);
    match first_active(ps, kws, 0) {
        Some(j) => {
            let m = matched_keywords(kws, words(ps[j]));
            lemma_matched_keywords(kws, words(ps[j]));
            lemma_sort_desc(m);
            let st = sort_desc(m);
            assert forall|k: int| 0 <= k < st.len() implies words(ps[j]).contains(#[trigger] st[k].key)
                && kws.contains(st[k]) by {
                assert(st.to_multiset().count(st[k]) > 0);
                assert(m.to_multiset().count(st[k]) > 0);
                let q = choose|q: int| 0 <= q < m.len() && m[q] == st[k];
                assert(m[q] == st[k]);
            }
        },
        None => {},
    }
}

} // verus!
