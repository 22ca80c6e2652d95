//! Character-level text processing on which the conversation engines are built.
//!
//! Every operation here works on sequences of `char` and is specified by a
//! spec function over `Seq<char>`; the executable versions are proved to
//! compute exactly those functions.
use vstd::prelude::*;

verus! {

/// `String::push` appends one character to the end of the string.
pub assume_specification[ String::push ](s: &mut String, ch: char)
    ensures
        final(s)@ == old(s)@.push(ch),
;

/// The views of a sequence of character vectors.
pub open spec fn views(v: Seq<Vec<char>>) -> Seq<Seq<char>> {
    v.map_values(|w: Vec<char>| w@)
}

/// The views of a sequence of strings.
pub open spec fn strs(v: Seq<String>) -> Seq<Seq<char>> {
    v.map_values(|w: String| w@)
}

/// The view of an optional string.
pub open spec fn opt_view(o: Option<String>) -> Option<Seq<char>> {
    match o {
        Some(s) => Some(s@),
        None => None,
    }
}

/// Whether the two strings hold the same characters.
pub fn str_eq(a: &str, b: &str) -> (r: bool)
    ensures
        r == (a@ == b@),
{
    a.to_owned() == b.to_owned()
}

/// The characters of `s`, in order.
pub fn chars_of(s: &str) -> (v: Vec<char>)
    ensures
        v@ == s@,
{
    let mut v: Vec<char> = Vec::new();
    for c in it: s.chars()
        invariant
            v@ == it.seq().take(it.index() as int),
    {
        v.push(c);
    }
    v
}

/// A `String` holding exactly the characters of `v`.
pub fn string_of(v: &Vec<char>) -> (s: String)
    ensures
        s@ == v@,
{
    let mut s = String::new();
    let mut i: usize = 0;
    while i < v.len()
        invariant
            i <= v.len(),
            s@ == v@.take(i as int),
        decreases v.len() - i,
    {
        s.push(v[i]);
        i = i + 1;
        assert(v@.take(i as int) == v@.take((i - 1) as int).push(v@[i - 1]));
    }
    assert(v@.take(v.len() as int) == v@);
    s
}

/// Converts every vector of characters in `v` into a `String`.
pub fn strings_of(v: &Vec<Vec<char>>) -> (r: Vec<String>)
    ensures
        strs(r@) == views(v@),
{
    let mut r: Vec<String> = Vec::new();
    let mut i: usize = 0;
    while i < v.len()
        invariant
            i <= v.len(),
            r.len() == i,
            forall|k: int| 0 <= k < i ==> #[trigger] r@[k]@ == v@[k]@,
        decreases v.len() - i,
    {
        let s = string_of(&v[i]);
        r.push(s);
        i = i + 1;
    }
    assert(strs(r@) =~= views(v@));
    r
}

// ------------------------------------------------------------------------
// Whitespace
// ------------------------------------------------------------------------

/// Unicode `White_Space`, the property `char::is_whitespace` tests.
pub open spec fn is_ws(c: char) -> bool {
    let n = c as u32;
    (9 <= n && n <= 13) || n == 32 || n == 0x85 || n == 0xa0 || n == 0x1680 || (0x2000 <= n
        && n <= 0x200a) || n == 0x2028 || n == 0x2029 || n == 0x202f || n == 0x205f || n
        == 0x3000
}

/// Whether `c` is Unicode whitespace.
pub fn is_whitespace(c: char) -> (b: bool)
    ensures
        b == is_ws(c),
{
    let n = c as u32;
    (9 <= n && n <= 13) || n == 32 || n == 0x85 || n == 0xa0 || n == 0x1680 || (0x2000 <= n
        && n <= 0x200a) || n == 0x2028 || n == 0x2029 || n == 0x202f || n == 0x205f || n
        == 0x3000
}

// ------------------------------------------------------------------------
// Searching for a substring
// ------------------------------------------------------------------------

/// `p` occurs in `s` starting at index `i`.
pub open spec fn matches_at(s: Seq<char>, p: Seq<char>, i: int) -> bool {
    0 <= i && i + p.len() <= s.len() && s.subrange(i, i + p.len()) == p
}

/// The first index at or after `i` at which `p` occurs in `s`.
pub open spec fn find_from(s: Seq<char>, p: Seq<char>, i: int) -> Option<int>
    decreases s.len() + 1 - i,
{
    if i < 0 || i + p.len() > s.len() {
        None
    } else if matches_at(s, p, i) {
        Some(i)
    } else {
        find_from(s, p, i + 1)
    }
}

/// `p` occurs somewhere in `s` (`str::contains`).
pub open spec fn contains(s: Seq<char>, p: Seq<char>) -> bool {
    find_from(s, p, 0) is Some
}

/// What `find_from` returns: the first match at or after `i`, if any.
pub proof fn lemma_find_from_bounds(s: Seq<char>, p: Seq<char>, i: int)
    requires
        0 <= i,
    ensures
        find_from(s, p, i) matches Some(j) ==> i <= j && matches_at(s, p, j) && (forall|k: int|
            i <= k < j ==> !matches_at(s, p, k)),
        find_from(s, p, i) is None ==> (forall|k: int| i <= k ==> !matches_at(s, p, k)),
    decreases s.len() + 1 - i,
{
    if i + p.len() > s.len() {
    } else if p.len() == 0 {
        assert(s.subrange(i, i) =~= p);
    } else if matches_at(s, p, i) {
    } else {
        lemma_find_from_bounds(s, p, i + 1);
    }
}

/// Whether `p` occurs in `s` at index `i`.
pub fn matches_at_exec(s: &Vec<char>, p: &Vec<char>, i: usize) -> (b: bool)
    ensures
        b == matches_at(s@, p@, i as int),
{
    if i > s.len() || p.len() > s.len() - i {
        return false;
    }
    let mut j: usize = 0;
    while j < p.len()
        invariant
            j <= p.len(),
            i + p.len() <= s.len(),
            s@.subrange(i as int, i + j) == p@.take(j as int),
        decreases p.len() - j,
    {
        if s[i + j] != p[j] {
            assert(s@.subrange(i as int, i + p.len())[j as int] != p@[j as int]);
            return false;
        }
        j = j + 1;
        assert(s@.subrange(i as int, i + j) == p@.take(j as int));
    }
    assert(p@.take(p.len() as int) == p@);
    true
}

/// The first index at or after `from` at which `p` occurs in `s`.
pub fn find_sub(s: &Vec<char>, p: &Vec<char>, from: usize) -> (r: Option<usize>)
    ensures
        r matches Some(i) ==> find_from(s@, p@, from as int) == Some(i as int),
        r is None ==> find_from(s@, p@, from as int) is None,
{
    let mut i = from;
    if i > s.len() || p.len() > s.len() - i {
        return None;
    }
    if p.len() == 0 {
        assert(s@.subrange(i as int, i as int) =~= p@);
        return Some(i);
    }
    while p.len() <= s.len() - i
        invariant
            from <= i,
            0 < p.len() <= s.len(),
            i <= s.len(),
            find_from(s@, p@, from as int) == find_from(s@, p@, i as int),
        decreases s.len() - i,
    {
        if matches_at_exec(s, p, i) {
            return Some(i);
        }
        i = i + 1;
    }
    None
}

/// Whether `p` occurs in `s`.
pub fn contains_exec(s: &Vec<char>, p: &Vec<char>) -> (b: bool)
    ensures
        b == contains(s@, p@),
{
    find_sub(s, p, 0).is_some()
}


// ------------------------------------------------------------------------
// Building vectors of characters
// ------------------------------------------------------------------------

/// Appends `s[a..b]` to `out`.
pub fn push_range(out: &mut Vec<char>, s: &Vec<char>, a: usize, b: usize)
    requires
        a <= b <= s.len(),
    ensures
        final(out)@ == old(out)@ + s@.subrange(a as int, b as int),
{
    let mut i = a;
    while i < b
        invariant
            a <= i <= b <= s.len(),
            out@ == old(out)@ + s@.subrange(a as int, i as int),
        decreases b - i,
    {
        out.push(s[i]);
        i = i + 1;
        assert(s@.subrange(a as int, i as int) =~= s@.subrange(a as int, i - 1).push(s@[i - 1]));
    }
}

/// Appends all of `s` to `out`.
pub fn push_all(out: &mut Vec<char>, s: &Vec<char>)
    ensures
        final(out)@ == old(out)@ + s@,
{
    push_range(out, s, 0, s.len());
    assert(s@.subrange(0, s@.len() as int) =~= s@);
}

/// A copy of `s[a..b]`.
pub fn slice_of(s: &Vec<char>, a: usize, b: usize) -> (r: Vec<char>)
    requires
        a <= b <= s.len(),
    ensures
        r@ == s@.subrange(a as int, b as int),
{
    let mut r: Vec<char> = Vec::new();
    push_range(&mut r, s, a, b);
    assert(r@ =~= s@.subrange(a as int, b as int));
    r
}

// ------------------------------------------------------------------------
// Replacing a substring (`str::replace`)
// ------------------------------------------------------------------------

/// Every gap between the characters of `s`, and both ends, receive `r`: what
/// `str::replace` does with an empty pattern.
pub open spec fn replace_empty(s: Seq<char>, r: Seq<char>) -> Seq<char>
    decreases s.len(),
{
    if s.len() == 0 {
        r
    } else {
        r + seq![s[0]] + replace_empty(s.drop_first(), r)
    }
}

/// The occurrences of a non-empty `p` in `s[start..]`, taken from the left
/// and without overlap, each replaced by `r`.
pub open spec fn replace_from(s: Seq<char>, p: Seq<char>, r: Seq<char>, start: int) -> Seq<char>
    decreases s.len() + 1 - start,
{
    if start < 0 || start > s.len() || p.len() == 0 {
        seq![]
    } else {
        match find_from(s, p, start) {
            Some(i) => {
                proof {
                    lemma_find_from_bounds(s, p, start);
                }
                s.subrange(start, i) + r + replace_from(s, p, r, i + p.len())
            },
            None => s.subrange(start, s.len() as int),
        }
    }
}

/// `str::replace(s, p, r)`.
pub open spec fn replace_all(s: Seq<char>, p: Seq<char>, r: Seq<char>) -> Seq<char> {
    if p.len() == 0 {
        replace_empty(s, r)
    } else {
        replace_from(s, p, r, 0)
    }
}

/// `s` with every occurrence of `p` replaced by `r`.
pub fn replace_exec(s: &Vec<char>, p: &Vec<char>, r: &Vec<char>) -> (out: Vec<char>)
    ensures
        out@ == replace_all(s@, p@, r@),
{
    let mut out: Vec<char> = Vec::new();
    if p.len() == 0 {
        let mut i: usize = 0;
        assert(s@.skip(0) =~= s@);
        assert(out@ + replace_empty(s@.skip(0), r@) =~= replace_empty(s@, r@));
        while i < s.len()
            invariant
                i <= s.len(),
                out@ + replace_empty(s@.skip(i as int), r@) == replace_empty(s@, r@),
            decreases s.len() - i,
        {
            push_all(&mut out, r);
            out.push(s[i]);
            assert(s@.skip(i as int).drop_first() =~= s@.skip(i + 1));
            i = i + 1;
            assert(out@ + replace_empty(s@.skip(i as int), r@) =~= replace_empty(s@, r@));
        }
        push_all(&mut out, r);
        assert(s@.skip(i as int) =~= Seq::<char>::empty());
        assert(out@ =~= replace_empty(s@, r@));
        return out;
    }
    let mut start: usize = 0;
    loop
        invariant
            p.len() > 0,
            start <= s.len(),
            out@ + replace_from(s@, p@, r@, start as int) == replace_from(s@, p@, r@, 0),
        decreases s.len() - start,
    {
        proof {
            lemma_find_from_bounds(s@, p@, start as int);
        }
        match find_sub(s, p, start) {
            Some(i) => {
                push_range(&mut out, s, start, i);
                push_all(&mut out, r);
                let ghost prev = start;
                start = i + p.len();
                assert(out@ + replace_from(s@, p@, r@, start as int) =~= replace_from(
                    s@,
                    p@,
                    r@,
                    0,
                ));
            },
            None => {
                push_range(&mut out, s, start, s.len());
                assert(out@ =~= replace_from(s@, p@, r@, 0));
                return out;
            },
        }
    }
}

// ------------------------------------------------------------------------
// Splitting
// ------------------------------------------------------------------------

/// The pieces of `s[start..]` between the occurrences of a non-empty `p`
/// (`str::split` with a string pattern).
pub open spec fn split_from(s: Seq<char>, p: Seq<char>, start: int) -> Seq<Seq<char>>
    decreases s.len() + 1 - start,
{
    if start < 0 || start > s.len() || p.len() == 0 {
        seq![]
    } else {
        match find_from(s, p, start) {
            Some(i) => {
                proof {
                    lemma_find_from_bounds(s, p, start);
                }
                seq![s.subrange(start, i)] + split_from(s, p, i + p.len())
            },
            None => seq![s.subrange(start, s.len() as int)],
        }
    }
}

/// The pieces of `s` between the occurrences of the non-empty pattern `p`.
pub fn split_exec(s: &Vec<char>, p: &Vec<char>) -> (out: Vec<Vec<char>>)
    requires
        p.len() > 0,
    ensures
        views(out@) == split_from(s@, p@, 0),
{
    let mut out: Vec<Vec<char>> = Vec::new();
    let mut start: usize = 0;
    loop
        invariant
            p.len() > 0,
            start <= s.len(),
            views(out@) + split_from(s@, p@, start as int) == split_from(s@, p@, 0),
        decreases s.len() - start,
    {
        proof {
            lemma_find_from_bounds(s@, p@, start as int);
        }
        match find_sub(s, p, start) {
            Some(i) => {
                let piece = slice_of(s, start, i);
                let ghost before = out@;
                out.push(piece);
                assert(views(out@) =~= views(before).push(piece@));
                start = i + p.len();
                assert(views(out@) + split_from(s@, p@, start as int) =~= split_from(s@, p@, 0));
            },
            None => {
                let piece = slice_of(s, start, s.len());
                let ghost before = out@;
                out.push(piece);
                assert(views(out@) =~= views(before).push(piece@));
                assert(views(out@) =~= split_from(s@, p@, 0));
                return out;
            },
        }
    }
}

/// The characters at which a phrase ends.
pub open spec fn is_punct(c: char) -> bool {
    c == '.' || c == ',' || c == '?'
}

/// The first index at or after `i` that holds a phrase-ending character.
pub open spec fn find_punct(s: Seq<char>, i: int) -> Option<int>
    decreases s.len() + 1 - i,
{
    if i < 0 || i >= s.len() {
        None
    } else if is_punct(s[i]) {
        Some(i)
    } else {
        find_punct(s, i + 1)
    }
}

/// What `find_punct` returns: the first phrase-ending character at or after `i`.
pub proof fn lemma_find_punct_bounds(s: Seq<char>, i: int)
    requires
        0 <= i,
    ensures
        find_punct(s, i) matches Some(j) ==> i <= j < s.len() && is_punct(s[j]) && (forall|k: int|
            i <= k < j ==> !is_punct(#[trigger] s[k])),
        find_punct(s, i) is None ==> (forall|k: int| i <= k < s.len() ==> !is_punct(#[trigger] s[k])),
    decreases s.len() + 1 - i,
{
    if i >= s.len() {
    } else if is_punct(s[i]) {
    } else {
        lemma_find_punct_bounds(s, i + 1);
    }
}

/// The pieces of `s[start..]` between the characters `.`, `,` and `?`.
pub open spec fn split_punct_from(s: Seq<char>, start: int) -> Seq<Seq<char>>
    decreases s.len() + 1 - start,
{
    if start < 0 || start > s.len() {
        seq![]
    } else {
        match find_punct(s, start) {
            Some(i) => {
                proof {
                    lemma_find_punct_bounds(s, start);
                }
                seq![s.subrange(start, i)] + split_punct_from(s, i + 1)
            },
            None => seq![s.subrange(start, s.len() as int)],
        }
    }
}

/// The first index at or after `from` holding `.`, `,` or `?`.
pub fn find_punct_exec(s: &Vec<char>, from: usize) -> (r: Option<usize>)
    requires
        from <= s.len(),
    ensures
        r matches Some(i) ==> find_punct(s@, from as int) == Some(i as int),
        r is None ==> find_punct(s@, from as int) is None,
{
    let mut i = from;
    while i < s.len()
        invariant
            from <= i <= s.len(),
            find_punct(s@, from as int) == find_punct(s@, i as int),
        decreases s.len() - i,
    {
        let c = s[i];
        if c == '.' || c == ',' || c == '?' {
            return Some(i);
        }
        i = i + 1;
    }
    None
}

/// The pieces of `s` between the characters `.`, `,` and `?`.
pub fn split_punct_exec(s: &Vec<char>) -> (out: Vec<Vec<char>>)
    ensures
        views(out@) == split_punct_from(s@, 0),
{
    let mut out: Vec<Vec<char>> = Vec::new();
    let mut start: usize = 0;
    loop
        invariant
            start <= s.len(),
            views(out@) + split_punct_from(s@, start as int) == split_punct_from(s@, 0),
        decreases s.len() - start,
    {
        proof {
            lemma_find_punct_bounds(s@, start as int);
        }
        match find_punct_exec(s, start) {
            Some(i) => {
                let piece = slice_of(s, start, i);
                let ghost before = out@;
                out.push(piece);
                assert(views(out@) =~= views(before).push(piece@));
                start = i + 1;
                assert(views(out@) + split_punct_from(s@, start as int) =~= split_punct_from(
                    s@,
                    0,
                ));
            },
            None => {
                let piece = slice_of(s, start, s.len());
                let ghost before = out@;
                out.push(piece);
                assert(views(out@) =~= views(before).push(piece@));
                assert(views(out@) =~= split_punct_from(s@, 0));
                return out;
            },
        }
    }
}


// ------------------------------------------------------------------------
// Whitespace-separated words (`str::split_whitespace`)
// ------------------------------------------------------------------------

/// The first index at or after `i` that does not hold whitespace (or the end).
pub open spec fn skip_ws(s: Seq<char>, i: int) -> int
    decreases s.len() + 1 - i,
{
    if 0 <= i < s.len() && is_ws(s[i]) {
        skip_ws(s, i + 1)
    } else {
        i
    }
}

/// The first index at or after `i` that holds whitespace (or the end).
pub open spec fn skip_word(s: Seq<char>, i: int) -> int
    decreases s.len() + 1 - i,
{
    if 0 <= i < s.len() && !is_ws(s[i]) {
        skip_word(s, i + 1)
    } else {
        i
    }
}

pub proof fn lemma_skip_ws(s: Seq<char>, i: int)
    requires
        0 <= i <= s.len(),
    ensures
        i <= skip_ws(s, i) <= s.len(),
        forall|k: int| i <= k < skip_ws(s, i) ==> is_ws(#[trigger] s[k]),
        skip_ws(s, i) < s.len() ==> !is_ws(s[skip_ws(s, i)]),
    decreases s.len() + 1 - i,
{
    if i < s.len() && is_ws(s[i]) {
        lemma_skip_ws(s, i + 1);
    }
}

pub proof fn lemma_skip_word(s: Seq<char>, i: int)
    requires
        0 <= i <= s.len(),
    ensures
        i <= skip_word(s, i) <= s.len(),
        forall|k: int| i <= k < skip_word(s, i) ==> !is_ws(#[trigger] s[k]),
        skip_word(s, i) < s.len() ==> is_ws(s[skip_word(s, i)]),
    decreases s.len() + 1 - i,
{
    if i < s.len() && !is_ws(s[i]) {
        lemma_skip_word(s, i + 1);
    }
}

/// The maximal runs of non-whitespace characters of `s[i..]`, in order.
pub open spec fn words_from(s: Seq<char>, i: int) -> Seq<Seq<char>>
    decreases s.len() + 1 - i,
{
    if i < 0 || i >= s.len() {
        seq![]
    } else {
        let j = skip_ws(s, i);
        if j >= s.len() {
            seq![]
        } else {
            let k = skip_word(s, j);
            proof {
                lemma_skip_ws(s, i);
                lemma_skip_word(s, j);
                assert(skip_word(s, j) == skip_word(s, j + 1));
                lemma_skip_word(s, j + 1);
            }
            seq![s.subrange(j, k)] + words_from(s, k)
        }
    }
}

/// `str::split_whitespace`: the maximal runs of non-whitespace characters.
pub open spec fn words(s: Seq<char>) -> Seq<Seq<char>> {
    words_from(s, 0)
}

/// The words of `s`.
pub fn split_words(s: &Vec<char>) -> (out: Vec<Vec<char>>)
    ensures
        views(out@) == words(s@),
{
    let mut out: Vec<Vec<char>> = Vec::new();
    let mut i: usize = 0;
    while i < s.len()
        invariant
            i <= s.len(),
            views(out@) + words_from(s@, i as int) == words(s@),
        decreases s.len() - i,
    {
        proof {
            lemma_skip_ws(s@, i as int);
        }
        let ghost i0 = i;
        while i < s.len() && is_whitespace(s[i])
            invariant
                i0 <= i <= s.len(),
                skip_ws(s@, i0 as int) == skip_ws(s@, i as int),
            decreases s.len() - i,
        {
            i = i + 1;
        }
        if i == s.len() {
            assert(words_from(s@, i0 as int) =~= Seq::<Seq<char>>::empty());
            assert(views(out@) =~= words(s@));
            return out;
        }
        let j = i;
        proof {
            lemma_skip_word(s@, j as int);
        }
        while i < s.len() && !is_whitespace(s[i])
            invariant
                j <= i <= s.len(),
                skip_word(s@, j as int) == skip_word(s@, i as int),
            decreases s.len() - i,
        {
            i = i + 1;
        }
        let w = slice_of(s, j, i);
        let ghost before = out@;
        out.push(w);
        assert(views(out@) =~= views(before).push(w@));
        assert(words_from(s@, i0 as int) =~= seq![w@] + words_from(s@, i as int));
        assert(views(out@) + words_from(s@, i as int) =~= words(s@));
    }
    assert(words_from(s@, i as int) =~= Seq::<Seq<char>>::empty());
    assert(views(out@) =~= words(s@));
    out
}

// ------------------------------------------------------------------------
// Trimming and removing whitespace
// ------------------------------------------------------------------------

/// The first index below `j`, going down to `lo`, after which only whitespace follows.
pub open spec fn rskip_ws(s: Seq<char>, lo: int, j: int) -> int
    decreases j - lo,
{
    if lo < j && j <= s.len() && is_ws(s[j - 1]) {
        rskip_ws(s, lo, j - 1)
    } else {
        j
    }
}

pub proof fn lemma_rskip_ws(s: Seq<char>, lo: int, j: int)
    requires
        0 <= lo <= j <= s.len(),
    ensures
        lo <= rskip_ws(s, lo, j) <= j,
        forall|k: int| rskip_ws(s, lo, j) <= k < j ==> is_ws(#[trigger] s[k]),
        lo < rskip_ws(s, lo, j) ==> !is_ws(s[rskip_ws(s, lo, j) - 1]),
    decreases j - lo,
{
    if lo < j && is_ws(s[j - 1]) {
        lemma_rskip_ws(s, lo, j - 1);
    }
}

/// `str::trim`: `s` without its leading and trailing whitespace.
pub open spec fn trim(s: Seq<char>) -> Seq<char> {
    let a = skip_ws(s, 0);
    s.subrange(a, rskip_ws(s, a, s.len() as int))
}

/// `s` without leading and trailing whitespace.
pub fn trim_exec(s: &Vec<char>) -> (out: Vec<char>)
    ensures
        out@ == trim(s@),
{
    proof {
        lemma_skip_ws(s@, 0);
    }
    let mut a: usize = 0;
    while a < s.len() && is_whitespace(s[a])
        invariant
            a <= s.len(),
            skip_ws(s@, 0) == skip_ws(s@, a as int),
        decreases s.len() - a,
    {
        a = a + 1;
    }
    let mut b: usize = s.len();
    while a < b && is_whitespace(s[b - 1])
        invariant
            a <= b <= s.len(),
            rskip_ws(s@, a as int, s.len() as int) == rskip_ws(s@, a as int, b as int),
        decreases b - a,
    {
        b = b - 1;
    }
    slice_of(s, a, b)
}

/// `s` without any whitespace (`str::replace(char::is_whitespace, "")`).
pub open spec fn remove_ws(s: Seq<char>) -> Seq<char>
    decreases s.len(),
{
    if s.len() == 0 {
        seq![]
    } else if is_ws(s.last()) {
        remove_ws(s.drop_last())
    } else {
        remove_ws(s.drop_last()).push(s.last())
    }
}

/// `s` without any whitespace.
pub fn remove_ws_exec(s: &Vec<char>) -> (out: Vec<char>)
    ensures
        out@ == remove_ws(s@),
{
    let mut out: Vec<char> = Vec::new();
    let mut i: usize = 0;
    while i < s.len()
        invariant
            i <= s.len(),
            out@ == remove_ws(s@.take(i as int)),
        decreases s.len() - i,
    {
        assert(s@.take(i + 1).drop_last() =~= s@.take(i as int));
        if !is_whitespace(s[i]) {
            out.push(s[i]);
        }
        i = i + 1;
    }
    assert(s@.take(s.len() as int) =~= s@);
    out
}

// ------------------------------------------------------------------------
// Phrases
// ------------------------------------------------------------------------

/// The separator between clauses joined by "but".
pub open spec fn but_sep() -> Seq<char> {
    seq![' ', 'b', 'u', 't', ' ']
}

/// Each piece split at `.`, `,` and `?`, every part trimmed, all in order.
pub open spec fn phrase_parts(pieces: Seq<Seq<char>>) -> Seq<Seq<char>>
    decreases pieces.len(),
{
    if pieces.len() == 0 {
        seq![]
    } else {
        phrase_parts(pieces.drop_last()) + split_punct_from(pieces.last(), 0).map_values(
            |x: Seq<char>| trim(x),
        )
    }
}

/// The phrases of an input: it is split at " but ", then at `.`, `,` and `?`,
/// and every part is trimmed.
pub open spec fn phrases(s: Seq<char>) -> Seq<Seq<char>> {
    phrase_parts(split_from(s, but_sep(), 0))
}

/// The phrases of `s`.
pub fn split_phrases(s: &Vec<char>) -> (out: Vec<Vec<char>>)
    ensures
        views(out@) == phrases(s@),
{
    let sep: Vec<char> = vec![' ', 'b', 'u', 't', ' '];
    assert(sep@ =~= but_sep());
    let pieces = split_exec(s, &sep);
    let mut out: Vec<Vec<char>> = Vec::new();
    let mut i: usize = 0;
    while i < pieces.len()
        invariant
            i <= pieces.len(),
            views(out@) == phrase_parts(views(pieces@).take(i as int)),
        decreases pieces.len() - i,
    {
        let parts = split_punct_exec(&pieces[i]);
        let mut j: usize = 0;
        let ghost base = out@;
        while j < parts.len()
            invariant
                j <= parts.len(),
                views(out@) == views(base) + views(parts@).take(j as int).map_values(
                    |x: Seq<char>| trim(x),
                ),
            decreases parts.len() - j,
        {
            let t = trim_exec(&parts[j]);
            let ghost before = out@;
            out.push(t);
            assert(views(out@) =~= views(before).push(t@));
            j = j + 1;
            assert(views(parts@).take(j as int).map_values(|x: Seq<char>| trim(x)) =~= views(
                parts@,
            ).take(j - 1).map_values(|x: Seq<char>| trim(x)).push(trim(parts@[j - 1]@)));
        }
        assert(views(parts@).take(j as int) =~= views(parts@));
        assert(views(pieces@).take(i + 1).drop_last() =~= views(pieces@).take(i as int));
        i = i + 1;
    }
    assert(views(pieces@).take(i as int) =~= views(pieces@));
    out
}


// ------------------------------------------------------------------------
// Alphabets
// ------------------------------------------------------------------------

/// An ASCII letter.
pub open spec fn is_letter(c: char) -> bool {
    ('a' as u32 <= c as u32 && c as u32 <= 'z' as u32) || ('A' as u32 <= c as u32 && c as u32
        <= 'Z' as u32)
}

/// An ASCII decimal digit.
pub open spec fn is_digit(c: char) -> bool {
    '0' as u32 <= c as u32 && c as u32 <= '9' as u32
}

/// Whether `c` belongs to the alphabet: the letters, and with `digits` the digits too.
pub open spec fn in_alphabet(c: char, digits: bool) -> bool {
    is_letter(c) || (digits && is_digit(c))
}

/// `s` keeping only the characters of the alphabet.
pub open spec fn scrub(s: Seq<char>, digits: bool) -> Seq<char>
    decreases s.len(),
{
    if s.len() == 0 {
        seq![]
    } else if in_alphabet(s.last(), digits) {
        scrub(s.drop_last(), digits).push(s.last())
    } else {
        scrub(s.drop_last(), digits)
    }
}

/// `s` keeping only letters, and digits when `digits` holds.
pub fn scrub_exec(s: &Vec<char>, digits: bool) -> (out: Vec<char>)
    ensures
        out@ == scrub(s@, digits),
{
    let mut out: Vec<char> = Vec::new();
    let mut i: usize = 0;
    while i < s.len()
        invariant
            i <= s.len(),
            out@ == scrub(s@.take(i as int), digits),
        decreases s.len() - i,
    {
        assert(s@.take(i + 1).drop_last() =~= s@.take(i as int));
        let c = s[i];
        let n = c as u32;
        let letter = ('a' as u32 <= n && n <= 'z' as u32) || ('A' as u32 <= n && n <= 'Z' as u32);
        let digit = '0' as u32 <= n && n <= '9' as u32;
        if letter || (digits && digit) {
            out.push(c);
        }
        i = i + 1;
    }
    assert(s@.take(s.len() as int) =~= s@);
    out
}

// ------------------------------------------------------------------------
// Decimal numbers
// ------------------------------------------------------------------------

/// The value of a digit character.
pub open spec fn digit_value(c: char) -> nat {
    (c as u32 - '0' as u32) as nat
}

/// Every character of `s` is a digit.
pub open spec fn all_digits(s: Seq<char>) -> bool {
    forall|i: int| 0 <= i < s.len() ==> is_digit(#[trigger] s[i])
}

/// The number that the digits `s` denote.
pub open spec fn digits_value(s: Seq<char>) -> nat
    decreases s.len(),
{
    if s.len() == 0 {
        0
    } else {
        digits_value(s.drop_last()) * 10 + digit_value(s.last())
    }
}

/// The digits after an optional leading `+`.
pub open spec fn unsigned_body(s: Seq<char>) -> Seq<char> {
    if s.len() > 0 && s[0] == '+' {
        s.drop_first()
    } else {
        s
    }
}

/// `str::parse::<usize>`: an optional `+`, then one or more digits whose value
/// fits in `usize`.
pub open spec fn parse_usize(s: Seq<char>) -> Option<usize> {
    let b = unsigned_body(s);
    if b.len() > 0 && all_digits(b) && digits_value(b) <= usize::MAX {
        Some(digits_value(b) as usize)
    } else {
        None
    }
}

pub proof fn lemma_digits_value_prefix(s: Seq<char>, i: int)
    requires
        0 <= i <= s.len(),
        all_digits(s),
    ensures
        digits_value(s.take(i)) <= digits_value(s),
    decreases s.len() - i,
{
    if i < s.len() {
        lemma_digits_value_prefix(s, i + 1);
        assert(s.take(i + 1).drop_last() =~= s.take(i));
    } else {
        assert(s.take(i) =~= s);
    }
}

pub proof fn lemma_digits_step(b: Seq<char>, k: int)
    requires
        0 <= k < b.len(),
    ensures
        digits_value(b.take(k + 1)) == digits_value(b.take(k)) * 10 + digit_value(b[k]),
        all_digits(b.take(k)) && is_digit(b[k]) ==> all_digits(b.take(k + 1)),
{
    assert(b.take(k + 1).drop_last() =~= b.take(k));
}

/// The `usize` that `s` spells, as `str::parse::<usize>` reads it.
pub fn parse_usize_exec(s: &Vec<char>) -> (r: Option<usize>)
    ensures
        r == parse_usize(s@),
{
    let mut start: usize = 0;
    if s.len() > 0 && s[0] == '+' {
        start = 1;
    }
    let ghost b = unsigned_body(s@);
    assert(b =~= s@.skip(start as int));
    if start >= s.len() {
        return None;
    }
    let mut acc: usize = 0;
    let mut i = start;
    assert(b.take(0) =~= Seq::<char>::empty());
    while i < s.len()
        invariant
            start <= i <= s.len(),
            b == s@.skip(start as int),
            b == unsigned_body(s@),
            b.len() == s.len() - start,
            all_digits(b.take(i - start)),
            acc as nat == digits_value(b.take(i - start)),
        decreases s.len() - i,
    {
        let c = s[i];
        let n = c as u32;
        let ghost k = i - start;
        assert(b[k] == c);
        if !('0' as u32 <= n && n <= '9' as u32) {
            assert(!all_digits(b));
            return None;
        }
        proof {
            lemma_digits_step(b, k);
        }
        let d = (n - '0' as u32) as usize;
        let next = match acc.checked_mul(10) {
            Some(m) => m.checked_add(d),
            None => None,
        };
        match next {
            Some(v) => {
                acc = v;
            },
            None => {
                proof {
                    lemma_rest_digits(b, k + 1);
                }
                return None;
            },
        }
        i = i + 1;
    }
    assert(b.take(i - start) =~= b);
    Some(acc)
}

/// Either some character of `s` is not a digit, or the value of `s` is at least
/// that of its prefix `s[..i]`.
proof fn lemma_rest_digits(s: Seq<char>, i: int)
    requires
        0 <= i <= s.len(),
    ensures
        all_digits(s) ==> digits_value(s.take(i)) <= digits_value(s),
{
    if all_digits(s) {
        lemma_digits_value_prefix(s, i);
    }
}

/// `str::parse::<u16>`: as `parse_usize`, the value at most 65535.
pub open spec fn parse_u16(s: Seq<char>) -> Option<u16> {
    match parse_usize(s) {
        Some(v) => if v <= 65535 {
            Some(v as u16)
        } else {
            None
        },
        None => None,
    }
}

/// The `u16` that `s` spells, as `str::parse::<u16>` reads it.
pub fn parse_u16_exec(s: &Vec<char>) -> (r: Option<u16>)
    ensures
        r == parse_u16(s@),
{
    match parse_usize_exec(s) {
        Some(v) => if v <= 65535 {
            Some(v as u16)
        } else {
            None
        },
        None => None,
    }
}

/// The decimal digit for `d < 10`.
pub open spec fn digit_char(d: nat) -> char {
    (d + '0' as u32) as char
}

/// The decimal representation of `n`, without leading zeros (`usize::to_string`).
pub open spec fn decimal(n: nat) -> Seq<char>
    decreases n,
{
    if n < 10 {
        seq![digit_char(n)]
    } else {
        decimal(n / 10).push(digit_char(n % 10))
    }
}

/// The decimal representation of `n`.
pub fn decimal_exec(n: usize) -> (out: Vec<char>)
    ensures
        out@ == decimal(n as nat),
    decreases n,
{
    if n < 10 {
        let c = char_of_digit(n);
        let mut out: Vec<char> = Vec::new();
        out.push(c);
        assert(out@ =~= seq![digit_char(n as nat)]);
        out
    } else {
        let mut out = decimal_exec(n / 10);
        let c = char_of_digit(n % 10);
        out.push(c);
        out
    }
}

/// The character of a decimal digit.
fn char_of_digit(d: usize) -> (c: char)
    requires
        d < 10,
    ensures
        c == digit_char(d as nat),
{
    if d == 0 { '0' }
    else if d == 1 { '1' }
    else if d == 2 { '2' }
    else if d == 3 { '3' }
    else if d == 4 { '4' }
    else if d == 5 { '5' }
    else if d == 6 { '6' }
    else if d == 7 { '7' }
    else if d == 8 { '8' }
    else { '9' }
}

// ------------------------------------------------------------------------
// Letter case, from std
// ------------------------------------------------------------------------

/// What `str::to_lowercase` returns for the characters `s`.
pub uninterp spec fn lowercase(s: Seq<char>) -> Seq<char>;

/// What `str::to_uppercase` returns for the characters `s`.
pub uninterp spec fn uppercase(s: Seq<char>) -> Seq<char>;

/// `str::to_lowercase`, the Unicode lowercase mapping of `s`; its result is
/// named `lowercase`, and nothing more of it is stated.
#[verifier::external_body]
pub(crate) fn to_lowercase(s: &str) -> (r: String)
    ensures
        r@ == lowercase(s@),
{
    s.to_lowercase()
}

/// `str::to_uppercase`, the Unicode uppercase mapping of `s`; its result is
/// named `uppercase`, and nothing more of it is stated.
#[verifier::external_body]
pub(crate) fn to_uppercase(s: &str) -> (r: String)
    ensures
        r@ == uppercase(s@),
{
    s.to_uppercase()
}


// ------------------------------------------------------------------------
// Laws of words and phrases
// ------------------------------------------------------------------------

/// `w` is a word: not empty, and without whitespace.
pub open spec fn is_word(w: Seq<char>) -> bool {
    w.len() > 0 && forall|c: int| 0 <= c < w.len() ==> !is_ws(#[trigger] w[c])
}

proof fn lemma_words_from_are_words(s: Seq<char>, i: int)
    requires
        0 <= i <= s.len(),
    ensures
        forall|k: int| 0 <= k < words_from(s, i).len() ==> is_word(#[trigger] words_from(s, i)[k]),
    decreases s.len() + 1 - i,
{
    if i < s.len() {
        let j = skip_ws(s, i);
        lemma_skip_ws(s, i);
        if j < s.len() {
            let k = skip_word(s, j);
            lemma_skip_word(s, j);
            assert(skip_word(s, j) == skip_word(s, j + 1));
            lemma_skip_word(s, j + 1);
            lemma_words_from_are_words(s, k);
            let w = s.subrange(j, k);
            assert forall|c: int| 0 <= c < w.len() implies !is_ws(#[trigger] w[c]) by {
                assert(w[c] == s[j + c]);
            }
            assert forall|q: int| 0 <= q < words_from(s, i).len() implies is_word(
                #[trigger] words_from(s, i)[q],
            ) by {
                if q > 0 {
                    assert(words_from(s, i)[q] == words_from(s, k)[q - 1]);
                }
            }
        }
    }
}

/// Every word of an input is non-empty and holds no whitespace.
pub proof fn lemma_words_are_words(s: Seq<char>)
    ensures
        forall|k: int| 0 <= k < words(s).len() ==> is_word(#[trigger] words(s)[k]),
{
    lemma_words_from_are_words(s, 0);
}

/// The words `ws` joined by single spaces.
pub open spec fn joined(ws: Seq<Seq<char>>) -> Seq<char>
    decreases ws.len(),
{
    if ws.len() == 0 {
        seq![]
    } else if ws.len() == 1 {
        ws[0]
    } else {
        joined(ws.drop_last()) + seq![' '] + ws.last()
    }
}

/// Whitespace before the next word does not change the words that follow.
proof fn lemma_words_from_ws(s: Seq<char>, i: int, m: int)
    requires
        0 <= i <= m <= s.len(),
        forall|k: int| i <= k < m ==> is_ws(#[trigger] s[k]),
    ensures
        words_from(s, i) == words_from(s, m),
    decreases m - i,
{
    if i < m {
        lemma_words_from_ws(s, i + 1, m);
        assert(skip_ws(s, i) == skip_ws(s, i + 1));
        if i + 1 < s.len() {
            assert(words_from(s, i) == words_from(s, i + 1));
        } else {
            assert(skip_ws(s, i + 1) == i + 1);
        }
    }
}

proof fn lemma_skip_shift(p: Seq<char>, b: Seq<char>, i: int)
    requires
        0 <= i <= b.len(),
    ensures
        skip_ws(p + b, p.len() + i) == p.len() + skip_ws(b, i),
        skip_word(p + b, p.len() + i) == p.len() + skip_word(b, i),
    decreases b.len() - i,
{
    if i < b.len() {
        assert((p + b)[p.len() + i] == b[i]);
        lemma_skip_shift(p, b, i + 1);
    }
}

/// The words of a text after a prefix are the words of the text.
proof fn lemma_words_from_shift(p: Seq<char>, b: Seq<char>, i: int)
    requires
        0 <= i <= b.len(),
    ensures
        words_from(p + b, p.len() + i) == words_from(b, i),
    decreases b.len() - i,
{
    if i < b.len() {
        lemma_skip_shift(p, b, i);
        lemma_skip_ws(b, i);
        let j = skip_ws(b, i);
        if j < b.len() {
            lemma_skip_shift(p, b, j);
            lemma_skip_word(b, j);
            assert(skip_word(b, j) == skip_word(b, j + 1));
            lemma_skip_word(b, j + 1);
            let k = skip_word(b, j);
            lemma_words_from_shift(p, b, k);
            assert((p + b).subrange(p.len() + j, p.len() + k) =~= b.subrange(j, k));
        }
    }
}

proof fn lemma_skip_prefix(a: Seq<char>, b: Seq<char>, i: int)
    requires
        0 <= i <= a.len(),
    ensures
        skip_ws(a, i) < a.len() ==> skip_ws(a + seq![' '] + b, i) == skip_ws(a, i),
        skip_ws(a, i) >= a.len() ==> forall|k: int|
            i <= k < a.len() + 1 ==> is_ws(#[trigger] (a + seq![' '] + b)[k]),
        skip_word(a + seq![' '] + b, i) == skip_word(a, i),
    decreases a.len() - i,
{
    let s = a + seq![' '] + b;
    assert(s[a.len() as int] == ' ');
    assert(is_ws(' '));
    if i < a.len() {
        assert(s[i] == a[i]);
        lemma_skip_prefix(a, b, i + 1);
        if skip_ws(a, i) >= a.len() {
            assert forall|k: int| i <= k < a.len() + 1 implies is_ws(#[trigger] s[k]) by {
                if k == i {
                    assert(is_ws(a[i]));
                } else {
                }
            }
        }
    } else {
        assert(skip_word(s, i) == i);
    }
}

/// The words before a space and the words after it.
proof fn lemma_words_from_prefix(a: Seq<char>, b: Seq<char>, i: int)
    requires
        0 <= i <= a.len(),
    ensures
        words_from(a + seq![' '] + b, i) == words_from(a, i) + words_from(a + seq![' '] + b, a.len() + 1int),
    decreases a.len() - i,
{
    let s = a + seq![' '] + b;
    assert(s[a.len() as int] == ' ');
    assert(is_ws(' '));
    if i == a.len() {
        lemma_words_from_ws(s, i, a.len() + 1int);
        assert(words_from(a, i) =~= Seq::<Seq<char>>::empty());
        assert(words_from(s, i) =~= words_from(a, i) + words_from(s, a.len() + 1int));
    } else {
        lemma_skip_prefix(a, b, i);
        lemma_skip_ws(a, i);
        let j = skip_ws(a, i);
        if j < a.len() {
            lemma_skip_prefix(a, b, j);
            lemma_skip_word(a, j);
            assert(skip_word(a, j) == skip_word(a, j + 1));
            lemma_skip_word(a, j + 1);
            let k = skip_word(a, j);
            lemma_words_from_prefix(a, b, k);
            assert(s.subrange(j, k) =~= a.subrange(j, k));
            assert(words_from(s, i) == seq![s.subrange(j, k)] + words_from(s, k));
            assert(words_from(a, i) == seq![a.subrange(j, k)] + words_from(a, k));
            assert(words_from(s, i) =~= words_from(a, i) + words_from(s, a.len() + 1int));
        } else {
            lemma_words_from_ws(s, i, a.len() + 1int);
            assert(words_from(a, i) =~= Seq::<Seq<char>>::empty());
            assert(words_from(s, i) =~= words_from(a, i) + words_from(s, a.len() + 1int));
        }
    }
}

/// The words of two texts put together with a space between them.
pub proof fn lemma_words_split_at_space(a: Seq<char>, b: Seq<char>)
    ensures
        words(a + seq![' '] + b) == words(a) + words(b),
{
    lemma_words_from_prefix(a, b, 0);
    lemma_words_from_shift(a + seq![' '], b, 0);
}

/// A word is its only word.
pub proof fn lemma_words_of_word(w: Seq<char>)
    requires
        is_word(w),
    ensures
        words(w) == seq![w],
{
    lemma_skip_word(w, 0);
    assert(!is_ws(w[0]));
    assert(skip_ws(w, 0) == 0);
    let k = skip_word(w, 0);
    if k < w.len() {
        assert(!is_ws(w[k]));
    }
    assert(k == w.len());
    assert(words_from(w, k) =~= Seq::<Seq<char>>::empty());
    assert(w.subrange(0, w.len() as int) =~= w);
    assert(words_from(w, 0) == seq![w.subrange(0, k)] + words_from(w, k));
    assert(words(w) =~= seq![w]);
}

/// Joining words with spaces and splitting the result gives the words back.
pub proof fn lemma_words_of_joined(ws: Seq<Seq<char>>)
    requires
        forall|k: int| 0 <= k < ws.len() ==> is_word(#[trigger] ws[k]),
    ensures
        words(joined(ws)) == ws,
    decreases ws.len(),
{
    if ws.len() == 0 {
        assert(words(joined(ws)) =~= ws);
    } else if ws.len() == 1 {
        lemma_words_of_word(ws[0]);
        assert(seq![ws[0]] =~= ws);
    } else {
        let init = ws.drop_last();
        lemma_words_of_joined(init);
        lemma_words_split_at_space(joined(init), ws.last());
        lemma_words_of_word(ws.last());
        assert(init + seq![ws.last()] =~= ws);
    }
}

/// Joined words begin and end with a character that is not whitespace.
pub proof fn lemma_joined_ends(ws: Seq<Seq<char>>)
    requires
        ws.len() > 0,
        forall|k: int| 0 <= k < ws.len() ==> is_word(#[trigger] ws[k]),
    ensures
        joined(ws).len() > 0,
        !is_ws(joined(ws)[0]),
        !is_ws(joined(ws)[joined(ws).len() - 1]),
    decreases ws.len(),
{
    assert(is_word(ws[0]));
    assert(is_word(ws.last()));
    if ws.len() > 1 {
        lemma_joined_ends(ws.drop_last());
    }
}

/// Joined words followed by a space, trimmed, are the joined words.
pub proof fn lemma_trim_joined(ws: Seq<Seq<char>>)
    requires
        forall|k: int| 0 <= k < ws.len() ==> is_word(#[trigger] ws[k]),
    ensures
        ws.len() > 0 ==> trim(joined(ws) + seq![' ']) == joined(ws),
        ws.len() == 0 ==> trim(joined(ws)) == joined(ws),
{
    if ws.len() > 0 {
        lemma_joined_ends(ws);
        let j = joined(ws);
        let s = j + seq![' '];
        assert(s[0] == j[0]);
        assert(skip_ws(s, 0) == 0);
        assert(is_ws(s[s.len() - 1]));
        assert(s[s.len() - 2] == j[j.len() - 1]);
        assert(rskip_ws(s, 0, s.len() - 1) == s.len() - 1);
        assert(rskip_ws(s, 0, s.len() as int) == s.len() - 1);
        assert(s.subrange(0, s.len() - 1) =~= j);
    } else {
        assert(trim(joined(ws)) =~= joined(ws));
    }
}

/// `p` is a clean phrase: no `.`, `,` or `?` in it, and no whitespace at either end.
pub open spec fn is_clean_phrase(p: Seq<char>) -> bool {
    &&& forall|c: int| 0 <= c < p.len() ==> !is_punct(#[trigger] p[c])
    &&& p.len() > 0 ==> !is_ws(p[0]) && !is_ws(p[p.len() - 1])
}

proof fn lemma_split_punct_parts(s: Seq<char>, start: int)
    requires
        0 <= start <= s.len(),
    ensures
        forall|k: int, c: int|
            0 <= k < split_punct_from(s, start).len() && 0 <= c < split_punct_from(s, start)[k].len()
                ==> !is_punct(#[trigger] split_punct_from(s, start)[k][c]),
    decreases s.len() + 1 - start,
{
    lemma_find_punct_bounds(s, start);
    match find_punct(s, start) {
        Some(i) => {
            lemma_split_punct_parts(s, i + 1);
            let first = s.subrange(start, i);
            assert forall|k: int, c: int|
                0 <= k < split_punct_from(s, start).len() && 0 <= c < split_punct_from(
                    s,
                    start,
                )[k].len() implies !is_punct(#[trigger] split_punct_from(s, start)[k][c]) by {
                if k == 0 {
                    assert(split_punct_from(s, start)[k] == first);
                    assert(first[c] == s[start + c]);
                } else {
                    assert(split_punct_from(s, start)[k] == split_punct_from(s, i + 1)[k - 1]);
                }
            }
        },
        None => {
            assert forall|k: int, c: int|
                0 <= k < split_punct_from(s, start).len() && 0 <= c < split_punct_from(
                    s,
                    start,
                )[k].len() implies !is_punct(#[trigger] split_punct_from(s, start)[k][c]) by {
                assert(split_punct_from(s, start)[k][c] == s[start + c]);
            }
        },
    }
}

proof fn lemma_trim_clean(x: Seq<char>)
    requires
        forall|c: int| 0 <= c < x.len() ==> !is_punct(#[trigger] x[c]),
    ensures
        is_clean_phrase(trim(x)),
{
    let a = skip_ws(x, 0);
    lemma_skip_ws(x, 0);
    lemma_rskip_ws(x, a, x.len() as int);
    let b = rskip_ws(x, a, x.len() as int);
    let t = trim(x);
    assert forall|c: int| 0 <= c < t.len() implies !is_punct(#[trigger] t[c]) by {
        assert(t[c] == x[a + c]);
    }
    if t.len() > 0 {
        assert(t[0] == x[a]);
        assert(t[t.len() - 1] == x[b - 1]);
    }
}

proof fn lemma_phrase_parts_clean(pieces: Seq<Seq<char>>)
    ensures
        forall|k: int| 0 <= k < phrase_parts(pieces).len() ==> is_clean_phrase(#[trigger] phrase_parts(pieces)[k]),
    decreases pieces.len(),
{
    if pieces.len() > 0 {
        lemma_phrase_parts_clean(pieces.drop_last());
        let parts = split_punct_from(pieces.last(), 0);
        lemma_split_punct_parts(pieces.last(), 0);
        let prev = phrase_parts(pieces.drop_last());
        let trimmed = parts.map_values(|x: Seq<char>| trim(x));
        assert forall|k: int| 0 <= k < phrase_parts(pieces).len() implies is_clean_phrase(
            #[trigger] phrase_parts(pieces)[k],
        ) by {
            if k >= prev.len() {
                let q = k - prev.len();
                assert(phrase_parts(pieces)[k] == trimmed[q]);
                assert forall|c: int| 0 <= c < parts[q].len() implies !is_punct(#[trigger] parts[q][c]) by {
                    assert(!is_punct(split_punct_from(pieces.last(), 0)[q][c]));
                }
                lemma_trim_clean(parts[q]);
            } else {
                assert(phrase_parts(pieces)[k] == prev[k]);
            }
        }
    }
}

/// No phrase of an input holds `.`, `,` or `?`, and none starts or ends with whitespace.
pub proof fn lemma_phrases_clean(s: Seq<char>)
    ensures
        forall|k: int| 0 <= k < phrases(s).len() ==> is_clean_phrase(#[trigger] phrases(s)[k]),
{
    lemma_phrase_parts_clean(split_from(s, but_sep(), 0));
}

} // verus!
