//! How often each reassembly rule has been used, and the choice of the next one.
use vstd::prelude::*;
use crate::text::strs;

verus! {

/// The usage count of one rule, under its key.
pub struct UsageEntry {
    key: String,
    count: usize,
}

/// How often each rule, keyed by its decomposition rule followed by the rule,
/// has been chosen.
pub struct RuleUsage {
    entries: Vec<UsageEntry>,
}

/// The map that a list of distinct keys and counts stands for.
pub open spec fn entries_map(es: Seq<(Seq<char>, nat)>) -> Map<Seq<char>, nat>
    decreases es.len(),
{
    if es.len() == 0 {
        Map::empty()
    } else {
        entries_map(es.drop_last()).insert(es.last().0, es.last().1)
    }
}

/// No key occurs twice.
pub open spec fn distinct_keys(es: Seq<(Seq<char>, nat)>) -> bool {
    forall|i: int, j: int| 0 <= i < j < es.len() ==> es[i].0 != es[j].0
}

proof fn lemma_entries_map(es: Seq<(Seq<char>, nat)>)
    requires
        distinct_keys(es),
    ensures
        forall|k: Seq<char>| #[trigger]
            entries_map(es).contains_key(k) <==> exists|i: int| 0 <= i < es.len() && es[i].0 == k,
        forall|i: int| 0 <= i < es.len() ==> #[trigger] entries_map(es)[es[i].0] == es[i].1,
    decreases es.len(),
{
    if es.len() > 0 {
        let init = es.drop_last();
        assert(distinct_keys(init));
        lemma_entries_map(init);
        assert(entries_map(es) == entries_map(init).insert(es.last().0, es.last().1));
        assert forall|k: Seq<char>| #[trigger]
            entries_map(es).contains_key(k) implies exists|i: int| 0 <= i < es.len() && es[i].0 == k by {
            if k == es.last().0 {
                assert(es[es.len() - 1].0 == k);
            } else {
                assert(entries_map(es) == entries_map(init).insert(es.last().0, es.last().1));
                assert(entries_map(init).contains_key(k));
                let i = choose|i: int| 0 <= i < init.len() && init[i].0 == k;
                assert(es[i] == init[i]);
                assert(es[i].0 == k);
            }
        }
        assert forall|k: Seq<char>|
            (exists|i: int| 0 <= i < es.len() && es[i].0 == k) implies #[trigger] entries_map(
            es,
        ).contains_key(k) by {
            let i = choose|i: int| 0 <= i < es.len() && es[i].0 == k;
            if i < es.len() - 1 {
                assert(init[i].0 == k);
                assert(entries_map(init).contains_key(k));
            } else {
                assert(k == es.last().0);
            }
        }
        assert forall|i: int| 0 <= i < es.len() implies #[trigger] entries_map(es)[es[i].0]
            == es[i].1 by {
            if i < es.len() - 1 {
                assert(init[i] == es[i]);
                assert(es[i].0 != es.last().0);
                assert(entries_map(init)[init[i].0] == init[i].1);
            }
        }
    }
}

proof fn lemma_entries_map_update(es: Seq<(Seq<char>, nat)>, i: int, c: nat)
    requires
        distinct_keys(es),
        0 <= i < es.len(),
    ensures
        distinct_keys(es.update(i, (es[i].0, c))),
        entries_map(es.update(i, (es[i].0, c))) == entries_map(es).insert(es[i].0, c),
    decreases es.len(),
{
    let es2 = es.update(i, (es[i].0, c));
    if i == es.len() - 1 {
        assert(es2.drop_last() =~= es.drop_last());
        assert(entries_map(es2) =~= entries_map(es).insert(es[i].0, c));
    } else {
        lemma_entries_map_update(es.drop_last(), i, c);
        assert(es2.drop_last() =~= es.drop_last().update(i, (es[i].0, c)));
        assert(es[i].0 != es.last().0);
        assert(entries_map(es2) =~= entries_map(es).insert(es[i].0, c));
    }
}

impl RuleUsage {
    /// The keys and counts, in the order they were first used.
    pub closed spec fn entries(&self) -> Seq<(Seq<char>, nat)> {
        self.entries@.map_values(|e: UsageEntry| (e.key@, e.count as nat))
    }

    /// Every key is recorded once.
    pub closed spec fn wf(&self) -> bool {
        distinct_keys(self.entries())
    }

    /// The usage count of every rule used so far.
    pub closed spec fn counts(&self) -> Map<Seq<char>, nat> {
        entries_map(self.entries())
    }

    /// No rule has been used yet.
    pub fn new() -> (r: RuleUsage)
        ensures
            r.wf(),
            r.counts() == Map::<Seq<char>, nat>::empty(),
    {
        let r = RuleUsage { entries: Vec::new() };
        assert(r.entries() =~= Seq::<(Seq<char>, nat)>::empty());
        r
    }

    /// Every count fits in a `usize`.
    pub proof fn lemma_counts_bounded(&self)
        requires
            self.wf(),
        ensures
            forall|k: Seq<char>| #[trigger] self.counts().contains_key(k) ==> self.counts()[k] <= usize::MAX,
    {
        lemma_entries_map(self.entries());
        assert forall|k: Seq<char>| #[trigger] self.counts().contains_key(k) implies self.counts()[k]
            <= usize::MAX by {
            let i = choose|i: int| 0 <= i < self.entries().len() && self.entries()[i].0 == k;
            assert(self.entries()[i].1 == self.entries@[i].count as nat);
        }
    }

    /// The index of `key` among the entries.
    fn index_of(&self, key: &String) -> (r: Option<usize>)
        requires
            self.wf(),
        ensures
            r matches Some(i) ==> i < self.entries.len() && self.entries()[i as int].0 == key@,
            r is None ==> !self.counts().contains_key(key@),
    {
        proof {
            lemma_entries_map(self.entries());
        }
        let mut i: usize = 0;
        while i < self.entries.len()
            invariant
                i <= self.entries.len(),
                forall|j: int| 0 <= j < i ==> self.entries()[j].0 != key@,
            decreases self.entries.len() - i,
        {
            if self.entries[i].key == *key {
                return Some(i);
            }
            i = i + 1;
        }
        None
    }

    /// The count of `key`, if it has been used.
    pub fn get(&self, key: &String) -> (r: Option<usize>)
        requires
            self.wf(),
        ensures
            r matches Some(c) ==> self.counts().contains_key(key@) && self.counts()[key@] == c,
            r is None ==> !self.counts().contains_key(key@),
    {
        proof {
            lemma_entries_map(self.entries());
        }
        match self.index_of(key) {
            Some(i) => Some(self.entries[i].count),
            None => None,
        }
    }

    /// Records `count` for `key`.
    pub fn set(&mut self, key: &String, count: usize)
        requires
            old(self).wf(),
        ensures
            final(self).wf(),
            final(self).counts() == old(self).counts().insert(key@, count as nat),
    {
        match self.index_of(key) {
            Some(i) => {
                proof {
                    lemma_entries_map_update(self.entries(), i as int, count as nat);
                }
                let ghost before = self.entries();
                self.entries.set(i, UsageEntry { key: key.clone(), count });
                assert(self.entries() =~= before.update(i as int, (before[i as int].0, count as nat)));
            },
            None => {
                proof {
                    lemma_entries_map(self.entries());
                }
                let ghost before = self.entries();
                self.entries.push(UsageEntry { key: key.clone(), count });
                assert(self.entries() =~= before.push((key@, count as nat)));
                assert(self.entries().drop_last() =~= before);
                assert forall|i: int, j: int|
                    0 <= i < j < self.entries().len() implies self.entries()[i].0 != self.entries()[j].0 by {
                    if j == self.entries().len() - 1 {
                        assert(before[i].0 == self.entries()[i].0);
                        if before[i].0 == key@ {
                            assert(entries_map(before).contains_key(key@));
                        }
                    }
                }
            },
        }
    }
}

// ------------------------------------------------------------------------
// Choosing a reassembly rule
// ------------------------------------------------------------------------

/// The usage key of a reassembly rule: its decomposition rule followed by the rule.
pub open spec fn usage_key(id: Seq<char>, rule: Seq<char>) -> Seq<char> {
    id + rule
}

/// The index of the first rule at or after `i` that has never been used.
pub open spec fn first_unused(usage: Map<Seq<char>, nat>, id: Seq<char>, rules: Seq<Seq<char>>, i: int) -> Option<int>
    decreases rules.len() - i,
{
    if i < 0 || i >= rules.len() {
        None
    } else if !usage.contains_key(usage_key(id, rules[i])) {
        Some(i)
    } else {
        first_unused(usage, id, rules, i + 1)
    }
}

/// The usage count of a rule.
pub open spec fn count_of(usage: Map<Seq<char>, nat>, id: Seq<char>, rule: Seq<char>) -> nat {
    usage[usage_key(id, rule)]
}

/// Among the first `n` rules, the index of the first one used least.
pub open spec fn least_used(usage: Map<Seq<char>, nat>, id: Seq<char>, rules: Seq<Seq<char>>, n: int) -> int
    decreases n,
{
    if n <= 1 {
        0
    } else {
        let b = least_used(usage, id, rules, n - 1);
        if count_of(usage, id, rules[n - 1]) < count_of(usage, id, rules[b]) {
            n - 1
        } else {
            b
        }
    }
}

/// The outcome of choosing a reassembly rule.
pub enum Pick {
    /// The count of the rule to be chosen is `usize::MAX` and cannot grow.
    Overflow,
    /// The rule chosen (none when there are no rules) and the usage after the choice.
    Chosen(Option<Seq<char>>, Map<Seq<char>, nat>),
}

/// The reassembly rule chosen for the decomposition `id`: the first rule never
/// used, whose count becomes 1; otherwise the first of the least used rules,
/// whose count grows by one.
pub open spec fn select_rule(usage: Map<Seq<char>, nat>, id: Seq<char>, rules: Seq<Seq<char>>) -> Pick {
    if rules.len() == 0 {
        Pick::Chosen(None, usage)
    } else {
        match first_unused(usage, id, rules, 0) {
            Some(i) => Pick::Chosen(Some(rules[i]), usage.insert(usage_key(id, rules[i]), 1)),
            None => {
                let b = least_used(usage, id, rules, rules.len() as int);
                let k = usage_key(id, rules[b]);
                if usage[k] + 1 > usize::MAX {
                    Pick::Overflow
                } else {
                    Pick::Chosen(Some(rules[b]), usage.insert(k, usage[k] + 1))
                }
            },
        }
    }
}

proof fn lemma_first_unused(usage: Map<Seq<char>, nat>, id: Seq<char>, rules: Seq<Seq<char>>, i: int)
    requires
        0 <= i,
    ensures
        first_unused(usage, id, rules, i) matches Some(j) ==> i <= j < rules.len()
            && !usage.contains_key(usage_key(id, rules[j])) && forall|k: int|
            i <= k < j ==> usage.contains_key(#[trigger] usage_key(id, rules[k])),
        first_unused(usage, id, rules, i) is None ==> forall|k: int|
            i <= k < rules.len() ==> usage.contains_key(#[trigger] usage_key(id, rules[k])),
    decreases rules.len() - i,
{
    if i < rules.len() && usage.contains_key(usage_key(id, rules[i])) {
        lemma_first_unused(usage, id, rules, i + 1);
    }
}

/// Every rule counted in `a` is counted in `b`, at least as often.
pub open spec fn usage_grows(a: Map<Seq<char>, nat>, b: Map<Seq<char>, nat>) -> bool {
    forall|k: Seq<char>| #[trigger] a.contains_key(k) ==> b.contains_key(k) && a[k] <= b[k]
}

/// Choosing a reassembly rule only adds counts or makes them grow.
pub proof fn lemma_select_rule_grows(usage: Map<Seq<char>, nat>, id: Seq<char>, rules: Seq<Seq<char>>)
    ensures
        select_rule(usage, id, rules) matches Pick::Chosen(_, after) ==> usage_grows(usage, after),
{
    lemma_first_unused(usage, id, rules, 0);
}

pub proof fn lemma_least_used(usage: Map<Seq<char>, nat>, id: Seq<char>, rules: Seq<Seq<char>>, n: int)
    requires
        1 <= n <= rules.len(),
    ensures
        0 <= least_used(usage, id, rules, n) < n,
        forall|k: int|
            0 <= k < n ==> count_of(usage, id, rules[least_used(usage, id, rules, n)]) <= count_of(
                usage,
                id,
                #[trigger] rules[k],
            ),
        forall|k: int|
            0 <= k < least_used(usage, id, rules, n) ==> count_of(usage, id, rules[least_used(usage, id, rules, n)])
                < count_of(usage, id, #[trigger] rules[k]),
    decreases n,
{
    if n > 1 {
        lemma_least_used(usage, id, rules, n - 1);
    }
}

/// Chooses the reassembly rule for the decomposition `id` and counts its use;
/// `Err(())` where the count of the rule to choose is already `usize::MAX`.
pub fn get_reassembly(usage: &mut RuleUsage, id: &str, rules: &Vec<String>) -> (r: Result<Option<String>, ()>)
    requires
        old(usage).wf(),
    ensures
        final(usage).wf(),
        match select_rule(old(usage).counts(), id@, strs(rules@)) {
            Pick::Overflow => r is Err && final(usage).counts() == old(usage).counts(),
            Pick::Chosen(best, after) => r matches Ok(b) && after == final(usage).counts() && match b {
                Some(s) => best == Some(s@),
                None => best is None,
            },
        },
{
    let ghost rs = strs(rules@);
    let ghost u0 = usage.counts();
    let mut best: Option<usize> = None;
    let mut count: Option<usize> = None;
    let mut i: usize = 0;
    proof {
        lemma_first_unused(u0, id@, rs, 0);
        usage.lemma_counts_bounded();
    }
    while i < rules.len()
        invariant
            i <= rules.len(),
            usage.wf(),
            usage.counts() == u0,
            u0 == old(usage).counts(),
            rs == strs(rules@),
            forall|k: Seq<char>| #[trigger] u0.contains_key(k) ==> u0[k] <= usize::MAX,
            forall|k: int| 0 <= k < i ==> u0.contains_key(#[trigger] usage_key(id@, rs[k])),
            i == 0 <==> best is None,
            best matches Some(b) ==> b < i,
            best is None <==> count is None,
            best matches Some(b) ==> b == least_used(u0, id@, rs, i as int) && count == Some(
                u0[usage_key(id@, rs[b as int])] as usize,
            ),
        decreases rules.len() - i,
    {
        let mut key = String::from_str(id);
        key.append(rules[i].as_str());
        assert(key@ == usage_key(id@, rs[i as int]));
        match usage.get(&key) {
            Some(u) => {
                match count {
                    Some(c) => {
                        if u < c {
                            best = Some(i);
                            count = Some(u);
                        }
                    },
                    None => {
                        best = Some(i);
                        count = Some(u);
                    },
                }
            },
            None => {
                proof {
                    lemma_first_unused(u0, id@, rs, 0);
                    assert(first_unused(u0, id@, rs, 0) == Some(i as int)) by {
                        lemma_first_unused_is(u0, id@, rs, i as int);
                    }
                }
                usage.set(&key, 1);
                assert(rs.len() > 0);
                assert(select_rule(u0, id@, rs) == Pick::Chosen(
                    Some(rs[i as int]),
                    u0.insert(usage_key(id@, rs[i as int]), 1),
                ));
                return Ok(Some(rules[i].clone()));
            },
        }
        i = i + 1;
    }
    proof {
        lemma_first_unused_none(u0, id@, rs);
    }
    match best {
        Some(b) => {
            let c = count.unwrap();
            if c == usize::MAX {
                return Err(());
            }
            let mut key = String::from_str(id);
            key.append(rules[b].as_str());
            usage.set(&key, c + 1);
            Ok(Some(rules[b].clone()))
        },
        None => Ok(None),
    }
}

proof fn lemma_first_unused_is(usage: Map<Seq<char>, nat>, id: Seq<char>, rules: Seq<Seq<char>>, i: int)
    requires
        0 <= i < rules.len(),
        !usage.contains_key(usage_key(id, rules[i])),
        forall|k: int| 0 <= k < i ==> usage.contains_key(#[trigger] usage_key(id, rules[k])),
    ensures
        first_unused(usage, id, rules, 0) == Some(i),
{
    lemma_first_unused_from(usage, id, rules, 0, i);
}

proof fn lemma_first_unused_from(usage: Map<Seq<char>, nat>, id: Seq<char>, rules: Seq<Seq<char>>, j: int, i: int)
    requires
        0 <= j <= i < rules.len(),
        !usage.contains_key(usage_key(id, rules[i])),
        forall|k: int| 0 <= k < i ==> usage.contains_key(#[trigger] usage_key(id, rules[k])),
    ensures
        first_unused(usage, id, rules, j) == Some(i),
    decreases i - j,
{
    if j < i {
        lemma_first_unused_from(usage, id, rules, j + 1, i);
    }
}

proof fn lemma_first_unused_none(usage: Map<Seq<char>, nat>, id: Seq<char>, rules: Seq<Seq<char>>)
    requires
        forall|k: int| 0 <= k < rules.len() ==> usage.contains_key(#[trigger] usage_key(id, rules[k])),
    ensures
        first_unused(usage, id, rules, 0) is None,
{
    lemma_first_unused(usage, id, rules, 0);
}


// ------------------------------------------------------------------------
// Laws of the choice
// ------------------------------------------------------------------------

/// Choosing a reassembly rule picks one of the rules; a rule never used before
/// takes precedence, the first such; otherwise a rule used least is picked, the
/// first such. The count of the chosen rule grows by one (from nothing to one),
/// and no other count changes.
pub proof fn lemma_select_rule(usage: Map<Seq<char>, nat>, id: Seq<char>, rules: Seq<Seq<char>>)
    requires
        rules.len() > 0,
        !(select_rule(usage, id, rules) is Overflow),
    ensures
        select_rule(usage, id, rules) matches Pick::Chosen(Some(r), after) && exists|i: int|
            0 <= i < rules.len() && rules[i] == r && after == usage.insert(
                usage_key(id, r),
                if usage.contains_key(usage_key(id, r)) {
                    usage[usage_key(id, r)] + 1
                } else {
                    1
                },
            ) && (!usage.contains_key(usage_key(id, r)) ==> forall|k: int|
                0 <= k < i ==> usage.contains_key(#[trigger] usage_key(id, rules[k])))
                && (usage.contains_key(usage_key(id, r)) ==> forall|k: int|
                0 <= k < rules.len() ==> usage.contains_key(#[trigger] usage_key(id, rules[k]))
                && usage[usage_key(id, r)] <= usage[usage_key(id, rules[k])]),
{
    lemma_first_unused(usage, id, rules, 0);
    match first_unused(usage, id, rules, 0) {
        Some(i) => {
            assert(rules[i] == rules[i]);
        },
        None => {
            let b = least_used(usage, id, rules, rules.len() as int);
            lemma_least_used(usage, id, rules, rules.len() as int);
            assert forall|k: int| 0 <= k < rules.len() implies usage.contains_key(
                #[trigger] usage_key(id, rules[k]),
            ) && usage[usage_key(id, rules[b])] <= usage[usage_key(id, rules[k])] by {
                assert(count_of(usage, id, rules[b]) <= count_of(usage, id, rules[k]));
            }
        },
    }
}

} // verus!
