//! Tallying, for each pattern, how often each distinct matched text occurs.
use crate::group::{converted_all, forest_leaves, shadow_forest, shapes_of, From, GroupTree, GroupVec, Shape};
use crate::number::{bump, format_count, grouped};
use crate::pattern::{find_all, regex_find_all, Analyzer, Pattern};
use vstd::prelude::*;

verus! {

/// The state kept for one pattern: each distinct matched text with the number of
/// times it occurred, in order of first sighting.
#[derive(Debug)]
pub struct Inner {
    pub pattern: Pattern,
    pub matches: Vec<(String, u64)>,
}

impl From<Pattern> for Inner {
    open spec fn converts(other: Pattern, r: Inner) -> bool {
        r.pattern == other && r.matches@.len() == 0
    }

    fn from(other: Pattern) -> (r: Inner) {
        Inner { pattern: other, matches: Vec::new() }
    }
}

/// A frequency table as text and count pairs.
pub open spec fn table_of(v: Seq<(String, u64)>) -> Seq<(Seq<char>, u64)> {
    v.map_values(|e: (String, u64)| (e.0@, e.1))
}

/// `t` after one more sighting of `m`: the count of the first entry for `m` goes
/// up by one, or `(m, 1)` is added at the end.
pub open spec fn record(t: Seq<(Seq<char>, u64)>, m: Seq<char>) -> Seq<(Seq<char>, u64)>
    decreases t.len(),
{
    if t.len() == 0 {
        seq![(m, 1u64)]
    } else if t[0].0 == m {
        t.update(0, (m, bump(t[0].1)))
    } else {
        seq![t[0]] + record(t.subrange(1, t.len() as int), m)
    }
}

/// `t` after a sighting of each text of `ms`, in order.
pub open spec fn record_all(t: Seq<(Seq<char>, u64)>, ms: Seq<Seq<char>>) -> Seq<
    (Seq<char>, u64),
>
    decreases ms.len(),
{
    if ms.len() == 0 {
        t
    } else {
        record(record_all(t, ms.subrange(0, ms.len() - 1)), ms[ms.len() - 1])
    }
}

/// The sum of the counts of `t`.
pub open spec fn table_sum(t: Seq<(Seq<char>, u64)>) -> int
    decreases t.len(),
{
    if t.len() == 0 {
        0
    } else {
        t[0].1 + table_sum(t.subrange(1, t.len() as int))
    }
}

/// No two entries of `t` have the same text.
pub open spec fn keys_unique(t: Seq<(Seq<char>, u64)>) -> bool {
    forall|i: int, j: int| 0 <= i < j < t.len() ==> #[trigger] t[i].0 != #[trigger] t[j].0
}

/// Some entry of `t` has the text `m`.
pub open spec fn has_key(t: Seq<(Seq<char>, u64)>, m: Seq<char>) -> bool {
    exists|i: int| 0 <= i < t.len() && #[trigger] t[i].0 == m
}

/// The entries of `t` that a report shows: the first `top` in order of first
/// sighting (not the most frequent), or all if fewer.
pub open spec fn shown(t: Seq<(Seq<char>, u64)>, top: nat) -> Seq<(Seq<char>, u64)> {
    if top < t.len() {
        t.subrange(0, top as int)
    } else {
        t
    }
}

/// One line `\ttext: count` for each entry of `t`.
pub open spec fn table_report(t: Seq<(Seq<char>, u64)>) -> Seq<char>
    decreases t.len(),
{
    if t.len() == 0 {
        Seq::empty()
    } else {
        let e = t[t.len() - 1];
        table_report(t.subrange(0, t.len() - 1)) + seq!['\t'] + e.0 + seq![':', ' '] + grouped(
            e.1 as nat,
        ) + seq!['\n']
    }
}

/// The name and frequency table of each pattern state.
pub open spec fn match_entries(e: Seq<Inner>) -> Seq<(Seq<char>, Seq<(Seq<char>, u64)>)> {
    e.map_values(|x: Inner| (x.pattern.spec_name(), table_of(x.matches@)))
}

/// For each pattern in turn, its name on a line of its own and then the shown
/// entries of its table.
pub open spec fn match_report(e: Seq<(Seq<char>, Seq<(Seq<char>, u64)>)>, top: nat) -> Seq<char>
    decreases e.len(),
{
    if e.len() == 0 {
        Seq::empty()
    } else {
        let x = e[e.len() - 1];
        match_report(e.subrange(0, e.len() - 1), top) + x.0 + seq!['\n'] + table_report(
            shown(x.1, top),
        )
    }
}

proof fn lemma_record_at(t: Seq<(Seq<char>, u64)>, m: Seq<char>, j: int)
    requires
        0 <= j <= t.len(),
        forall|k: int| 0 <= k < j ==> #[trigger] t[k].0 != m,
        j < t.len() ==> t[j].0 == m,
    ensures
        j < t.len() ==> record(t, m) == t.update(j, (m, bump(t[j].1))),
        j == t.len() ==> record(t, m) == t.push((m, 1u64)),
    decreases j,
{
    if t.len() == 0 {
        assert(record(t, m) =~= t.push((m, 1u64)));
    } else if j == 0 {
    } else {
        let r = t.subrange(1, t.len() as int);
        assert forall|k: int| 0 <= k < j - 1 implies #[trigger] r[k].0 != m by {
            assert(r[k] == t[k + 1]);
        }
        lemma_record_at(r, m, j - 1);
        if j < t.len() {
            assert(record(t, m) =~= t.update(j, (m, bump(t[j].1))));
        } else {
            assert(record(t, m) =~= t.push((m, 1u64)));
        }
    }
}

/// Counts one more sighting of `m` in `table`.
fn record_one(table: &mut Vec<(String, u64)>, m: String)
    ensures
        table_of(final(table)@) == record(table_of(old(table)@), m@),
{
    let ghost t = table_of(table@);
    let mut j: usize = 0;
    let mut found = false;
    while !found && j < table.len()
        invariant
            j <= table@.len(),
            table@ == old(table)@,
            t == table_of(table@),
            forall|k: int| 0 <= k < j ==> #[trigger] t[k].0 != m@,
            found ==> j < table@.len() && t[j as int].0 == m@,
        decreases table@.len() - j + (if found { 0int } else { 1int }),
    {
        if table[j].0 == m {
            found = true;
        } else {
            j = j + 1;
        }
    }
    proof {
        lemma_record_at(t, m@, j as int);
    }
    if found {
        let c = table[j].1;
        if c < u64::MAX {
            table[j].1 = c + 1;
        }
        assert(table_of(table@) =~= t.update(j as int, (m@, bump(c))));
    } else {
        table.push((m, 1));
        assert(table_of(table@) =~= t.push((m@, 1u64)));
    }
}

/// Tallies, for each pattern of a forest, how often each distinct matched text
/// occurs; a report shows at most `top` texts per pattern, the first ones in order
/// of first sighting rather than the most frequent.
#[derive(Debug)]
pub struct PatternMatcher {
    patterns: GroupVec<Inner>,
    top: usize,
}

impl PatternMatcher {
    /// The shadow forest: each leaf holds the position of its pattern in `entries`.
    pub closed spec fn shadow(&self) -> Seq<Shape> {
        shapes_of(self.patterns.inner@)
    }

    /// The state of each pattern, in depth-first order of the forest's leaves.
    pub closed spec fn entries(&self) -> Seq<Inner> {
        self.patterns.flattened@
    }

    /// Every table holds each text at most once.
    pub open spec fn tables_distinct(&self) -> bool {
        forall|i: int|
            0 <= i < self.entries().len() ==> keys_unique(
                table_of(#[trigger] self.entries()[i].matches@),
            )
    }

    /// The most texts a report shows per pattern.
    pub closed spec fn spec_top(&self) -> nat {
        self.top as nat
    }

    /// A matcher over the patterns of `tree`, every table empty.
    pub fn new(tree: Vec<GroupTree<Pattern>>, top: usize) -> (r: Self)
        ensures
            r.shadow() == shadow_forest(tree@),
            converted_all::<Pattern, Inner>(forest_leaves(tree@), r.entries()),
            r.spec_top() == top,
            r.tables_distinct(),
    {
        let ghost l = forest_leaves(tree@);
        let patterns = GroupVec::from_tree::<Pattern>(tree);
        let r = PatternMatcher { patterns, top };
        assert forall|i: int| 0 <= i < r.entries().len() implies keys_unique(
            table_of(#[trigger] r.entries()[i].matches@),
        ) by {
            assert(Inner::converts(l[i], r.entries()[i]));
            assert(table_of(r.entries()[i].matches@).len() == 0);
        }
        r
    }
}

impl Analyzer<Pattern> for PatternMatcher {
    type Analysis = Vec<(String, u64)>;

    /// Counts every non-overlapping match of every pattern in `line`.
    fn analyze(&mut self, line: String)
        ensures
            final(self).shadow() == old(self).shadow(),
            final(self).spec_top() == old(self).spec_top(),
            final(self).entries().len() == old(self).entries().len(),
            forall|i: int|
                0 <= i < old(self).entries().len() ==> {
                    let before = #[trigger] old(self).entries()[i];
                    let after = final(self).entries()[i];
                    &&& after.pattern == before.pattern
                    &&& table_of(after.matches@) == record_all(
                        table_of(before.matches@),
                        regex_find_all(before.pattern.source(), line@),
                    )
                    &&& forall|k: Seq<char>|
                        #[trigger] has_key(table_of(after.matches@), k) <==> has_key(
                            table_of(before.matches@),
                            k,
                        ) || regex_find_all(before.pattern.source(), line@).contains(k)
                },
            old(self).tables_distinct() ==> final(self).tables_distinct(),
    {
        let n = self.patterns.flattened.len();
        let mut i: usize = 0;
        while i < n
            invariant
                n == old(self).entries().len(),
                i <= n,
                self.shadow() == old(self).shadow(),
                self.spec_top() == old(self).spec_top(),
                self.entries().len() == n,
                forall|k: int|
                    0 <= k < n ==> {
                        let before = #[trigger] old(self).entries()[k];
                        let after = self.entries()[k];
                        &&& after.pattern == before.pattern
                        &&& table_of(after.matches@) == if k < i {
                            record_all(
                                table_of(before.matches@),
                                regex_find_all(before.pattern.source(), line@),
                            )
                        } else {
                            table_of(before.matches@)
                        }
                    },
            decreases n - i,
        {
            let found = find_all(&self.patterns.flattened[i].pattern, line.as_str());
            let ghost ms = regex_find_all(self.patterns.flattened@[i as int].pattern.source(), line@);
            let ghost t0 = table_of(self.patterns.flattened@[i as int].matches@);
            let mut table: Vec<(String, u64)> = Vec::new();
            std::mem::swap(&mut table, &mut self.patterns.flattened[i].matches);
            assert(table_of(table@) == t0);
            let mut j: usize = 0;
            assert(ms.subrange(0, 0) =~= Seq::<Seq<char>>::empty());
            while j < found.len()
                invariant
                    j <= found@.len(),
                    found@.map_values(|m: String| m@) == ms,
                    table_of(table@) == record_all(t0, ms.subrange(0, j as int)),
                decreases found@.len() - j,
            {
                let m = found[j].clone();
                assert(ms[j as int] == m@);
                record_one(&mut table, m);
                assert(ms.subrange(0, j + 1).subrange(0, j as int) =~= ms.subrange(0, j as int));
                j = j + 1;
            }
            assert(ms.subrange(0, j as int) =~= ms);
            std::mem::swap(&mut table, &mut self.patterns.flattened[i].matches);
            i = i + 1;
        }
        proof {
            assert forall|k: int| 0 <= k < n implies ({
                let before = #[trigger] old(self).entries()[k];
                let after = self.entries()[k];
                let ms = regex_find_all(before.pattern.source(), line@);
                &&& forall|m: Seq<char>|
                    #[trigger] has_key(table_of(after.matches@), m) <==> has_key(
                        table_of(before.matches@),
                        m,
                    ) || ms.contains(m)
                &&& keys_unique(table_of(before.matches@)) ==> keys_unique(
                    table_of(after.matches@),
                )
            }) by {
                let before = old(self).entries()[k];
                let ms = regex_find_all(before.pattern.source(), line@);
                lemma_match_keys(table_of(before.matches@), ms);
                assert forall|m: Seq<char>| ms.contains(m) implies has_key(
                    record_all(table_of(before.matches@), ms),
                    m,
                ) by {
                    let j = choose|j: int| 0 <= j < ms.len() && ms[j] == m;
                    assert(has_key(record_all(table_of(before.matches@), ms), ms[j]));
                }
            }
            if old(self).tables_distinct() {
                assert forall|k: int| 0 <= k < self.entries().len() implies keys_unique(
                    table_of(#[trigger] self.entries()[k].matches@),
                ) by {
                    assert(keys_unique(table_of(old(self).entries()[k].matches@)));
                }
            }
        }
    }

    /// The report: each pattern in flattened order, its name and then at most
    /// `top` of its texts, each as `\ttext: count`: the first texts in order of first
    /// sighting, not the most frequent ones.
    fn format(&self) -> (r: String)
        ensures
            r@ == match_report(match_entries(self.entries()), self.spec_top()),
    {
        let ghost e = match_entries(self.entries());
        let flat = &self.patterns.flattened;
        let mut out = String::new();
        let mut i: usize = 0;
        assert(e.subrange(0, 0) =~= Seq::<(Seq<char>, Seq<(Seq<char>, u64)>)>::empty());
        while i < flat.len()
            invariant
                i <= flat@.len(),
                e == match_entries(flat@),
                out@ == match_report(e.subrange(0, i as int), self.top as nat),
            decreases flat@.len() - i,
        {
            let entry = &flat[i];
            let ghost t = table_of(entry.matches@);
            proof {
                reveal_strlit("\n");
            }
            out.append(entry.pattern.name());
            out.append("\n");
            let limit = if self.top < entry.matches.len() {
                self.top
            } else {
                entry.matches.len()
            };
            let ghost s = shown(t, self.top as nat);
            let ghost head = out@;
            let mut j: usize = 0;
            assert(s.subrange(0, 0) =~= Seq::<(Seq<char>, u64)>::empty());
            while j < limit
                invariant
                    j <= limit,
                    limit == s.len(),
                    limit <= entry.matches@.len(),
                    t == table_of(entry.matches@),
                    s == shown(t, self.top as nat),
                    out@ == head + table_report(s.subrange(0, j as int)),
                decreases limit - j,
            {
                let (text, count) = (&entry.matches[j].0, entry.matches[j].1);
                proof {
                    reveal_strlit("\t");
                    reveal_strlit(": ");
                    reveal_strlit("\n");
                }
                out.append("\t");
                out.append(text.as_str());
                out.append(": ");
                let c = format_count(count);
                out.append(c.as_str());
                out.append("\n");
                proof {
                    let q = s.subrange(0, j + 1);
                    assert(q.subrange(0, j as int) =~= s.subrange(0, j as int));
                    assert(q[j as int] == s[j as int]);
                    assert(s[j as int] == t[j as int]);
                    assert(out@ =~= head + table_report(q));
                }
                j = j + 1;
            }
            assert(s.subrange(0, j as int) =~= s);
            proof {
                let q = e.subrange(0, i + 1);
                assert(q.subrange(0, i as int) =~= e.subrange(0, i as int));
                assert(q[i as int] == e[i as int]);
                assert(out@ =~= match_report(q, self.top as nat));
            }
            i = i + 1;
        }
        assert(e.subrange(0, i as int) =~= e);
        out
    }
}


proof fn lemma_table_sum_nonneg(t: Seq<(Seq<char>, u64)>)
    ensures
        table_sum(t) >= 0,
    decreases t.len(),
{
    if t.len() > 0 {
        lemma_table_sum_nonneg(t.subrange(1, t.len() as int));
    }
}

proof fn lemma_record_sum(t: Seq<(Seq<char>, u64)>, m: Seq<char>)
    requires
        table_sum(t) < u64::MAX,
    ensures
        table_sum(record(t, m)) == table_sum(t) + 1,
    decreases t.len(),
{
    if t.len() == 0 {
        let r = record(t, m);
        assert(r.subrange(1, 1) =~= Seq::<(Seq<char>, u64)>::empty());
        assert(table_sum(r.subrange(1, 1)) == 0);
    } else {
        let rest = t.subrange(1, t.len() as int);
        lemma_table_sum_nonneg(rest);
        let r = record(t, m);
        if t[0].0 == m {
            assert(r.subrange(1, r.len() as int) =~= rest);
        } else {
            lemma_record_sum(rest, m);
            assert(r.subrange(1, r.len() as int) =~= record(rest, m));
        }
    }
}

/// Every sighting is counted once: recording the texts `ms` into `t` adds exactly
/// `ms.len()` to the sum of the counts, while no count reaches the largest `u64`.
pub proof fn lemma_match_totals(t: Seq<(Seq<char>, u64)>, ms: Seq<Seq<char>>)
    requires
        table_sum(t) + ms.len() <= u64::MAX,
    ensures
        table_sum(record_all(t, ms)) == table_sum(t) + ms.len(),
    decreases ms.len(),
{
    if ms.len() > 0 {
        let p = ms.subrange(0, ms.len() - 1);
        lemma_match_totals(t, p);
        lemma_record_sum(record_all(t, p), ms[ms.len() - 1]);
    }
}

proof fn lemma_record_keys(t: Seq<(Seq<char>, u64)>, m: Seq<char>)
    ensures
        has_key(record(t, m), m),
        forall|k: Seq<char>| has_key(t, k) ==> #[trigger] has_key(record(t, m), k),
        forall|k: Seq<char>| #[trigger] has_key(record(t, m), k) ==> has_key(t, k) || k == m,
        keys_unique(t) ==> keys_unique(record(t, m)),
    decreases t.len(),
{
    let r = record(t, m);
    if t.len() == 0 {
        assert(r[0].0 == m);
    } else if t[0].0 == m {
        assert(r[0].0 == m);
        assert(forall|i: int| 0 <= i < t.len() ==> #[trigger] r[i].0 == t[i].0);
        assert forall|k: Seq<char>| has_key(t, k) implies has_key(r, k) by {
            let i = choose|i: int| 0 <= i < t.len() && #[trigger] t[i].0 == k;
            assert(r[i].0 == k);
        }
        assert forall|k: Seq<char>| has_key(r, k) implies has_key(t, k) by {
            let i = choose|i: int| 0 <= i < r.len() && #[trigger] r[i].0 == k;
            assert(t[i].0 == k);
        }
    } else {
        let rest = t.subrange(1, t.len() as int);
        let q = record(rest, m);
        lemma_record_keys(rest, m);
        assert(r == seq![t[0]] + q);
        assert(forall|i: int| 0 <= i < q.len() ==> #[trigger] r[i + 1] == q[i]);
        assert(forall|i: int| 0 <= i < rest.len() ==> #[trigger] t[i + 1] == rest[i]);
        let iq = choose|i: int| 0 <= i < q.len() && #[trigger] q[i].0 == m;
        assert(r[iq + 1].0 == m);
        assert forall|k: Seq<char>| has_key(t, k) implies has_key(r, k) by {
            let i = choose|i: int| 0 <= i < t.len() && #[trigger] t[i].0 == k;
            if i == 0 {
                assert(r[0].0 == k);
            } else {
                assert(rest[i - 1].0 == k);
                assert(has_key(rest, k));
                assert(has_key(q, k));
                let j = choose|j: int| 0 <= j < q.len() && #[trigger] q[j].0 == k;
                assert((seq![t[0]] + q)[j + 1] == q[j]);
                assert(r[j + 1].0 == k);
            }
        }
        assert forall|k: Seq<char>| has_key(r, k) implies has_key(t, k) || k == m by {
            let i = choose|i: int| 0 <= i < r.len() && #[trigger] r[i].0 == k;
            if i == 0 {
                assert(t[0].0 == k);
            } else {
                assert((seq![t[0]] + q)[i] == q[i - 1]);
                assert(q[i - 1].0 == k);
                assert(has_key(q, k));
                if k != m {
                    let j = choose|j: int| 0 <= j < rest.len() && #[trigger] rest[j].0 == k;
                    assert(t[j + 1].0 == k);
                }
            }
        }
        if keys_unique(t) {
            assert forall|i: int, j: int| 0 <= i < j < rest.len() implies #[trigger] rest[i].0
                != #[trigger] rest[j].0 by {
                assert(t[i + 1].0 != t[j + 1].0);
            }
            assert(!has_key(rest, t[0].0)) by {
                if has_key(rest, t[0].0) {
                    let j = choose|j: int| 0 <= j < rest.len() && #[trigger] rest[j].0 == t[0].0;
                    assert(t[j + 1].0 == t[0].0);
                }
            }
            assert(!has_key(q, t[0].0));
            assert forall|i: int, j: int| 0 <= i < j < r.len() implies #[trigger] r[i].0
                != #[trigger] r[j].0 by {
                if i == 0 {
                    assert(r[j].0 == q[j - 1].0);
                    if r[i].0 == r[j].0 {
                        assert(has_key(q, t[0].0));
                    }
                } else {
                    assert(r[i].0 == q[i - 1].0);
                    assert(r[j].0 == q[j - 1].0);
                }
            }
        }
    }
}

/// Each distinct text is one key: recording `ms` into a table `t` keeps its texts
/// distinct if they were, gives every text of `ms` an entry, keeps every entry of
/// `t`, and adds no entry for any other text.
pub proof fn lemma_match_keys(t: Seq<(Seq<char>, u64)>, ms: Seq<Seq<char>>)
    ensures
        keys_unique(t) ==> keys_unique(record_all(t, ms)),
        forall|i: int| 0 <= i < ms.len() ==> has_key(record_all(t, ms), #[trigger] ms[i]),
        forall|k: Seq<char>| has_key(t, k) ==> #[trigger] has_key(record_all(t, ms), k),
        forall|k: Seq<char>|
            #[trigger] has_key(record_all(t, ms), k) ==> has_key(t, k) || ms.contains(k),
    decreases ms.len(),
{
    if ms.len() > 0 {
        let p = ms.subrange(0, ms.len() - 1);
        let m = ms[ms.len() - 1];
        lemma_match_keys(t, p);
        lemma_record_keys(record_all(t, p), m);
        assert forall|i: int| 0 <= i < ms.len() implies has_key(
            record_all(t, ms),
            #[trigger] ms[i],
        ) by {
            if i < ms.len() - 1 {
                assert(p[i] == ms[i]);
            }
        }
        assert forall|k: Seq<char>| has_key(record_all(t, ms), k) implies has_key(t, k)
            || ms.contains(k) by {
            if !has_key(t, k) && k != m {
                assert(p.contains(k));
                let i = choose|i: int| 0 <= i < p.len() && p[i] == k;
                assert(ms[i] == k);
            }
            if k == m {
                assert(ms[ms.len() - 1] == k);
            }
        }
    }
}

/// A report shows at most `top` entries of a table, and never more than it holds:
/// the first ones, in table order.
pub proof fn lemma_top_cutoff(t: Seq<(Seq<char>, u64)>, top: nat)
    ensures
        shown(t, top).len() <= top,
        shown(t, top).len() <= t.len(),
        shown(t, top).len() == t.len() || shown(t, top).len() == top,
        shown(t, top) == t.subrange(0, shown(t, top).len() as int),
        top >= t.len() ==> shown(t, top) == t,
        keys_unique(t) ==> keys_unique(shown(t, top)),
{
    assert(t.subrange(0, t.len() as int) =~= t);
}


/// `t` after the matches of the expression `source` in each of `lines`, in order:
/// what successive calls of `analyze` make of a pattern's table.
pub open spec fn record_lines(t: Seq<(Seq<char>, u64)>, source: Seq<char>, lines: Seq<Seq<char>>) -> Seq<
    (Seq<char>, u64),
>
    decreases lines.len(),
{
    if lines.len() == 0 {
        t
    } else {
        record_all(
            record_lines(t, source, lines.subrange(0, lines.len() - 1)),
            regex_find_all(source, lines[lines.len() - 1]),
        )
    }
}

/// The number of non-overlapping matches of the expression `source` over all of
/// `lines`.
pub open spec fn total_matches(source: Seq<char>, lines: Seq<Seq<char>>) -> int
    decreases lines.len(),
{
    if lines.len() == 0 {
        0
    } else {
        total_matches(source, lines.subrange(0, lines.len() - 1)) + regex_find_all(
            source,
            lines[lines.len() - 1],
        ).len()
    }
}

/// Over a whole run of lines, the counts of a table add up to the number of
/// matches in all of them, while no count reaches the largest `u64`, and its
/// texts stay distinct.
pub proof fn lemma_match_totals_lines(
    t: Seq<(Seq<char>, u64)>,
    source: Seq<char>,
    lines: Seq<Seq<char>>,
)
    requires
        table_sum(t) + total_matches(source, lines) <= u64::MAX,
    ensures
        table_sum(record_lines(t, source, lines)) == table_sum(t) + total_matches(source, lines),
        keys_unique(t) ==> keys_unique(record_lines(t, source, lines)),
    decreases lines.len(),
{
    if lines.len() > 0 {
        let p = lines.subrange(0, lines.len() - 1);
        let ms = regex_find_all(source, lines[lines.len() - 1]);
        lemma_match_totals_lines(t, source, p);
        lemma_match_totals(record_lines(t, source, p), ms);
        lemma_match_keys(record_lines(t, source, p), ms);
    }
}

} // verus!
