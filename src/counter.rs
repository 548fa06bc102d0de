//! Counting, for each pattern, the lines in which it matches.
use crate::group::{
    converted_all, forest_leaves, index_range, lemma_flatten_round_trip, lemma_map_multiset,
    shadow_forest, shape_of, shapes_indices, shapes_of, From, GroupTree, GroupVec, Shape,
};
use crate::number::{bump, format_count, grouped};
use crate::pattern::{is_match, regex_is_match, Analyzer, Pattern};
use vstd::prelude::*;

verus! {

/// The state kept for one pattern: the number of lines it matched.
#[derive(Debug)]
pub struct Inner {
    pub pattern: Pattern,
    pub count: u64,
}

impl From<Pattern> for Inner {
    open spec fn converts(other: Pattern, r: Inner) -> bool {
        r.pattern == other && r.count == 0
    }

    fn from(other: Pattern) -> (r: Inner) {
        Inner { pattern: other, count: 0 }
    }
}

/// A count after one more line: one up if the expression `source` matches
/// somewhere in `line`, however often, and held at the largest `u64`.
pub open spec fn count_step(n: u64, source: Seq<char>, line: Seq<char>) -> u64 {
    if regex_is_match(source, line) {
        bump(n)
    } else {
        n
    }
}

/// A count after each of `lines` in order: what successive calls of `analyze`
/// make of it.
pub open spec fn count_lines(n: u64, source: Seq<char>, lines: Seq<Seq<char>>) -> u64
    decreases lines.len(),
{
    if lines.len() == 0 {
        n
    } else {
        count_step(
            count_lines(n, source, lines.subrange(0, lines.len() - 1)),
            source,
            lines[lines.len() - 1],
        )
    }
}

/// The number of `lines` in which the expression `source` matches.
pub open spec fn matching_lines(source: Seq<char>, lines: Seq<Seq<char>>) -> nat
    decreases lines.len(),
{
    if lines.len() == 0 {
        0
    } else {
        matching_lines(source, lines.subrange(0, lines.len() - 1)) + if regex_is_match(
            source,
            lines[lines.len() - 1],
        ) {
            1nat
        } else {
            0nat
        }
    }
}

/// Over a whole run of lines, a count that starts at zero ends at the number of
/// lines that match, one per line however many matches it holds, while there are
/// fewer lines than the largest `u64`.
pub proof fn lemma_count_lines(source: Seq<char>, lines: Seq<Seq<char>>)
    requires
        lines.len() < u64::MAX,
    ensures
        count_lines(0, source, lines) == matching_lines(source, lines),
        matching_lines(source, lines) <= lines.len(),
    decreases lines.len(),
{
    if lines.len() > 0 {
        lemma_count_lines(source, lines.subrange(0, lines.len() - 1));
    }
}

/// The indentation of the children of a group printed at `indent`.
pub open spec fn next_indent(indent: nat) -> nat {
    if indent + 2 <= usize::MAX {
        indent + 2
    } else {
        usize::MAX as nat
    }
}

/// `n` spaces.
pub open spec fn spaces(n: nat) -> Seq<char> {
    Seq::new(n, |i: int| ' ')
}

/// The name and count of each pattern state.
pub open spec fn count_entries(e: Seq<Inner>) -> Seq<(Seq<char>, u64)> {
    e.map_values(|x: Inner| (x.pattern.spec_name(), x.count))
}

/// The report of one shadow tree: a leaf prints `name: count` after `indent`
/// spaces; a group prints `name:` after `indent` spaces and then its children,
/// indented two more.
pub open spec fn count_report_tree(t: Shape, entries: Seq<(Seq<char>, u64)>, indent: nat) -> Seq<
    char,
>
    decreases t,
{
    match t {
        Shape::Leaf(i) => if i < entries.len() {
            spaces(indent) + entries[i as int].0 + seq![':', ' '] + grouped(
                entries[i as int].1 as nat,
            ) + seq!['\n']
        } else {
            Seq::empty()
        },
        Shape::Group(name, c) => spaces(indent) + name + seq![':', '\n'] + count_report_forest(
            c,
            entries,
            next_indent(indent),
        ),
    }
}

/// The reports of a sequence of shadow trees, one after the other.
pub open spec fn count_report_forest(
    s: Seq<Shape>,
    entries: Seq<(Seq<char>, u64)>,
    indent: nat,
) -> Seq<char>
    decreases s,
{
    if s.len() == 0 {
        Seq::empty()
    } else {
        count_report_forest(s.subrange(0, s.len() - 1), entries, indent) + count_report_tree(
            s[s.len() - 1],
            entries,
            indent,
        )
    }
}

/// Appends `n` spaces to `out`.
fn push_spaces(out: &mut String, n: usize)
    ensures
        final(out)@ == old(out)@ + spaces(n as nat),
{
    let mut i: usize = 0;
    while i < n
        invariant
            i <= n,
            out@ == old(out)@ + spaces(i as nat),
        decreases n - i,
    {
        proof {
            reveal_strlit(" ");
        }
        out.append(" ");
        assert(out@ =~= old(out)@ + spaces((i + 1) as nat));
        i = i + 1;
    }
}

/// Appends the report of `t` to `out`.
fn render_tree(t: &GroupTree<usize>, flat: &Vec<Inner>, indent: usize, out: &mut String)
    ensures
        final(out)@ == old(out)@ + count_report_tree(shape_of(*t), count_entries(flat@), indent as nat),
    decreases t,
{
    match t {
        GroupTree::Leaf(index) => {
            if *index >= flat.len() {
                return;
            }
            let entry = &flat[*index];
            push_spaces(out, indent);
            out.append(entry.pattern.name());
            proof {
                reveal_strlit(": ");
                reveal_strlit("\n");
            }
            out.append(": ");
            let count = format_count(entry.count);
            out.append(count.as_str());
            out.append("\n");
            assert(out@ =~= old(out)@ + count_report_tree(
                shape_of(*t),
                count_entries(flat@),
                indent as nat,
            ));
        },
        GroupTree::Group { name, group } => {
            proof {
                reveal_strlit(":\n");
            }
            push_spaces(out, indent);
            out.append(name.as_str());
            out.append(":\n");
            let next = if indent <= usize::MAX - 2 {
                indent + 2
            } else {
                usize::MAX
            };
            render_forest(group, flat, next, out);
            assert(out@ =~= old(out)@ + count_report_tree(
                shape_of(*t),
                count_entries(flat@),
                indent as nat,
            ));
        },
    }
}

/// Appends the reports of the trees of `ts` to `out`, one after the other.
fn render_forest(ts: &Vec<GroupTree<usize>>, flat: &Vec<Inner>, indent: usize, out: &mut String)
    ensures
        final(out)@ == old(out)@ + count_report_forest(
            shapes_of(ts@),
            count_entries(flat@),
            indent as nat,
        ),
    decreases ts,
{
    let ghost s = shapes_of(ts@);
    let ghost e = count_entries(flat@);
    proof {
        crate::group::lemma_shapes_of(ts@);
        assert(s.subrange(0, 0) =~= Seq::<Shape>::empty());
    }
    let mut i: usize = 0;
    while i < ts.len()
        invariant
            i <= ts@.len(),
            s == shapes_of(ts@),
            e == count_entries(flat@),
            s.len() == ts@.len(),
            forall|k: int| 0 <= k < ts@.len() ==> #[trigger] s[k] == shape_of(ts@[k]),
            out@ == old(out)@ + count_report_forest(s.subrange(0, i as int), e, indent as nat),
        decreases ts@.len() - i,
    {
        proof {
            assert(decreases_to!(ts => ts@));
            assert(decreases_to!(ts@ => ts@[i as int]));
        }
        render_tree(&ts[i], flat, indent, out);
        proof {
            let q = s.subrange(0, i + 1);
            assert(q.subrange(0, i as int) =~= s.subrange(0, i as int));
            assert(out@ =~= old(out)@ + count_report_forest(q, e, indent as nat));
        }
        i = i + 1;
    }
    assert(s.subrange(0, i as int) =~= s);
}

/// Counts, for each pattern of a forest, the lines in which it matches.
#[derive(Debug)]
pub struct PatternCounter {
    patterns: GroupVec<Inner>,
}

impl PatternCounter {
    /// The shadow forest: each leaf holds the position of its pattern in `entries`.
    pub closed spec fn shadow(&self) -> Seq<Shape> {
        shapes_of(self.patterns.inner@)
    }

    /// The state of each pattern, in depth-first order of the forest's leaves.
    pub closed spec fn entries(&self) -> Seq<Inner> {
        self.patterns.flattened@
    }

    /// A counter over the patterns of `tree`, every count zero.
    pub fn new(tree: Vec<GroupTree<Pattern>>) -> (r: Self)
        ensures
            r.shadow() == shadow_forest(tree@),
            converted_all::<Pattern, Inner>(forest_leaves(tree@), r.entries()),
    {
        let patterns = GroupVec::from_tree::<Pattern>(tree);
        PatternCounter { patterns }
    }
}

impl Analyzer<Pattern> for PatternCounter {
    type Analysis = u64;

    /// Adds one to the count of every pattern that matches somewhere in `line`.
    fn analyze(&mut self, line: String)
        ensures
            final(self).shadow() == old(self).shadow(),
            final(self).entries().len() == old(self).entries().len(),
            forall|i: int|
                0 <= i < old(self).entries().len() ==> {
                    let before = #[trigger] old(self).entries()[i];
                    let after = final(self).entries()[i];
                    &&& after.pattern == before.pattern
                    &&& after.count == count_step(before.count, before.pattern.source(), line@)
                },
    {
        let n = self.patterns.flattened.len();
        let mut i: usize = 0;
        while i < n
            invariant
                n == old(self).entries().len(),
                i <= n,
                self.shadow() == old(self).shadow(),
                self.entries().len() == n,
                forall|k: int|
                    0 <= k < n ==> {
                        let before = #[trigger] old(self).entries()[k];
                        let after = self.entries()[k];
                        &&& after.pattern == before.pattern
                        &&& after.count == if k < i && regex_is_match(
                            before.pattern.source(),
                            line@,
                        ) {
                            bump(before.count)
                        } else {
                            before.count
                        }
                    },
            decreases n - i,
        {
            let hit = is_match(&self.patterns.flattened[i].pattern, line.as_str());
            if hit {
                let c = self.patterns.flattened[i].count;
                if c < u64::MAX {
                    self.patterns.flattened[i].count = c + 1;
                }
            }
            i = i + 1;
        }
    }

    /// The report: the shadow forest in its sorted order, a group as `name:` with
    /// its children indented two spaces more than it, a pattern as `name: count`.
    fn format(&self) -> (r: String)
        ensures
            r@ == count_report_forest(self.shadow(), count_entries(self.entries()), 0),
    {
        let mut out = String::new();
        render_forest(&self.patterns.inner, &self.patterns.flattened, 0, &mut out);
        out
    }
}


/// Walking the shadow forest of a counter built by `new` out of `f`, and taking
/// the name of the pattern at each index met, gives the names of the patterns of
/// `f`, each as often as it stands there.
pub proof fn lemma_counter_names(f: Seq<GroupTree<Pattern>>, c: PatternCounter)
    requires
        c.shadow() == shadow_forest(f),
        converted_all::<Pattern, Inner>(forest_leaves(f), c.entries()),
    ensures
        shapes_indices(c.shadow()).map_values(
            |k: nat| c.entries()[k as int].pattern.spec_name(),
        ).to_multiset() == forest_leaves(f).map_values(|p: Pattern| p.spec_name()).to_multiset(),
{
    let e = c.entries();
    let l = forest_leaves(f);
    lemma_flatten_round_trip::<Pattern, Inner>(f, c.patterns);
    let g = |k: nat| e[k as int].pattern.spec_name();
    let r = index_range(0, e.len());
    lemma_map_multiset(shapes_indices(c.shadow()), r, g);
    assert(r.map_values(g) =~= l.map_values(|p: Pattern| p.spec_name()));
}

} // verus!
