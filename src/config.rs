//! Building a forest of patterns out of a configuration document, in which each
//! entry maps a name to a regular expression or to a nested document.
use crate::group::GroupTree;
use crate::pattern::{regex_valid, Pattern};
use vstd::prelude::*;

verus! {

/// One value of a configuration document: a regular expression, or a nested
/// document of named entries.
#[derive(Debug)]
pub enum PatternConfig {
    Leaf(String),
    Node(Vec<(String, PatternConfig)>),
}

/// Whether every expression in `c` compiles.
pub open spec fn config_valid(c: PatternConfig) -> bool
    decreases c,
{
    match c {
        PatternConfig::Leaf(s) => regex_valid(s@),
        PatternConfig::Node(v) => entries_valid(v@),
    }
}

/// Whether every expression in the entries `e` compiles.
pub open spec fn entries_valid(e: Seq<(String, PatternConfig)>) -> bool
    decreases e,
{
    if e.len() == 0 {
        true
    } else {
        entries_valid(e.subrange(0, e.len() - 1)) && config_valid(e[e.len() - 1].1)
    }
}

/// The expressions of `c`, in document order.
pub open spec fn config_sources(c: PatternConfig) -> Seq<Seq<char>>
    decreases c,
{
    match c {
        PatternConfig::Leaf(s) => seq![s@],
        PatternConfig::Node(v) => entries_sources(v@),
    }
}

/// The expressions of the entries `e`, in document order.
pub open spec fn entries_sources(e: Seq<(String, PatternConfig)>) -> Seq<Seq<char>>
    decreases e,
{
    if e.len() == 0 {
        Seq::empty()
    } else {
        entries_sources(e.subrange(0, e.len() - 1)) + config_sources(e[e.len() - 1].1)
    }
}

/// `t` is the tree that the entry `name: c` describes: a pattern named `name`
/// compiled from the expression, or a group named `name` of the nested entries.
pub open spec fn mirrors(t: GroupTree<Pattern>, name: Seq<char>, c: PatternConfig) -> bool
    decreases c,
{
    match c {
        PatternConfig::Leaf(s) => {
            &&& t is Leaf
            &&& t->Leaf_0.spec_name() == name
            &&& t->Leaf_0.source() == s@
        },
        PatternConfig::Node(v) => {
            &&& t is Group
            &&& t->name@ == name
            &&& mirrors_all(t->group@, v@)
        },
    }
}

/// `f` holds, in order, the trees that the entries `e` describe.
pub open spec fn mirrors_all(f: Seq<GroupTree<Pattern>>, e: Seq<(String, PatternConfig)>) -> bool
    decreases e,
{
    &&& f.len() == e.len()
    &&& e.len() > 0 ==> {
        &&& mirrors_all(f.subrange(0, f.len() - 1), e.subrange(0, e.len() - 1))
        &&& mirrors(f[f.len() - 1], e[e.len() - 1].0@, e[e.len() - 1].1)
    }
}

proof fn lemma_entry_in(e: Seq<(String, PatternConfig)>, i: int)
    requires
        0 <= i < e.len(),
    ensures
        entries_valid(e) ==> config_valid(e[i].1),
        forall|s: Seq<char>|
            #[trigger] config_sources(e[i].1).contains(s) ==> entries_sources(e).contains(s),
    decreases e.len(),
{
    let p = e.subrange(0, e.len() - 1);
    let a = entries_sources(p);
    let b = config_sources(e[e.len() - 1].1);
    if i < e.len() - 1 {
        lemma_entry_in(p, i);
        assert(p[i] == e[i]);
        assert forall|s: Seq<char>| #[trigger] a.contains(s) implies (a + b).contains(s) by {
            let k = choose|k: int| 0 <= k < a.len() && a[k] == s;
            assert((a + b)[k] == s);
        }
    } else {
        assert forall|s: Seq<char>| #[trigger] b.contains(s) implies (a + b).contains(s) by {
            let k = choose|k: int| 0 <= k < b.len() && b[k] == s;
            assert((a + b)[a.len() + k] == s);
        }
    }
}

/// Builds the tree that the entry `name: config` describes. Fails with the text
/// of an expression in it that does not compile, if there is one.
pub fn build_tree(name: String, config: PatternConfig) -> (r: Result<GroupTree<Pattern>, String>)
    ensures
        r is Ok <==> config_valid(config),
        r is Ok ==> mirrors(r->Ok_0, name@, config),
        r is Err ==> !regex_valid(r->Err_0@) && config_sources(config).contains(r->Err_0@),
    decreases config,
{
    let ghost whole = config;
    match config {
        PatternConfig::Leaf(source) => match Pattern::new(name, source) {
            Ok(p) => Ok(GroupTree::Leaf(p)),
            Err(e) => {
                assert(config_sources(whole)[0] == e@);
                Err(e)
            },
        },
        PatternConfig::Node(entries) => {
            match build_forest(entries) {
                Ok(group) => Ok(GroupTree::Group { name, group }),
                Err(e) => Err(e),
            }
        },
    }
}

/// Builds, in order, the trees that the entries describe. Fails with the text of
/// an expression in them that does not compile, if there is one.
pub fn build_forest(entries: Vec<(String, PatternConfig)>) -> (r: Result<
    Vec<GroupTree<Pattern>>,
    String,
>)
    ensures
        r is Ok <==> entries_valid(entries@),
        r is Ok ==> mirrors_all(r->Ok_0@, entries@),
        r is Err ==> !regex_valid(r->Err_0@) && entries_sources(entries@).contains(r->Err_0@),
    decreases entries,
{
    let ghost e = entries@;
    let n = entries.len();
    let mut rest = entries;
    let mut out: Vec<GroupTree<Pattern>> = Vec::new();
    let mut i: usize = 0;
    assert(e.subrange(0, 0) =~= Seq::<(String, PatternConfig)>::empty());
    assert(out@.subrange(0, 0) =~= out@);
    while rest.len() > 0
        invariant
            i <= e.len(),
            n == e.len(),
            e == entries@,
            rest@ == e.subrange(i as int, e.len() as int),
            decreases_to!(entries => e),
            out@.len() == i,
            entries_valid(e.subrange(0, i as int)),
            mirrors_all(out@, e.subrange(0, i as int)),
        decreases rest@.len(),
    {
        let (key, config) = rest.remove(0);
        assert(e[i as int] == (key, config));
        let ghost item = config;
        proof {
            assert(decreases_to!(e => e[i as int]));
            assert(decreases_to!(e[i as int] => e[i as int].1));
            lemma_entry_in(e, i as int);
        }
        let ghost q = e.subrange(0, i + 1);
        match build_tree(key, config) {
            Ok(t) => {
                let ghost before = out@;
                out.push(t);
                proof {
                    assert(q.subrange(0, i as int) =~= e.subrange(0, i as int));
                    assert(out@.subrange(0, i as int) =~= before);
                    assert(q[i as int] == e[i as int]);
                }
            },
            Err(err) => {
                proof {
                    assert(e[i as int].1 == item);
                    assert(!config_valid(item));
                    assert(config_sources(e[i as int].1).contains(err@));
                    assert(entries_sources(e).contains(err@));
                }
                return Err(err);
            },
        }
        i = i + 1;
    }
    assert(e.subrange(0, i as int) =~= e);
    Ok(out)
}

} // verus!
