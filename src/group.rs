//! Named pattern groups, and the flattening of a forest of them into a flat
//! sequence of per-leaf state plus a shadow tree of indices into it.
use vstd::multiset::Multiset;
use vstd::prelude::*;

verus! {

/// A tree whose leaves carry a payload and whose inner nodes are named groups.
#[derive(Debug, PartialEq, Eq, PartialOrd, Ord)]
pub enum GroupTree<T> {
    Leaf(T),
    Group { name: String, group: Vec<GroupTree<T>> },
}

/// The payloads of a tree, in depth-first order.
pub open spec fn tree_leaves<T>(t: GroupTree<T>) -> Seq<T>
    decreases t,
{
    match t {
        GroupTree::Leaf(v) => seq![v],
        GroupTree::Group { name, group } => forest_leaves(group@),
    }
}

/// The payloads of a forest, in depth-first order.
pub open spec fn forest_leaves<T>(f: Seq<GroupTree<T>>) -> Seq<T>
    decreases f,
{
    if f.len() == 0 {
        Seq::empty()
    } else {
        forest_leaves(f.subrange(0, f.len() - 1)) + tree_leaves(f[f.len() - 1])
    }
}


/// Conversion of a leaf payload into the per-leaf state kept by a flattened forest.
pub trait From<T>: Sized {
    /// Whether `r` is a state that `from` may build out of `other`.
    spec fn converts(other: T, r: Self) -> bool;

    fn from(other: T) -> (r: Self)
        ensures
            Self::converts(other, r),
    ;
}

/// Mathematical shape of a shadow tree: leaves hold indices, groups a name and children.
pub enum Shape {
    Leaf(nat),
    Group(Seq<char>, Seq<Shape>),
}

/// The shape of an index tree.
pub open spec fn shape_of(t: GroupTree<usize>) -> Shape
    decreases t,
{
    match t {
        GroupTree::Leaf(i) => Shape::Leaf(i as nat),
        GroupTree::Group { name, group } => Shape::Group(name@, shapes_of(group@)),
    }
}

/// The shapes of a sequence of index trees, element by element.
pub open spec fn shapes_of(f: Seq<GroupTree<usize>>) -> Seq<Shape>
    decreases f,
{
    if f.len() == 0 {
        Seq::empty()
    } else {
        shapes_of(f.subrange(0, f.len() - 1)).push(shape_of(f[f.len() - 1]))
    }
}

/// Lexicographic comparison of two strings by code point: -1, 0 or 1. This is the
/// order of `String`, whose byte order in UTF-8 is the order of code points.
pub open spec fn chars_cmp(a: Seq<char>, b: Seq<char>) -> int
    decreases a.len(),
{
    if a.len() == 0 {
        if b.len() == 0 { 0 } else { -1 }
    } else if b.len() == 0 {
        1
    } else if (a[0] as u32) < (b[0] as u32) {
        -1
    } else if (a[0] as u32) > (b[0] as u32) {
        1
    } else {
        chars_cmp(a.subrange(1, a.len() as int), b.subrange(1, b.len() as int))
    }
}

/// Order of shapes: every leaf before every group, leaves by index, groups by name
/// and then by their children; the order that `GroupTree<usize>` derives.
pub open spec fn shape_cmp(a: Shape, b: Shape) -> int
    decreases a,
{
    match a {
        Shape::Leaf(i) => match b {
            Shape::Leaf(j) => if i < j { -1 } else if i > j { 1 } else { 0 },
            Shape::Group(_, _) => -1,
        },
        Shape::Group(n, c) => match b {
            Shape::Leaf(_) => 1,
            Shape::Group(m, d) => {
                let k = chars_cmp(n, m);
                if k != 0 { k } else { shapes_cmp(c, d) }
            },
        },
    }
}

/// Lexicographic order on sequences of shapes.
pub open spec fn shapes_cmp(a: Seq<Shape>, b: Seq<Shape>) -> int
    decreases a,
{
    if a.len() == 0 {
        if b.len() == 0 { 0 } else { -1 }
    } else if b.len() == 0 {
        1
    } else {
        let k = shape_cmp(a[0], b[0]);
        if k != 0 {
            k
        } else {
            shapes_cmp(a.subrange(1, a.len() as int), b.subrange(1, b.len() as int))
        }
    }
}

/// `x` placed into `s` just before the first element that is not below it.
pub open spec fn insert_sorted(x: Shape, s: Seq<Shape>) -> Seq<Shape>
    decreases s.len(),
{
    if s.len() == 0 {
        seq![x]
    } else if shape_cmp(x, s[0]) <= 0 {
        seq![x] + s
    } else {
        seq![s[0]] + insert_sorted(x, s.subrange(1, s.len() as int))
    }
}

/// `s` in ascending order.
pub open spec fn sort_shapes(s: Seq<Shape>) -> Seq<Shape>
    decreases s.len(),
{
    if s.len() == 0 {
        s
    } else {
        insert_sorted(s[s.len() - 1], sort_shapes(s.subrange(0, s.len() - 1)))
    }
}

/// The unsorted shadows of the trees of `f`, whose leaves are numbered from `start`
/// on in depth-first order.
pub open spec fn shadow_list<T>(f: Seq<GroupTree<T>>, start: nat) -> Seq<Shape>
    decreases f,
{
    if f.len() == 0 {
        Seq::empty()
    } else {
        let p = f.subrange(0, f.len() - 1);
        shadow_list(p, start).push(shadow_tree(f[f.len() - 1], start + forest_leaves(p).len()))
    }
}

/// The shadow of `t`: each leaf replaced by its depth-first number counted from
/// `start`, the children of each group sorted.
pub open spec fn shadow_tree<T>(t: GroupTree<T>, start: nat) -> Shape
    decreases t,
{
    match t {
        GroupTree::Leaf(_) => Shape::Leaf(start),
        GroupTree::Group { name, group } => Shape::Group(
            name@,
            sort_shapes(shadow_list(group@, start)),
        ),
    }
}

/// The sorted shadow of a whole forest, leaves numbered from zero.
pub open spec fn shadow_forest<T>(f: Seq<GroupTree<T>>) -> Seq<Shape> {
    sort_shapes(shadow_list(f, 0))
}

/// `after` is `before` followed by one state built out of each payload of `leaves`.
pub open spec fn appended_converted<T, V: From<T>>(
    before: Seq<V>,
    after: Seq<V>,
    leaves: Seq<T>,
) -> bool {
    &&& after.len() == before.len() + leaves.len()
    &&& forall|k: int| 0 <= k < before.len() ==> #[trigger] after[k] == before[k]
    &&& forall|k: int|
        0 <= k < leaves.len() ==> V::converts(#[trigger] leaves[k], after[before.len() + k])
}

/// `states` holds one state built out of each payload of `leaves`, in order.
pub open spec fn converted_all<T, V: From<T>>(leaves: Seq<T>, states: Seq<V>) -> bool {
    &&& states.len() == leaves.len()
    &&& forall|k: int| 0 <= k < leaves.len() ==> V::converts(#[trigger] leaves[k], states[k])
}


pub proof fn lemma_shapes_of(f: Seq<GroupTree<usize>>)
    ensures
        shapes_of(f).len() == f.len(),
        forall|i: int| 0 <= i < f.len() ==> #[trigger] shapes_of(f)[i] == shape_of(f[i]),
    decreases f.len(),
{
    if f.len() > 0 {
        lemma_shapes_of(f.subrange(0, f.len() - 1));
    }
}

proof fn lemma_shapes_of_insert(f: Seq<GroupTree<usize>>, j: int, x: GroupTree<usize>)
    requires
        0 <= j <= f.len(),
    ensures
        shapes_of(f.insert(j, x)) == shapes_of(f).insert(j, shape_of(x)),
{
    lemma_shapes_of(f);
    lemma_shapes_of(f.insert(j, x));
    assert(shapes_of(f.insert(j, x)) =~= shapes_of(f).insert(j, shape_of(x)));
}

/// Compares two strings by code point, as `chars_cmp` does.
fn cmp_chars(a: &str, b: &str) -> (r: i8)
    ensures
        r as int == chars_cmp(a@, b@),
{
    let n = a.unicode_len();
    let m = b.unicode_len();
    let mut i: usize = 0;
    assert(a@.subrange(0, n as int) =~= a@);
    assert(b@.subrange(0, m as int) =~= b@);
    loop
        invariant
            n == a@.len(),
            m == b@.len(),
            i <= n,
            i <= m,
            chars_cmp(a@, b@) == chars_cmp(a@.subrange(i as int, n as int), b@.subrange(i as int, m as int)),
        decreases n - i,
    {
        let ghost sa = a@.subrange(i as int, n as int);
        let ghost sb = b@.subrange(i as int, m as int);
        if i == n {
            if i == m {
                return 0;
            } else {
                return -1;
            }
        }
        if i == m {
            return 1;
        }
        let ca = a.get_char(i);
        let cb = b.get_char(i);
        assert(sa[0] == ca && sb[0] == cb);
        if (ca as u32) < (cb as u32) {
            return -1;
        }
        if (ca as u32) > (cb as u32) {
            return 1;
        }
        assert(sa.subrange(1, sa.len() as int) =~= a@.subrange(i + 1, n as int));
        assert(sb.subrange(1, sb.len() as int) =~= b@.subrange(i + 1, m as int));
        i = i + 1;
    }
}

/// Compares two index trees, as `shape_cmp` orders their shapes.
fn cmp_tree(a: &GroupTree<usize>, b: &GroupTree<usize>) -> (r: i8)
    ensures
        r as int == shape_cmp(shape_of(*a), shape_of(*b)),
    decreases a,
{
    match a {
        GroupTree::Leaf(i) => match b {
            GroupTree::Leaf(j) => {
                if *i < *j {
                    -1
                } else if *i > *j {
                    1
                } else {
                    0
                }
            },
            GroupTree::Group { .. } => -1,
        },
        GroupTree::Group { name, group } => match b {
            GroupTree::Leaf(_) => 1,
            GroupTree::Group { name: other_name, group: other_group } => {
                let k = cmp_chars(name.as_str(), other_name.as_str());
                if k != 0 {
                    k
                } else {
                    cmp_forest(group, other_group)
                }
            },
        },
    }
}

/// Compares two sequences of index trees lexicographically, as `shapes_cmp` does.
fn cmp_forest(a: &Vec<GroupTree<usize>>, b: &Vec<GroupTree<usize>>) -> (r: i8)
    ensures
        r as int == shapes_cmp(shapes_of(a@), shapes_of(b@)),
    decreases a,
{
    let ghost sa = shapes_of(a@);
    let ghost sb = shapes_of(b@);
    proof {
        lemma_shapes_of(a@);
        lemma_shapes_of(b@);
        assert(sa.subrange(0, sa.len() as int) =~= sa);
        assert(sb.subrange(0, sb.len() as int) =~= sb);
    }
    let mut i: usize = 0;
    loop
        invariant
            sa == shapes_of(a@),
            sb == shapes_of(b@),
            sa.len() == a@.len(),
            sb.len() == b@.len(),
            forall|k: int| 0 <= k < a@.len() ==> #[trigger] sa[k] == shape_of(a@[k]),
            forall|k: int| 0 <= k < b@.len() ==> #[trigger] sb[k] == shape_of(b@[k]),
            i <= a.len(),
            i <= b.len(),
            shapes_cmp(sa, sb) == shapes_cmp(
                sa.subrange(i as int, sa.len() as int),
                sb.subrange(i as int, sb.len() as int),
            ),
        decreases a.len() - i,
    {
        let ghost ra = sa.subrange(i as int, sa.len() as int);
        let ghost rb = sb.subrange(i as int, sb.len() as int);
        if i == a.len() {
            if i == b.len() {
                return 0;
            } else {
                return -1;
            }
        }
        if i == b.len() {
            return 1;
        }
        proof {
            assert(decreases_to!(a => a@));
            assert(decreases_to!(a@ => a@[i as int]));
        }
        let k = cmp_tree(&a[i], &b[i]);
        assert(ra[0] == sa[i as int] && rb[0] == sb[i as int]);
        if k != 0 {
            return k;
        }
        assert(ra.subrange(1, ra.len() as int) =~= sa.subrange(i + 1, sa.len() as int));
        assert(rb.subrange(1, rb.len() as int) =~= sb.subrange(i + 1, sb.len() as int));
        i = i + 1;
    }
}


proof fn lemma_insert_sorted_at(x: Shape, s: Seq<Shape>, j: int)
    requires
        0 <= j <= s.len(),
        forall|k: int| 0 <= k < j ==> shape_cmp(x, #[trigger] s[k]) > 0,
        j < s.len() ==> shape_cmp(x, s[j]) <= 0,
    ensures
        insert_sorted(x, s) == s.insert(j, x),
    decreases j,
{
    if s.len() == 0 {
        assert(insert_sorted(x, s) =~= s.insert(j, x));
    } else if j == 0 {
        assert(insert_sorted(x, s) =~= s.insert(j, x));
    } else {
        let t = s.subrange(1, s.len() as int);
        assert forall|k: int| 0 <= k < j - 1 implies shape_cmp(x, #[trigger] t[k]) > 0 by {
            assert(t[k] == s[k + 1]);
        }
        lemma_insert_sorted_at(x, t, j - 1);
        assert(insert_sorted(x, s) =~= s.insert(j, x));
    }
}

/// Inserts `x` into the sorted sequence `v`, just before the first element that is
/// not below it.
fn insert_tree(v: &mut Vec<GroupTree<usize>>, x: GroupTree<usize>)
    ensures
        shapes_of(final(v)@) == insert_sorted(shape_of(x), shapes_of(old(v)@)),
{
    proof {
        lemma_shapes_of(v@);
    }
    let mut j: usize = 0;
    let mut found = false;
    while !found && j < v.len()
        invariant
            j <= v@.len(),
            found ==> j < v@.len() && shape_cmp(shape_of(x), shapes_of(v@)[j as int]) <= 0,
            v@ == old(v)@,
            shapes_of(v@).len() == v@.len(),
            forall|k: int| 0 <= k < v@.len() ==> #[trigger] shapes_of(v@)[k] == shape_of(v@[k]),
            forall|k: int| 0 <= k < j ==> shape_cmp(shape_of(x), #[trigger] shapes_of(v@)[k]) > 0,
        decreases v@.len() - j + (if found { 0int } else { 1int }),
    {
        let c = cmp_tree(&x, &v[j]);
        if c <= 0 {
            found = true;
        } else {
            j = j + 1;
        }
    }
    proof {
        lemma_insert_sorted_at(shape_of(x), shapes_of(v@), j as int);
        lemma_shapes_of_insert(v@, j as int, x);
    }
    v.insert(j, x);
}

/// Flattens one tree: its leaves are converted and appended to `vec`, and the
/// returned index tree mirrors it with sorted children.
fn traverse<T, V: From<T>>(tree: GroupTree<T>, vec: &mut Vec<V>) -> (r: GroupTree<usize>)
    ensures
        appended_converted(old(vec)@, final(vec)@, tree_leaves(tree)),
        shape_of(r) == shadow_tree(tree, old(vec)@.len()),
    decreases tree,
{
    let ghost whole = tree;
    match tree {
        GroupTree::Leaf(other) => {
            let value = V::from(other);
            vec.push(value);
            assert(tree_leaves(whole) =~= seq![other]);
            GroupTree::Leaf(vec.len() - 1)
        },
        GroupTree::Group { name, group } => {
            let inner_group = flatten_forest(group, vec);
            GroupTree::Group { name, group: inner_group }
        },
    }
}

/// Flattens a forest: the leaves of its trees are converted and appended to `vec`
/// in depth-first order, and the returned index trees mirror them, sorted.
fn flatten_forest<T, V: From<T>>(forest: Vec<GroupTree<T>>, vec: &mut Vec<V>) -> (r: Vec<
    GroupTree<usize>,
>)
    ensures
        appended_converted(old(vec)@, final(vec)@, forest_leaves(forest@)),
        shapes_of(r@) == sort_shapes(shadow_list(forest@, old(vec)@.len())),
    decreases forest,
{
    let ghost f = forest@;
    let ghost start = vec@.len();
    let n = forest.len();
    let mut rest = forest;
    let mut out: Vec<GroupTree<usize>> = Vec::new();
    let mut i: usize = 0;
    assert(f.subrange(0, 0) =~= Seq::<GroupTree<T>>::empty());
    assert(forest_leaves(f.subrange(0, 0)) =~= Seq::<T>::empty());
    while rest.len() > 0
        invariant
            i <= f.len(),
            n == f.len(),
            rest@ == f.subrange(i as int, f.len() as int),
            start == old(vec)@.len(),
            decreases_to!(forest => f),
            appended_converted(old(vec)@, vec@, forest_leaves(f.subrange(0, i as int))),
            shapes_of(out@) == sort_shapes(shadow_list(f.subrange(0, i as int), start)),
        decreases rest@.len(),
    {
        let item = rest.remove(0);
        let ghost p = f.subrange(0, i as int);
        let ghost q = f.subrange(0, i + 1);
        assert(item == f[i as int]);
        assert(q.subrange(0, i as int) =~= p);
        assert(q[i as int] == f[i as int]);
        let ghost mid = vec@;
        let child = traverse(item, vec);
        insert_tree(&mut out, child);
        proof {
            assert(forest_leaves(q) == forest_leaves(p) + tree_leaves(f[i as int]));
            let a = forest_leaves(p);
            let b = tree_leaves(f[i as int]);
            let o = old(vec)@;
            assert forall|k: int| 0 <= k < o.len() implies #[trigger] vec@[k] == o[k] by {
                assert(vec@[k] == mid[k]);
            }
            assert forall|k: int| 0 <= k < a.len() + b.len() implies V::converts(
                #[trigger] (a + b)[k],
                vec@[o.len() + k],
            ) by {
                if k < a.len() {
                    assert((a + b)[k] == a[k]);
                    assert(vec@[o.len() + k] == mid[o.len() + k]);
                } else {
                    assert((a + b)[k] == b[k - a.len()]);
                    assert(vec@[o.len() + k] == vec@[mid.len() + (k - a.len())]);
                }
            }
            assert(appended_converted(o, vec@, forest_leaves(q)));
            assert(shadow_list(q, start) == shadow_list(p, start).push(
                shadow_tree(f[i as int], start + forest_leaves(p).len()),
            ));
            let l = shadow_list(q, start);
            assert(l.subrange(0, l.len() - 1) =~= shadow_list(p, start));
        }
        i = i + 1;
    }
    assert(f.subrange(0, i as int) =~= f);
    out
}


/// A forest flattened for scanning: `flattened` holds one state per leaf, in
/// depth-first order, and `inner` mirrors the forest with each leaf replaced by its
/// position in `flattened`.
#[derive(Debug)]
pub struct GroupVec<V> {
    /// The shadow forest of indices, each group's children sorted, and the forest sorted.
    pub inner: Vec<GroupTree<usize>>,
    /// The per-leaf states, in depth-first order of the leaves.
    pub flattened: Vec<V>,
}

impl<V> GroupVec<V> {
    /// Every index of the shadow forest is a position in `flattened`.
    pub open spec fn wf(&self) -> bool {
        forall|k: int|
            0 <= k < shapes_indices(shapes_of(self.inner@)).len() ==> #[trigger] shapes_indices(
                shapes_of(self.inner@),
            )[k] < self.flattened@.len()
    }

    /// Flattens `tree_vec`, converting each leaf with `From::from`.
    pub fn from_tree<T>(tree_vec: Vec<GroupTree<T>>) -> (r: GroupVec<V>) where V: From<T>
        ensures
            converted_all::<T, V>(forest_leaves(tree_vec@), r.flattened@),
            shapes_of(r.inner@) == shadow_forest(tree_vec@),
    {
        let ghost input = tree_vec@;
        let mut flattened: Vec<V> = Vec::new();
        let inner = flatten_forest(tree_vec, &mut flattened);
        let ghost l = forest_leaves(input);
        assert forall|k: int| 0 <= k < l.len() implies V::converts(#[trigger] l[k], flattened@[k]) by {
            assert(flattened@[0 + k] == flattened@[k]);
        }
        GroupVec { inner, flattened }
    }
}

/// The leaf indices of a shape, in depth-first order.
pub open spec fn shape_indices(t: Shape) -> Seq<nat>
    decreases t,
{
    match t {
        Shape::Leaf(i) => seq![i],
        Shape::Group(_, c) => shapes_indices(c),
    }
}

/// The leaf indices of a sequence of shapes, in depth-first order.
pub open spec fn shapes_indices(s: Seq<Shape>) -> Seq<nat>
    decreases s,
{
    if s.len() == 0 {
        Seq::empty()
    } else {
        shapes_indices(s.subrange(0, s.len() - 1)) + shape_indices(s[s.len() - 1])
    }
}


/// The indices `start`, `start + 1`, ..., `start + n - 1`.
pub open spec fn index_range(start: nat, n: nat) -> Seq<nat> {
    Seq::new(n, |i: int| (start + i) as nat)
}

proof fn lemma_indices_concat(a: Seq<Shape>, b: Seq<Shape>)
    ensures
        shapes_indices(a + b) == shapes_indices(a) + shapes_indices(b),
    decreases b.len(),
{
    if b.len() == 0 {
        assert(a + b =~= a);
        assert(shapes_indices(a) + shapes_indices(b) =~= shapes_indices(a));
    } else {
        let c = a + b;
        let b0 = b.subrange(0, b.len() - 1);
        assert(c.subrange(0, c.len() - 1) =~= a + b0);
        lemma_indices_concat(a, b0);
        assert(c[c.len() - 1] == b[b.len() - 1]);
        assert(shapes_indices(c) =~= shapes_indices(a) + shapes_indices(b));
    }
}

proof fn lemma_indices_single(x: Shape)
    ensures
        shapes_indices(seq![x]) == shape_indices(x),
{
    assert(seq![x].subrange(0, 0) =~= Seq::<Shape>::empty());
    assert(shapes_indices(Seq::<Shape>::empty()) =~= Seq::<nat>::empty());
    assert(shapes_indices(seq![x]) =~= shape_indices(x));
}

proof fn lemma_insert_indices(x: Shape, s: Seq<Shape>)
    ensures
        shapes_indices(insert_sorted(x, s)).to_multiset() == shapes_indices(s).to_multiset().add(
            shape_indices(x).to_multiset(),
        ),
    decreases s.len(),
{
    broadcast use vstd::seq_lib::lemma_multiset_commutative;

    lemma_indices_single(x);
    if s.len() == 0 {
        assert(shapes_indices(s) =~= Seq::<nat>::empty());
        broadcast use vstd::seq_lib::to_multiset_len, vstd::multiset::lemma_multiset_empty_len;

        assert(Seq::<nat>::empty().to_multiset().len() == 0);
        assert(shapes_indices(s).to_multiset() =~= Multiset::empty());
        assert(shapes_indices(s).to_multiset().add(shape_indices(x).to_multiset())
            =~= shape_indices(x).to_multiset());
    } else {
        let rest = s.subrange(1, s.len() as int);
        assert(s =~= seq![s[0]] + rest);
        lemma_indices_concat(seq![s[0]], rest);
        lemma_indices_single(s[0]);
        if shape_cmp(x, s[0]) <= 0 {
            lemma_indices_concat(seq![x], s);
            assert(shapes_indices(insert_sorted(x, s)).to_multiset() =~= shapes_indices(
                s,
            ).to_multiset().add(shape_indices(x).to_multiset()));
        } else {
            lemma_insert_indices(x, rest);
            lemma_indices_concat(seq![s[0]], insert_sorted(x, rest));
            assert(shapes_indices(insert_sorted(x, s)).to_multiset() =~= shapes_indices(
                s,
            ).to_multiset().add(shape_indices(x).to_multiset()));
        }
    }
}

proof fn lemma_sort_indices(s: Seq<Shape>)
    ensures
        shapes_indices(sort_shapes(s)).to_multiset() == shapes_indices(s).to_multiset(),
    decreases s.len(),
{
    if s.len() > 0 {
        let p = s.subrange(0, s.len() - 1);
        lemma_sort_indices(p);
        lemma_insert_indices(s[s.len() - 1], sort_shapes(p));
        vstd::seq_lib::lemma_multiset_commutative(shapes_indices(p), shape_indices(s[s.len() - 1]));
    }
}

proof fn lemma_range_concat(start: nat, n: nat, m: nat)
    ensures
        index_range(start, n) + index_range(start + n, m) == index_range(start, n + m),
{
    assert(index_range(start, n) + index_range(start + n, m) =~= index_range(start, n + m));
}

proof fn lemma_shadow_tree_indices<T>(t: GroupTree<T>, start: nat)
    ensures
        shape_indices(shadow_tree(t, start)).to_multiset() == index_range(
            start,
            tree_leaves(t).len(),
        ).to_multiset(),
    decreases t,
{
    match t {
        GroupTree::Leaf(_) => {
            assert(index_range(start, 1) =~= seq![start]);
            assert(shape_indices(shadow_tree(t, start)) =~= seq![start]);
        },
        GroupTree::Group { name, group } => {
            lemma_shadow_list_indices(group@, start);
            lemma_sort_indices(shadow_list(group@, start));
        },
    }
}

proof fn lemma_shadow_list_indices<T>(f: Seq<GroupTree<T>>, start: nat)
    ensures
        shapes_indices(shadow_list(f, start)).to_multiset() == index_range(
            start,
            forest_leaves(f).len(),
        ).to_multiset(),
    decreases f,
{
    if f.len() == 0 {
        assert(index_range(start, 0) =~= Seq::<nat>::empty());
        assert(shapes_indices(shadow_list(f, start)) =~= Seq::<nat>::empty());
    } else {
        let p = f.subrange(0, f.len() - 1);
        let last = f[f.len() - 1];
        let n = forest_leaves(p).len();
        lemma_shadow_list_indices(p, start);
        lemma_shadow_tree_indices(last, start + n);
        let l = shadow_list(f, start);
        assert(l.subrange(0, l.len() - 1) =~= shadow_list(p, start));
        lemma_range_concat(start, n, tree_leaves(last).len());
        vstd::seq_lib::lemma_multiset_commutative(
            shapes_indices(shadow_list(p, start)),
            shape_indices(shadow_tree(last, start + n)),
        );
        vstd::seq_lib::lemma_multiset_commutative(
            index_range(start, n),
            index_range(start + n, tree_leaves(last).len()),
        );
    }
}

pub(crate) proof fn lemma_map_multiset<A, B>(a: Seq<A>, b: Seq<A>, g: spec_fn(A) -> B)
    requires
        a.to_multiset() == b.to_multiset(),
    ensures
        a.map_values(g).to_multiset() == b.map_values(g).to_multiset(),
    decreases a.len(),
{
    broadcast use {
        vstd::seq_lib::to_multiset_remove,
        vstd::seq_lib::to_multiset_len,
        vstd::seq_lib::to_multiset_contains,
    };

    if a.len() == 0 {
        assert(a.to_multiset().len() == 0);
        assert(b.to_multiset().len() == 0);
        assert(b.len() == 0);
        assert(a.map_values(g) =~= b.map_values(g));
    } else {
        let x = a[0];
        assert(a.contains(x));
        assert(b.to_multiset().count(x) > 0);
        assert(b.contains(x));
        let j = choose|j: int| 0 <= j < b.len() && b[j] == x;
        let a1 = a.remove(0);
        let b1 = b.remove(j);
        assert(a1.to_multiset() == a.to_multiset().remove(x));
        assert(b1.to_multiset() == b.to_multiset().remove(x));
        lemma_map_multiset(a1, b1, g);
        let ga = a.map_values(g);
        let gb = b.map_values(g);
        assert(ga.remove(0) =~= a1.map_values(g));
        assert(gb.remove(j) =~= b1.map_values(g));
        assert(ga.remove(0).to_multiset() == ga.to_multiset().remove(g(x)));
        assert(gb.remove(j).to_multiset() == gb.to_multiset().remove(g(x)));
        assert(ga[0] == g(x) && gb[j] == g(x));
        assert(ga.contains(ga[0]));
        assert(gb.contains(gb[j]));
        let ma = ga.to_multiset();
        let mb = gb.to_multiset();
        assert(ma.count(g(x)) > 0 && mb.count(g(x)) > 0);
        assert forall|v: B| ma.count(v) == mb.count(v) by {
            assert(ma.remove(g(x)).count(v) == mb.remove(g(x)).count(v));
        }
        assert(ma =~= mb);
    }
}

/// Flattening accounts for every leaf exactly once: for `g` built by `from_tree`
/// out of `f`, `flattened` has one entry per leaf of `f`, and walking the shadow
/// forest meets each position `0 .. n` of `flattened` exactly once, so every index
/// in it is a position in `flattened`, and the states met on that walk are those of
/// `flattened`, each as often as it stands there; `flattened[k]` is built out of the
/// `k`-th leaf of `f`.
pub proof fn lemma_flatten_round_trip<T, V: From<T>>(f: Seq<GroupTree<T>>, g: GroupVec<V>)
    requires
        converted_all::<T, V>(forest_leaves(f), g.flattened@),
        shapes_of(g.inner@) == shadow_forest(f),
    ensures
        g.flattened@.len() == forest_leaves(f).len(),
        shapes_indices(shapes_of(g.inner@)).to_multiset() == index_range(
            0,
            g.flattened@.len(),
        ).to_multiset(),
        g.wf(),
        shapes_indices(shapes_of(g.inner@)).map_values(|k: nat| g.flattened@[k as int]).to_multiset()
            == g.flattened@.to_multiset(),
{
    broadcast use vstd::seq_lib::to_multiset_contains;

    lemma_shadow_list_indices(f, 0);
    lemma_sort_indices(shadow_list(f, 0));
    let ix = shapes_indices(shadow_forest(f));
    let r = index_range(0, forest_leaves(f).len());
    assert forall|k: int| 0 <= k < ix.len() implies #[trigger] ix[k] < forest_leaves(f).len() by {
        assert(ix.contains(ix[k]));
        assert(r.to_multiset().count(ix[k]) > 0);
        assert(r.contains(ix[k]));
    }
    let at = |k: nat| g.flattened@[k as int];
    lemma_map_multiset(ix, r, at);
    assert(r.map_values(at) =~= g.flattened@);
}


/// Each element of `s` is at most the next one under `shape_cmp`.
pub open spec fn ascending(s: Seq<Shape>) -> bool {
    forall|i: int| 0 <= i < s.len() - 1 ==> shape_cmp(#[trigger] s[i], s[i + 1]) <= 0
}

proof fn lemma_chars_cmp_flip(a: Seq<char>, b: Seq<char>)
    ensures
        chars_cmp(a, b) == -chars_cmp(b, a),
    decreases a.len(),
{
    if a.len() > 0 && b.len() > 0 {
        lemma_chars_cmp_flip(a.subrange(1, a.len() as int), b.subrange(1, b.len() as int));
    }
}

proof fn lemma_shape_cmp_flip(a: Shape, b: Shape)
    ensures
        shape_cmp(a, b) == -shape_cmp(b, a),
    decreases a,
{
    match a {
        Shape::Leaf(_) => {},
        Shape::Group(n, c) => match b {
            Shape::Leaf(_) => {},
            Shape::Group(m, d) => {
                lemma_chars_cmp_flip(n, m);
                lemma_shapes_cmp_flip(c, d);
            },
        },
    }
}

proof fn lemma_shapes_cmp_flip(a: Seq<Shape>, b: Seq<Shape>)
    ensures
        shapes_cmp(a, b) == -shapes_cmp(b, a),
    decreases a,
{
    if a.len() > 0 && b.len() > 0 {
        lemma_shape_cmp_flip(a[0], b[0]);
        lemma_shapes_cmp_flip(a.subrange(1, a.len() as int), b.subrange(1, b.len() as int));
    }
}

proof fn lemma_insert_ascending(x: Shape, s: Seq<Shape>)
    requires
        ascending(s),
    ensures
        ascending(insert_sorted(x, s)),
        insert_sorted(x, s).len() == s.len() + 1,
        insert_sorted(x, s)[0] == x || (s.len() > 0 && insert_sorted(x, s)[0] == s[0]),
    decreases s.len(),
{
    if s.len() == 0 {
    } else if shape_cmp(x, s[0]) <= 0 {
        let r = insert_sorted(x, s);
        assert forall|i: int| 0 <= i < r.len() - 1 implies shape_cmp(#[trigger] r[i], r[i + 1])
            <= 0 by {
            if i > 0 {
                assert(r[i] == s[i - 1] && r[i + 1] == s[i]);
            }
        }
    } else {
        let rest = s.subrange(1, s.len() as int);
        assert forall|i: int| 0 <= i < rest.len() - 1 implies shape_cmp(
            #[trigger] rest[i],
            rest[i + 1],
        ) <= 0 by {
            assert(rest[i] == s[i + 1] && rest[i + 1] == s[i + 2]);
        }
        lemma_insert_ascending(x, rest);
        lemma_shape_cmp_flip(x, s[0]);
        let q = insert_sorted(x, rest);
        let r = insert_sorted(x, s);
        assert(r == seq![s[0]] + q);
        assert forall|i: int| 0 <= i < r.len() - 1 implies shape_cmp(#[trigger] r[i], r[i + 1])
            <= 0 by {
            if i == 0 {
                assert(r[1] == q[0]);
                if q[0] != x {
                    assert(q[0] == rest[0]);
                    assert(s[1] == rest[0]);
                }
            } else {
                assert(r[i] == q[i - 1] && r[i + 1] == q[i]);
            }
        }
    }
}

/// Sorting orders its result: every sequence of siblings in a shadow forest, each
/// the sorted arrangement of the shadows of a group's children or of the forest's
/// trees, is ascending under `shape_cmp`.
pub proof fn lemma_sort_ascending(s: Seq<Shape>)
    ensures
        ascending(sort_shapes(s)),
        sort_shapes(s).len() == s.len(),
    decreases s.len(),
{
    if s.len() > 0 {
        lemma_sort_ascending(s.subrange(0, s.len() - 1));
        lemma_insert_ascending(s[s.len() - 1], sort_shapes(s.subrange(0, s.len() - 1)));
    }
}

/// Flattening is deterministic and ordered: two index forests built by `from_tree`
/// out of the same forest `f` are identical, their trees stand in ascending order,
/// and so do the children of every group at every depth.
pub proof fn lemma_flatten_deterministic<T, V: From<T>>(
    f: Seq<GroupTree<T>>,
    a: GroupVec<V>,
    b: GroupVec<V>,
)
    requires
        shapes_of(a.inner@) == shadow_forest(f),
        shapes_of(b.inner@) == shadow_forest(f),
    ensures
        shapes_of(a.inner@) == shapes_of(b.inner@),
        ascending(shapes_of(a.inner@)),
        all_sorted_within(shapes_of(a.inner@)),
{
    let l = shadow_list(f, 0);
    let c = sort_shapes(l);
    lemma_sort_ascending(l);
    lemma_shadow_list_sorted(f, 0);
    lemma_sort_contains(l);
    assert forall|k: int| 0 <= k < c.len() implies sorted_within(#[trigger] c[k]) by {
        assert(c.contains(c[k]));
        assert(l.contains(c[k]));
        let j = choose|j: int| 0 <= j < l.len() && l[j] == c[k];
        assert(sorted_within(l[j]));
    }
    lemma_all_sorted_within(c);
}


/// Every sequence of siblings inside `t` is ascending.
pub open spec fn sorted_within(t: Shape) -> bool
    decreases t,
{
    match t {
        Shape::Leaf(_) => true,
        Shape::Group(_, c) => ascending(c) && all_sorted_within(c),
    }
}

/// Every sequence of siblings inside each shape of `s` is ascending.
pub open spec fn all_sorted_within(s: Seq<Shape>) -> bool
    decreases s,
{
    if s.len() == 0 {
        true
    } else {
        all_sorted_within(s.subrange(0, s.len() - 1)) && sorted_within(s[s.len() - 1])
    }
}

proof fn lemma_all_sorted_within(s: Seq<Shape>)
    ensures
        all_sorted_within(s) <==> forall|k: int| 0 <= k < s.len() ==> sorted_within(#[trigger] s[k]),
    decreases s.len(),
{
    if s.len() > 0 {
        let p = s.subrange(0, s.len() - 1);
        lemma_all_sorted_within(p);
        if all_sorted_within(s) {
            assert forall|k: int| 0 <= k < s.len() implies sorted_within(#[trigger] s[k]) by {
                if k < p.len() {
                    assert(p[k] == s[k]);
                }
            }
        }
        if forall|k: int| 0 <= k < s.len() ==> sorted_within(#[trigger] s[k]) {
            assert forall|k: int| 0 <= k < p.len() implies sorted_within(#[trigger] p[k]) by {
                assert(p[k] == s[k]);
            }
        }
    }
}

proof fn lemma_insert_contains(x: Shape, s: Seq<Shape>)
    ensures
        forall|y: Shape| #[trigger] insert_sorted(x, s).contains(y) ==> y == x || s.contains(y),
    decreases s.len(),
{
    if s.len() > 0 {
        let rest = s.subrange(1, s.len() as int);
        lemma_insert_contains(x, rest);
        if shape_cmp(x, s[0]) > 0 {
            let q = insert_sorted(x, rest);
            assert forall|y: Shape| #[trigger] insert_sorted(x, s).contains(y) implies y == x
                || s.contains(y) by {
                let r = insert_sorted(x, s);
                let i = choose|i: int| 0 <= i < r.len() && r[i] == y;
                if i == 0 {
                    assert(s[0] == y);
                } else {
                    assert(r[i] == q[i - 1]);
                    assert(q.contains(y));
                    if y != x {
                        let j = choose|j: int| 0 <= j < rest.len() && rest[j] == y;
                        assert(s[j + 1] == y);
                    }
                }
            }
        } else {
            assert forall|y: Shape| #[trigger] insert_sorted(x, s).contains(y) implies y == x
                || s.contains(y) by {
                let r = insert_sorted(x, s);
                let i = choose|i: int| 0 <= i < r.len() && r[i] == y;
                if i > 0 {
                    assert(s[i - 1] == y);
                }
            }
        }
    }
}

proof fn lemma_sort_contains(s: Seq<Shape>)
    ensures
        forall|y: Shape| #[trigger] sort_shapes(s).contains(y) ==> s.contains(y),
    decreases s.len(),
{
    if s.len() > 0 {
        let p = s.subrange(0, s.len() - 1);
        lemma_sort_contains(p);
        lemma_insert_contains(s[s.len() - 1], sort_shapes(p));
        assert forall|y: Shape| #[trigger] sort_shapes(s).contains(y) implies s.contains(y) by {
            if y == s[s.len() - 1] {
                assert(s[s.len() - 1] == y);
            } else {
                assert(sort_shapes(p).contains(y));
                let j = choose|j: int| 0 <= j < p.len() && p[j] == y;
                assert(s[j] == y);
            }
        }
    }
}

proof fn lemma_shadow_tree_sorted<T>(t: GroupTree<T>, start: nat)
    ensures
        sorted_within(shadow_tree(t, start)),
    decreases t,
{
    match t {
        GroupTree::Leaf(_) => {},
        GroupTree::Group { name, group } => {
            let l = shadow_list(group@, start);
            let c = sort_shapes(l);
            lemma_shadow_list_sorted(group@, start);
            lemma_sort_ascending(l);
            lemma_sort_contains(l);
            assert forall|k: int| 0 <= k < c.len() implies sorted_within(#[trigger] c[k]) by {
                assert(c.contains(c[k]));
                assert(l.contains(c[k]));
                let j = choose|j: int| 0 <= j < l.len() && l[j] == c[k];
                assert(sorted_within(l[j]));
            }
            lemma_all_sorted_within(c);
        },
    }
}

proof fn lemma_shadow_list_sorted<T>(f: Seq<GroupTree<T>>, start: nat)
    ensures
        shadow_list(f, start).len() == f.len(),
        forall|k: int| 0 <= k < f.len() ==> sorted_within(#[trigger] shadow_list(f, start)[k]),
    decreases f,
{
    if f.len() > 0 {
        let p = f.subrange(0, f.len() - 1);
        lemma_shadow_list_sorted(p, start);
        lemma_shadow_tree_sorted(f[f.len() - 1], start + forest_leaves(p).len());
        let l = shadow_list(f, start);
        assert(forall|k: int| 0 <= k < p.len() ==> #[trigger] l[k] == shadow_list(p, start)[k]);
    }
}

} // verus!
