//! The shape of a rule tree, with the rules themselves left out, and the paths through it that
//! the engine keeps on its rule stack.
//!
//! A path is a sequence of indices: the first picks a rule of the top-level chain, each further one
//! picks a child of the composite that the path reached so far.

use vstd::prelude::*;

use crate::rule::RuleId;

verus! {

/// A rule tree with the rules left out: each node is a plain rule (a leaf) or a composite, which
/// carries its id and the shapes of its children.
pub enum Shape {
    Leaf,
    Composite(RuleId, Seq<Shape>),
}

/// A path of machine indices, read as a path of integers.
pub open spec fn path_of(v: Seq<usize>) -> Seq<int> {
    v.map_values(|x: usize| x as int)
}

/// The children of a node; a leaf has none.
pub open spec fn shape_children(s: Shape) -> Seq<Shape> {
    match s {
        Shape::Leaf => Seq::empty(),
        Shape::Composite(_, cs) => cs,
    }
}

/// The number of nodes in a tree, the node itself included.
pub open spec fn tree_size(s: Shape) -> nat
    decreases s,
{
    match s {
        Shape::Leaf => 1,
        Shape::Composite(_, cs) => 1 + forest_size(cs),
    }
}

/// The number of nodes in a list of trees.
pub open spec fn forest_size(cs: Seq<Shape>) -> nat
    decreases cs,
{
    if cs.len() == 0 {
        0
    } else {
        proof {
            assert(decreases_to!(cs => cs[0]));
            assert(decreases_to!(cs => cs.drop_first()));
        }
        tree_size(cs[0]) + forest_size(cs.drop_first())
    }
}

/// Every composite in the tree has at least one child.
pub open spec fn tree_nonempty(s: Shape) -> bool
    decreases s,
{
    match s {
        Shape::Leaf => true,
        Shape::Composite(_, cs) => cs.len() > 0 && forest_nonempty(cs),
    }
}

/// Every composite in the list of trees has at least one child.
pub open spec fn forest_nonempty(cs: Seq<Shape>) -> bool
    decreases cs,
{
    if cs.len() == 0 {
        true
    } else {
        proof {
            assert(decreases_to!(cs => cs[0]));
            assert(decreases_to!(cs => cs.drop_first()));
        }
        tree_nonempty(cs[0]) && forest_nonempty(cs.drop_first())
    }
}

/// A list of trees is free of empty composites exactly when each of its trees is.
pub proof fn lemma_forest_nonempty_all(cs: Seq<Shape>)
    ensures
        forest_nonempty(cs) <==> forall|i: int| 0 <= i < cs.len() ==> #[trigger] tree_nonempty(cs[i]),
    decreases cs.len(),
{
    if cs.len() > 0 {
        lemma_forest_nonempty_all(cs.drop_first());
        if forall|i: int| 0 <= i < cs.len() ==> #[trigger] tree_nonempty(cs[i]) {
            assert(tree_nonempty(cs[0]));
            assert forall|i: int| 0 <= i < cs.drop_first().len() implies #[trigger] tree_nonempty(
                cs.drop_first()[i],
            ) by {
                assert(cs.drop_first()[i] == cs[i + 1]);
            }
        }
        if forest_nonempty(cs) {
            assert forall|i: int| 0 <= i < cs.len() implies #[trigger] tree_nonempty(cs[i]) by {
                if i > 0 {
                    assert(cs[i] == cs.drop_first()[i - 1]);
                }
            }
        }
    }
}

/// The path with its last index removed; the empty path stays empty.
pub open spec fn parent_path(p: Seq<int>) -> Seq<int> {
    if p.len() == 0 {
        p
    } else {
        p.drop_last()
    }
}

/// The list of rules that path `q` leads into: the top-level chain for the empty path, the
/// children of the node that `q` reaches otherwise, and nothing where `q` leads nowhere.
pub open spec fn children_list(l: Seq<Shape>, q: Seq<int>) -> Seq<Shape>
    decreases q.len(),
{
    if q.len() == 0 {
        l
    } else {
        let parent = children_list(l, q.drop_last());
        if 0 <= q.last() < parent.len() {
            shape_children(parent[q.last()])
        } else {
            Seq::empty()
        }
    }
}

/// `p` is a path to a rule: every index but the last picks a composite, and every index is in
/// range.
pub open spec fn valid_path(l: Seq<Shape>, p: Seq<int>) -> bool {
    p.len() > 0 && 0 <= p.last() < children_list(l, p.drop_last()).len()
}

/// The node that a valid path leads to.
pub open spec fn node_at(l: Seq<Shape>, p: Seq<int>) -> Shape
    recommends
        valid_path(l, p),
{
    children_list(l, p.drop_last())[p.last()]
}

/// The number of rules in the list that holds the last rule of `p` (for the empty path, the
/// length of the top-level chain).
pub open spec fn sibling_count(l: Seq<Shape>, p: Seq<int>) -> nat {
    children_list(l, parent_path(p)).len()
}

/// The path one level down, to the first child of the node that `p` leads to, where there is
/// such a child (for the empty path: the first rule of the chain); otherwise `p` itself.
pub open spec fn descend_path(l: Seq<Shape>, p: Seq<int>) -> Seq<int> {
    if children_list(l, p).len() > 0 {
        p.push(0)
    } else {
        p
    }
}

/// The path to the next rule after the subtree that `p` leads to: its next sibling, or else the
/// next sibling of its nearest ancestor that has one; empty when there is none.
pub open spec fn advance_path(l: Seq<Shape>, p: Seq<int>) -> Seq<int>
    decreases p.len(),
{
    if p.len() == 0 {
        p
    } else if p.last() + 1 < children_list(l, p.drop_last()).len() {
        p.update(p.len() - 1, p.last() + 1)
    } else {
        advance_path(l, p.drop_last())
    }
}

/// From `p`, go down through composites, always to the first child, until a single rule is
/// reached (or a composite without children); `p` itself where it leads to no composite.
pub open spec fn first_leaf(l: Seq<Shape>, p: Seq<int>) -> Seq<int>
    decreases remaining(l, p),
{
    if valid_path(l, p) && node_at(l, p) is Composite && children_list(l, p).len() > 0 {
        proof {
            lemma_remaining_descend(l, p);
        }
        first_leaf(l, p.push(0))
    } else {
        p
    }
}

/// Where processing starts: the first single rule of the chain, reached by going down from its
/// first rule; the empty path when the chain is empty.
pub open spec fn start_path(l: Seq<Shape>) -> Seq<int> {
    if l.len() > 0 {
        first_leaf(l, seq![0int])
    } else {
        Seq::empty()
    }
}

/// The next stop of a depth-first walk over the single rules: after the rule at `p` completes,
/// the first single rule after its subtree; the walk stays at the end (the empty path).
pub open spec fn next_leaf(l: Seq<Shape>, p: Seq<int>) -> Seq<int> {
    if p.len() == 0 {
        p
    } else {
        first_leaf(l, advance_path(l, p))
    }
}

/// The stop that the walk reaches from `p` after `n` rules have completed.
pub open spec fn walk(l: Seq<Shape>, p: Seq<int>, n: nat) -> Seq<int>
    decreases n,
{
    if n == 0 {
        p
    } else {
        walk(l, next_leaf(l, p), (n - 1) as nat)
    }
}

/// The number of nodes that come after the subtree that `q` leads to, in depth-first order.
pub open spec fn after(l: Seq<Shape>, q: Seq<int>) -> nat
    decreases q.len(),
{
    if q.len() == 0 {
        0
    } else {
        forest_size(children_list(l, q.drop_last()).skip(q.last() + 1)) + after(l, q.drop_last())
    }
}

/// The number of nodes that a depth-first walk has still to visit when it stands at `p`: the
/// subtree at `p` and all that comes after it; none once the walk is over (the empty path).
pub open spec fn remaining(l: Seq<Shape>, p: Seq<int>) -> nat {
    if valid_path(l, p) {
        tree_size(node_at(l, p)) + after(l, p)
    } else {
        0
    }
}

/// A forest's size splits at any index into the tree there and the trees after it.
pub proof fn lemma_forest_size_skip(cs: Seq<Shape>, i: int)
    requires
        0 <= i < cs.len(),
    ensures
        forest_size(cs.skip(i)) == tree_size(cs[i]) + forest_size(cs.skip(i + 1)),
{
    assert(cs.skip(i).drop_first() =~= cs.skip(i + 1));
    assert(cs.skip(i)[0] == cs[i]);
}

/// Skipping nothing keeps the whole forest; skipping everything leaves nothing.
pub proof fn lemma_forest_size_skip_ends(cs: Seq<Shape>)
    ensures
        forest_size(cs.skip(0)) == forest_size(cs),
        forest_size(cs.skip(cs.len() as int)) == 0,
{
    assert(cs.skip(0) =~= cs);
    assert(cs.skip(cs.len() as int) =~= Seq::<Shape>::empty());
}

/// Every tree of a forest without empty composites has no empty composite.
pub proof fn lemma_forest_nonempty_index(cs: Seq<Shape>, i: int)
    requires
        forest_nonempty(cs),
        0 <= i < cs.len(),
    ensures
        tree_nonempty(cs[i]),
    decreases cs.len(),
{
    if i > 0 {
        lemma_forest_nonempty_index(cs.drop_first(), i - 1);
    }
}

/// A path to a rule passes through composites, and its parent path is again a path to a rule.
pub proof fn lemma_parent_valid(l: Seq<Shape>, p: Seq<int>)
    requires
        valid_path(l, p),
        p.len() > 1,
    ensures
        valid_path(l, p.drop_last()),
        node_at(l, p.drop_last()) is Composite,
        children_list(l, p.drop_last()) == shape_children(node_at(l, p.drop_last())),
{
}

/// Every non-empty prefix of a path to a rule is a path to a rule, and every proper prefix leads
/// to a composite whose children are the list the next index picks from.
pub proof fn lemma_prefix_valid(l: Seq<Shape>, p: Seq<int>, j: int)
    requires
        valid_path(l, p),
        1 <= j <= p.len(),
    ensures
        valid_path(l, p.take(j)),
        j < p.len() ==> node_at(l, p.take(j)) is Composite,
        j < p.len() ==> children_list(l, p.take(j)) == shape_children(node_at(l, p.take(j))),
    decreases p.len(),
{
    if j == p.len() {
        assert(p.take(j) =~= p);
    } else {
        lemma_parent_valid(l, p);
        let q = p.drop_last();
        assert(q.take(j) =~= p.take(j));
        lemma_prefix_valid(l, q, j);
        if j == q.len() {
            assert(q.take(j) =~= q);
        }
    }
}

/// Following every index of `p` but the last from the top, one level at a time, picks a rule at
/// each level that the walk reaches: the walk reaches a level while every rule picked so far
/// is a composite.
pub open spec fn walkable(l: Seq<Shape>, p: Seq<int>) -> bool {
    forall|k: int|
        0 < k < p.len() && (k == 1 || (valid_path(l, p.take(k - 1)) && node_at(l, p.take(k - 1))
            is Composite)) ==> #[trigger] valid_path(l, p.take(k))
}

/// A path whose every index but the last leads through composites can be walked.
pub proof fn lemma_walkable(l: Seq<Shape>, p: Seq<int>)
    requires
        p.len() <= 1 || valid_path(l, p.drop_last()),
    ensures
        walkable(l, p),
{
    assert forall|k: int|
        0 < k < p.len() && (k == 1 || (valid_path(l, p.take(k - 1)) && node_at(l, p.take(k - 1))
            is Composite)) implies #[trigger] valid_path(l, p.take(k)) by {
        let q = p.drop_last();
        lemma_prefix_valid(l, q, k);
        assert(q.take(k) =~= p.take(k));
    }
}

/// A path that leads nowhere leads nowhere however it is extended.
pub proof fn lemma_children_list_empty_extends(l: Seq<Shape>, q: Seq<int>, j: int)
    requires
        0 <= j <= q.len(),
        children_list(l, q.take(j)).len() == 0,
    ensures
        children_list(l, q).len() == 0,
    decreases q.len() - j,
{
    if j == q.len() {
        assert(q.take(j) =~= q);
    } else {
        let q1 = q.drop_last();
        assert(q1.take(j) =~= q.take(j));
        lemma_children_list_empty_extends(l, q1, j);
    }
}

/// In a tree without empty composites, every list that a path leads into is again free of
/// empty composites.
pub proof fn lemma_children_list_nonempty(l: Seq<Shape>, q: Seq<int>)
    requires
        forest_nonempty(l),
        q.len() == 0 || valid_path(l, q),
    ensures
        forest_nonempty(children_list(l, q)),
    decreases q.len(),
{
    if q.len() > 0 {
        let r = q.drop_last();
        if r.len() > 0 {
            lemma_parent_valid(l, q);
        }
        lemma_children_list_nonempty(l, r);
        lemma_forest_nonempty_index(children_list(l, r), q.last());
    }
}

/// In a tree without empty composites, a path to a composite can always go one level down.
pub proof fn lemma_composite_has_first_child(l: Seq<Shape>, p: Seq<int>)
    requires
        forest_nonempty(l),
        valid_path(l, p),
        node_at(l, p) is Composite,
    ensures
        children_list(l, p).len() > 0,
        descend_path(l, p) == p.push(0),
        valid_path(l, p.push(0)),
{
    let r = p.drop_last();
    if r.len() > 0 {
        lemma_parent_valid(l, p);
    }
    lemma_children_list_nonempty(l, r);
    lemma_forest_nonempty_index(children_list(l, r), p.last());
    assert(p.push(0).drop_last() =~= p);
}

/// Going one level down leads to a rule exactly when the list that `p` leads into is not empty;
/// the rule is then the first of that list.
pub proof fn lemma_descend(l: Seq<Shape>, p: Seq<int>)
    ensures
        valid_path(l, p.push(0)) <==> children_list(l, p).len() > 0,
        valid_path(l, p.push(0)) ==> node_at(l, p.push(0)) == children_list(l, p)[0],
        valid_path(l, p.push(0)) ==> p.push(0).take(p.len() as int) == p,
{
    assert(p.push(0).drop_last() =~= p);
    assert(p.push(0).take(p.len() as int) =~= p);
}

/// Going one level down leaves exactly one node fewer to visit: the composite itself.
pub proof fn lemma_remaining_descend(l: Seq<Shape>, p: Seq<int>)
    requires
        p.len() == 0 || valid_path(l, p),
        children_list(l, p).len() > 0,
    ensures
        valid_path(l, p.push(0)),
        remaining(l, p.push(0)) == forest_size(children_list(l, p)) + after(l, p),
        valid_path(l, p) ==> remaining(l, p.push(0)) + 1 == remaining(l, p),
        p.len() == 0 ==> remaining(l, p.push(0)) == forest_size(l),
{
    let cs = children_list(l, p);
    let p2 = p.push(0);
    assert(p2.drop_last() =~= p);
    lemma_forest_size_skip(cs, 0);
    lemma_forest_size_skip_ends(cs);
    if valid_path(l, p) {
        if p.len() > 1 {
            lemma_parent_valid(l, p);
        }
        assert(cs == shape_children(node_at(l, p)));
        assert(node_at(l, p) is Composite);
    }
}

/// Advancing from a rule lands on a rule or ends the walk, and leaves exactly what came after
/// the subtree of that rule still to visit.
pub proof fn lemma_remaining_advance(l: Seq<Shape>, p: Seq<int>)
    requires
        valid_path(l, p),
    ensures
        advance_path(l, p).len() == 0 || valid_path(l, advance_path(l, p)),
        remaining(l, advance_path(l, p)) == after(l, p),
        remaining(l, advance_path(l, p)) + tree_size(node_at(l, p)) == remaining(l, p),
    decreases p.len(),
{
    let q = p.drop_last();
    let cs = children_list(l, q);
    let i = p.last();
    if i + 1 < cs.len() {
        let p2 = p.update(p.len() - 1, i + 1);
        assert(p2.drop_last() =~= q);
        assert(p2.last() == i + 1);
        lemma_forest_size_skip(cs, i + 1);
    } else {
        assert(cs.skip(i + 1) =~= Seq::<Shape>::empty());
        if q.len() > 0 {
            lemma_parent_valid(l, p);
            lemma_remaining_advance(l, q);
        }
    }
}

/// Walking one step further is taking the next stop and walking from there.
pub proof fn lemma_walk_succ(l: Seq<Shape>, p: Seq<int>, n: nat)
    ensures
        walk(l, p, n + 1) == walk(l, next_leaf(l, p), n),
{
    assert(walk(l, p, n + 1) == walk(l, next_leaf(l, p), ((n + 1) - 1) as nat));
}

/// Going down from a path to a single rule, or from a path that leads to no composite, stays
/// where it is.
pub proof fn lemma_first_leaf_stays(l: Seq<Shape>, p: Seq<int>)
    requires
        !(valid_path(l, p) && node_at(l, p) is Composite),
    ensures
        first_leaf(l, p) == p,
{
}

/// Going down from a composite is going down from its first child.
pub proof fn lemma_first_leaf_descend(l: Seq<Shape>, p: Seq<int>)
    requires
        valid_path(l, p),
        node_at(l, p) is Composite,
        children_list(l, p).len() > 0,
    ensures
        first_leaf(l, p) == first_leaf(l, p.push(0)),
{
}

/// In a tree without empty composites, the walk's stops are single rules, or the end: every
/// step of the walk moves strictly forward, leaving fewer nodes to visit.
pub proof fn lemma_first_leaf_is_leaf(l: Seq<Shape>, p: Seq<int>)
    requires
        forest_nonempty(l),
        valid_path(l, p),
    ensures
        valid_path(l, first_leaf(l, p)),
        node_at(l, first_leaf(l, p)) is Leaf,
        remaining(l, first_leaf(l, p)) <= remaining(l, p),
    decreases remaining(l, p),
{
    if node_at(l, p) is Composite {
        lemma_composite_has_first_child(l, p);
        lemma_remaining_descend(l, p);
        lemma_first_leaf_is_leaf(l, p.push(0));
    }
}

/// Each step of the walk from a single rule moves on to a later single rule, or to the end.
pub proof fn lemma_next_leaf_progress(l: Seq<Shape>, p: Seq<int>)
    requires
        forest_nonempty(l),
        valid_path(l, p),
    ensures
        next_leaf(l, p).len() == 0 || (valid_path(l, next_leaf(l, p)) && node_at(
            l,
            next_leaf(l, p),
        ) is Leaf),
        remaining(l, next_leaf(l, p)) < remaining(l, p),
{
    lemma_remaining_advance(l, p);
    let a = advance_path(l, p);
    if a.len() > 0 {
        lemma_first_leaf_is_leaf(l, a);
    } else {
        lemma_first_leaf_stays(l, a);
    }
}

/// Once the walk has ended, it stays at the end.
pub proof fn lemma_walk_from_end(l: Seq<Shape>, n: nat)
    ensures
        walk(l, Seq::empty(), n) == Seq::<int>::empty(),
    decreases n,
{
    if n > 0 {
        lemma_walk_from_end(l, (n - 1) as nat);
    }
}

/// In a tree without empty composites, the walk over the single rules from any single rule
/// ends after at most as many completed rules as there are nodes still to visit: the engine
/// finishes every rule chain.
pub proof fn lemma_walk_ends(l: Seq<Shape>, p: Seq<int>, n: nat)
    requires
        forest_nonempty(l),
        valid_path(l, p),
        node_at(l, p) is Leaf,
        n >= remaining(l, p),
    ensures
        walk(l, p, n) == Seq::<int>::empty(),
    decreases n,
{
    lemma_next_leaf_progress(l, p);
    lemma_walk_succ(l, p, (n - 1) as nat);
    let q = next_leaf(l, p);
    if q.len() == 0 {
        assert(q =~= Seq::<int>::empty());
        lemma_walk_from_end(l, (n - 1) as nat);
    } else {
        lemma_walk_ends(l, q, (n - 1) as nat);
    }
}

/// Following a path from the top is following its first index, then the rest of the path from
/// the children of the rule that index picks.
pub proof fn lemma_children_list_cons(l: Seq<Shape>, a: int, q: Seq<int>)
    requires
        0 <= a < l.len(),
    ensures
        children_list(l, seq![a] + q) == children_list(shape_children(l[a]), q),
    decreases q.len(),
{
    if q.len() == 0 {
        assert(seq![a] + q =~= seq![a]);
        assert(seq![a].drop_last() =~= Seq::<int>::empty());
        assert(children_list(l, Seq::<int>::empty()) == l);
        assert(seq![a].last() == a);
    } else {
        assert((seq![a] + q).drop_last() =~= seq![a] + q.drop_last());
        assert((seq![a] + q).last() == q.last());
        lemma_children_list_cons(l, a, q.drop_last());
    }
}

/// A path of two or more indices leads to a rule exactly when its first index picks a composite
/// and the rest of it leads to a rule among that composite's children.
pub proof fn lemma_valid_path_cons(l: Seq<Shape>, p: Seq<int>)
    requires
        valid_path(l, p),
        p.len() > 1,
    ensures
        0 <= p[0] < l.len(),
        l[p[0]] is Composite,
        valid_path(shape_children(l[p[0]]), p.drop_first()),
        node_at(l, p) == node_at(shape_children(l[p[0]]), p.drop_first()),
{
    lemma_prefix_valid(l, p, 1);
    assert(p.take(1).drop_last() =~= Seq::<int>::empty());
    let q = p.drop_first();
    assert(p =~= seq![p[0]] + q);
    assert(p.drop_last() =~= seq![p[0]] + q.drop_last());
    lemma_children_list_cons(l, p[0], q.drop_last());
}

} // verus!
