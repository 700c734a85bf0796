//! The order of the inputs of a group: when it shows in the tree of the group
//! and when it does not.

use crate::codegen::{
    children_sorted, group_tree, grouped_text, lemma_group_tree_sorted, relative_segments,
    tree_insert, tree_sorted, Asset, CodegenInputView, Tree,
};
use crate::path::stem_of;
use crate::sorted::{
    lemma_put_commutes, lemma_put_lookup, lemma_put_twice, lemma_rank, lookup, put, rank,
};
use vstd::prelude::*;
use vstd::seq_lib::{to_multiset_contains, to_multiset_len, to_multiset_remove};

verus! {

/// The name under which an input at `segments` is put into the folder it
/// starts from: the name of its file without the extension where it lies
/// directly in the folder, and else the name of the first folder on its way.
pub open spec fn head_key(segments: Seq<Seq<char>>) -> Seq<char> {
    if segments.len() == 1 {
        stem_of(segments[0])
    } else {
        segments[0]
    }
}

/// Two inputs, at `p` and at `q`, clash: they ask for the same place in the
/// tree, or the one asks for a place on the way of the other.
pub open spec fn clash(p: Seq<Seq<char>>, q: Seq<Seq<char>>) -> bool
    decreases p.len(),
{
    if p.len() == 0 || q.len() == 0 {
        false
    } else if head_key(p) != head_key(q) {
        false
    } else if p.len() == 1 || q.len() == 1 {
        true
    } else {
        clash(p.drop_first(), q.drop_first())
    }
}

/// The path of an input below its base path, as the tree of a group takes it.
pub open spec fn way(input: CodegenInputView) -> Seq<Seq<char>> {
    relative_segments(input).unwrap()
}

/// No two of `inputs` clash.
pub open spec fn no_clashes(inputs: Seq<CodegenInputView>) -> bool {
    forall|i: int, j: int|
        0 <= i < inputs.len() && 0 <= j < inputs.len() && i != j ==> !clash(
            way(#[trigger] inputs[i]),
            way(#[trigger] inputs[j]),
        )
}

/// What an input at `segments` puts under its head key, where `found` is what
/// the folder holds there; nothing where `found` is a file on its way.
pub open spec fn put_value(found: Option<Tree>, segments: Seq<Seq<char>>, leaf: Asset) -> Option<
    Tree,
> {
    if segments.len() == 1 {
        Some(Tree::Leaf(leaf))
    } else {
        match found {
            Some(Tree::Leaf(_)) => None,
            Some(Tree::Folder(inner)) => Some(
                Tree::Folder(tree_insert(inner, segments.drop_first(), leaf)),
            ),
            None => Some(Tree::Folder(tree_insert(Seq::empty(), segments.drop_first(), leaf))),
        }
    }
}

/// The folder `children` after an input at `segments` was added, told by what
/// the folder holds under the head key of the input.
pub open spec fn insert_at_head(
    children: Seq<(Seq<char>, Tree)>,
    segments: Seq<Seq<char>>,
    leaf: Asset,
) -> Seq<(Seq<char>, Tree)> {
    match put_value(lookup(children, head_key(segments)), segments, leaf) {
        Some(value) => put(children, head_key(segments), value),
        None => children,
    }
}

/// Adding an input changes a folder under the head key of the input alone.
proof fn lemma_insert_at_head(
    children: Seq<(Seq<char>, Tree)>,
    segments: Seq<Seq<char>>,
    leaf: Asset,
)
    requires
        segments.len() > 0,
    ensures
        tree_insert(children, segments, leaf) == insert_at_head(children, segments, leaf),
{
}

/// Two inputs that go different ways from a folder can be added in either
/// order.
proof fn lemma_different_heads_commute(
    t: Seq<(Seq<char>, Tree)>,
    p: Seq<Seq<char>>,
    x: Asset,
    q: Seq<Seq<char>>,
    y: Asset,
)
    requires
        children_sorted(t),
        p.len() > 0,
        q.len() > 0,
        head_key(p) != head_key(q),
    ensures
        tree_insert(tree_insert(t, p, x), q, y) == tree_insert(tree_insert(t, q, y), p, x),
{
    let hp = head_key(p);
    let hq = head_key(q);
    let vp = put_value(lookup(t, hp), p, x);
    let vq = put_value(lookup(t, hq), q, y);
    lemma_insert_at_head(t, p, x);
    lemma_insert_at_head(t, q, y);
    let t1 = tree_insert(t, p, x);
    let t2 = tree_insert(t, q, y);
    lemma_insert_at_head(t1, q, y);
    lemma_insert_at_head(t2, p, x);
    if vp is Some {
        lemma_put_lookup(t, hp, vp->0, hq);
    }
    if vq is Some {
        lemma_put_lookup(t, hq, vq->0, hp);
    }
    assert(lookup(t1, hq) == lookup(t, hq));
    assert(lookup(t2, hp) == lookup(t, hp));
    if vp is Some && vq is Some {
        lemma_put_commutes(t, hp, vp->0, hq, vq->0);
    }
}

/// Two inputs that do not clash can be added to a folder in either order.
pub proof fn lemma_inserts_commute(
    t: Seq<(Seq<char>, Tree)>,
    p: Seq<Seq<char>>,
    x: Asset,
    q: Seq<Seq<char>>,
    y: Asset,
)
    requires
        children_sorted(t),
        !clash(p, q),
    ensures
        tree_insert(tree_insert(t, p, x), q, y) == tree_insert(tree_insert(t, q, y), p, x),
    decreases p.len(),
{
    if p.len() == 0 || q.len() == 0 {
    } else if head_key(p) != head_key(q) {
        lemma_different_heads_commute(t, p, x, q, y);
    } else {
        let k = p[0];
        assert(q[0] == k);
        let tail_p = p.drop_first();
        let tail_q = q.drop_first();
        lemma_insert_at_head(t, p, x);
        lemma_insert_at_head(t, q, y);
        match lookup(t, k) {
            Some(Tree::Leaf(_)) => {},
            Some(Tree::Folder(inner)) => {
                lemma_rank(t, k);
                assert(tree_sorted(t[rank(t, k)].1));
                lemma_inserts_commute(inner, tail_p, x, tail_q, y);
                lemma_both_through(t, k, inner, tail_p, x, tail_q, y, p, q);
                lemma_both_through(t, k, inner, tail_q, y, tail_p, x, q, p);
            },
            None => {
                let inner = Seq::<(Seq<char>, Tree)>::empty();
                lemma_inserts_commute(inner, tail_p, x, tail_q, y);
                lemma_both_through(t, k, inner, tail_p, x, tail_q, y, p, q);
                lemma_both_through(t, k, inner, tail_q, y, tail_p, x, q, p);
            },
        }
    }
}

/// Two inputs that lead through the folder `k` of `t`, which holds `inner` or
/// is not there yet, leave `t` with that folder after both were added to it.
proof fn lemma_both_through(
    t: Seq<(Seq<char>, Tree)>,
    k: Seq<char>,
    inner: Seq<(Seq<char>, Tree)>,
    tail_p: Seq<Seq<char>>,
    x: Asset,
    tail_q: Seq<Seq<char>>,
    y: Asset,
    p: Seq<Seq<char>>,
    q: Seq<Seq<char>>,
)
    requires
        children_sorted(t),
        p.len() > 1,
        q.len() > 1,
        p[0] == k,
        q[0] == k,
        tail_p == p.drop_first(),
        tail_q == q.drop_first(),
        lookup(t, k) == Some(Tree::Folder(inner)) || (lookup(t, k) is None && inner
            == Seq::<(Seq<char>, Tree)>::empty()),
    ensures
        tree_insert(tree_insert(t, p, x), q, y) == put(
            t,
            k,
            Tree::Folder(tree_insert(tree_insert(inner, tail_p, x), tail_q, y)),
        ),
{
    let first = Tree::Folder(tree_insert(inner, tail_p, x));
    let t1 = put(t, k, first);
    assert(tree_insert(t, p, x) == t1);
    lemma_put_lookup(t, k, first, k);
    assert(lookup(t1, k) == Some(first));
    let second = Tree::Folder(tree_insert(tree_insert(inner, tail_p, x), tail_q, y));
    assert(tree_insert(t1, q, y) == put(t1, k, second));
    lemma_put_twice(t, k, first, second);
}

/// The tree of a group after all of `inputs` were added, in order.
pub open spec fn whole_tree(inputs: Seq<CodegenInputView>) -> Seq<(Seq<char>, Tree)> {
    group_tree(inputs, inputs.len() as int)
}

/// The tree after the first `n` inputs does not depend on the inputs that
/// follow.
proof fn lemma_group_tree_prefix(
    inputs: Seq<CodegenInputView>,
    longer: Seq<CodegenInputView>,
    n: int,
)
    requires
        0 <= n <= inputs.len(),
        inputs.len() <= longer.len(),
        forall|i: int| 0 <= i < inputs.len() ==> inputs[i] == longer[i],
    ensures
        group_tree(longer, n) == group_tree(inputs, n),
    decreases n,
{
    if n > 0 {
        lemma_group_tree_prefix(inputs, longer, n - 1);
    }
}

/// One more input at the end is added to the tree of those before it.
proof fn lemma_whole_tree_push(inputs: Seq<CodegenInputView>, input: CodegenInputView)
    ensures
        whole_tree(inputs.push(input)) == tree_insert(
            whole_tree(inputs),
            way(input),
            input.asset,
        ),
{
    lemma_group_tree_prefix(inputs, inputs.push(input), inputs.len() as int);
}

/// An input that clashes with none of those after it can as well be added
/// last.
proof fn lemma_move_to_end(
    before: Seq<CodegenInputView>,
    input: CodegenInputView,
    after: Seq<CodegenInputView>,
)
    requires
        forall|j: int| 0 <= j < after.len() ==> !clash(way(input), way(#[trigger] after[j])),
    ensures
        whole_tree(before.push(input) + after) == tree_insert(
            whole_tree(before + after),
            way(input),
            input.asset,
        ),
    decreases after.len(),
{
    if after.len() == 0 {
        assert(before.push(input) + after =~= before.push(input));
        assert(before + after =~= before);
        lemma_whole_tree_push(before, input);
    } else {
        let front = after.drop_last();
        let last = after.last();
        assert forall|j: int| 0 <= j < front.len() implies !clash(
            way(input),
            way(#[trigger] front[j]),
        ) by {
            assert(front[j] == after[j]);
        }
        lemma_move_to_end(before, input, front);
        assert(before.push(input) + after =~= (before.push(input) + front).push(last));
        assert(before + after =~= (before + front).push(last));
        lemma_whole_tree_push(before.push(input) + front, last);
        lemma_whole_tree_push(before + front, last);
        lemma_group_tree_sorted(before + front, (before + front).len() as int);
        assert(!clash(way(input), way(after[after.len() - 1])));
        lemma_inserts_commute(
            whole_tree(before + front),
            way(input),
            input.asset,
            way(last),
            last.asset,
        );
    }
}

/// The tree of a group does not depend on the order of its inputs, where no
/// two of them clash.
pub proof fn lemma_tree_ignores_order(one: Seq<CodegenInputView>, other: Seq<CodegenInputView>)
    requires
        one.to_multiset() == other.to_multiset(),
        no_clashes(one),
    ensures
        whole_tree(one) == whole_tree(other),
    decreases one.len(),
{
    to_multiset_len(one);
    to_multiset_len(other);
    if one.len() > 0 {
        let n = one.len() as int;
        let x = one[n - 1];
        let rest = one.drop_last();
        assert(one.contains(x));
        to_multiset_contains(one, x);
        to_multiset_contains(other, x);
        let at = choose|at: int| 0 <= at < other.len() && other[at] == x;
        let before = other.take(at);
        let after = other.skip(at + 1);
        assert(other =~= before.push(x) + after);
        assert(other.remove(at) =~= before + after);
        assert(one.remove(n - 1) =~= rest);
        to_multiset_remove(one, n - 1);
        to_multiset_remove(other, at);
        assert(rest.to_multiset() == (before + after).to_multiset());
        assert(no_clashes(rest)) by {
            assert forall|i: int, j: int|
                0 <= i < rest.len() && 0 <= j < rest.len() && i != j implies !clash(
                way(#[trigger] rest[i]),
                way(#[trigger] rest[j]),
            ) by {
                assert(rest[i] == one[i] && rest[j] == one[j]);
            }
        }
        lemma_tree_ignores_order(rest, before + after);
        assert forall|j: int| 0 <= j < after.len() implies !clash(
            way(x),
            way(#[trigger] after[j]),
        ) by {
            let z = after[j];
            assert((before + after)[before.len() + j] == z);
            assert((before + after).contains(z));
            to_multiset_contains(before + after, z);
            to_multiset_contains(rest, z);
            let i = choose|i: int| 0 <= i < rest.len() && rest[i] == z;
            assert(one[i] == z);
            assert(!clash(way(one[n - 1]), way(one[i])));
        }
        lemma_move_to_end(before, x, after);
        assert(one =~= rest.push(x));
        lemma_whole_tree_push(rest, x);
    } else {
        assert(other.len() == 0);
    }
}

/// The code of a group does not depend on the order of its inputs, where no
/// two of them clash: where no two ask for the same place in the tree, and
/// none asks for a place on the way of another.
pub proof fn lemma_grouped_code_ignores_order(
    one: Seq<CodegenInputView>,
    other: Seq<CodegenInputView>,
)
    requires
        one.to_multiset() == other.to_multiset(),
        no_clashes(one),
    ensures
        grouped_text(one) == grouped_text(other),
{
    lemma_tree_ignores_order(one, other);
}

} // verus!
