//! Engine-wide laws, stated over the models that the executable functions'
//! contracts speak of.

use vstd::prelude::*;

use crate::value::Node;
use crate::diff::{Ev, diff_at, diff_entries, diff_items, diff_spec, patch_of};
use crate::merge::{merge_at, lemma_merge_reference};
use crate::patch::{Seg, Op, PatchError, get_at, add_at, apply_op, apply_ops};

verus! {

/// Every event in the sequence reports its node as unchanged.
pub open spec fn only_unchanged(evs: Seq<Ev>) -> bool {
    forall|i: int| 0 <= i < evs.len() ==> (#[trigger] evs[i]) is Unchanged
}

proof fn lemma_diff_self_at(p: Seq<Seg>, x: Node)
    ensures
        only_unchanged(diff_at(p, x, x)),
    decreases x, 0int,
{
    match x {
        Node::Mapping(m) => {
            lemma_diff_self_entries(p, m);
        },
        Node::Sequence(s) => {
            lemma_diff_self_items(p, s, 0);
        },
        _ => {},
    }
}

proof fn lemma_diff_self_entries(p: Seq<Seg>, m: Seq<(Seq<char>, Node)>)
    ensures
        only_unchanged(diff_entries(p, m, m)),
    decreases m, 1int,
{
    if m.len() > 0 {
        lemma_diff_self_at(p.push(Seg::Key(m[0].0)), m[0].1);
        lemma_diff_self_entries(p, m.skip(1));
        let head = diff_at(p.push(Seg::Key(m[0].0)), m[0].1, m[0].1);
        let rest = diff_entries(p, m.skip(1), m.skip(1));
        assert forall|i: int| 0 <= i < (head + rest).len() implies (#[trigger] (head + rest)[i])
            is Unchanged by {
            if i < head.len() {
                assert((head + rest)[i] == head[i]);
            } else {
                assert((head + rest)[i] == rest[i - head.len()]);
            }
        }
    }
}

proof fn lemma_diff_self_items(p: Seq<Seg>, s: Seq<Node>, off: int)
    ensures
        only_unchanged(diff_items(p, s, s, off)),
    decreases s, 1int,
{
    if s.len() > 0 {
        lemma_diff_self_at(p.push(Seg::Index(off)), s[0]);
        lemma_diff_self_items(p, s.skip(1), off + 1);
        let head = diff_at(p.push(Seg::Index(off)), s[0], s[0]);
        let rest = diff_items(p, s.skip(1), s.skip(1), off + 1);
        assert forall|i: int| 0 <= i < (head + rest).len() implies (#[trigger] (head + rest)[i])
            is Unchanged by {
            if i < head.len() {
                assert((head + rest)[i] == head[i]);
            } else {
                assert((head + rest)[i] == rest[i - head.len()]);
            }
        }
    }
}

/// Law: diffing a document against itself yields only `Unchanged` events —
/// the differ reports no false positives.
pub proof fn lemma_diff_identity(x: Node)
    ensures
        only_unchanged(diff_spec(x, x)),
{
    lemma_diff_self_at(Seq::empty(), x);
}

/// Law, for scalar documents: the patch generated from the diff replays
/// the change — applying it to the origin yields the merge of the two,
/// which is the reference.
pub proof fn lemma_patch_replays_scalar_diff(a: Node, b: Node)
    requires
        !(a is Mapping),
        !(a is Sequence),
        !(b is Mapping),
        !(b is Sequence),
    ensures
        apply_ops(a, patch_of(diff_spec(a, b))) == Ok::<Node, PatchError>(merge_at(a, b)),
        merge_at(a, b) == b,
{
    lemma_merge_reference(a, b);
    let evs = diff_spec(a, b);
    if a == b {
        assert(evs == seq![Ev::Unchanged(Seq::empty(), a)]);
        assert(evs.skip(1).len() == 0);
        assert(patch_of(evs.skip(1)) == Seq::<Op>::empty());
        assert(patch_of(evs) =~= Seq::<Op>::empty());
        assert(apply_ops(a, patch_of(evs)) == Ok::<Node, PatchError>(a));
    } else {
        assert(evs == seq![Ev::Modified(Seq::empty(), a, b)]);
        assert(evs.skip(1).len() == 0);
        assert(patch_of(evs.skip(1)) == Seq::<Op>::empty());
        let ops = patch_of(evs);
        assert(ops =~= seq![Op::Replace(Seq::empty(), b)]);
        assert(get_at(a, Seq::empty()) == Some(a));
        assert(add_at(a, Seq::empty(), b) == Ok::<Node, PatchError>(b));
        assert(apply_op(a, ops[0]) == Ok::<Node, PatchError>(b));
        assert(ops.skip(1).len() == 0);
        assert(apply_ops(b, ops.skip(1)) == Ok::<Node, PatchError>(b));
    }
}

/// Law: applying a single `Test` operation succeeds, returning the base
/// unchanged, exactly when the value at the path equals the expected one;
/// otherwise it fails with `TestFailed`.
pub proof fn lemma_test_operation(base: Node, p: Seq<Seg>, v: Node)
    ensures
        get_at(base, p) == Some(v) ==> apply_ops(base, seq![Op::Test(p, v)]) == Ok::<
            Node,
            PatchError,
        >(base),
        get_at(base, p) != Some(v) ==> apply_ops(base, seq![Op::Test(p, v)]) == Err::<
            Node,
            PatchError,
        >(PatchError::TestFailed),
{
    let ops = seq![Op::Test(p, v)];
    assert(ops[0] == Op::Test(p, v));
    assert(ops.skip(1).len() == 0);
    if get_at(base, p) == Some(v) {
        assert(apply_op(base, ops[0]) == Ok::<Node, PatchError>(base));
        assert(apply_ops(base, ops.skip(1)) == Ok::<Node, PatchError>(base));
    } else {
        assert(apply_op(base, ops[0]) == Err::<Node, PatchError>(PatchError::TestFailed));
    }
}

} // verus!
