//! The merger: combines two documents in one traversal, driven by the same
//! recursive comparison as the differ, without materializing a patch.
//!
//! At every path where origin and reference agree the origin subtree is
//! kept; where they disagree the reference's value is taken wholesale
//! (last-writer-wins, no conflict markers). Because the comparison covers
//! every key and index, the merged tree is structurally equal to the
//! reference — the proof of that law is [`lemma_merge_reference`].

use vstd::prelude::*;

use crate::value::{
    TreeValue, Node, node_of, nodes_of, entries_of, lemma_nodes_of, lemma_entries_of,
    lemma_nodes_of_split, lemma_entries_of_split, lemma_node_size_pos, node_size, nodes_size,
    entries_size, lex_lt, str_lex_lt,
};

verus! {

/// The merge of two nodes: origin's subtree where they agree, reference's
/// value where they disagree.
pub open spec fn merge_at(a: Node, b: Node) -> Node
    decreases a, b, 0int,
{
    match (a, b) {
        (Node::Mapping(ma), Node::Mapping(mb)) => Node::Mapping(merge_entries(ma, mb)),
        (Node::Sequence(sa), Node::Sequence(sb)) => Node::Sequence(merge_items(sa, sb)),
        _ => if a == b {
            a
        } else {
            b
        },
    }
}

/// Merge of two canonical entry lists: keys only in the origin are dropped,
/// keys only in the reference are added, common keys recurse.
pub open spec fn merge_entries(ma: Seq<(Seq<char>, Node)>, mb: Seq<(Seq<char>, Node)>) -> Seq<
    (Seq<char>, Node),
>
    decreases ma, mb, 1int,
{
    if ma.len() == 0 {
        mb
    } else if mb.len() == 0 {
        Seq::empty()
    } else if ma[0].0 == mb[0].0 {
        seq![(ma[0].0, merge_at(ma[0].1, mb[0].1))] + merge_entries(ma.skip(1), mb.skip(1))
    } else if lex_lt(ma[0].0, mb[0].0) {
        merge_entries(ma.skip(1), mb)
    } else {
        seq![mb[0]] + merge_entries(ma, mb.skip(1))
    }
}

/// Index-aligned merge of two element lists: the common prefix recurses,
/// extra origin elements are dropped, extra reference elements are kept.
pub open spec fn merge_items(sa: Seq<Node>, sb: Seq<Node>) -> Seq<Node>
    decreases sa, sb, 1int,
{
    if sa.len() == 0 {
        sb
    } else if sb.len() == 0 {
        Seq::empty()
    } else {
        seq![merge_at(sa[0], sb[0])] + merge_items(sa.skip(1), sb.skip(1))
    }
}

/// Law: the merged tree is structurally equal to the reference. Keeping the
/// origin's subtree where the two agree makes no structural difference.
pub proof fn lemma_merge_reference(a: Node, b: Node)
    ensures
        merge_at(a, b) == b,
    decreases a, b, 0int,
{
    match (a, b) {
        (Node::Mapping(ma), Node::Mapping(mb)) => {
            lemma_merge_entries_reference(ma, mb);
        },
        (Node::Sequence(sa), Node::Sequence(sb)) => {
            lemma_merge_items_reference(sa, sb);
        },
        _ => {},
    }
}

proof fn lemma_merge_entries_reference(ma: Seq<(Seq<char>, Node)>, mb: Seq<(Seq<char>, Node)>)
    ensures
        merge_entries(ma, mb) == mb,
    decreases ma, mb, 1int,
{
    if ma.len() == 0 {
    } else if mb.len() == 0 {
        assert(merge_entries(ma, mb) =~= mb);
    } else if ma[0].0 == mb[0].0 {
        lemma_merge_reference(ma[0].1, mb[0].1);
        lemma_merge_entries_reference(ma.skip(1), mb.skip(1));
        assert((ma[0].0, merge_at(ma[0].1, mb[0].1)) == mb[0]);
        assert(merge_entries(ma, mb) =~= mb);
    } else if lex_lt(ma[0].0, mb[0].0) {
        lemma_merge_entries_reference(ma.skip(1), mb);
    } else {
        lemma_merge_entries_reference(ma, mb.skip(1));
        assert(merge_entries(ma, mb) =~= mb);
    }
}

proof fn lemma_merge_items_reference(sa: Seq<Node>, sb: Seq<Node>)
    ensures
        merge_items(sa, sb) == sb,
    decreases sa, sb, 1int,
{
    if sa.len() == 0 {
    } else if sb.len() == 0 {
        assert(merge_items(sa, sb) =~= sb);
    } else {
        lemma_merge_reference(sa[0], sb[0]);
        lemma_merge_items_reference(sa.skip(1), sb.skip(1));
        assert(merge_items(sa, sb) =~= sb);
    }
}

fn clone_entries_from(eb: &Vec<(String, TreeValue)>, i: usize) -> (r: Vec<(String, TreeValue)>)
    requires
        i <= eb@.len(),
    ensures
        entries_of(r@) == entries_of(eb@).skip(i as int),
{
    let mut out: Vec<(String, TreeValue)> = Vec::new();
    let mut j: usize = i;
    while j < eb.len()
        invariant
            i <= j <= eb@.len(),
            out@.len() == j - i,
            forall|t: int| 0 <= t < j - i ==> (#[trigger] out@[t]).0@ == eb@[t + i].0@
                && out@[t].1@ == eb@[t + i].1@,
        decreases eb@.len() - j,
    {
        let e = &eb[j];
        out.push((e.0.clone(), e.1.deep_clone()));
        j += 1;
    }
    proof {
        lemma_entries_of(out@);
        lemma_entries_of(eb@);
        assert forall|t: int| 0 <= t < out@.len() implies entries_of(out@)[t] == entries_of(
            eb@,
        ).skip(i as int)[t] by {
            assert(entries_of(out@)[t] == (out@[t].0@, node_of(out@[t].1)));
        }
        assert(entries_of(out@) =~= entries_of(eb@).skip(i as int));
    }
    out
}

fn clone_items_from(xb: &Vec<TreeValue>, i: usize) -> (r: Vec<TreeValue>)
    requires
        i <= xb@.len(),
    ensures
        nodes_of(r@) == nodes_of(xb@).skip(i as int),
{
    let mut out: Vec<TreeValue> = Vec::new();
    let mut j: usize = i;
    while j < xb.len()
        invariant
            i <= j <= xb@.len(),
            out@.len() == j - i,
            forall|t: int| 0 <= t < j - i ==> (#[trigger] out@[t])@ == xb@[t + i]@,
        decreases xb@.len() - j,
    {
        out.push(xb[j].deep_clone());
        j += 1;
    }
    proof {
        lemma_nodes_of(out@);
        lemma_nodes_of(xb@);
        assert forall|t: int| 0 <= t < out@.len() implies nodes_of(out@)[t] == nodes_of(xb@).skip(
            i as int,
        )[t] by {
            assert(nodes_of(out@)[t] == node_of(out@[t]));
        }
        assert(nodes_of(out@) =~= nodes_of(xb@).skip(i as int));
    }
    out
}

fn merge_entries_rec(
    ea: &Vec<(String, TreeValue)>,
    eb: &Vec<(String, TreeValue)>,
    ia: usize,
    ib: usize,
) -> (r: Vec<(String, TreeValue)>)
    requires
        ia <= ea@.len(),
        ib <= eb@.len(),
    ensures
        entries_of(r@) == merge_entries(
            entries_of(ea@).skip(ia as int),
            entries_of(eb@).skip(ib as int),
        ),
    decreases entries_size(entries_of(ea@).skip(ia as int)) + entries_size(
        entries_of(eb@).skip(ib as int),
    ), 1int,
{
    proof {
        lemma_entries_of(ea@);
        lemma_entries_of(eb@);
        if ia < ea@.len() {
            assert(entries_of(ea@).skip(ia as int)[0] == entries_of(ea@)[ia as int]);
            assert(entries_of(ea@).skip(ia as int).skip(1) =~= entries_of(ea@).skip(ia as int + 1));
            lemma_node_size_pos(entries_of(ea@)[ia as int].1);
        }
        if ib < eb@.len() {
            assert(entries_of(eb@).skip(ib as int)[0] == entries_of(eb@)[ib as int]);
            assert(entries_of(eb@).skip(ib as int).skip(1) =~= entries_of(eb@).skip(ib as int + 1));
            lemma_node_size_pos(entries_of(eb@)[ib as int].1);
        }
        if ia == ea@.len() {
            assert(entries_of(ea@).skip(ia as int) =~= Seq::<(Seq<char>, Node)>::empty());
        }
    }
    let ghost ma = entries_of(ea@).skip(ia as int);
    let ghost mb = entries_of(eb@).skip(ib as int);
    if ia == ea.len() {
        clone_entries_from(eb, ib)
    } else if ib == eb.len() {
        Vec::new()
    } else {
        let a = &ea[ia];
        let b = &eb[ib];
        if a.0 == b.0 {
            let child = merge_value_rec(&a.1, &b.1);
            let mut out: Vec<(String, TreeValue)> = Vec::new();
            out.push((a.0.clone(), child));
            let ghost head = out@;
            let mut rest = merge_entries_rec(ea, eb, ia + 1, ib + 1);
            proof {
                lemma_entries_of_split(head, rest@);
                lemma_entries_of(head);
                assert(entries_of(head) =~= seq![(ma[0].0, merge_at(ma[0].1, mb[0].1))]);
            }
            out.append(&mut rest);
            out
        } else if str_lex_lt(a.0.as_str(), b.0.as_str()) {
            merge_entries_rec(ea, eb, ia + 1, ib)
        } else {
            let mut out: Vec<(String, TreeValue)> = Vec::new();
            out.push((b.0.clone(), b.1.deep_clone()));
            let ghost head = out@;
            let mut rest = merge_entries_rec(ea, eb, ia, ib + 1);
            proof {
                lemma_entries_of_split(head, rest@);
                lemma_entries_of(head);
                assert(entries_of(head) =~= seq![mb[0]]);
            }
            out.append(&mut rest);
            out
        }
    }
}

fn merge_items_rec(xa: &Vec<TreeValue>, xb: &Vec<TreeValue>, off: usize) -> (r: Vec<TreeValue>)
    requires
        off <= xa@.len(),
        off <= xb@.len(),
    ensures
        nodes_of(r@) == merge_items(nodes_of(xa@).skip(off as int), nodes_of(xb@).skip(off as int)),
    decreases nodes_size(nodes_of(xa@).skip(off as int)) + nodes_size(
        nodes_of(xb@).skip(off as int),
    ), 1int,
{
    proof {
        lemma_nodes_of(xa@);
        lemma_nodes_of(xb@);
        if off < xa@.len() {
            assert(nodes_of(xa@).skip(off as int)[0] == nodes_of(xa@)[off as int]);
            assert(nodes_of(xa@).skip(off as int).skip(1) =~= nodes_of(xa@).skip(off as int + 1));
            lemma_node_size_pos(nodes_of(xa@)[off as int]);
        }
        if off < xb@.len() {
            assert(nodes_of(xb@).skip(off as int)[0] == nodes_of(xb@)[off as int]);
            assert(nodes_of(xb@).skip(off as int).skip(1) =~= nodes_of(xb@).skip(off as int + 1));
            lemma_node_size_pos(nodes_of(xb@)[off as int]);
        }
        if off == xa@.len() {
            assert(nodes_of(xa@).skip(off as int) =~= Seq::<Node>::empty());
        }
    }
    let ghost sa = nodes_of(xa@).skip(off as int);
    let ghost sb = nodes_of(xb@).skip(off as int);
    if off == xa.len() {
        clone_items_from(xb, off)
    } else if off == xb.len() {
        Vec::new()
    } else {
        let child = merge_value_rec(&xa[off], &xb[off]);
        let mut out: Vec<TreeValue> = Vec::new();
        out.push(child);
        let ghost head = out@;
        let mut rest = merge_items_rec(xa, xb, off + 1);
        proof {
            lemma_nodes_of_split(head, rest@);
            lemma_nodes_of(head);
            assert(nodes_of(head) =~= seq![merge_at(sa[0], sb[0])]);
        }
        out.append(&mut rest);
        out
    }
}

fn merge_value_rec(a: &TreeValue, b: &TreeValue) -> (r: TreeValue)
    ensures
        r@ == merge_at(a@, b@),
    decreases node_size(a@) + node_size(b@), 0int,
{
    match (a, b) {
        (TreeValue::Mapping(ea), TreeValue::Mapping(eb)) => {
            proof {
                lemma_entries_of(ea@);
                lemma_entries_of(eb@);
                assert(a@ == Node::Mapping(entries_of(ea@)));
                assert(b@ == Node::Mapping(entries_of(eb@)));
                assert(entries_of(ea@).skip(0) =~= entries_of(ea@));
                assert(entries_of(eb@).skip(0) =~= entries_of(eb@));
            }
            TreeValue::Mapping(merge_entries_rec(ea, eb, 0, 0))
        },
        (TreeValue::Sequence(xa), TreeValue::Sequence(xb)) => {
            proof {
                lemma_nodes_of(xa@);
                lemma_nodes_of(xb@);
                assert(a@ == Node::Sequence(nodes_of(xa@)));
                assert(b@ == Node::Sequence(nodes_of(xb@)));
                assert(nodes_of(xa@).skip(0) =~= nodes_of(xa@));
                assert(nodes_of(xb@).skip(0) =~= nodes_of(xb@));
            }
            TreeValue::Sequence(merge_items_rec(xa, xb, 0))
        },
        _ => {
            if a.structural_eq(b) {
                a.deep_clone()
            } else {
                b.deep_clone()
            }
        },
    }
}

/// Merge two documents in one pass. The result equals what applying the
/// patch generated from `diff(origin, reference)` to `origin` would give;
/// with full index-aligned coverage that is the reference itself.
pub fn merge(origin: &TreeValue, reference: &TreeValue) -> (r: TreeValue)
    ensures
        r@ == merge_at(origin@, reference@),
        r@ == reference@,
{
    let out = merge_value_rec(origin, reference);
    proof {
        lemma_merge_reference(origin@, reference@);
    }
    out
}

} // verus!
