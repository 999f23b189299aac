//! The structural differ: a deterministic pre-order comparison of two trees
//! producing a typed sequence of change events, and the conversion of those
//! events into a portable patch.
//!
//! Mappings are walked in canonical (lexicographic) key order. Sequences are
//! compared index by index: elements past the shorter length are reported as
//! added or removed wholesale, and a pure reorder is reported as element-wise
//! modifications. Trailing removals are emitted with the highest index first,
//! so that the patch generated from the events applies cleanly while each
//! removal still names the element's original position.

use vstd::prelude::*;

use crate::value::{
    TreeValue, Node, node_of, nodes_of, entries_of, lemma_nodes_of, lemma_entries_of, lex_lt,
    str_lex_lt, lemma_node_size_pos,
};
use crate::patch::{Seg, PathSeg, Op, PatchOp, segs_of, ops_of};

verus! {

/// Model of one change event.
pub enum Ev {
    Added(Seq<Seg>, Node),
    Removed(Seq<Seg>, Node),
    Modified(Seq<Seg>, Node, Node),
    Unchanged(Seq<Seg>, Node),
}

/// One result of the differ at one path: the value was added, removed,
/// modified (old value, then new value) or left unchanged.
#[derive(Debug)]
pub enum ChangeEvent {
    Added(Vec<PathSeg>, TreeValue),
    Removed(Vec<PathSeg>, TreeValue),
    Modified(Vec<PathSeg>, TreeValue, TreeValue),
    Unchanged(Vec<PathSeg>, TreeValue),
}

impl View for ChangeEvent {
    type V = Ev;

    open spec fn view(&self) -> Ev {
        match self {
            ChangeEvent::Added(p, v) => Ev::Added(segs_of(p@), v@),
            ChangeEvent::Removed(p, v) => Ev::Removed(segs_of(p@), v@),
            ChangeEvent::Modified(p, o, n) => Ev::Modified(segs_of(p@), o@, n@),
            ChangeEvent::Unchanged(p, v) => Ev::Unchanged(segs_of(p@), v@),
        }
    }
}

/// Model of a whole event sequence.
pub open spec fn evs_of(s: Seq<ChangeEvent>) -> Seq<Ev> {
    Seq::new(s.len(), |i: int| s[i]@)
}

pub proof fn lemma_evs_of_concat(s1: Seq<ChangeEvent>, s2: Seq<ChangeEvent>)
    ensures
        evs_of(s1 + s2) == evs_of(s1) + evs_of(s2),
{
    assert forall|i: int| 0 <= i < s1.len() + s2.len() implies evs_of(s1 + s2)[i] == (evs_of(s1)
        + evs_of(s2))[i] by {
        if i < s1.len() {
            assert((s1 + s2)[i] == s1[i]);
        } else {
            assert((s1 + s2)[i] == s2[i - s1.len()]);
        }
    }
    assert(evs_of(s1 + s2) =~= evs_of(s1) + evs_of(s2));
}

/// The events for two nodes under one path.
pub open spec fn diff_at(p: Seq<Seg>, a: Node, b: Node) -> Seq<Ev>
    decreases a, b, 0int,
{
    match (a, b) {
        (Node::Mapping(ma), Node::Mapping(mb)) => diff_entries(p, ma, mb),
        (Node::Sequence(sa), Node::Sequence(sb)) => diff_items(p, sa, sb, 0),
        _ => if a == b {
            seq![Ev::Unchanged(p, a)]
        } else {
            seq![Ev::Modified(p, a, b)]
        },
    }
}

/// Walk of two canonical entry lists in merged key order.
pub open spec fn diff_entries(
    p: Seq<Seg>,
    ma: Seq<(Seq<char>, Node)>,
    mb: Seq<(Seq<char>, Node)>,
) -> Seq<Ev>
    decreases ma, mb, 1int,
{
    if ma.len() == 0 && mb.len() == 0 {
        Seq::empty()
    } else if ma.len() == 0 {
        seq![Ev::Added(p.push(Seg::Key(mb[0].0)), mb[0].1)] + diff_entries(p, ma, mb.skip(1))
    } else if mb.len() == 0 {
        seq![Ev::Removed(p.push(Seg::Key(ma[0].0)), ma[0].1)] + diff_entries(p, ma.skip(1), mb)
    } else if ma[0].0 == mb[0].0 {
        diff_at(p.push(Seg::Key(ma[0].0)), ma[0].1, mb[0].1) + diff_entries(
            p,
            ma.skip(1),
            mb.skip(1),
        )
    } else if lex_lt(ma[0].0, mb[0].0) {
        seq![Ev::Removed(p.push(Seg::Key(ma[0].0)), ma[0].1)] + diff_entries(p, ma.skip(1), mb)
    } else {
        seq![Ev::Added(p.push(Seg::Key(mb[0].0)), mb[0].1)] + diff_entries(p, ma, mb.skip(1))
    }
}

/// Index-aligned walk of two element lists; `off` is the index of the first
/// remaining element. Trailing removals come out highest index first.
pub open spec fn diff_items(p: Seq<Seg>, sa: Seq<Node>, sb: Seq<Node>, off: int) -> Seq<Ev>
    decreases sa, sb, 1int,
{
    if sa.len() == 0 && sb.len() == 0 {
        Seq::empty()
    } else if sa.len() == 0 {
        seq![Ev::Added(p.push(Seg::Index(off)), sb[0])] + diff_items(p, sa, sb.skip(1), off + 1)
    } else if sb.len() == 0 {
        diff_items(p, sa.skip(1), sb, off + 1) + seq![Ev::Removed(p.push(Seg::Index(off)), sa[0])]
    } else {
        diff_at(p.push(Seg::Index(off)), sa[0], sb[0]) + diff_items(
            p,
            sa.skip(1),
            sb.skip(1),
            off + 1,
        )
    }
}

/// The full diff: events for the two documents, rooted at the empty path.
pub open spec fn diff_spec(a: Node, b: Node) -> Seq<Ev> {
    diff_at(Seq::empty(), a, b)
}

/// The patch that replays a sequence of change events: `Added` becomes
/// `Add`, `Removed` becomes `Remove`, `Modified` becomes `Replace`, and
/// `Unchanged` is dropped.
pub open spec fn patch_of(evs: Seq<Ev>) -> Seq<Op>
    decreases evs.len(),
{
    if evs.len() == 0 {
        Seq::empty()
    } else {
        let rest = patch_of(evs.skip(1));
        match evs[0] {
            Ev::Added(p, v) => seq![Op::Add(p, v)] + rest,
            Ev::Removed(p, _) => seq![Op::Remove(p)] + rest,
            Ev::Modified(p, _, nv) => seq![Op::Replace(p, nv)] + rest,
            Ev::Unchanged(_, _) => rest,
        }
    }
}

fn clone_seg(s: &PathSeg) -> (r: PathSeg)
    ensures
        r@ == s@,
{
    match s {
        PathSeg::Key(k) => PathSeg::Key(k.clone()),
        PathSeg::Index(i) => PathSeg::Index(*i),
    }
}

/// A copy of `p` with `s` appended.
fn path_with(p: &Vec<PathSeg>, s: PathSeg) -> (r: Vec<PathSeg>)
    ensures
        segs_of(r@) == segs_of(p@).push(s@),
{
    let ghost sv = s@;
    let mut out: Vec<PathSeg> = Vec::new();
    let mut i: usize = 0;
    while i < p.len()
        invariant
            i <= p@.len(),
            out@.len() == i as int,
            forall|j: int| 0 <= j < i as int ==> (#[trigger] out@[j])@ == p@[j]@,
        decreases p@.len() - i,
    {
        let c = clone_seg(&p[i]);
        out.push(c);
        i += 1;
    }
    out.push(s);
    proof {
        assert forall|j: int| 0 <= j < out@.len() implies segs_of(out@)[j] == segs_of(p@).push(
            sv,
        )[j] by {
            assert(segs_of(out@)[j] == out@[j]@);
        }
        assert(segs_of(out@) =~= segs_of(p@).push(sv));
    }
    out
}

fn diff_entries_rec(
    p: &Vec<PathSeg>,
    ea: &Vec<(String, TreeValue)>,
    eb: &Vec<(String, TreeValue)>,
    ia: usize,
    ib: usize,
) -> (r: Vec<ChangeEvent>)
    requires
        ia <= ea@.len(),
        ib <= eb@.len(),
    ensures
        evs_of(r@) == diff_entries(
            segs_of(p@),
            entries_of(ea@).skip(ia as int),
            entries_of(eb@).skip(ib as int),
        ),
    decreases crate::value::entries_size(entries_of(ea@).skip(ia as int))
        + crate::value::entries_size(entries_of(eb@).skip(ib as int)), 1int,
{
    proof {
        lemma_entries_of(ea@);
        lemma_entries_of(eb@);
        if ia < ea@.len() {
            assert(entries_of(ea@).skip(ia as int)[0] == entries_of(ea@)[ia as int]);
            assert(entries_of(ea@).skip(ia as int).skip(1) =~= entries_of(ea@).skip(ia as int + 1));
            lemma_node_size_pos(entries_of(ea@)[ia as int].1);
        }
        if ib < eb@.len() {
            assert(entries_of(eb@).skip(ib as int)[0] == entries_of(eb@)[ib as int]);
            assert(entries_of(eb@).skip(ib as int).skip(1) =~= entries_of(eb@).skip(ib as int + 1));
            lemma_node_size_pos(entries_of(eb@)[ib as int].1);
        }
    }
    let ghost ma = entries_of(ea@).skip(ia as int);
    let ghost mb = entries_of(eb@).skip(ib as int);
    if ia == ea.len() && ib == eb.len() {
        Vec::new()
    } else if ia == ea.len() {
        let e = &eb[ib];
        let ev = ChangeEvent::Added(path_with(p, PathSeg::Key(e.0.clone())), e.1.deep_clone());
        let mut out: Vec<ChangeEvent> = Vec::new();
        out.push(ev);
        let ghost head = out@;
        let mut rest = diff_entries_rec(p, ea, eb, ia, ib + 1);
        proof {
            lemma_evs_of_concat(head, rest@);
            assert(evs_of(head) =~= seq![Ev::Added(segs_of(p@).push(Seg::Key(mb[0].0)), mb[0].1)]);
        }
        out.append(&mut rest);
        out
    } else if ib == eb.len() {
        let e = &ea[ia];
        let ev = ChangeEvent::Removed(path_with(p, PathSeg::Key(e.0.clone())), e.1.deep_clone());
        let mut out: Vec<ChangeEvent> = Vec::new();
        out.push(ev);
        let ghost head = out@;
        let mut rest = diff_entries_rec(p, ea, eb, ia + 1, ib);
        proof {
            lemma_evs_of_concat(head, rest@);
            assert(evs_of(head) =~= seq![Ev::Removed(segs_of(p@).push(Seg::Key(ma[0].0)), ma[0].1)]);
        }
        out.append(&mut rest);
        out
    } else {
        let a = &ea[ia];
        let b = &eb[ib];
        if a.0 == b.0 {
            let mut out = diff_value_rec(&path_with(p, PathSeg::Key(a.0.clone())), &a.1, &b.1);
            let ghost head = out@;
            let mut rest = diff_entries_rec(p, ea, eb, ia + 1, ib + 1);
            proof {
                lemma_evs_of_concat(head, rest@);
            }
            out.append(&mut rest);
            out
        } else if str_lex_lt(a.0.as_str(), b.0.as_str()) {
            let ev = ChangeEvent::Removed(path_with(p, PathSeg::Key(a.0.clone())), a.1.deep_clone());
            let mut out: Vec<ChangeEvent> = Vec::new();
            out.push(ev);
            let ghost head = out@;
            let mut rest = diff_entries_rec(p, ea, eb, ia + 1, ib);
            proof {
                lemma_evs_of_concat(head, rest@);
                assert(evs_of(head) =~= seq![Ev::Removed(segs_of(p@).push(Seg::Key(ma[0].0)), ma[0].1)]);
            }
            out.append(&mut rest);
            out
        } else {
            let ev = ChangeEvent::Added(path_with(p, PathSeg::Key(b.0.clone())), b.1.deep_clone());
            let mut out: Vec<ChangeEvent> = Vec::new();
            out.push(ev);
            let ghost head = out@;
            let mut rest = diff_entries_rec(p, ea, eb, ia, ib + 1);
            proof {
                lemma_evs_of_concat(head, rest@);
                assert(evs_of(head) =~= seq![Ev::Added(segs_of(p@).push(Seg::Key(mb[0].0)), mb[0].1)]);
            }
            out.append(&mut rest);
            out
        }
    }
}

fn diff_items_rec(p: &Vec<PathSeg>, xa: &Vec<TreeValue>, xb: &Vec<TreeValue>, off: usize) -> (r:
    Vec<ChangeEvent>)
    requires
        off <= xa@.len(),
        off <= xb@.len(),
    ensures
        evs_of(r@) == diff_items(
            segs_of(p@),
            nodes_of(xa@).skip(off as int),
            nodes_of(xb@).skip(off as int),
            off as int,
        ),
    decreases crate::value::nodes_size(nodes_of(xa@).skip(off as int))
        + crate::value::nodes_size(nodes_of(xb@).skip(off as int)), 1int,
{
    proof {
        lemma_nodes_of(xa@);
        lemma_nodes_of(xb@);
        if off < xa@.len() {
            assert(nodes_of(xa@).skip(off as int)[0] == nodes_of(xa@)[off as int]);
            assert(nodes_of(xa@).skip(off as int).skip(1) =~= nodes_of(xa@).skip(off as int + 1));
            lemma_node_size_pos(nodes_of(xa@)[off as int]);
        }
        if off < xb@.len() {
            assert(nodes_of(xb@).skip(off as int)[0] == nodes_of(xb@)[off as int]);
            assert(nodes_of(xb@).skip(off as int).skip(1) =~= nodes_of(xb@).skip(off as int + 1));
            lemma_node_size_pos(nodes_of(xb@)[off as int]);
        }
        if off == xa@.len() {
            assert(nodes_of(xa@).skip(off as int) =~= Seq::<Node>::empty());
        }
        if off == xb@.len() {
            assert(nodes_of(xb@).skip(off as int) =~= Seq::<Node>::empty());
        }
    }
    let ghost sa = nodes_of(xa@).skip(off as int);
    let ghost sb = nodes_of(xb@).skip(off as int);
    if off == xa.len() && off == xb.len() {
        Vec::new()
    } else if off == xa.len() {
        let ev = ChangeEvent::Added(path_with(p, PathSeg::Index(off)), xb[off].deep_clone());
        let mut out: Vec<ChangeEvent> = Vec::new();
        out.push(ev);
        let ghost head = out@;
        let mut rest = diff_items_rec_added(p, xb, off + 1);
        proof {
            lemma_evs_of_concat(head, rest@);
            assert(evs_of(head) =~= seq![Ev::Added(segs_of(p@).push(Seg::Index(off as int)), sb[0])]);
            assert(nodes_of(xb@).skip(off as int + 1) =~= sb.skip(1));
        }
        out.append(&mut rest);
        out
    } else if off == xb.len() {
        let mut out = diff_items_rec_removed(p, xa, off);
        out
    } else {
        let mut out = diff_value_rec(&path_with(p, PathSeg::Index(off)), &xa[off], &xb[off]);
        let ghost head = out@;
        let mut rest = diff_items_rec(p, xa, xb, off + 1);
        proof {
            lemma_evs_of_concat(head, rest@);
        }
        out.append(&mut rest);
        out
    }
}

fn diff_items_rec_added(p: &Vec<PathSeg>, xb: &Vec<TreeValue>, off: usize) -> (r: Vec<ChangeEvent>)
    requires
        off <= xb@.len(),
    ensures
        evs_of(r@) == diff_items(
            segs_of(p@),
            Seq::empty(),
            nodes_of(xb@).skip(off as int),
            off as int,
        ),
    decreases xb@.len() - off,
{
    proof {
        lemma_nodes_of(xb@);
        if off < xb@.len() {
            assert(nodes_of(xb@).skip(off as int)[0] == nodes_of(xb@)[off as int]);
            assert(nodes_of(xb@).skip(off as int).skip(1) =~= nodes_of(xb@).skip(off as int + 1));
        }
    }
    let ghost sb = nodes_of(xb@).skip(off as int);
    if off == xb.len() {
        Vec::new()
    } else {
        let ev = ChangeEvent::Added(path_with(p, PathSeg::Index(off)), xb[off].deep_clone());
        let mut out: Vec<ChangeEvent> = Vec::new();
        out.push(ev);
        let ghost head = out@;
        let mut rest = diff_items_rec_added(p, xb, off + 1);
        proof {
            lemma_evs_of_concat(head, rest@);
            assert(evs_of(head) =~= seq![Ev::Added(segs_of(p@).push(Seg::Index(off as int)), sb[0])]);
        }
        out.append(&mut rest);
        out
    }
}

fn diff_items_rec_removed(p: &Vec<PathSeg>, xa: &Vec<TreeValue>, off: usize) -> (r: Vec<
    ChangeEvent,
>)
    requires
        off <= xa@.len(),
    ensures
        evs_of(r@) == diff_items(
            segs_of(p@),
            nodes_of(xa@).skip(off as int),
            Seq::empty(),
            off as int,
        ),
    decreases xa@.len() - off,
{
    proof {
        lemma_nodes_of(xa@);
        if off < xa@.len() {
            assert(nodes_of(xa@).skip(off as int)[0] == nodes_of(xa@)[off as int]);
            assert(nodes_of(xa@).skip(off as int).skip(1) =~= nodes_of(xa@).skip(off as int + 1));
        }
    }
    let ghost sa = nodes_of(xa@).skip(off as int);
    if off == xa.len() {
        Vec::new()
    } else {
        let mut out = diff_items_rec_removed(p, xa, off + 1);
        let ghost head = out@;
        let ev = ChangeEvent::Removed(path_with(p, PathSeg::Index(off)), xa[off].deep_clone());
        out.push(ev);
        proof {
            assert(out@ == head + seq![out@[out@.len() - 1]]);
            lemma_evs_of_concat(head, seq![out@[out@.len() - 1]]);
            assert(evs_of(seq![out@[out@.len() - 1]]) =~= seq![
                Ev::Removed(segs_of(p@).push(Seg::Index(off as int)), sa[0]),
            ]);
        }
        out
    }
}

/// The differ's recursion over one pair of nodes.
fn diff_value_rec(p: &Vec<PathSeg>, a: &TreeValue, b: &TreeValue) -> (r: Vec<ChangeEvent>)
    ensures
        evs_of(r@) == diff_at(segs_of(p@), a@, b@),
    decreases crate::value::node_size(a@) + crate::value::node_size(b@), 0int,
{
    match (a, b) {
        (TreeValue::Mapping(ea), TreeValue::Mapping(eb)) => {
            proof {
                lemma_entries_of(ea@);
                lemma_entries_of(eb@);
                assert(a@ == Node::Mapping(entries_of(ea@)));
                assert(b@ == Node::Mapping(entries_of(eb@)));
                assert(entries_of(ea@).skip(0) =~= entries_of(ea@));
                assert(entries_of(eb@).skip(0) =~= entries_of(eb@));
            }
            diff_entries_rec(p, ea, eb, 0, 0)
        },
        (TreeValue::Sequence(xa), TreeValue::Sequence(xb)) => {
            proof {
                lemma_nodes_of(xa@);
                lemma_nodes_of(xb@);
                assert(a@ == Node::Sequence(nodes_of(xa@)));
                assert(b@ == Node::Sequence(nodes_of(xb@)));
                assert(nodes_of(xa@).skip(0) =~= nodes_of(xa@));
                assert(nodes_of(xb@).skip(0) =~= nodes_of(xb@));
            }
            diff_items_rec(p, xa, xb, 0)
        },
        _ => {
            let same = a.structural_eq(b);
            let mut out: Vec<ChangeEvent> = Vec::new();
            if same {
                out.push(ChangeEvent::Unchanged(clone_path(p), a.deep_clone()));
                proof {
                    assert(evs_of(out@) =~= seq![Ev::Unchanged(segs_of(p@), a@)]);
                }
            } else {
                out.push(ChangeEvent::Modified(clone_path(p), a.deep_clone(), b.deep_clone()));
                proof {
                    assert(evs_of(out@) =~= seq![Ev::Modified(segs_of(p@), a@, b@)]);
                }
            }
            out
        },
    }
}

/// A copy of a path.
fn clone_path(p: &Vec<PathSeg>) -> (r: Vec<PathSeg>)
    ensures
        segs_of(r@) == segs_of(p@),
{
    let mut out: Vec<PathSeg> = Vec::new();
    let mut i: usize = 0;
    while i < p.len()
        invariant
            i <= p@.len(),
            out@.len() == i as int,
            forall|j: int| 0 <= j < i as int ==> (#[trigger] out@[j])@ == p@[j]@,
        decreases p@.len() - i,
    {
        let c = clone_seg(&p[i]);
        out.push(c);
        i += 1;
    }
    proof {
        assert forall|j: int| 0 <= j < out@.len() implies segs_of(out@)[j] == segs_of(p@)[j] by {
            assert(segs_of(out@)[j] == out@[j]@);
        }
        assert(segs_of(out@) =~= segs_of(p@));
    }
    out
}

/// Compare two documents. The inputs are not changed; the events own copies
/// of the values they report.
pub fn diff(origin: &TreeValue, reference: &TreeValue) -> (r: Vec<ChangeEvent>)
    ensures
        evs_of(r@) == diff_spec(origin@, reference@),
{
    let empty: Vec<PathSeg> = Vec::new();
    let r = diff_value_rec(&empty, origin, reference);
    proof {
        assert(segs_of(empty@) =~= Seq::<Seg>::empty());
    }
    r
}

fn to_patch_from(events: &Vec<ChangeEvent>, i: usize) -> (r: Vec<PatchOp>)
    requires
        i <= events@.len(),
    ensures
        ops_of(r@) == patch_of(evs_of(events@).skip(i as int)),
    decreases events@.len() - i,
{
    proof {
        if i < events@.len() {
            assert(evs_of(events@).skip(i as int)[0] == events@[i as int]@);
            assert(evs_of(events@).skip(i as int).skip(1) =~= evs_of(events@).skip(i as int + 1));
        }
    }
    if i == events.len() {
        Vec::new()
    } else {
        let mut rest = to_patch_from(events, i + 1);
        match &events[i] {
            ChangeEvent::Added(p, v) => {
                let mut out: Vec<PatchOp> = Vec::new();
                out.push(PatchOp::Add(clone_path(p), v.deep_clone()));
                let ghost head = out@;
                proof {
                    lemma_ops_of_concat(head, rest@);
                    assert(ops_of(head) =~= seq![
                        Op::Add(events@[i as int]@->Added_0, events@[i as int]@->Added_1),
                    ]);
                }
                out.append(&mut rest);
                out
            },
            ChangeEvent::Removed(p, _) => {
                let mut out: Vec<PatchOp> = Vec::new();
                out.push(PatchOp::Remove(clone_path(p)));
                let ghost head = out@;
                proof {
                    lemma_ops_of_concat(head, rest@);
                    assert(ops_of(head) =~= seq![Op::Remove(events@[i as int]@->Removed_0)]);
                }
                out.append(&mut rest);
                out
            },
            ChangeEvent::Modified(p, _, nv) => {
                let mut out: Vec<PatchOp> = Vec::new();
                out.push(PatchOp::Replace(clone_path(p), nv.deep_clone()));
                let ghost head = out@;
                proof {
                    lemma_ops_of_concat(head, rest@);
                    assert(ops_of(head) =~= seq![
                        Op::Replace(events@[i as int]@->Modified_0, events@[i as int]@->Modified_2),
                    ]);
                }
                out.append(&mut rest);
                out
            },
            ChangeEvent::Unchanged(_, _) => rest,
        }
    }
}

pub proof fn lemma_ops_of_concat(s1: Seq<PatchOp>, s2: Seq<PatchOp>)
    ensures
        ops_of(s1 + s2) == ops_of(s1) + ops_of(s2),
{
    assert forall|i: int| 0 <= i < s1.len() + s2.len() implies ops_of(s1 + s2)[i] == (ops_of(s1)
        + ops_of(s2))[i] by {
        if i < s1.len() {
            assert((s1 + s2)[i] == s1[i]);
        } else {
            assert((s1 + s2)[i] == s2[i - s1.len()]);
        }
    }
    assert(ops_of(s1 + s2) =~= ops_of(s1) + ops_of(s2));
}

/// Turn a sequence of change events into a portable patch.
pub fn to_patch(events: &Vec<ChangeEvent>) -> (r: Vec<PatchOp>)
    ensures
        ops_of(r@) == patch_of(evs_of(events@)),
{
    let r = to_patch_from(events, 0);
    proof {
        assert(evs_of(events@).skip(0) =~= evs_of(events@));
    }
    r
}

/// Diff two documents and serialize the difference as a patch in one step.
pub fn generate_patch(origin: &TreeValue, reference: &TreeValue) -> (r: Vec<PatchOp>)
    ensures
        ops_of(r@) == patch_of(diff_spec(origin@, reference@)),
{
    let events = diff(origin, reference);
    to_patch(&events)
}

} // verus!
