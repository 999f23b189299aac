//! The tree value model: a recursive, format-agnostic representation of a
//! parsed document, together with its mathematical model and the structural
//! notions (well-formedness, equality, key order) the rest of the crate
//! builds on.
//!
//! Mappings are kept in canonical form: entries sorted strictly by the
//! lexicographic order of their keys. This normalization makes mapping
//! equality positional and gives the differ its canonical traversal order;
//! re-serialization therefore may reorder entries of a source document,
//! which is a documented non-goal of the engine.

use vstd::prelude::*;

verus! {

/// Mathematical model of one document node.
#[verifier::ext_equal]
pub enum Node {
    Null,
    Bool(bool),
    Int(int),
    Text(Seq<char>),
    Sequence(Seq<Node>),
    Mapping(Seq<(Seq<char>, Node)>),
}

/// One node of a parsed document. A `Mapping` holds its entries sorted
/// strictly by key (see [`wf`]); a `Sequence` preserves element order.
/// Numbers are signed 64-bit integers; values outside that range (and
/// floating point content) are rejected at the format bridge.
#[derive(Debug)]
pub enum TreeValue {
    Null,
    Bool(bool),
    Int(i64),
    Text(String),
    Sequence(Vec<TreeValue>),
    Mapping(Vec<(String, TreeValue)>),
}

/// The model of an executable tree value.
pub open spec fn node_of(v: TreeValue) -> Node
    decreases v, 3int,
{
    match v {
        TreeValue::Null => Node::Null,
        TreeValue::Bool(b) => Node::Bool(b),
        TreeValue::Int(i) => Node::Int(i as int),
        TreeValue::Text(s) => Node::Text(s@),
        TreeValue::Sequence(items) => Node::Sequence(nodes_of_vec(items)),
        TreeValue::Mapping(entries) => Node::Mapping(entries_of_vec(entries)),
    }
}

pub open spec fn nodes_of_vec(items: Vec<TreeValue>) -> Seq<Node>
    decreases items, 2int,
{
    nodes_of(items@)
}

pub open spec fn nodes_of(s: Seq<TreeValue>) -> Seq<Node>
    decreases s, 1int,
{
    if s.len() == 0 {
        Seq::empty()
    } else {
        seq![node_of(s[0])] + nodes_of(s.skip(1))
    }
}

pub open spec fn entries_of_vec(entries: Vec<(String, TreeValue)>) -> Seq<(Seq<char>, Node)>
    decreases entries, 2int,
{
    entries_of(entries@)
}

pub open spec fn entries_of(m: Seq<(String, TreeValue)>) -> Seq<(Seq<char>, Node)>
    decreases m, 1int,
{
    if m.len() == 0 {
        Seq::empty()
    } else {
        seq![(m[0].0@, node_of(m[0].1))] + entries_of(m.skip(1))
    }
}

/// Pointwise description of [`nodes_of`].
pub proof fn lemma_nodes_of(s: Seq<TreeValue>)
    ensures
        nodes_of(s).len() == s.len(),
        forall|i: int| 0 <= i < s.len() ==> nodes_of(s)[i] == node_of(#[trigger] s[i]),
    decreases s.len(),
{
    if s.len() > 0 {
        lemma_nodes_of(s.skip(1));
        assert forall|i: int| 0 <= i < s.len() implies nodes_of(s)[i] == node_of(#[trigger] s[i]) by {
            if i > 0 {
                assert(s.skip(1)[i - 1] == s[i]);
            }
        }
    }
}

/// Pointwise description of [`entries_of`].
pub proof fn lemma_entries_of(m: Seq<(String, TreeValue)>)
    ensures
        entries_of(m).len() == m.len(),
        forall|i: int| 0 <= i < m.len() ==> entries_of(m)[i] == ((#[trigger] m[i]).0@, node_of(
            m[i].1,
        )),
    decreases m.len(),
{
    if m.len() > 0 {
        lemma_entries_of(m.skip(1));
        assert forall|i: int| 0 <= i < m.len() implies entries_of(m)[i] == ((#[trigger] m[i]).0@,
            node_of(m[i].1)) by {
            if i > 0 {
                assert(m.skip(1)[i - 1] == m[i]);
            }
        }
    }
}

impl View for TreeValue {
    type V = Node;

    open spec fn view(&self) -> Node {
        node_of(*self)
    }
}

/// Strict lexicographic order on key strings, by Unicode scalar value.
pub open spec fn lex_lt(a: Seq<char>, b: Seq<char>) -> bool
    decreases a.len(),
{
    if b.len() == 0 {
        false
    } else if a.len() == 0 {
        true
    } else if a[0] < b[0] {
        true
    } else if b[0] < a[0] {
        false
    } else {
        lex_lt(a.skip(1), b.skip(1))
    }
}

/// Mapping entries stand in strictly increasing key order.
pub open spec fn keys_sorted(m: Seq<(Seq<char>, Node)>) -> bool {
    forall|k: int| 0 <= k < m.len() - 1 ==> lex_lt(#[trigger] m[k].0, m[k + 1].0)
}

/// Well-formedness: every mapping in the tree is in canonical form.
/// Strict sorting also makes keys unique within a mapping.
pub open spec fn wf(n: Node) -> bool
    decreases n,
{
    match n {
        Node::Sequence(s) => forall|i: int| 0 <= i < s.len() ==> wf(#[trigger] s[i]),
        Node::Mapping(m) => keys_sorted(m) && (forall|i: int|
            0 <= i < m.len() ==> wf(#[trigger] m[i].1)),
        _ => true,
    }
}

/// Index of the entry holding key `k`, or -1 when the key is absent.
pub open spec fn key_idx(m: Seq<(Seq<char>, Node)>, k: Seq<char>) -> int
    decreases m.len(),
{
    if m.len() == 0 {
        -1
    } else if m[0].0 == k {
        0
    } else {
        let r = key_idx(m.skip(1), k);
        if r < 0 {
            -1
        } else {
            r + 1
        }
    }
}

/// Size of a node, counted in constructors; the termination measure for
/// executable recursion over trees.
pub open spec fn node_size(n: Node) -> nat
    decreases n, 1int,
{
    match n {
        Node::Sequence(s) => 1 + nodes_size(s),
        Node::Mapping(m) => 1 + entries_size(m),
        _ => 1,
    }
}

pub open spec fn nodes_size(s: Seq<Node>) -> nat
    decreases s, 0int,
{
    if s.len() == 0 {
        0
    } else {
        node_size(s[0]) + nodes_size(s.skip(1))
    }
}

pub open spec fn entries_size(m: Seq<(Seq<char>, Node)>) -> nat
    decreases m, 0int,
{
    if m.len() == 0 {
        0
    } else {
        node_size(m[0].1) + entries_size(m.skip(1))
    }
}

pub proof fn lemma_nodes_of_split(s1: Seq<TreeValue>, s2: Seq<TreeValue>)
    ensures
        nodes_of(s1 + s2) == nodes_of(s1) + nodes_of(s2),
{
    lemma_nodes_of(s1);
    lemma_nodes_of(s2);
    lemma_nodes_of(s1 + s2);
    assert forall|i: int| 0 <= i < s1.len() + s2.len() implies nodes_of(s1 + s2)[i] == (nodes_of(s1)
        + nodes_of(s2))[i] by {
        if i < s1.len() {
            assert((s1 + s2)[i] == s1[i]);
        } else {
            assert((s1 + s2)[i] == s2[i - s1.len()]);
        }
    }
    assert(nodes_of(s1 + s2) =~= nodes_of(s1) + nodes_of(s2));
}

pub proof fn lemma_entries_of_split(s1: Seq<(String, TreeValue)>, s2: Seq<(String, TreeValue)>)
    ensures
        entries_of(s1 + s2) == entries_of(s1) + entries_of(s2),
{
    lemma_entries_of(s1);
    lemma_entries_of(s2);
    lemma_entries_of(s1 + s2);
    assert forall|i: int| 0 <= i < s1.len() + s2.len() implies entries_of(s1 + s2)[i] == (entries_of(
        s1,
    ) + entries_of(s2))[i] by {
        if i < s1.len() {
            assert((s1 + s2)[i] == s1[i]);
        } else {
            assert((s1 + s2)[i] == s2[i - s1.len()]);
        }
    }
    assert(entries_of(s1 + s2) =~= entries_of(s1) + entries_of(s2));
}

pub proof fn lemma_node_size_pos(n: Node)
    ensures
        node_size(n) >= 1,
{
}

pub proof fn lemma_nodes_size_elem(s: Seq<Node>, i: int)
    requires
        0 <= i < s.len(),
    ensures
        node_size(s[i]) <= nodes_size(s),
    decreases i,
{
    if i == 0 {
    } else {
        lemma_nodes_size_elem(s.skip(1), i - 1);
        assert(s.skip(1)[i - 1] == s[i]);
    }
}

pub proof fn lemma_entries_size_elem(m: Seq<(Seq<char>, Node)>, i: int)
    requires
        0 <= i < m.len(),
    ensures
        node_size(m[i].1) <= entries_size(m),
    decreases i,
{
    if i == 0 {
    } else {
        lemma_entries_size_elem(m.skip(1), i - 1);
        assert(m.skip(1)[i - 1] == m[i]);
    }
}

impl TreeValue {
    /// Deep copy; the copy owns all descendants and models the same node.
    pub fn deep_clone(&self) -> (r: TreeValue)
        ensures
            r@ == self@,
        decreases node_size(self@),
    {
        match self {
            TreeValue::Null => TreeValue::Null,
            TreeValue::Bool(b) => TreeValue::Bool(*b),
            TreeValue::Int(i) => TreeValue::Int(*i),
            TreeValue::Text(s) => TreeValue::Text(s.clone()),
            TreeValue::Sequence(items) => {
                proof {
                    lemma_nodes_of(items@);
                    assert(self@ == Node::Sequence(nodes_of(items@)));
                }
                let mut out: Vec<TreeValue> = Vec::new();
                let mut i: usize = 0;
                while i < items.len()
                    invariant
                        i <= items.len(),
                        self@ is Sequence,
                        self@->Sequence_0.len() == items@.len(),
                        forall|k: int| 0 <= k < items@.len() ==> self@->Sequence_0[k]
                            == (#[trigger] items@[k])@,
                        out@.len() == i as int,
                        forall|j: int| 0 <= j < i as int ==> (#[trigger] out@[j])@ == items@[j]@,
                    decreases items.len() - i,
                {
                    proof {
                        lemma_nodes_size_elem(self@->Sequence_0, i as int);
                    }
                    let c = items[i].deep_clone();
                    out.push(c);
                    i += 1;
                }
                let r = TreeValue::Sequence(out);
                proof {
                    lemma_nodes_of(out@);
                    assert forall|j: int| 0 <= j < out@.len() implies nodes_of(out@)[j]
                        == self@->Sequence_0[j] by {
                        assert(nodes_of(out@)[j] == node_of(out@[j]));
                        assert(out@[j]@ == items@[j]@);
                    }
                    assert(nodes_of(out@) =~= self@->Sequence_0);
                    assert(r@ == self@);
                }
                r
            },
            TreeValue::Mapping(entries) => {
                proof {
                    lemma_entries_of(entries@);
                    assert(self@ == Node::Mapping(entries_of(entries@)));
                }
                let mut out: Vec<(String, TreeValue)> = Vec::new();
                let mut i: usize = 0;
                while i < entries.len()
                    invariant
                        i <= entries.len(),
                        self@ is Mapping,
                        self@->Mapping_0.len() == entries@.len(),
                        forall|k: int| 0 <= k < entries@.len() ==> self@->Mapping_0[k]
                            == ((#[trigger] entries@[k]).0@, entries@[k].1@),
                        out@.len() == i as int,
                        forall|j: int| 0 <= j < i as int ==> (#[trigger] out@[j]).0@ == entries@[j].0@
                            && out@[j].1@ == entries@[j].1@,
                    decreases entries.len() - i,
                {
                    proof {
                        lemma_entries_size_elem(self@->Mapping_0, i as int);
                    }
                    let e = &entries[i];
                    let k = e.0.clone();
                    let v = e.1.deep_clone();
                    out.push((k, v));
                    i += 1;
                }
                let r = TreeValue::Mapping(out);
                proof {
                    lemma_entries_of(out@);
                    assert forall|j: int| 0 <= j < out@.len() implies entries_of(out@)[j]
                        == self@->Mapping_0[j] by {
                        assert(entries_of(out@)[j] == (out@[j].0@, node_of(out@[j].1)));
                        assert(out@[j].0@ == entries@[j].0@ && out@[j].1@ == entries@[j].1@);
                    }
                    assert(entries_of(out@) =~= self@->Mapping_0);
                    assert(r@ == self@);
                }
                r
            },
        }
    }
}

/// Executable strict lexicographic comparison of two key strings.
pub fn str_lex_lt(a: &str, b: &str) -> (r: bool)
    ensures
        r == lex_lt(a@, b@),
{
    let alen = a.unicode_len();
    let blen = b.unicode_len();
    let r = lex_lt_from(a, b, 0, alen, blen);
    proof {
        assert(a@.skip(0) =~= a@);
        assert(b@.skip(0) =~= b@);
    }
    r
}

fn lex_lt_from(a: &str, b: &str, i: usize, alen: usize, blen: usize) -> (r: bool)
    requires
        alen == a@.len(),
        blen == b@.len(),
        i <= alen,
        i <= blen,
    ensures
        r == lex_lt(a@.skip(i as int), b@.skip(i as int)),
    decreases alen - i,
{
    if i == blen {
        false
    } else if i == alen {
        true
    } else {
        let ca = a.get_char(i);
        let cb = b.get_char(i);
        if ca < cb {
            true
        } else if cb < ca {
            false
        } else {
            let r = lex_lt_from(a, b, i + 1, alen, blen);
            proof {
                assert(a@.skip(i as int).skip(1) =~= a@.skip(i as int + 1));
                assert(b@.skip(i as int).skip(1) =~= b@.skip(i as int + 1));
            }
            r
        }
    }
}

impl TreeValue {
    /// Structural equality of two trees: same shape, same scalar content,
    /// mappings compared entry by entry (both being in canonical form).
    pub fn structural_eq(&self, other: &TreeValue) -> (r: bool)
        ensures
            r == (self@ == other@),
        decreases node_size(self@),
    {
        match (self, other) {
            (TreeValue::Null, TreeValue::Null) => true,
            (TreeValue::Bool(x), TreeValue::Bool(y)) => *x == *y,
            (TreeValue::Int(x), TreeValue::Int(y)) => *x == *y,
            (TreeValue::Text(x), TreeValue::Text(y)) => *x == *y,
            (TreeValue::Sequence(xs), TreeValue::Sequence(ys)) => {
                proof {
                    lemma_nodes_of(xs@);
                    lemma_nodes_of(ys@);
                    assert(self@ == Node::Sequence(nodes_of(xs@)));
                    assert(other@ == Node::Sequence(nodes_of(ys@)));
                }
                if xs.len() != ys.len() {
                    return false;
                }
                let mut i: usize = 0;
                while i < xs.len()
                    invariant
                        i <= xs.len(),
                        xs@.len() == ys@.len(),
                        self@ == Node::Sequence(nodes_of(xs@)),
                        other@ == Node::Sequence(nodes_of(ys@)),
                        nodes_of(xs@).len() == xs@.len(),
                        nodes_of(ys@).len() == ys@.len(),
                        forall|k: int| 0 <= k < xs@.len() ==> nodes_of(xs@)[k] == node_of(
                            #[trigger] xs@[k],
                        ),
                        forall|k: int| 0 <= k < ys@.len() ==> nodes_of(ys@)[k] == node_of(
                            #[trigger] ys@[k],
                        ),
                        forall|j: int| 0 <= j < i as int ==> (#[trigger] xs@[j])@ == ys@[j]@,
                    decreases xs.len() - i,
                {
                    proof {
                        lemma_nodes_size_elem(nodes_of(xs@), i as int);
                    }
                    if !xs[i].structural_eq(&ys[i]) {
                        proof {
                            assert(nodes_of(xs@)[i as int] != nodes_of(ys@)[i as int]);
                        }
                        return false;
                    }
                    i += 1;
                }
                proof {
                    assert forall|j: int| 0 <= j < xs@.len() implies nodes_of(xs@)[j]
                        == nodes_of(ys@)[j] by {
                        assert(xs@[j]@ == ys@[j]@);
                    }
                    assert(nodes_of(xs@) =~= nodes_of(ys@));
                }
                true
            },
            (TreeValue::Mapping(xs), TreeValue::Mapping(ys)) => {
                proof {
                    lemma_entries_of(xs@);
                    lemma_entries_of(ys@);
                    assert(self@ == Node::Mapping(entries_of(xs@)));
                    assert(other@ == Node::Mapping(entries_of(ys@)));
                }
                if xs.len() != ys.len() {
                    return false;
                }
                let mut i: usize = 0;
                while i < xs.len()
                    invariant
                        i <= xs.len(),
                        xs@.len() == ys@.len(),
                        self@ == Node::Mapping(entries_of(xs@)),
                        other@ == Node::Mapping(entries_of(ys@)),
                        entries_of(xs@).len() == xs@.len(),
                        entries_of(ys@).len() == ys@.len(),
                        forall|k: int| 0 <= k < xs@.len() ==> entries_of(xs@)[k] == ((
                        #[trigger] xs@[k]).0@, node_of(xs@[k].1)),
                        forall|k: int| 0 <= k < ys@.len() ==> entries_of(ys@)[k] == ((
                        #[trigger] ys@[k]).0@, node_of(ys@[k].1)),
                        forall|j: int| 0 <= j < i as int ==> (#[trigger] xs@[j]).0@ == ys@[j].0@
                            && xs@[j].1@ == ys@[j].1@,
                    decreases xs.len() - i,
                {
                    proof {
                        lemma_entries_size_elem(entries_of(xs@), i as int);
                    }
                    let ex = &xs[i];
                    let ey = &ys[i];
                    if !(ex.0 == ey.0) {
                        proof {
                            assert(entries_of(xs@)[i as int] != entries_of(ys@)[i as int]);
                        }
                        return false;
                    }
                    if !ex.1.structural_eq(&ey.1) {
                        proof {
                            assert(entries_of(xs@)[i as int] != entries_of(ys@)[i as int]);
                        }
                        return false;
                    }
                    i += 1;
                }
                proof {
                    assert forall|j: int| 0 <= j < xs@.len() implies entries_of(xs@)[j]
                        == entries_of(ys@)[j] by {
                        assert(xs@[j].0@ == ys@[j].0@ && xs@[j].1@ == ys@[j].1@);
                    }
                    assert(entries_of(xs@) =~= entries_of(ys@));
                }
                true
            },
            _ => {
                proof {
                    assert(self@ != other@);
                }
                false
            },
        }
    }

    /// Whether every mapping in the tree is in canonical (strictly sorted)
    /// key order.
    pub fn is_well_formed(&self) -> (r: bool)
        ensures
            r == wf(self@),
        decreases node_size(self@),
    {
        match self {
            TreeValue::Null => true,
            TreeValue::Bool(_) => true,
            TreeValue::Int(_) => true,
            TreeValue::Text(_) => true,
            TreeValue::Sequence(items) => {
                proof {
                    lemma_nodes_of(items@);
                    assert(self@ == Node::Sequence(nodes_of(items@)));
                }
                let mut i: usize = 0;
                while i < items.len()
                    invariant
                        i <= items.len(),
                        self@ == Node::Sequence(nodes_of(items@)),
                        nodes_of(items@).len() == items@.len(),
                        forall|k: int| 0 <= k < items@.len() ==> nodes_of(items@)[k] == node_of(
                            #[trigger] items@[k],
                        ),
                        forall|j: int| 0 <= j < i as int ==> wf(nodes_of(items@)[j]),
                    decreases items.len() - i,
                {
                    proof {
                        lemma_nodes_size_elem(nodes_of(items@), i as int);
                    }
                    if !items[i].is_well_formed() {
                        proof {
                            assert(!wf(nodes_of(items@)[i as int]));
                        }
                        return false;
                    }
                    i += 1;
                }
                true
            },
            TreeValue::Mapping(entries) => {
                proof {
                    lemma_entries_of(entries@);
                    assert(self@ == Node::Mapping(entries_of(entries@)));
                }
                let mut i: usize = 0;
                while i < entries.len()
                    invariant
                        i <= entries.len(),
                        self@ == Node::Mapping(entries_of(entries@)),
                        entries_of(entries@).len() == entries@.len(),
                        forall|k: int| 0 <= k < entries@.len() ==> entries_of(entries@)[k] == ((
                        #[trigger] entries@[k]).0@, node_of(entries@[k].1)),
                        forall|j: int| 0 <= j < i as int ==> wf(entries_of(entries@)[j].1),
                        forall|j: int| 0 <= j < i as int - 1 ==> lex_lt(
                            #[trigger] entries_of(entries@)[j].0,
                            entries_of(entries@)[j + 1].0,
                        ),
                    decreases entries.len() - i,
                {
                    proof {
                        lemma_entries_size_elem(entries_of(entries@), i as int);
                    }
                    if i > 0 {
                        let prev = &entries[i - 1];
                        let cur = &entries[i];
                        if !str_lex_lt(prev.0.as_str(), cur.0.as_str()) {
                            proof {
                                assert(!lex_lt(
                                    entries_of(entries@)[i as int - 1].0,
                                    entries_of(entries@)[i as int].0,
                                ));
                                assert(!keys_sorted(entries_of(entries@)));
                            }
                            return false;
                        }
                    }
                    if !entries[i].1.is_well_formed() {
                        proof {
                            assert(!wf(entries_of(entries@)[i as int].1));
                        }
                        return false;
                    }
                    i += 1;
                }
                true
            },
        }
    }
}

} // verus!
