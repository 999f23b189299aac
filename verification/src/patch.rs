//! The portable patch representation and its deterministic, atomic
//! application semantics.
//!
//! A patch is an ordered sequence of operations; each operation is applied
//! against the result of the previous one. Application never mutates the
//! caller's base value: it builds a fresh result tree, so a failing
//! operation simply discards the partial result and reports its error.

use vstd::prelude::*;

use crate::value::{
    TreeValue, Node, node_of, nodes_of, entries_of, lemma_nodes_of, lemma_entries_of, key_idx,
    lex_lt, str_lex_lt,
};

verus! {

/// Model of one path segment.
pub enum Seg {
    Key(Seq<char>),
    Index(int),
}

/// One segment of a path addressing a location in a tree: a mapping key or
/// a sequence index. The empty path addresses the whole document.
#[derive(Debug)]
pub enum PathSeg {
    Key(String),
    Index(usize),
}

impl View for PathSeg {
    type V = Seg;

    open spec fn view(&self) -> Seg {
        match self {
            PathSeg::Key(s) => Seg::Key(s@),
            PathSeg::Index(i) => Seg::Index(*i as int),
        }
    }
}

/// Model of a whole path.
pub open spec fn segs_of(p: Seq<PathSeg>) -> Seq<Seg> {
    Seq::new(p.len(), |i: int| p[i]@)
}

/// Why a patch could not be applied.
#[derive(Clone, Copy, Debug, PartialEq, Eq, Structural)]
pub enum PatchError {
    /// A path segment addresses a location that does not exist.
    PathNotFound,
    /// A sequence index is beyond the insertable range.
    IndexOutOfRange,
    /// A `Test` operation found a value different from the expected one.
    TestFailed,
    /// The operation itself is malformed, e.g. it removes the whole document.
    InvalidPatch,
}

/// Model of one patch operation.
pub enum Op {
    Add(Seq<Seg>, Node),
    Remove(Seq<Seg>),
    Replace(Seq<Seg>, Node),
    Move(Seq<Seg>, Seq<Seg>),
    Duplicate(Seq<Seg>, Seq<Seg>),
    Test(Seq<Seg>, Node),
}

/// One patch operation. `Move` and `Duplicate` carry the source path first
/// and the destination path second.
#[derive(Debug)]
pub enum PatchOp {
    Add(Vec<PathSeg>, TreeValue),
    Remove(Vec<PathSeg>),
    Replace(Vec<PathSeg>, TreeValue),
    Move(Vec<PathSeg>, Vec<PathSeg>),
    Duplicate(Vec<PathSeg>, Vec<PathSeg>),
    Test(Vec<PathSeg>, TreeValue),
}

impl View for PatchOp {
    type V = Op;

    open spec fn view(&self) -> Op {
        match self {
            PatchOp::Add(p, v) => Op::Add(segs_of(p@), v@),
            PatchOp::Remove(p) => Op::Remove(segs_of(p@)),
            PatchOp::Replace(p, v) => Op::Replace(segs_of(p@), v@),
            PatchOp::Move(f, t) => Op::Move(segs_of(f@), segs_of(t@)),
            PatchOp::Duplicate(f, t) => Op::Duplicate(segs_of(f@), segs_of(t@)),
            PatchOp::Test(p, v) => Op::Test(segs_of(p@), v@),
        }
    }
}

/// Model of a whole patch.
pub open spec fn ops_of(p: Seq<PatchOp>) -> Seq<Op> {
    Seq::new(p.len(), |i: int| p[i]@)
}

/// The value addressed by `p` inside `n`, if any.
pub open spec fn get_at(n: Node, p: Seq<Seg>) -> Option<Node>
    decreases p.len(),
{
    if p.len() == 0 {
        Some(n)
    } else {
        match (n, p[0]) {
            (Node::Mapping(m), Seg::Key(k)) => {
                let i = key_idx(m, k);
                if i >= 0 {
                    get_at(m[i].1, p.skip(1))
                } else {
                    None
                }
            },
            (Node::Sequence(s), Seg::Index(j)) => if 0 <= j < s.len() {
                get_at(s[j], p.skip(1))
            } else {
                None
            },
            _ => None,
        }
    }
}

/// Where a new entry with key `k` goes in the sorted entry list `m`.
pub open spec fn insert_pos(m: Seq<(Seq<char>, Node)>, k: Seq<char>) -> int
    decreases m.len(),
{
    if m.len() == 0 {
        0
    } else if lex_lt(k, m[0].0) || k == m[0].0 {
        0
    } else {
        1 + insert_pos(m.skip(1), k)
    }
}

pub proof fn lemma_insert_pos_bounds(m: Seq<(Seq<char>, Node)>, k: Seq<char>)
    ensures
        0 <= insert_pos(m, k) <= m.len(),
    decreases m.len(),
{
    if m.len() > 0 && !(lex_lt(k, m[0].0) || k == m[0].0) {
        lemma_insert_pos_bounds(m.skip(1), k);
    }
}

/// Insert or overwrite key `k` in the entry list, keeping canonical order.
pub open spec fn map_insert(m: Seq<(Seq<char>, Node)>, k: Seq<char>, v: Node) -> Seq<
    (Seq<char>, Node),
> {
    if key_idx(m, k) >= 0 {
        m.update(key_idx(m, k), (k, v))
    } else {
        m.insert(insert_pos(m, k), (k, v))
    }
}

/// `Add`: insert or overwrite at the addressed location. The empty path
/// replaces the whole document.
pub open spec fn add_at(n: Node, p: Seq<Seg>, v: Node) -> Result<Node, PatchError>
    decreases p.len(),
{
    if p.len() == 0 {
        Ok(v)
    } else if p.len() == 1 {
        match (n, p[0]) {
            (Node::Mapping(m), Seg::Key(k)) => Ok(Node::Mapping(map_insert(m, k, v))),
            (Node::Sequence(s), Seg::Index(j)) => if 0 <= j <= s.len() {
                Ok(Node::Sequence(s.insert(j, v)))
            } else {
                Err(PatchError::IndexOutOfRange)
            },
            _ => Err(PatchError::PathNotFound),
        }
    } else {
        match (n, p[0]) {
            (Node::Mapping(m), Seg::Key(k)) => {
                let i = key_idx(m, k);
                if i >= 0 {
                    match add_at(m[i].1, p.skip(1), v) {
                        Ok(c) => Ok(Node::Mapping(m.update(i, (k, c)))),
                        Err(e) => Err(e),
                    }
                } else {
                    Err(PatchError::PathNotFound)
                }
            },
            (Node::Sequence(s), Seg::Index(j)) => if 0 <= j < s.len() {
                match add_at(s[j], p.skip(1), v) {
                    Ok(c) => Ok(Node::Sequence(s.update(j, c))),
                    Err(e) => Err(e),
                }
            } else {
                Err(PatchError::PathNotFound)
            },
            _ => Err(PatchError::PathNotFound),
        }
    }
}

/// `Remove`: delete the addressed element. The whole document cannot be
/// removed.
pub open spec fn remove_at(n: Node, p: Seq<Seg>) -> Result<Node, PatchError>
    decreases p.len(),
{
    if p.len() == 0 {
        Err(PatchError::InvalidPatch)
    } else if p.len() == 1 {
        match (n, p[0]) {
            (Node::Mapping(m), Seg::Key(k)) => {
                let i = key_idx(m, k);
                if i >= 0 {
                    Ok(Node::Mapping(m.remove(i)))
                } else {
                    Err(PatchError::PathNotFound)
                }
            },
            (Node::Sequence(s), Seg::Index(j)) => if 0 <= j < s.len() {
                Ok(Node::Sequence(s.remove(j)))
            } else {
                Err(PatchError::PathNotFound)
            },
            _ => Err(PatchError::PathNotFound),
        }
    } else {
        match (n, p[0]) {
            (Node::Mapping(m), Seg::Key(k)) => {
                let i = key_idx(m, k);
                if i >= 0 {
                    match remove_at(m[i].1, p.skip(1)) {
                        Ok(c) => Ok(Node::Mapping(m.update(i, (k, c)))),
                        Err(e) => Err(e),
                    }
                } else {
                    Err(PatchError::PathNotFound)
                }
            },
            (Node::Sequence(s), Seg::Index(j)) => if 0 <= j < s.len() {
                match remove_at(s[j], p.skip(1)) {
                    Ok(c) => Ok(Node::Sequence(s.update(j, c))),
                    Err(e) => Err(e),
                }
            } else {
                Err(PatchError::PathNotFound)
            },
            _ => Err(PatchError::PathNotFound),
        }
    }
}

/// `Replace`: overwrite the addressed, existing location.
pub open spec fn replace_at(n: Node, p: Seq<Seg>, v: Node) -> Result<Node, PatchError> {
    if get_at(n, p) is Some {
        add_at(n, p, v)
    } else {
        Err(PatchError::PathNotFound)
    }
}

/// One operation, applied to the whole document.
pub open spec fn apply_op(n: Node, op: Op) -> Result<Node, PatchError> {
    match op {
        Op::Add(p, v) => add_at(n, p, v),
        Op::Remove(p) => remove_at(n, p),
        Op::Replace(p, v) => replace_at(n, p, v),
        Op::Move(f, t) => match get_at(n, f) {
            Some(v) => match remove_at(n, f) {
                Ok(n2) => add_at(n2, t, v),
                Err(e) => Err(e),
            },
            None => Err(PatchError::PathNotFound),
        },
        Op::Duplicate(f, t) => match get_at(n, f) {
            Some(v) => add_at(n, t, v),
            None => Err(PatchError::PathNotFound),
        },
        Op::Test(p, v) => match get_at(n, p) {
            Some(w) => if w == v {
                Ok(n)
            } else {
                Err(PatchError::TestFailed)
            },
            None => Err(PatchError::TestFailed),
        },
    }
}

/// A whole patch: operations applied strictly in order, each against the
/// result of the previous one; the first failure aborts the run.
pub open spec fn apply_ops(n: Node, ops: Seq<Op>) -> Result<Node, PatchError>
    decreases ops.len(),
{
    if ops.len() == 0 {
        Ok(n)
    } else {
        match apply_op(n, ops[0]) {
            Ok(n2) => apply_ops(n2, ops.skip(1)),
            Err(e) => Err(e),
        }
    }
}

fn key_find_from(entries: &Vec<(String, TreeValue)>, i: usize, k: &String) -> (r: Option<usize>)
    requires
        i <= entries@.len(),
    ensures
        match r {
            Some(j) => i as int <= j < entries@.len() && key_idx(
                entries_of(entries@).skip(i as int),
                k@,
            ) == j - i,
            None => key_idx(entries_of(entries@).skip(i as int), k@) < 0,
        },
    decreases entries@.len() - i,
{
    proof {
        lemma_entries_of(entries@);
    }
    if i == entries.len() {
        None
    } else {
        proof {
            assert(entries_of(entries@).skip(i as int)[0] == entries_of(entries@)[i as int]);
        }
        let e = &entries[i];
        if e.0 == *k {
            Some(i)
        } else {
            let r = key_find_from(entries, i + 1, k);
            proof {
                assert(entries_of(entries@).skip(i as int).skip(1) =~= entries_of(entries@).skip(
                    i as int + 1,
                ));
            }
            r
        }
    }
}

/// Index of the entry with key `k`, mirroring [`key_idx`].
fn key_find(entries: &Vec<(String, TreeValue)>, k: &String) -> (r: Option<usize>)
    ensures
        match r {
            Some(j) => 0 <= j < entries@.len() && key_idx(entries_of(entries@), k@) == j,
            None => key_idx(entries_of(entries@), k@) < 0,
        },
{
    let r = key_find_from(entries, 0, k);
    proof {
        assert(entries_of(entries@).skip(0) =~= entries_of(entries@));
    }
    r
}

fn insert_find_from(entries: &Vec<(String, TreeValue)>, i: usize, k: &String) -> (r: usize)
    requires
        i <= entries@.len(),
    ensures
        i <= r <= entries@.len(),
        r - i == insert_pos(entries_of(entries@).skip(i as int), k@),
    decreases entries@.len() - i,
{
    proof {
        lemma_entries_of(entries@);
    }
    if i == entries.len() {
        i
    } else {
        proof {
            assert(entries_of(entries@).skip(i as int)[0] == entries_of(entries@)[i as int]);
        }
        let e = &entries[i];
        if str_lex_lt(k.as_str(), e.0.as_str()) || e.0 == *k {
            i
        } else {
            let r = insert_find_from(entries, i + 1, k);
            proof {
                assert(entries_of(entries@).skip(i as int).skip(1) =~= entries_of(entries@).skip(
                    i as int + 1,
                ));
            }
            r
        }
    }
}

/// Position where key `k` is to be inserted, mirroring [`insert_pos`].
fn insert_find(entries: &Vec<(String, TreeValue)>, k: &String) -> (r: usize)
    ensures
        0 <= r <= entries@.len(),
        r as int == insert_pos(entries_of(entries@), k@),
{
    let r = insert_find_from(entries, 0, k);
    proof {
        assert(entries_of(entries@).skip(0) =~= entries_of(entries@));
    }
    r
}

/// A copy of `entries` with the entry at `idx` replaced by `(k, v)`.
fn entries_with_kv(entries: &Vec<(String, TreeValue)>, idx: usize, k: String, v: TreeValue) -> (r:
    Vec<(String, TreeValue)>)
    requires
        idx < entries@.len(),
    ensures
        entries_of(r@) == entries_of(entries@).update(idx as int, (k@, v@)),
{
    let mut out: Vec<(String, TreeValue)> = Vec::new();
    let mut j: usize = 0;
    while j < idx
        invariant
            j <= idx < entries@.len(),
            out@.len() == j as int,
            forall|t: int| 0 <= t < j as int ==> (#[trigger] out@[t]).0@ == entries@[t].0@
                && out@[t].1@ == entries@[t].1@,
        decreases idx - j,
    {
        let e = &entries[j];
        out.push((e.0.clone(), e.1.deep_clone()));
        j += 1;
    }
    let ghost kv = k@;
    let ghost vv = v@;
    let len = entries.len();
    out.push((k, v));
    let mut j: usize = idx + 1;
    while j < len
        invariant
            len == entries@.len(),
            idx < j <= entries@.len(),
            out@.len() == j as int,
            forall|t: int| 0 <= t < j as int && t != idx as int ==> (#[trigger] out@[t]).0@
                == entries@[t].0@ && out@[t].1@ == entries@[t].1@,
            out@[idx as int].0@ == kv && out@[idx as int].1@ == vv,
        decreases entries@.len() - j,
    {
        let e = &entries[j];
        out.push((e.0.clone(), e.1.deep_clone()));
        j += 1;
    }
    proof {
        lemma_entries_of(out@);
        lemma_entries_of(entries@);
        assert forall|t: int| 0 <= t < out@.len() implies entries_of(out@)[t] == entries_of(
            entries@,
        ).update(idx as int, (kv, vv))[t] by {
            assert(entries_of(out@)[t] == (out@[t].0@, node_of(out@[t].1)));
        }
        assert(entries_of(out@) =~= entries_of(entries@).update(idx as int, (kv, vv)));
    }
    out
}

/// A copy of `entries` with `(k, v)` inserted at position `idx`.
fn entries_inserted(entries: &Vec<(String, TreeValue)>, idx: usize, k: String, v: TreeValue) -> (r:
    Vec<(String, TreeValue)>)
    requires
        idx <= entries@.len(),
    ensures
        entries_of(r@) == entries_of(entries@).insert(idx as int, (k@, v@)),
{
    let mut out: Vec<(String, TreeValue)> = Vec::new();
    let mut j: usize = 0;
    while j < idx
        invariant
            j <= idx <= entries@.len(),
            out@.len() == j as int,
            forall|t: int| 0 <= t < j as int ==> (#[trigger] out@[t]).0@ == entries@[t].0@
                && out@[t].1@ == entries@[t].1@,
        decreases idx - j,
    {
        let e = &entries[j];
        out.push((e.0.clone(), e.1.deep_clone()));
        j += 1;
    }
    let ghost kv = k@;
    let ghost vv = v@;
    out.push((k, v));
    let mut j: usize = idx;
    while j < entries.len()
        invariant
            idx <= j <= entries@.len(),
            out@.len() == j as int + 1,
            forall|t: int| 0 <= t < idx as int ==> (#[trigger] out@[t]).0@ == entries@[t].0@
                && out@[t].1@ == entries@[t].1@,
            forall|t: int| (idx as int) < t && t < j as int + 1 ==> (#[trigger] out@[t]).0@ == entries@[t
                - 1].0@ && out@[t].1@ == entries@[t - 1].1@,
            out@[idx as int].0@ == kv && out@[idx as int].1@ == vv,
        decreases entries@.len() - j,
    {
        let e = &entries[j];
        out.push((e.0.clone(), e.1.deep_clone()));
        j += 1;
    }
    proof {
        lemma_entries_of(out@);
        lemma_entries_of(entries@);
        assert forall|t: int| 0 <= t < out@.len() implies entries_of(out@)[t] == entries_of(
            entries@,
        ).insert(idx as int, (kv, vv))[t] by {
            assert(entries_of(out@)[t] == (out@[t].0@, node_of(out@[t].1)));
        }
        assert(entries_of(out@) =~= entries_of(entries@).insert(idx as int, (kv, vv)));
    }
    out
}

/// A copy of `entries` without the entry at `idx`.
fn entries_removed(entries: &Vec<(String, TreeValue)>, idx: usize) -> (r: Vec<(String, TreeValue)>)
    requires
        idx < entries@.len(),
    ensures
        entries_of(r@) == entries_of(entries@).remove(idx as int),
{
    let mut out: Vec<(String, TreeValue)> = Vec::new();
    let mut j: usize = 0;
    while j < entries.len()
        invariant
            j <= entries@.len(),
            idx < entries@.len(),
            j <= idx ==> out@.len() == j as int,
            j > idx ==> out@.len() == j as int - 1,
            forall|t: int| 0 <= t < j as int && t < idx as int ==> (#[trigger] out@[t]).0@
                == entries@[t].0@ && out@[t].1@ == entries@[t].1@,
            forall|t: int| idx as int <= t < j as int - 1 ==> (#[trigger] out@[t]).0@ == entries@[t
                + 1].0@ && out@[t].1@ == entries@[t + 1].1@,
        decreases entries@.len() - j,
    {
        if j != idx {
            let e = &entries[j];
            out.push((e.0.clone(), e.1.deep_clone()));
        }
        j += 1;
    }
    proof {
        lemma_entries_of(out@);
        lemma_entries_of(entries@);
        assert forall|t: int| 0 <= t < out@.len() implies entries_of(out@)[t] == entries_of(
            entries@,
        ).remove(idx as int)[t] by {
            assert(entries_of(out@)[t] == (out@[t].0@, node_of(out@[t].1)));
        }
        assert(entries_of(out@) =~= entries_of(entries@).remove(idx as int));
    }
    out
}

/// A copy of `items` with the element at `idx` replaced by `c`.
fn items_with_child(items: &Vec<TreeValue>, idx: usize, c: TreeValue) -> (r: Vec<TreeValue>)
    requires
        idx < items@.len(),
    ensures
        nodes_of(r@) == nodes_of(items@).update(idx as int, c@),
{
    let ghost cv = c@;
    let mut out: Vec<TreeValue> = Vec::new();
    let mut j: usize = 0;
    while j < idx
        invariant
            j <= idx < items@.len(),
            out@.len() == j as int,
            forall|t: int| 0 <= t < j as int ==> (#[trigger] out@[t])@ == items@[t]@,
        decreases idx - j,
    {
        out.push(items[j].deep_clone());
        j += 1;
    }
    let len = items.len();
    out.push(c);
    let mut j: usize = idx + 1;
    while j < len
        invariant
            len == items@.len(),
            idx < j <= items@.len(),
            out@.len() == j as int,
            forall|t: int| 0 <= t < j as int && t != idx as int ==> (#[trigger] out@[t])@
                == items@[t]@,
            out@[idx as int]@ == cv,
        decreases items@.len() - j,
    {
        out.push(items[j].deep_clone());
        j += 1;
    }
    proof {
        lemma_nodes_of(out@);
        lemma_nodes_of(items@);
        assert forall|t: int| 0 <= t < out@.len() implies nodes_of(out@)[t] == nodes_of(
            items@,
        ).update(idx as int, cv)[t] by {
            assert(nodes_of(out@)[t] == node_of(out@[t]));
        }
        assert(nodes_of(out@) =~= nodes_of(items@).update(idx as int, cv));
    }
    out
}

/// A copy of `items` with `v` inserted at position `idx`.
fn items_inserted(items: &Vec<TreeValue>, idx: usize, v: TreeValue) -> (r: Vec<TreeValue>)
    requires
        idx <= items@.len(),
    ensures
        nodes_of(r@) == nodes_of(items@).insert(idx as int, v@),
{
    let ghost vv = v@;
    let mut out: Vec<TreeValue> = Vec::new();
    let mut j: usize = 0;
    while j < idx
        invariant
            j <= idx <= items@.len(),
            out@.len() == j as int,
            forall|t: int| 0 <= t < j as int ==> (#[trigger] out@[t])@ == items@[t]@,
        decreases idx - j,
    {
        out.push(items[j].deep_clone());
        j += 1;
    }
    out.push(v);
    let mut j: usize = idx;
    while j < items.len()
        invariant
            idx <= j <= items@.len(),
            out@.len() == j as int + 1,
            forall|t: int| 0 <= t < idx as int ==> (#[trigger] out@[t])@ == items@[t]@,
            forall|t: int| (idx as int) < t && t < j as int + 1 ==> (#[trigger] out@[t])@ == items@[t
                - 1]@,
            out@[idx as int]@ == vv,
        decreases items@.len() - j,
    {
        out.push(items[j].deep_clone());
        j += 1;
    }
    proof {
        lemma_nodes_of(out@);
        lemma_nodes_of(items@);
        assert forall|t: int| 0 <= t < out@.len() implies nodes_of(out@)[t] == nodes_of(
            items@,
        ).insert(idx as int, vv)[t] by {
            assert(nodes_of(out@)[t] == node_of(out@[t]));
        }
        assert(nodes_of(out@) =~= nodes_of(items@).insert(idx as int, vv));
    }
    out
}

/// A copy of `items` without the element at `idx`.
fn items_removed(items: &Vec<TreeValue>, idx: usize) -> (r: Vec<TreeValue>)
    requires
        idx < items@.len(),
    ensures
        nodes_of(r@) == nodes_of(items@).remove(idx as int),
{
    let mut out: Vec<TreeValue> = Vec::new();
    let mut j: usize = 0;
    while j < items.len()
        invariant
            j <= items@.len(),
            idx < items@.len(),
            j <= idx ==> out@.len() == j as int,
            j > idx ==> out@.len() == j as int - 1,
            forall|t: int| 0 <= t < j as int && t < idx as int ==> (#[trigger] out@[t])@
                == items@[t]@,
            forall|t: int| idx as int <= t < j as int - 1 ==> (#[trigger] out@[t])@ == items@[t
                + 1]@,
        decreases items@.len() - j,
    {
        if j != idx {
            out.push(items[j].deep_clone());
        }
        j += 1;
    }
    proof {
        lemma_nodes_of(out@);
        lemma_nodes_of(items@);
        assert forall|t: int| 0 <= t < out@.len() implies nodes_of(out@)[t] == nodes_of(
            items@,
        ).remove(idx as int)[t] by {
            assert(nodes_of(out@)[t] == node_of(out@[t]));
        }
        assert(nodes_of(out@) =~= nodes_of(items@).remove(idx as int));
    }
    out
}

fn get_from<'a>(n: &'a TreeValue, p: &Vec<PathSeg>, depth: usize) -> (r: Option<&'a TreeValue>)
    requires
        depth <= p@.len(),
    ensures
        match r {
            Some(v) => get_at(n@, segs_of(p@).skip(depth as int)) == Some(v@),
            None => get_at(n@, segs_of(p@).skip(depth as int)) is None,
        },
    decreases p@.len() - depth,
{
    if depth == p.len() {
        proof {
            assert(segs_of(p@).skip(depth as int).len() == 0);
        }
        Some(n)
    } else {
        proof {
            assert(segs_of(p@).skip(depth as int)[0] == p@[depth as int]@);
            assert(segs_of(p@).skip(depth as int).skip(1) =~= segs_of(p@).skip(depth as int + 1));
        }
        match (n, &p[depth]) {
            (TreeValue::Mapping(entries), PathSeg::Key(k)) => {
                proof {
                    lemma_entries_of(entries@);
                    assert(n@ == Node::Mapping(entries_of(entries@)));
                }
                match key_find(entries, k) {
                    Some(idx) => {
                        proof {
                            assert(entries_of(entries@)[idx as int].1 == entries@[idx as int].1@);
                        }
                        get_from(&entries[idx].1, p, depth + 1)
                    },
                    None => None,
                }
            },
            (TreeValue::Sequence(items), PathSeg::Index(j)) => {
                proof {
                    lemma_nodes_of(items@);
                    assert(n@ == Node::Sequence(nodes_of(items@)));
                }
                if *j < items.len() {
                    proof {
                        assert(nodes_of(items@)[*j as int] == items@[*j as int]@);
                    }
                    get_from(&items[*j], p, depth + 1)
                } else {
                    None
                }
            },
            _ => None,
        }
    }
}

fn add_from(n: &TreeValue, p: &Vec<PathSeg>, depth: usize, v: TreeValue) -> (r: Result<
    TreeValue,
    PatchError,
>)
    requires
        depth <= p@.len(),
    ensures
        match r {
            Ok(out) => add_at(n@, segs_of(p@).skip(depth as int), v@) == Ok::<Node, PatchError>(
                out@,
            ),
            Err(e) => add_at(n@, segs_of(p@).skip(depth as int), v@) == Err::<Node, PatchError>(e),
        },
    decreases p@.len() - depth,
{
    if depth == p.len() {
        proof {
            assert(segs_of(p@).skip(depth as int).len() == 0);
        }
        Ok(v)
    } else {
        proof {
            assert(segs_of(p@).skip(depth as int)[0] == p@[depth as int]@);
            assert(segs_of(p@).skip(depth as int).skip(1) =~= segs_of(p@).skip(depth as int + 1));
        }
        if depth + 1 == p.len() {
            match (n, &p[depth]) {
                (TreeValue::Mapping(entries), PathSeg::Key(k)) => {
                    proof {
                        lemma_entries_of(entries@);
                        assert(n@ == Node::Mapping(entries_of(entries@)));
                    }
                    match key_find(entries, k) {
                        Some(idx) => Ok(
                            TreeValue::Mapping(entries_with_kv(entries, idx, k.clone(), v)),
                        ),
                        None => {
                            proof {
                                lemma_insert_pos_bounds(entries_of(entries@), k@);
                            }
                            let pos = insert_find(entries, k);
                            Ok(TreeValue::Mapping(entries_inserted(entries, pos, k.clone(), v)))
                        },
                    }
                },
                (TreeValue::Sequence(items), PathSeg::Index(j)) => {
                    proof {
                        lemma_nodes_of(items@);
                        assert(n@ == Node::Sequence(nodes_of(items@)));
                    }
                    if *j <= items.len() {
                        Ok(TreeValue::Sequence(items_inserted(items, *j, v)))
                    } else {
                        Err(PatchError::IndexOutOfRange)
                    }
                },
                _ => Err(PatchError::PathNotFound),
            }
        } else {
            match (n, &p[depth]) {
                (TreeValue::Mapping(entries), PathSeg::Key(k)) => {
                    proof {
                        lemma_entries_of(entries@);
                        assert(n@ == Node::Mapping(entries_of(entries@)));
                    }
                    match key_find(entries, k) {
                        Some(idx) => {
                            proof {
                                assert(entries_of(entries@)[idx as int].1 == entries@[idx as int].1@);
                            }
                            match add_from(&entries[idx].1, p, depth + 1, v) {
                                Ok(c) => Ok(
                                    TreeValue::Mapping(entries_with_kv(entries, idx, k.clone(), c)),
                                ),
                                Err(e) => Err(e),
                            }
                        },
                        None => Err(PatchError::PathNotFound),
                    }
                },
                (TreeValue::Sequence(items), PathSeg::Index(j)) => {
                    proof {
                        lemma_nodes_of(items@);
                        assert(n@ == Node::Sequence(nodes_of(items@)));
                    }
                    if *j < items.len() {
                        proof {
                            assert(nodes_of(items@)[*j as int] == items@[*j as int]@);
                        }
                        match add_from(&items[*j], p, depth + 1, v) {
                            Ok(c) => Ok(TreeValue::Sequence(items_with_child(items, *j, c))),
                            Err(e) => Err(e),
                        }
                    } else {
                        Err(PatchError::PathNotFound)
                    }
                },
                _ => Err(PatchError::PathNotFound),
            }
        }
    }
}

fn remove_from(n: &TreeValue, p: &Vec<PathSeg>, depth: usize) -> (r: Result<TreeValue, PatchError>)
    requires
        depth <= p@.len(),
    ensures
        match r {
            Ok(out) => remove_at(n@, segs_of(p@).skip(depth as int)) == Ok::<Node, PatchError>(
                out@,
            ),
            Err(e) => remove_at(n@, segs_of(p@).skip(depth as int)) == Err::<Node, PatchError>(e),
        },
    decreases p@.len() - depth,
{
    if depth == p.len() {
        proof {
            assert(segs_of(p@).skip(depth as int).len() == 0);
        }
        Err(PatchError::InvalidPatch)
    } else {
        proof {
            assert(segs_of(p@).skip(depth as int)[0] == p@[depth as int]@);
            assert(segs_of(p@).skip(depth as int).skip(1) =~= segs_of(p@).skip(depth as int + 1));
        }
        if depth + 1 == p.len() {
            match (n, &p[depth]) {
                (TreeValue::Mapping(entries), PathSeg::Key(k)) => {
                    proof {
                        lemma_entries_of(entries@);
                        assert(n@ == Node::Mapping(entries_of(entries@)));
                    }
                    match key_find(entries, k) {
                        Some(idx) => Ok(TreeValue::Mapping(entries_removed(entries, idx))),
                        None => Err(PatchError::PathNotFound),
                    }
                },
                (TreeValue::Sequence(items), PathSeg::Index(j)) => {
                    proof {
                        lemma_nodes_of(items@);
                        assert(n@ == Node::Sequence(nodes_of(items@)));
                    }
                    if *j < items.len() {
                        Ok(TreeValue::Sequence(items_removed(items, *j)))
                    } else {
                        Err(PatchError::PathNotFound)
                    }
                },
                _ => Err(PatchError::PathNotFound),
            }
        } else {
            match (n, &p[depth]) {
                (TreeValue::Mapping(entries), PathSeg::Key(k)) => {
                    proof {
                        lemma_entries_of(entries@);
                        assert(n@ == Node::Mapping(entries_of(entries@)));
                    }
                    match key_find(entries, k) {
                        Some(idx) => {
                            proof {
                                assert(entries_of(entries@)[idx as int].1 == entries@[idx as int].1@);
                            }
                            match remove_from(&entries[idx].1, p, depth + 1) {
                                Ok(c) => Ok(
                                    TreeValue::Mapping(entries_with_kv(entries, idx, k.clone(), c)),
                                ),
                                Err(e) => Err(e),
                            }
                        },
                        None => Err(PatchError::PathNotFound),
                    }
                },
                (TreeValue::Sequence(items), PathSeg::Index(j)) => {
                    proof {
                        lemma_nodes_of(items@);
                        assert(n@ == Node::Sequence(nodes_of(items@)));
                    }
                    if *j < items.len() {
                        proof {
                            assert(nodes_of(items@)[*j as int] == items@[*j as int]@);
                        }
                        match remove_from(&items[*j], p, depth + 1) {
                            Ok(c) => Ok(TreeValue::Sequence(items_with_child(items, *j, c))),
                            Err(e) => Err(e),
                        }
                    } else {
                        Err(PatchError::PathNotFound)
                    }
                },
                _ => Err(PatchError::PathNotFound),
            }
        }
    }
}

fn apply_op_exec(cur: &TreeValue, op: &PatchOp) -> (r: Result<TreeValue, PatchError>)
    ensures
        match r {
            Ok(out) => apply_op(cur@, op@) == Ok::<Node, PatchError>(out@),
            Err(e) => apply_op(cur@, op@) == Err::<Node, PatchError>(e),
        },
{
    match op {
        PatchOp::Add(p, v) => {
            proof {
                assert(segs_of(p@).skip(0) =~= segs_of(p@));
            }
            add_from(cur, p, 0, v.deep_clone())
        },
        PatchOp::Remove(p) => {
            proof {
                assert(segs_of(p@).skip(0) =~= segs_of(p@));
            }
            remove_from(cur, p, 0)
        },
        PatchOp::Replace(p, v) => {
            proof {
                assert(segs_of(p@).skip(0) =~= segs_of(p@));
            }
            match get_from(cur, p, 0) {
                Some(_) => add_from(cur, p, 0, v.deep_clone()),
                None => Err(PatchError::PathNotFound),
            }
        },
        PatchOp::Move(f, t) => {
            proof {
                assert(segs_of(f@).skip(0) =~= segs_of(f@));
                assert(segs_of(t@).skip(0) =~= segs_of(t@));
            }
            match get_from(cur, f, 0) {
                Some(w) => {
                    let wc = w.deep_clone();
                    match remove_from(cur, f, 0) {
                        Ok(n2) => add_from(&n2, t, 0, wc),
                        Err(e) => Err(e),
                    }
                },
                None => Err(PatchError::PathNotFound),
            }
        },
        PatchOp::Duplicate(f, t) => {
            proof {
                assert(segs_of(f@).skip(0) =~= segs_of(f@));
                assert(segs_of(t@).skip(0) =~= segs_of(t@));
            }
            match get_from(cur, f, 0) {
                Some(w) => {
                    let wc = w.deep_clone();
                    add_from(cur, t, 0, wc)
                },
                None => Err(PatchError::PathNotFound),
            }
        },
        PatchOp::Test(p, v) => {
            proof {
                assert(segs_of(p@).skip(0) =~= segs_of(p@));
            }
            match get_from(cur, p, 0) {
                Some(w) => if w.structural_eq(v) {
                    Ok(cur.deep_clone())
                } else {
                    Err(PatchError::TestFailed)
                },
                None => Err(PatchError::TestFailed),
            }
        },
    }
}

/// Apply a patch to a base document. The base itself is never changed: the
/// result is a fresh tree, and on the first failing operation the error is
/// returned and the partial result discarded.
pub fn apply(base: &TreeValue, patch: &Vec<PatchOp>) -> (r: Result<TreeValue, PatchError>)
    ensures
        match r {
            Ok(out) => apply_ops(base@, ops_of(patch@)) == Ok::<Node, PatchError>(out@),
            Err(e) => apply_ops(base@, ops_of(patch@)) == Err::<Node, PatchError>(e),
        },
{
    let mut cur = base.deep_clone();
    proof {
        assert(ops_of(patch@).skip(0) =~= ops_of(patch@));
    }
    let mut i: usize = 0;
    while i < patch.len()
        invariant
            i <= patch@.len(),
            apply_ops(base@, ops_of(patch@)) == apply_ops(cur@, ops_of(patch@).skip(i as int)),
        decreases patch@.len() - i,
    {
        proof {
            assert(ops_of(patch@).skip(i as int)[0] == patch@[i as int]@);
            assert(ops_of(patch@).skip(i as int).skip(1) =~= ops_of(patch@).skip(i as int + 1));
        }
        match apply_op_exec(&cur, &patch[i]) {
            Ok(next) => {
                cur = next;
                i += 1;
            },
            Err(e) => {
                return Err(e);
            },
        }
    }
    proof {
        assert(ops_of(patch@).skip(patch@.len() as int).len() == 0);
    }
    Ok(cur)
}

/// The value addressed by `path` inside `base`, if any.
pub fn value_at<'a>(base: &'a TreeValue, path: &Vec<PathSeg>) -> (r: Option<&'a TreeValue>)
    ensures
        match r {
            Some(v) => get_at(base@, segs_of(path@)) == Some(v@),
            None => get_at(base@, segs_of(path@)) is None,
        },
{
    let r = get_from(base, path, 0);
    proof {
        assert(segs_of(path@).skip(0) =~= segs_of(path@));
    }
    r
}

} // verus!
