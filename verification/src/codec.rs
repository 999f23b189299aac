//! The format bridge: rendering a tree as bytes and parsing bytes back.
//!
//! The textual surface is a canonical subset of the JSON-style notation the
//! engine's patches also use: no insignificant whitespace, mapping entries
//! in canonical key order, integer numbers in the signed 64-bit range, and
//! text restricted to printable ASCII without `"` or `\`. A value outside
//! that subset is reported as a [`ConversionError`], never truncated.

use vstd::prelude::*;

use crate::value::{
    TreeValue, Node, node_of, nodes_of, entries_of, lemma_nodes_of, lemma_entries_of,
    lemma_node_size_pos, node_size, nodes_size, entries_size, keys_sorted, wf, lex_lt, str_lex_lt,
};
use crate::patch::{PathSeg, segs_of};

verus! {

/// Why a value could not cross the format bridge.
#[derive(Clone, Copy, Debug, PartialEq, Eq, Structural)]
pub enum ConversionError {
    /// The value has no faithful counterpart on the textual surface:
    /// text with characters outside printable ASCII, or `"` or `\`.
    Unrepresentable,
    /// The bytes are not a canonical document of the surface.
    Malformed,
}

/// Text that the surface can carry directly: printable ASCII without the
/// two characters that would need escaping.
pub open spec fn text_ok(s: Seq<char>) -> bool {
    forall|i: int| 0 <= i < s.len() ==> ' ' <= #[trigger] s[i] && s[i] <= '~' && s[i] != '"'
        && s[i] != '\\'
}

/// The bytes of a representable text, one byte per character.
pub open spec fn chars_bytes(s: Seq<char>) -> Seq<u8> {
    Seq::new(s.len(), |i: int| s[i] as u8)
}

/// The subset of trees the surface represents exactly.
pub open spec fn representable(n: Node) -> bool
    decreases n,
{
    match n {
        Node::Null => true,
        Node::Bool(_) => true,
        Node::Int(v) => -9223372036854775808int <= v <= 9223372036854775807int,
        Node::Text(s) => text_ok(s),
        Node::Sequence(s) => forall|i: int| 0 <= i < s.len() ==> representable(#[trigger] s[i]),
        Node::Mapping(m) => (forall|i: int| 0 <= i < m.len() ==> text_ok((#[trigger] m[i]).0))
            && (forall|i: int| 0 <= i < m.len() ==> representable((#[trigger] m[i]).1)),
    }
}

/// Decimal digits of a non-negative number.
pub open spec fn render_nat(v: int) -> Seq<u8>
    decreases v,
{
    if v <= 9 {
        seq![(48 + if v >= 0 { v } else { 0 }) as u8]
    } else {
        render_nat(v / 10) + seq![(48 + v % 10) as u8]
    }
}

/// Decimal notation of a signed number.
pub open spec fn render_int(v: int) -> Seq<u8> {
    if v < 0 {
        seq![45u8] + render_nat(-v)
    } else {
        render_nat(v)
    }
}

/// The canonical byte notation of a node. Meaningful on representable
/// trees; total so that contracts can always speak of it.
pub open spec fn render_node(n: Node) -> Seq<u8>
    decreases n, 2int,
{
    match n {
        Node::Null => seq![110u8, 117u8, 108u8, 108u8],
        Node::Bool(b) => if b {
            seq![116u8, 114u8, 117u8, 101u8]
        } else {
            seq![102u8, 97u8, 108u8, 115u8, 101u8]
        },
        Node::Int(v) => render_int(v),
        Node::Text(s) => seq![34u8] + chars_bytes(s) + seq![34u8],
        Node::Sequence(s) => seq![91u8] + render_items(s) + seq![93u8],
        Node::Mapping(m) => seq![123u8] + render_entries(m) + seq![125u8],
    }
}

/// Comma-separated notation of a sequence's elements.
pub open spec fn render_items(s: Seq<Node>) -> Seq<u8>
    decreases s, 1int,
{
    if s.len() == 0 {
        Seq::empty()
    } else if s.len() == 1 {
        render_node(s[0])
    } else {
        render_node(s[0]) + seq![44u8] + render_items(s.skip(1))
    }
}

/// Comma-separated notation of a mapping's entries.
pub open spec fn render_entries(m: Seq<(Seq<char>, Node)>) -> Seq<u8>
    decreases m, 1int,
{
    if m.len() == 0 {
        Seq::empty()
    } else {
        let head = seq![34u8] + chars_bytes(m[0].0) + seq![34u8, 58u8] + render_node(m[0].1);
        if m.len() == 1 {
            head
        } else {
            head + seq![44u8] + render_entries(m.skip(1))
        }
    }
}

fn render_nat_exec(v: u64, out: &mut Vec<u8>)
    ensures
        final(out)@ == old(out)@ + render_nat(v as int),
    decreases v,
{
    if v <= 9 {
        out.push(48 + v as u8);
        proof {
            assert(out@ =~= old(out)@ + render_nat(v as int));
        }
    } else {
        render_nat_exec(v / 10, out);
        out.push(48 + (v % 10) as u8);
        proof {
            assert(out@ =~= old(out)@ + render_nat(v as int));
        }
    }
}

/// Emit text bytes; false when a character is outside the representable set.
fn render_text_exec(s: &String, out: &mut Vec<u8>) -> (r: bool)
    ensures
        r == text_ok(s@),
        r ==> final(out)@ == old(out)@ + chars_bytes(s@),
{
    let st = s.as_str();
    let n = st.unicode_len();
    let ghost start = out@;
    let mut i: usize = 0;
    while i < n
        invariant
            n == s@.len(),
            st@ == s@,
            i <= n,
            out@ == start + chars_bytes(s@).take(i as int),
            forall|k: int| 0 <= k < i as int ==> ' ' <= #[trigger] s@[k] && s@[k] <= '~' && s@[k]
                != '"' && s@[k] != '\\',
        decreases n - i,
    {
        let c = st.get_char(i);
        if c < ' ' || c > '~' || c == '"' || c == '\\' {
            return false;
        }
        out.push(c as u8);
        proof {
            assert(out@ =~= start + chars_bytes(s@).take(i as int + 1));
        }
        i += 1;
    }
    proof {
        assert(chars_bytes(s@).take(s@.len() as int) =~= chars_bytes(s@));
    }
    true
}

fn render_value_exec(v: &TreeValue, out: &mut Vec<u8>) -> (r: bool)
    ensures
        r == representable(v@),
        r ==> final(out)@ == old(out)@ + render_node(v@),
    decreases node_size(v@), 0int,
{
    match v {
        TreeValue::Null => {
            out.push(110);
            out.push(117);
            out.push(108);
            out.push(108);
            proof {
                assert(out@ =~= old(out)@ + render_node(v@));
            }
            true
        },
        TreeValue::Bool(b) => {
            if *b {
                out.push(116);
                out.push(114);
                out.push(117);
                out.push(101);
            } else {
                out.push(102);
                out.push(97);
                out.push(108);
                out.push(115);
                out.push(101);
            }
            proof {
                assert(out@ =~= old(out)@ + render_node(v@));
            }
            true
        },
        TreeValue::Int(n) => {
            if *n < 0 {
                out.push(45);
                let m: u64 = if *n == i64::MIN {
                    9223372036854775808
                } else {
                    (-*n) as u64
                };
                proof {
                    assert(m as int == -(*n as int));
                }
                render_nat_exec(m, out);
                proof {
                    assert(out@ =~= old(out)@ + render_node(v@));
                }
            } else {
                render_nat_exec(*n as u64, out);
            }
            true
        },
        TreeValue::Text(s) => {
            out.push(34);
            if !render_text_exec(s, out) {
                return false;
            }
            out.push(34);
            proof {
                assert(out@ =~= old(out)@ + render_node(v@));
            }
            true
        },
        TreeValue::Sequence(items) => {
            proof {
                lemma_nodes_of(items@);
                assert(v@ == Node::Sequence(nodes_of(items@)));
                assert(nodes_of(items@).skip(0) =~= nodes_of(items@));
            }
            out.push(91);
            if !render_items_exec(items, 0, out) {
                return false;
            }
            out.push(93);
            proof {
                assert(out@ =~= old(out)@ + render_node(v@));
            }
            true
        },
        TreeValue::Mapping(entries) => {
            proof {
                lemma_entries_of(entries@);
                assert(v@ == Node::Mapping(entries_of(entries@)));
                assert(entries_of(entries@).skip(0) =~= entries_of(entries@));
            }
            out.push(123);
            if !render_entries_exec(entries, 0, out) {
                return false;
            }
            out.push(125);
            proof {
                assert(out@ =~= old(out)@ + render_node(v@));
            }
            true
        },
    }
}

fn render_items_exec(items: &Vec<TreeValue>, i: usize, out: &mut Vec<u8>) -> (r: bool)
    requires
        i <= items@.len(),
    ensures
        r == forall|k: int|
            i as int <= k < items@.len() ==> representable(#[trigger] nodes_of(items@)[k]),
        r ==> final(out)@ == old(out)@ + render_items(nodes_of(items@).skip(i as int)),
    decreases nodes_size(nodes_of(items@).skip(i as int)), 1int,
{
    proof {
        lemma_nodes_of(items@);
        if i < items@.len() {
            assert(nodes_of(items@).skip(i as int)[0] == nodes_of(items@)[i as int]);
            assert(nodes_of(items@).skip(i as int).skip(1) =~= nodes_of(items@).skip(i as int + 1));
            lemma_node_size_pos(nodes_of(items@)[i as int]);
        }
    }
    if i == items.len() {
        proof {
            assert(out@ =~= old(out)@ + render_items(nodes_of(items@).skip(i as int)));
        }
        true
    } else {
        if !render_value_exec(&items[i], out) {
            return false;
        }
        if i + 1 < items.len() {
            out.push(44);
        }
        let r = render_items_exec(items, i + 1, out);
        if r {
            proof {
                assert(out@ =~= old(out)@ + render_items(nodes_of(items@).skip(i as int)));
            }
        }
        r
    }
}

fn render_entries_exec(entries: &Vec<(String, TreeValue)>, i: usize, out: &mut Vec<u8>) -> (r:
    bool)
    requires
        i <= entries@.len(),
    ensures
        r == forall|k: int|
            i as int <= k < entries@.len() ==> text_ok((#[trigger] entries_of(entries@)[k]).0)
                && representable(entries_of(entries@)[k].1),
        r ==> final(out)@ == old(out)@ + render_entries(entries_of(entries@).skip(i as int)),
    decreases entries_size(entries_of(entries@).skip(i as int)), 1int,
{
    proof {
        lemma_entries_of(entries@);
        if i < entries@.len() {
            assert(entries_of(entries@).skip(i as int)[0] == entries_of(entries@)[i as int]);
            assert(entries_of(entries@).skip(i as int).skip(1) =~= entries_of(entries@).skip(
                i as int + 1,
            ));
            lemma_node_size_pos(entries_of(entries@)[i as int].1);
        }
    }
    if i == entries.len() {
        proof {
            assert(out@ =~= old(out)@ + render_entries(entries_of(entries@).skip(i as int)));
        }
        true
    } else {
        let e = &entries[i];
        out.push(34);
        if !render_text_exec(&e.0, out) {
            return false;
        }
        out.push(34);
        out.push(58);
        if !render_value_exec(&e.1, out) {
            return false;
        }
        if i + 1 < entries.len() {
            out.push(44);
        }
        let r = render_entries_exec(entries, i + 1, out);
        if r {
            proof {
                assert(out@ =~= old(out)@ + render_entries(entries_of(entries@).skip(i as int)));
            }
        }
        r
    }
}

/// Whether a byte is a decimal digit.
pub open spec fn is_digit(b: u8) -> bool {
    48 <= b <= 57
}

/// The number a digit string denotes.
pub open spec fn val_of(ds: Seq<u8>) -> int
    decreases ds.len(),
{
    if ds.len() == 0 {
        0
    } else {
        val_of(ds.drop_last()) * 10 + (ds.last() - 48)
    }
}

/// A canonical digit string (no leading zero) denotes the number whose
/// decimal notation it is.
proof fn lemma_digits_value(ds: Seq<u8>)
    requires
        ds.len() >= 1,
        forall|k: int| 0 <= k < ds.len() ==> is_digit(#[trigger] ds[k]),
        ds[0] != 48 || ds.len() == 1,
    ensures
        val_of(ds) >= 0,
        ds[0] != 48 ==> val_of(ds) >= 1,
        render_nat(val_of(ds)) == ds,
    decreases ds.len(),
{
    if ds.len() == 1 {
        assert(is_digit(ds[0]));
        assert(ds.drop_last().len() == 0);
        assert(val_of(ds.drop_last()) == 0);
        assert(val_of(ds) == ds[0] - 48);
        assert(render_nat(val_of(ds)) =~= ds);
    } else {
        assert(is_digit(ds[ds.len() - 1]));
        let prefix = ds.drop_last();
        assert(forall|k: int| 0 <= k < prefix.len() ==> is_digit(#[trigger] prefix[k]));
        lemma_digits_value(prefix);
        let pv = val_of(prefix);
        let dl = ds.last() - 48;
        let v = val_of(ds);
        assert(v == pv * 10 + dl);
        assert(v / 10 == pv && v % 10 == dl) by (nonlinear_arith)
            requires
                v == pv * 10 + dl,
                0 <= dl < 10,
                pv >= 1,
        ;
        assert(v >= 10) by (nonlinear_arith)
            requires
                v == pv * 10 + dl,
                0 <= dl,
                pv >= 1,
        ;
        assert(render_nat(v) == render_nat(pv) + seq![(48 + dl) as u8]);
        assert(render_nat(v) =~= ds);
    }
}

/// The digits of a non-negative number are digits, start with a non-zero
/// digit unless the number is a single digit, and are never empty.
proof fn lemma_render_nat_shape(v: int)
    requires
        v >= 0,
    ensures
        render_nat(v).len() >= 1,
        forall|k: int| 0 <= k < render_nat(v).len() ==> is_digit(#[trigger] render_nat(v)[k]),
        v >= 10 ==> render_nat(v)[0] != 48,
        v <= 9 ==> render_nat(v).len() == 1 && render_nat(v)[0] == (48 + v) as u8,
    decreases v,
{
    if v > 9 {
        lemma_render_nat_shape(v / 10);
        assert(v / 10 >= 1);
        assert(render_nat(v)[0] == render_nat(v / 10)[0]);
        assert forall|k: int| 0 <= k < render_nat(v).len() implies is_digit(
            #[trigger] render_nat(v)[k],
        ) by {
            if k < render_nat(v / 10).len() {
                assert(render_nat(v)[k] == render_nat(v / 10)[k]);
            } else {
                assert(render_nat(v)[k] == (48 + v % 10) as u8);
            }
        }
    }
}

/// The digit string of a non-negative number denotes that number.
proof fn lemma_render_nat_value(v: int)
    requires
        v >= 0,
    ensures
        val_of(render_nat(v)) == v,
    decreases v,
{
    let ds = render_nat(v);
    if v <= 9 {
        assert(ds.len() == 1);
        assert(ds.drop_last().len() == 0);
        assert(val_of(ds.drop_last()) == 0);
        assert(ds.last() == (48 + v) as u8);
    } else {
        lemma_render_nat_value(v / 10);
        let prefix = render_nat(v / 10);
        assert(ds == prefix + seq![(48 + v % 10) as u8]);
        assert(ds.drop_last() =~= prefix);
        assert(ds.last() == (48 + v % 10) as u8);
        assert(val_of(ds) == val_of(prefix) * 10 + (v % 10));
    }
}

/// A digit string denotes a non-negative number.
proof fn lemma_val_of_nonneg(ds: Seq<u8>)
    requires
        forall|k: int| 0 <= k < ds.len() ==> is_digit(#[trigger] ds[k]),
    ensures
        val_of(ds) >= 0,
    decreases ds.len(),
{
    if ds.len() > 0 {
        assert(forall|k: int|
            0 <= k < ds.drop_last().len() ==> is_digit(#[trigger] ds.drop_last()[k]));
        lemma_val_of_nonneg(ds.drop_last());
        assert(is_digit(ds[ds.len() - 1]));
        assert(val_of(ds) >= val_of(ds.drop_last()) * 10) by (nonlinear_arith)
            requires
                val_of(ds) == val_of(ds.drop_last()) * 10 + (ds.last() - 48),
                ds.last() >= 48,
        ;
        assert(val_of(ds.drop_last()) * 10 >= 0) by (nonlinear_arith)
            requires
                val_of(ds.drop_last()) >= 0,
        ;
    }
}

/// A prefix of a digit string denotes at most the whole string's number.
proof fn lemma_val_of_take_mono(ds: Seq<u8>, j: int)
    requires
        forall|k: int| 0 <= k < ds.len() ==> is_digit(#[trigger] ds[k]),
        0 <= j <= ds.len(),
    ensures
        val_of(ds.take(j)) <= val_of(ds),
    decreases ds.len() - j,
{
    if j == ds.len() {
        assert(ds.take(j) =~= ds);
    } else {
        lemma_val_of_take_mono(ds, j + 1);
        assert(ds.take(j + 1).drop_last() =~= ds.take(j));
        assert(ds.take(j + 1).last() == ds[j]);
        assert(forall|k: int| 0 <= k < ds.take(j).len() ==> is_digit(#[trigger] ds.take(j)[k]));
        lemma_val_of_nonneg(ds.take(j));
        assert(is_digit(ds[j]));
        assert(val_of(ds.take(j + 1)) >= val_of(ds.take(j))) by (nonlinear_arith)
            requires
                val_of(ds.take(j + 1)) == val_of(ds.take(j)) * 10 + (ds[j] - 48),
                val_of(ds.take(j)) >= 0,
                ds[j] >= 48,
        ;
    }
}

/// The first byte of a node's notation classifies its variant.
proof fn lemma_render_first(n: Node)
    ensures
        render_node(n).len() >= 1,
        n is Null ==> render_node(n)[0] == 110,
        n matches Node::Bool(b) ==> render_node(n)[0] == (if b {
            116u8
        } else {
            102u8
        }),
        n is Int ==> render_node(n)[0] == 45 || is_digit(render_node(n)[0]),
        n is Text ==> render_node(n)[0] == 34,
        n is Sequence ==> render_node(n)[0] == 91,
        n is Mapping ==> render_node(n)[0] == 123,
{
    match n {
        Node::Int(v) => {
            if v < 0 {
                lemma_render_nat_shape(-v);
            } else {
                lemma_render_nat_shape(v);
            }
        },
        _ => {},
    }
}

/// The bytes from `i` to `e` are the canonical notation of `n`, with no
/// digit following (so a number cannot extend past `e`).
pub open spec fn canonical_at(bs: Seq<u8>, i: int, e: int, n: Node) -> bool {
    wf(n) && representable(n) && 0 <= i <= e <= bs.len() && render_node(n) == bs.subrange(i, e)
        && (e == bs.len() || !is_digit(bs[e]))
}

/// The bytes from `i` to `e` are the canonical notation of the elements
/// `ns`, followed by the closing bracket.
pub open spec fn canonical_items_at(bs: Seq<u8>, i: int, e: int, ns: Seq<Node>) -> bool {
    ns.len() >= 1 && (forall|k: int|
        0 <= k < ns.len() ==> wf(#[trigger] ns[k]) && representable(ns[k])) && 0 <= i <= e
        <= bs.len() && render_items(ns) + seq![93u8] == bs.subrange(i, e)
}

/// The bytes from `i` to `e` are the canonical notation of the entries
/// `ms`, followed by the closing brace.
pub open spec fn canonical_entries_at(bs: Seq<u8>, i: int, e: int, ms: Seq<(Seq<char>, Node)>)
    -> bool {
    ms.len() >= 1 && keys_sorted(ms) && (forall|k: int|
        0 <= k < ms.len() ==> text_ok((#[trigger] ms[k]).0) && wf(ms[k].1) && representable(
            ms[k].1,
        )) && 0 <= i <= e <= bs.len() && render_entries(ms) + seq![125u8] == bs.subrange(i, e)
}

/// The bytes from `i` to `e` are a quoted text with content `s`.
pub open spec fn canonical_text_at(bs: Seq<u8>, i: int, e: int, s: Seq<char>) -> bool {
    text_ok(s) && 0 <= i <= e <= bs.len() && seq![34u8] + chars_bytes(s) + seq![34u8]
        == bs.subrange(i, e)
}

/// The bytes from `i` to `e` are the decimal notation of `v`, with no
/// digit following.
pub open spec fn canonical_int_at(bs: Seq<u8>, i: int, e: int, v: int) -> bool {
    -9223372036854775808 <= v <= 9223372036854775807 && 0 <= i <= e <= bs.len() && render_int(v)
        == bs.subrange(i, e) && (e == bs.len() || !is_digit(bs[e]))
}

/// Relies on String::from_utf8: bytes below 128 decode to the characters
/// with the same code points, one character per byte.
#[verifier::external_body]
fn string_from_ascii(bytes: Vec<u8>) -> (r: String)
    requires
        forall|k: int| 0 <= k < bytes@.len() ==> 32 <= #[trigger] bytes@[k] <= 126 && bytes@[k]
            != 34 && bytes@[k] != 92,
    ensures
        r@.len() == bytes@.len(),
        chars_bytes(r@) == bytes@,
        text_ok(r@),
{
    match String::from_utf8(bytes) {
        Ok(s) => s,
        Err(_) => String::new(),
    }
}

/// What a quoted-text premise says of the bytes.
proof fn lemma_text_premise(bs: Seq<u8>, i: int, e: int, s: Seq<char>)
    requires
        canonical_text_at(bs, i, e, s),
    ensures
        e >= i + 2,
        bs[i] == 34,
        bs[e - 1] == 34,
        s.len() == e - i - 2,
        forall|q: int| i + 1 <= q < e - 1 ==> #[trigger] bs[q] == s[q - i - 1] as u8,
        forall|q: int| i + 1 <= q < e - 1 ==> 32 <= #[trigger] bs[q] <= 126 && bs[q] != 34 && bs[q]
            != 92,
{
    let w = seq![34u8] + chars_bytes(s) + seq![34u8];
    assert(w.len() == s.len() + 2);
    assert(bs.subrange(i, e)[0] == bs[i]);
    assert(bs.subrange(i, e)[e - i - 1] == bs[e - 1]);
    assert(w[0] == 34);
    assert(w[w.len() - 1] == 34);
    assert forall|q: int| i + 1 <= q < e - 1 implies #[trigger] bs[q] == s[q - i - 1] as u8 by {
        assert(bs.subrange(i, e)[q - i] == bs[q]);
        assert(w[q - i] == chars_bytes(s)[q - i - 1]);
    }
    assert forall|q: int| i + 1 <= q < e - 1 implies 32 <= #[trigger] bs[q] <= 126 && bs[q] != 34
        && bs[q] != 92 by {
        let c = s[q - i - 1];
        assert(' ' <= c && c <= '~' && c != '"' && c != '\\');
    }
}

fn parse_string(bs: &Vec<u8>, i: usize) -> (r: Result<(String, usize), ConversionError>)
    requires
        i < bs@.len(),
        bs@[i as int] == 34,
    ensures
        match r {
            Ok((s, j)) => i < j <= bs@.len() && text_ok(s@) && seq![34u8] + chars_bytes(s@)
                + seq![34u8] == bs@.subrange(i as int, j as int),
            Err(_) => true,
        },
        forall|s: Seq<char>, e: int|
            #[trigger] canonical_text_at(bs@, i as int, e, s) ==> (r matches Ok(p) && p.0@ == s
                && p.1 == e),
{
    let len = bs.len();
    let mut collected: Vec<u8> = Vec::new();
    let mut k: usize = i + 1;
    while k < len && bs[k] != 34
        invariant
            len == bs@.len(),
            i < k <= len,
            bs@[i as int] == 34,
            collected@ == bs@.subrange(i as int + 1, k as int),
            forall|t: int| (i as int) < t && t < k as int ==> #[trigger] bs@[t] != 34,
        decreases len - k,
    {
        let b = bs[k];
        if b < 32 || b > 126 || b == 92 {
            proof {
                assert forall|s: Seq<char>, e: int|
                    #[trigger] canonical_text_at(bs@, i as int, e, s) implies false by {
                    lemma_text_premise(bs@, i as int, e, s);
                    if k as int > e - 1 {
                        assert(bs@[e - 1] != 34);
                    }
                }
            }
            return Err(ConversionError::Malformed);
        }
        collected.push(b);
        proof {
            assert(collected@ =~= bs@.subrange(i as int + 1, k as int + 1));
        }
        k += 1;
    }
    if k == len {
        proof {
            assert forall|s: Seq<char>, e: int|
                #[trigger] canonical_text_at(bs@, i as int, e, s) implies false by {
                lemma_text_premise(bs@, i as int, e, s);
                assert(bs@[e - 1] != 34);
            }
        }
        return Err(ConversionError::Malformed);
    }
    let mut t: usize = 0;
    while t < collected.len()
        invariant
            len == bs@.len(),
            i < k < len,
            bs@[i as int] == 34,
            bs@[k as int] == 34,
            collected@ == bs@.subrange(i as int + 1, k as int),
            forall|q: int| (i as int) < q && q < k as int ==> #[trigger] bs@[q] != 34,
            t <= collected@.len(),
            forall|q: int| 0 <= q < t as int ==> 32 <= #[trigger] collected@[q] <= 126
                && collected@[q] != 34 && collected@[q] != 92,
        decreases collected@.len() - t,
    {
        let b = collected[t];
        if b < 32 || b > 126 || b == 34 || b == 92 {
            proof {
                assert forall|s: Seq<char>, e: int|
                    #[trigger] canonical_text_at(bs@, i as int, e, s) implies false by {
                    lemma_text_premise(bs@, i as int, e, s);
                    if k as int > e - 1 {
                        assert(bs@[e - 1] != 34);
                    }
                    assert(k as int == e - 1);
                    assert(collected@[t as int] == bs@[i as int + 1 + t]);
                }
            }
            return Err(ConversionError::Malformed);
        }
        t += 1;
    }
    let s = string_from_ascii(collected);
    let j = k + 1;
    proof {
        assert(seq![34u8] + chars_bytes(s@) + seq![34u8] =~= bs@.subrange(i as int, k as int + 1));
        assert forall|sp: Seq<char>, e: int|
            #[trigger] canonical_text_at(bs@, i as int, e, sp) implies (
        Ok::<(String, usize), ConversionError>((s, j)) matches Ok(p) && p.0@ == sp && p.1
            == e) by {
            lemma_text_premise(bs@, i as int, e, sp);
            if k as int > e - 1 {
                assert(bs@[e - 1] != 34);
            }
            assert(k as int == e - 1);
            assert(s@.len() == sp.len());
            assert forall|q: int| 0 <= q < sp.len() implies s@[q] == sp[q] by {
                assert(chars_bytes(s@)[q] == collected@[q]);
                assert(collected@[q] == bs@[i as int + 1 + q]);
                assert(bs@[i as int + 1 + q] == sp[q] as u8);
                assert(' ' <= sp[q] && sp[q] <= '~');
                assert(' ' <= s@[q] && s@[q] <= '~');
                assert((s@[q] as u8) == (sp[q] as u8));
            }
            assert(s@ =~= sp);
        }
    }
    Ok((s, j))
}

/// What a decimal premise says of the bytes: sign, digit run, value and
/// leading-zero shape.
proof fn lemma_int_premise(bs: Seq<u8>, i: int, e: int, v: int)
    requires
        canonical_int_at(bs, i, e, v),
    ensures
        ({
            let st: int = if v < 0 {
                i + 1
            } else {
                i
            };
            let m: int = if v < 0 {
                -v
            } else {
                v
            };
            &&& st < e
            &&& (v < 0 <==> bs[i] == 45)
            &&& (forall|q: int| st <= q < e ==> is_digit(#[trigger] bs[q]))
            &&& val_of(bs.subrange(st, e)) == m
            &&& 0 <= m <= 9223372036854775808
            &&& (v >= 0 ==> m <= 9223372036854775807)
            &&& (e - st > 1 ==> bs[st] != 48)
            &&& (v < 0 ==> m >= 1)
        }),
{
    let st: int = if v < 0 {
        i + 1
    } else {
        i
    };
    let m: int = if v < 0 {
        -v
    } else {
        v
    };
    lemma_render_nat_shape(m);
    lemma_render_nat_value(m);
    if v < 0 {
        assert(render_int(v) == seq![45u8] + render_nat(m));
        assert((seq![45u8] + render_nat(m)).len() == 1 + render_nat(m).len());
        assert(e - i == 1 + render_nat(m).len());
        assert(bs.subrange(i, e)[0] == bs[i]);
        assert((seq![45u8] + render_nat(m))[0] == 45);
        assert forall|q: int| 0 <= q < render_nat(m).len() implies render_nat(m)[q]
            == bs.subrange(i + 1, e)[q] by {
            assert(bs.subrange(i + 1, e)[q] == bs[i + 1 + q]);
            assert(bs.subrange(i, e)[q + 1] == bs[i + 1 + q]);
            assert((seq![45u8] + render_nat(m))[q + 1] == render_nat(m)[q]);
        }
        assert(render_nat(m) =~= bs.subrange(i + 1, e));
    } else {
        assert(render_nat(m) == bs.subrange(i, e));
        assert(e - i == render_nat(m).len());
        assert(bs.subrange(i, e)[0] == bs[i]);
        assert(is_digit(bs[i]));
    }
    assert forall|q: int| st <= q < e implies is_digit(#[trigger] bs[q]) by {
        assert(bs[q] == bs.subrange(st, e)[q - st]);
        assert(is_digit(render_nat(m)[q - st]));
    }
    if e - st > 1 {
        assert(render_nat(m).len() >= 2);
        assert(m >= 10);
        assert(bs[st] == render_nat(m)[0]);
    }
}

fn parse_number(bs: &Vec<u8>, i: usize) -> (r: Result<(TreeValue, usize), ConversionError>)
    requires
        i < bs@.len(),
    ensures
        match r {
            Ok((v, j)) => i < j <= bs@.len() && wf(v@) && representable(v@) && render_node(v@)
                == bs@.subrange(i as int, j as int),
            Err(_) => true,
        },
        forall|v: int, e: int|
            #[trigger] canonical_int_at(bs@, i as int, e, v) ==> (r matches Ok(p) && p.0@
                == Node::Int(v) && p.1 == e),
{
    let len = bs.len();
    let neg = bs[i] == 45;
    let start: usize = if neg {
        i + 1
    } else {
        i
    };
    let mut acc: u64 = 0;
    let mut k: usize = start;
    while k < len && 48 <= bs[k] && bs[k] <= 57
        invariant
            len == bs@.len(),
            i <= start <= k <= len,
            start <= i + 1,
            neg <==> bs@[i as int] == 45,
            neg ==> start == i + 1,
            !neg ==> start == i as int,
            forall|q: int| start as int <= q < k as int ==> is_digit(#[trigger] bs@[q]),
            acc as int == val_of(bs@.subrange(start as int, k as int)),
            acc <= 9223372036854775808,
        decreases len - k,
    {
        let d: u64 = (bs[k] - 48) as u64;
        let wide: u128 = (acc as u128) * 10 + (d as u128);
        proof {
            let ds = bs@.subrange(start as int, k as int + 1);
            assert(ds.drop_last() =~= bs@.subrange(start as int, k as int));
            assert(val_of(ds) == acc * 10 + d);
        }
        if wide > 9223372036854775808u128 {
            proof {
                assert forall|v: int, e: int|
                    #[trigger] canonical_int_at(bs@, i as int, e, v) implies false by {
                    lemma_int_premise(bs@, i as int, e, v);
                    let st: int = if v < 0 {
                        i as int + 1
                    } else {
                        i as int
                    };
                    let m: int = if v < 0 {
                        -v
                    } else {
                        v
                    };
                    assert(st == start as int);
                    if k as int >= e {
                        assert(is_digit(bs@[e]));
                    }
                    assert((k as int) < e);
                    let full = bs@.subrange(st, e);
                    assert(bs@.subrange(st, k as int + 1) =~= full.take(k as int + 1 - st));
                    assert(forall|q: int| 0 <= q < full.len() ==> is_digit(#[trigger] full[q]));
                    lemma_val_of_take_mono(full, k as int + 1 - st);
                    assert(wide as int <= m);
                }
            }
            return Err(ConversionError::Malformed);
        }
        acc = wide as u64;
        k += 1;
    }
    if k == start {
        proof {
            assert forall|v: int, e: int|
                #[trigger] canonical_int_at(bs@, i as int, e, v) implies false by {
                lemma_int_premise(bs@, i as int, e, v);
                assert(is_digit(bs@[start as int]));
            }
        }
        return Err(ConversionError::Malformed);
    }
    proof {
        assert forall|v: int, e: int|
            #[trigger] canonical_int_at(bs@, i as int, e, v) implies k as int == e && acc as int
            == (if v < 0 {
            -v
        } else {
            v
        }) by {
            lemma_int_premise(bs@, i as int, e, v);
            if (k as int) < e {
                assert(is_digit(bs@[k as int]));
            }
            if k as int > e {
                assert(is_digit(bs@[e]));
            }
        }
    }
    if k - start > 1 && bs[start] == 48 {
        proof {
            assert forall|v: int, e: int|
                #[trigger] canonical_int_at(bs@, i as int, e, v) implies false by {
                lemma_int_premise(bs@, i as int, e, v);
            }
        }
        return Err(ConversionError::Malformed);
    }
    if neg && acc == 0 {
        proof {
            assert forall|v: int, e: int|
                #[trigger] canonical_int_at(bs@, i as int, e, v) implies false by {
                lemma_int_premise(bs@, i as int, e, v);
            }
        }
        return Err(ConversionError::Malformed);
    }
    if !neg && acc > 9223372036854775807 {
        proof {
            assert forall|v: int, e: int|
                #[trigger] canonical_int_at(bs@, i as int, e, v) implies false by {
                lemma_int_premise(bs@, i as int, e, v);
            }
        }
        return Err(ConversionError::Malformed);
    }
    proof {
        lemma_digits_value(bs@.subrange(start as int, k as int));
    }
    if neg {
        let v = if acc == 9223372036854775808 {
            TreeValue::Int(i64::MIN)
        } else {
            TreeValue::Int(-(acc as i64))
        };
        proof {
            assert(v@ == Node::Int(-(acc as int)));
            assert(render_node(v@) == seq![45u8] + render_nat(acc as int));
            assert(render_node(v@) =~= bs@.subrange(i as int, k as int));
        }
        Ok((v, k))
    } else {
        let v = TreeValue::Int(acc as i64);
        proof {
            assert(render_node(v@) =~= bs@.subrange(i as int, k as int));
        }
        Ok((v, k))
    }
}

/// What a canonical-value premise says of the bytes: the first byte fixes
/// the variant, and each variant's notation decomposes as expected.
proof fn lemma_value_premise(bs: Seq<u8>, i: int, e: int, n: Node)
    requires
        canonical_at(bs, i, e, n),
    ensures
        i < e,
        render_node(n)[0] == bs[i],
        n is Null ==> e == i + 4 && bs[i + 1] == 117 && bs[i + 2] == 108 && bs[i + 3] == 108,
        n == Node::Bool(true) ==> e == i + 4 && bs[i + 1] == 114 && bs[i + 2] == 117 && bs[i + 3]
            == 101,
        n == Node::Bool(false) ==> e == i + 5 && bs[i + 1] == 97 && bs[i + 2] == 108 && bs[i + 3]
            == 115 && bs[i + 4] == 101,
        n is Int ==> canonical_int_at(bs, i, e, n->Int_0),
        n is Text ==> canonical_text_at(bs, i, e, n->Text_0),
        n is Sequence ==> i + 1 < e && ((n->Sequence_0.len() == 0 && e == i + 2 && bs[i + 1] == 93)
            || (n->Sequence_0.len() >= 1 && bs[i + 1] != 93 && canonical_items_at(
            bs,
            i + 1,
            e,
            n->Sequence_0,
        ))),
        n is Mapping ==> i + 1 < e && ((n->Mapping_0.len() == 0 && e == i + 2 && bs[i + 1] == 125)
            || (n->Mapping_0.len() >= 1 && bs[i + 1] == 34 && canonical_entries_at(
            bs,
            i + 1,
            e,
            n->Mapping_0,
        ))),
{
    lemma_render_first(n);
    assert(bs.subrange(i, e)[0] == bs[i]);
    match n {
        Node::Null => {
            assert(bs.subrange(i, e) =~= bs.subrange(i, e));
            assert(bs.subrange(i, e)[1] == bs[i + 1]);
            assert(bs.subrange(i, e)[2] == bs[i + 2]);
            assert(bs.subrange(i, e)[3] == bs[i + 3]);
        },
        Node::Bool(b) => {
            assert(bs.subrange(i, e)[1] == bs[i + 1]);
            assert(bs.subrange(i, e)[2] == bs[i + 2]);
            assert(bs.subrange(i, e)[3] == bs[i + 3]);
            if !b {
                assert(bs.subrange(i, e)[4] == bs[i + 4]);
            }
        },
        Node::Int(_) => {},
        Node::Text(_) => {},
        Node::Sequence(ns) => {
            let w = seq![91u8] + render_items(ns) + seq![93u8];
            assert(w == bs.subrange(i, e));
            assert(w.len() == render_items(ns).len() + 2);
            assert(bs.subrange(i, e)[1] == bs[i + 1]);
            if ns.len() == 0 {
                assert(w[1] == 93);
            } else {
                lemma_render_first(ns[0]);
                assert(render_items(ns)[0] == render_node(ns[0])[0]);
                assert(w[1] == render_items(ns)[0]);
                assert(wf(ns[0]) && representable(ns[0]));
                assert(bs[i + 1] != 93);
                let w2 = render_items(ns) + seq![93u8];
                assert forall|q: int| 0 <= q < w2.len() implies w2[q] == bs.subrange(
                    i + 1,
                    e,
                )[q] by {
                    assert(w[q + 1] == w2[q]);
                    assert(bs.subrange(i, e)[q + 1] == bs[i + 1 + q]);
                    assert(bs.subrange(i + 1, e)[q] == bs[i + 1 + q]);
                }
                assert(w2 =~= bs.subrange(i + 1, e));
                assert forall|k: int| 0 <= k < ns.len() implies wf(#[trigger] ns[k])
                    && representable(ns[k]) by {}
                assert(canonical_items_at(bs, i + 1, e, ns));
            }
        },
        Node::Mapping(ms) => {
            let w = seq![123u8] + render_entries(ms) + seq![125u8];
            assert(w == bs.subrange(i, e));
            assert(w.len() == render_entries(ms).len() + 2);
            assert(bs.subrange(i, e)[1] == bs[i + 1]);
            if ms.len() == 0 {
                assert(w[1] == 125);
            } else {
                let head = seq![34u8] + chars_bytes(ms[0].0) + seq![34u8, 58u8] + render_node(
                    ms[0].1,
                );
                assert(render_entries(ms)[0] == head[0]);
                assert(head[0] == 34);
                assert(w[1] == render_entries(ms)[0]);
                let w2 = render_entries(ms) + seq![125u8];
                assert forall|q: int| 0 <= q < w2.len() implies w2[q] == bs.subrange(
                    i + 1,
                    e,
                )[q] by {
                    assert(w[q + 1] == w2[q]);
                    assert(bs.subrange(i, e)[q + 1] == bs[i + 1 + q]);
                    assert(bs.subrange(i + 1, e)[q] == bs[i + 1 + q]);
                }
                assert(w2 =~= bs.subrange(i + 1, e));
                assert(canonical_entries_at(bs, i + 1, e, ms));
            }
        },
    }
}

/// One element plus its terminator, decomposed from an element-list
/// premise.
proof fn lemma_items_premise(bs: Seq<u8>, i: int, e: int, ns: Seq<Node>)
    requires
        canonical_items_at(bs, i, e, ns),
    ensures
        ({
            let e0 = i + render_node(ns[0]).len();
            &&& i < e0 < e
            &&& canonical_at(bs, i, e0, ns[0])
            &&& (ns.len() == 1 ==> e0 == e - 1 && bs[e0] == 93)
            &&& (ns.len() >= 2 ==> bs[e0] == 44 && canonical_items_at(bs, e0 + 1, e, ns.skip(1)))
        }),
{
    lemma_render_first(ns[0]);
    let r0 = render_node(ns[0]);
    let e0 = i + r0.len();
    let w = render_items(ns) + seq![93u8];
    assert(w == bs.subrange(i, e));
    assert(w.len() == e - i);
    assert(wf(ns[0]) && representable(ns[0]));
    if ns.len() == 1 {
        assert(render_items(ns) == r0);
        assert forall|q: int| 0 <= q < r0.len() implies r0[q] == bs.subrange(i, e0)[q] by {
            assert(w[q] == r0[q]);
            assert(bs.subrange(i, e)[q] == bs[i + q]);
            assert(bs.subrange(i, e0)[q] == bs[i + q]);
        }
        assert(r0 =~= bs.subrange(i, e0));
        assert(bs.subrange(i, e)[e0 - i] == bs[e0]);
        assert(w[e0 - i] == 93);
    } else {
        let rest = render_items(ns.skip(1));
        assert(render_items(ns) == r0 + seq![44u8] + rest);
        assert(ns.skip(1).len() >= 1);
        lemma_render_first(ns.skip(1)[0]);
        assert(rest.len() >= 1);
        assert(w.len() == r0.len() + 1 + rest.len() + 1);
        assert forall|q: int| 0 <= q < r0.len() implies r0[q] == bs.subrange(i, e0)[q] by {
            assert(w[q] == r0[q]);
            assert(bs.subrange(i, e)[q] == bs[i + q]);
            assert(bs.subrange(i, e0)[q] == bs[i + q]);
        }
        assert(r0 =~= bs.subrange(i, e0));
        assert(bs.subrange(i, e)[e0 - i] == bs[e0]);
        assert(w[e0 - i] == 44);
        assert forall|k: int| 0 <= k < ns.skip(1).len() implies wf(#[trigger] ns.skip(1)[k])
            && representable(ns.skip(1)[k]) by {
            assert(ns.skip(1)[k] == ns[k + 1]);
        }
        let w2 = rest + seq![93u8];
        assert forall|q: int| 0 <= q < w2.len() implies w2[q] == bs.subrange(e0 + 1, e)[q] by {
            assert(bs.subrange(e0 + 1, e)[q] == bs[e0 + 1 + q]);
            assert(bs.subrange(i, e)[e0 + 1 - i + q] == bs[e0 + 1 + q]);
            if q < rest.len() {
                assert(w[e0 + 1 - i + q] == rest[q]);
                assert(w2[q] == rest[q]);
            } else {
                assert(w[e0 + 1 - i + q] == 93);
                assert(w2[q] == 93);
            }
        }
        assert(w2 =~= bs.subrange(e0 + 1, e));
        assert(canonical_items_at(bs, e0 + 1, e, ns.skip(1)));
    }
}

/// One entry plus its terminator, decomposed from an entry-list premise.
proof fn lemma_entries_premise(bs: Seq<u8>, i: int, e: int, ms: Seq<(Seq<char>, Node)>)
    requires
        canonical_entries_at(bs, i, e, ms),
    ensures
        ({
            let e1 = i + 2 + ms[0].0.len();
            let e2 = e1 + 1 + render_node(ms[0].1).len();
            &&& i < e1 < e2 < e
            &&& canonical_text_at(bs, i, e1, ms[0].0)
            &&& bs[e1] == 58
            &&& canonical_at(bs, e1 + 1, e2, ms[0].1)
            &&& (ms.len() == 1 ==> e2 == e - 1 && bs[e2] == 125)
            &&& (ms.len() >= 2 ==> bs[e2] == 44 && lex_lt(ms[0].0, ms[1].0)
                && canonical_entries_at(bs, e2 + 1, e, ms.skip(1)))
        }),
{
    let k0 = ms[0].0;
    let v0 = ms[0].1;
    let e1 = i + 2 + k0.len();
    let e2 = e1 + 1 + render_node(v0).len();
    let kw = seq![34u8] + chars_bytes(k0) + seq![34u8];
    let head = seq![34u8] + chars_bytes(k0) + seq![34u8, 58u8] + render_node(v0);
    assert(head.len() == k0.len() + 3 + render_node(v0).len());
    let w = render_entries(ms) + seq![125u8];
    assert(w == bs.subrange(i, e));
    assert(w.len() == e - i);
    lemma_render_first(v0);
    assert(text_ok(k0) && wf(v0) && representable(v0));
    if ms.len() == 1 {
        assert(render_entries(ms) == head);
    } else {
        assert(render_entries(ms) == head + seq![44u8] + render_entries(ms.skip(1)));
    }
    assert forall|q: int| 0 <= q < head.len() implies w[q] == head[q] by {
        if ms.len() == 1 {
            assert(w[q] == render_entries(ms)[q]);
        } else {
            assert(w[q] == render_entries(ms)[q]);
            assert(render_entries(ms)[q] == head[q]);
        }
    }
    assert forall|q: int| 0 <= q < kw.len() implies kw[q] == bs.subrange(i, e1)[q] by {
        assert(head[q] == kw[q]);
        assert(w[q] == head[q]);
        assert(bs.subrange(i, e)[q] == bs[i + q]);
        assert(bs.subrange(i, e1)[q] == bs[i + q]);
    }
    assert(kw =~= bs.subrange(i, e1));
    assert(canonical_text_at(bs, i, e1, k0));
    assert(w[e1 - i] == head[e1 - i]);
    assert(head[e1 - i] == 58);
    assert(bs.subrange(i, e)[e1 - i] == bs[e1]);
    assert forall|q: int| 0 <= q < render_node(v0).len() implies render_node(v0)[q]
        == bs.subrange(e1 + 1, e2)[q] by {
        assert(head[e1 + 1 - i + q] == render_node(v0)[q]);
        assert(w[e1 + 1 - i + q] == head[e1 + 1 - i + q]);
        assert(bs.subrange(i, e)[e1 + 1 - i + q] == bs[e1 + 1 + q]);
        assert(bs.subrange(e1 + 1, e2)[q] == bs[e1 + 1 + q]);
    }
    assert(render_node(v0) =~= bs.subrange(e1 + 1, e2));
    assert(bs.subrange(i, e)[e2 - i] == bs[e2]);
    if ms.len() == 1 {
        assert(w[e2 - i] == 125);
        assert(canonical_at(bs, e1 + 1, e2, v0));
    } else {
        assert(w[e2 - i] == 44);
        assert(canonical_at(bs, e1 + 1, e2, v0));
        assert(lex_lt(ms[0].0, ms[1].0));
        assert(ms.skip(1).len() >= 1);
        assert forall|k: int| 0 <= k < ms.skip(1).len() - 1 implies lex_lt(
            (#[trigger] ms.skip(1)[k]).0,
            ms.skip(1)[k + 1].0,
        ) by {
            assert(ms.skip(1)[k] == ms[k + 1]);
            assert(ms.skip(1)[k + 1] == ms[k + 2]);
            assert(lex_lt(ms[k + 1].0, ms[k + 2].0));
        }
        assert forall|k: int| 0 <= k < ms.skip(1).len() implies text_ok(
            (#[trigger] ms.skip(1)[k]).0,
        ) && wf(ms.skip(1)[k].1) && representable(ms.skip(1)[k].1) by {
            assert(ms.skip(1)[k] == ms[k + 1]);
        }
        let rest = render_entries(ms.skip(1));
        let w2 = rest + seq![125u8];
        assert forall|q: int| 0 <= q < w2.len() implies w2[q] == bs.subrange(e2 + 1, e)[q] by {
            assert(bs.subrange(e2 + 1, e)[q] == bs[e2 + 1 + q]);
            assert(bs.subrange(i, e)[e2 + 1 - i + q] == bs[e2 + 1 + q]);
            if q < rest.len() {
                assert(w[e2 + 1 - i + q] == rest[q]);
                assert(w2[q] == rest[q]);
            } else {
                assert(w[e2 + 1 - i + q] == 125);
                assert(w2[q] == 125);
            }
        }
        assert(w2 =~= bs.subrange(e2 + 1, e));
        assert(canonical_entries_at(bs, e2 + 1, e, ms.skip(1)));
    }
}

#[verifier::rlimit(100)]
fn parse_value(bs: &Vec<u8>, i: usize) -> (r: Result<(TreeValue, usize), ConversionError>)
    requires
        i <= bs@.len(),
    ensures
        match r {
            Ok((v, j)) => i < j <= bs@.len() && wf(v@) && representable(v@) && render_node(v@)
                == bs@.subrange(i as int, j as int),
            Err(_) => true,
        },
        forall|n: Node, e: int|
            #[trigger] canonical_at(bs@, i as int, e, n) ==> (r matches Ok(p) && p.0@ == n && p.1
                == e),
    decreases bs@.len() - i, 0int,
{
    let len = bs.len();
    if i == len {
        proof {
            assert forall|n: Node, e: int|
                #[trigger] canonical_at(bs@, i as int, e, n) implies false by {
                lemma_value_premise(bs@, i as int, e, n);
            }
        }
        return Err(ConversionError::Malformed);
    }
    let b = bs[i];
    if b == 110 {
        if len - i >= 4 && bs[i + 1] == 117 && bs[i + 2] == 108 && bs[i + 3] == 108 {
            proof {
                assert(render_node(Node::Null) =~= bs@.subrange(i as int, i as int + 4));
                assert forall|n: Node, e: int|
                    #[trigger] canonical_at(bs@, i as int, e, n) implies n == Node::Null && e == i
                    + 4 by {
                    lemma_value_premise(bs@, i as int, e, n);
                    lemma_render_first(n);
                }
            }
            Ok((TreeValue::Null, i + 4))
        } else {
            proof {
                assert forall|n: Node, e: int|
                    #[trigger] canonical_at(bs@, i as int, e, n) implies false by {
                    lemma_value_premise(bs@, i as int, e, n);
                    lemma_render_first(n);
                    assert(n is Null);
                }
            }
            Err(ConversionError::Malformed)
        }
    } else if b == 116 {
        if len - i >= 4 && bs[i + 1] == 114 && bs[i + 2] == 117 && bs[i + 3] == 101 {
            proof {
                assert(render_node(Node::Bool(true)) =~= bs@.subrange(i as int, i as int + 4));
                assert forall|n: Node, e: int|
                    #[trigger] canonical_at(bs@, i as int, e, n) implies n == Node::Bool(true) && e
                    == i + 4 by {
                    lemma_value_premise(bs@, i as int, e, n);
                    lemma_render_first(n);
                }
            }
            Ok((TreeValue::Bool(true), i + 4))
        } else {
            proof {
                assert forall|n: Node, e: int|
                    #[trigger] canonical_at(bs@, i as int, e, n) implies false by {
                    lemma_value_premise(bs@, i as int, e, n);
                    lemma_render_first(n);
                    assert(n == Node::Bool(true));
                }
            }
            Err(ConversionError::Malformed)
        }
    } else if b == 102 {
        if len - i >= 5 && bs[i + 1] == 97 && bs[i + 2] == 108 && bs[i + 3] == 115 && bs[i + 4]
            == 101 {
            proof {
                assert(render_node(Node::Bool(false)) =~= bs@.subrange(i as int, i as int + 5));
                assert forall|n: Node, e: int|
                    #[trigger] canonical_at(bs@, i as int, e, n) implies n == Node::Bool(false) && e
                    == i + 5 by {
                    lemma_value_premise(bs@, i as int, e, n);
                    lemma_render_first(n);
                }
            }
            Ok((TreeValue::Bool(false), i + 5))
        } else {
            proof {
                assert forall|n: Node, e: int|
                    #[trigger] canonical_at(bs@, i as int, e, n) implies false by {
                    lemma_value_premise(bs@, i as int, e, n);
                    lemma_render_first(n);
                    assert(n == Node::Bool(false));
                }
            }
            Err(ConversionError::Malformed)
        }
    } else if b == 34 {
        match parse_string(bs, i) {
            Ok((s, j)) => {
                let v = TreeValue::Text(s);
                proof {
                    assert(render_node(v@) == bs@.subrange(i as int, j as int));
                    assert forall|n: Node, e: int|
                        #[trigger] canonical_at(bs@, i as int, e, n) implies n == v@ && e
                        == j as int by {
                        lemma_value_premise(bs@, i as int, e, n);
                        lemma_render_first(n);
                        assert(n is Text);
                        assert(canonical_text_at(bs@, i as int, e, n->Text_0));
                        assert(s@ == n->Text_0 && j as int == e);
                        assert(n == Node::Text(n->Text_0));
                    }
                }
                Ok((v, j))
            },
            Err(err) => {
                proof {
                    assert forall|n: Node, e: int|
                        #[trigger] canonical_at(bs@, i as int, e, n) implies false by {
                        lemma_value_premise(bs@, i as int, e, n);
                        lemma_render_first(n);
                        assert(n is Text);
                        assert(canonical_text_at(bs@, i as int, e, n->Text_0));
                    }
                }
                Err(err)
            },
        }
    } else if b == 45 || (48 <= b && b <= 57) {
        let r2 = parse_number(bs, i);
        proof {
            assert forall|n: Node, e: int|
                #[trigger] canonical_at(bs@, i as int, e, n) implies (r2 matches Ok(p) && p.0@ == n
                && p.1 == e) by {
                lemma_value_premise(bs@, i as int, e, n);
                lemma_render_first(n);
                assert(n is Int);
                assert(canonical_int_at(bs@, i as int, e, n->Int_0));
                assert(n == Node::Int(n->Int_0));
            }
        }
        r2
    } else if b == 91 {
        if i + 1 < len && bs[i + 1] == 93 {
            let v = TreeValue::Sequence(Vec::new());
            proof {
                lemma_nodes_of(Seq::<TreeValue>::empty());
                assert(v@ == Node::Sequence(nodes_of(Seq::<TreeValue>::empty())));
                assert(nodes_of(Seq::<TreeValue>::empty()) =~= Seq::<Node>::empty());
                assert(render_node(v@) =~= bs@.subrange(i as int, i as int + 2));
                assert forall|n: Node, e: int|
                    #[trigger] canonical_at(bs@, i as int, e, n) implies n == v@ && e == i + 2 by {
                    lemma_value_premise(bs@, i as int, e, n);
                    lemma_render_first(n);
                    assert(n is Sequence);
                    assert(n->Sequence_0.len() == 0);
                    assert(n->Sequence_0 =~= Seq::<Node>::empty());
                    assert(n == Node::Sequence(n->Sequence_0));
                }
            }
            Ok((v, i + 2))
        } else {
            match parse_items(bs, i + 1) {
                Ok((vs, j)) => {
                    let ghost vs0 = vs@;
                    let ghost ns = nodes_of(vs@);
                    let v = TreeValue::Sequence(vs);
                    proof {
                        lemma_nodes_of(vs0);
                        assert(v@ == Node::Sequence(ns));
                        assert forall|k: int| 0 <= k < ns.len() implies wf(#[trigger] ns[k])
                            && representable(ns[k]) by {
                            assert(ns[k] == nodes_of(vs0)[k]);
                        }
                        assert(wf(v@));
                        assert(representable(v@));
                        assert(render_node(v@) == seq![91u8] + render_items(ns) + seq![93u8]);
                        assert(seq![91u8] + render_items(ns) + seq![93u8] =~= seq![91u8] + (
                        render_items(ns) + seq![93u8]));
                        assert(seq![91u8] + bs@.subrange(i as int + 1, j as int) =~= bs@.subrange(
                            i as int,
                            j as int,
                        ));
                        assert(render_node(v@) == bs@.subrange(i as int, j as int));
                        assert forall|n: Node, e: int|
                            #[trigger] canonical_at(bs@, i as int, e, n) implies n == v@ && e
                            == j as int by {
                            lemma_value_premise(bs@, i as int, e, n);
                            lemma_render_first(n);
                            assert(n is Sequence);
                            assert(n->Sequence_0.len() >= 1);
                            assert(canonical_items_at(bs@, i as int + 1, e, n->Sequence_0));
                            assert(ns == n->Sequence_0 && j as int == e);
                            assert(n == Node::Sequence(n->Sequence_0));
                        }
                    }
                    Ok((v, j))
                },
                Err(err) => {
                    proof {
                        assert forall|n: Node, e: int|
                            #[trigger] canonical_at(bs@, i as int, e, n) implies false by {
                            lemma_value_premise(bs@, i as int, e, n);
                            lemma_render_first(n);
                            assert(n is Sequence);
                            assert(n->Sequence_0.len() >= 1);
                            assert(canonical_items_at(bs@, i as int + 1, e, n->Sequence_0));
                        }
                    }
                    Err(err)
                },
            }
        }
    } else if b == 123 {
        if i + 1 < len && bs[i + 1] == 125 {
            let v = TreeValue::Mapping(Vec::new());
            proof {
                lemma_entries_of(Seq::<(String, TreeValue)>::empty());
                assert(v@ == Node::Mapping(entries_of(Seq::<(String, TreeValue)>::empty())));
                assert(entries_of(Seq::<(String, TreeValue)>::empty()) =~= Seq::<
                    (Seq<char>, Node),
                >::empty());
                assert(render_node(v@) =~= bs@.subrange(i as int, i as int + 2));
                assert forall|n: Node, e: int|
                    #[trigger] canonical_at(bs@, i as int, e, n) implies n == v@ && e == i + 2 by {
                    lemma_value_premise(bs@, i as int, e, n);
                    lemma_render_first(n);
                    assert(n is Mapping);
                    assert(n->Mapping_0.len() == 0);
                    assert(n->Mapping_0 =~= Seq::<(Seq<char>, Node)>::empty());
                    assert(n == Node::Mapping(n->Mapping_0));
                }
            }
            Ok((v, i + 2))
        } else {
            match parse_entries(bs, i + 1) {
                Ok((es, j)) => {
                    let ghost es0 = es@;
                    let ghost em = entries_of(es@);
                    let v = TreeValue::Mapping(es);
                    proof {
                        lemma_entries_of(es0);
                        assert(v@ == Node::Mapping(em));
                        assert forall|k: int| 0 <= k < em.len() implies text_ok(
                            (#[trigger] em[k]).0,
                        ) && wf(em[k].1) && representable(em[k].1) by {
                            assert(em[k] == entries_of(es0)[k]);
                        }
                        assert(wf(v@));
                        assert(representable(v@));
                        assert(render_node(v@) == seq![123u8] + render_entries(em) + seq![125u8]);
                        assert(seq![123u8] + render_entries(em) + seq![125u8] =~= seq![123u8] + (
                        render_entries(em) + seq![125u8]));
                        assert(seq![123u8] + bs@.subrange(i as int + 1, j as int) =~= bs@.subrange(
                            i as int,
                            j as int,
                        ));
                        assert(render_node(v@) == bs@.subrange(i as int, j as int));
                        assert forall|n: Node, e: int|
                            #[trigger] canonical_at(bs@, i as int, e, n) implies n == v@ && e
                            == j as int by {
                            lemma_value_premise(bs@, i as int, e, n);
                            lemma_render_first(n);
                            assert(n is Mapping);
                            assert(n->Mapping_0.len() >= 1);
                            assert(canonical_entries_at(bs@, i as int + 1, e, n->Mapping_0));
                            assert(em == n->Mapping_0 && j as int == e);
                            assert(n == Node::Mapping(n->Mapping_0));
                        }
                    }
                    Ok((v, j))
                },
                Err(err) => {
                    proof {
                        assert forall|n: Node, e: int|
                            #[trigger] canonical_at(bs@, i as int, e, n) implies false by {
                            lemma_value_premise(bs@, i as int, e, n);
                            lemma_render_first(n);
                            assert(n is Mapping);
                            assert(n->Mapping_0.len() >= 1);
                            assert(canonical_entries_at(bs@, i as int + 1, e, n->Mapping_0));
                        }
                    }
                    Err(err)
                },
            }
        }
    } else {
        proof {
            assert forall|n: Node, e: int|
                #[trigger] canonical_at(bs@, i as int, e, n) implies false by {
                lemma_value_premise(bs@, i as int, e, n);
                lemma_render_first(n);
            }
        }
        Err(ConversionError::Malformed)
    }
}

fn parse_items(bs: &Vec<u8>, i: usize) -> (r: Result<(Vec<TreeValue>, usize), ConversionError>)
    requires
        i <= bs@.len(),
    ensures
        match r {
            Ok((vs, j)) => i < j <= bs@.len() && vs@.len() >= 1 && (forall|k: int|
                0 <= k < vs@.len() ==> wf(#[trigger] nodes_of(vs@)[k]) && representable(
                    nodes_of(vs@)[k],
                )) && render_items(nodes_of(vs@)) + seq![93u8] == bs@.subrange(i as int, j as int),
            Err(_) => true,
        },
        forall|ns: Seq<Node>, e: int|
            #[trigger] canonical_items_at(bs@, i as int, e, ns) ==> (r matches Ok(p) && nodes_of(
                p.0@,
            ) == ns && p.1 == e),
    decreases bs@.len() - i, 1int,
{
    let len = bs.len();
    let r1 = parse_value(bs, i);
    let ghost g1 = r1;
    let (v, j1) = match r1 {
        Ok(p) => p,
        Err(err) => {
            proof {
                assert forall|ns: Seq<Node>, e: int|
                    #[trigger] canonical_items_at(bs@, i as int, e, ns) implies false by {
                    lemma_items_premise(bs@, i as int, e, ns);
                    assert(canonical_at(bs@, i as int, i + render_node(ns[0]).len(), ns[0]));
                }
            }
            return Err(err);
        },
    };
    proof {
        assert(g1 == Ok::<(TreeValue, usize), ConversionError>((v, j1)));
        assert forall|ns: Seq<Node>, e: int|
            #[trigger] canonical_items_at(bs@, i as int, e, ns) implies v@ == ns[0] && j1 == i
            + render_node(ns[0]).len() by {
            lemma_items_premise(bs@, i as int, e, ns);
            assert(canonical_at(bs@, i as int, i + render_node(ns[0]).len(), ns[0]));
        }
    }
    if j1 < len && bs[j1] == 44 {
        let r2 = parse_items(bs, j1 + 1);
        let ghost g2 = r2;
        let (mut vs, j2) = match r2 {
            Ok(p) => p,
            Err(err) => {
                proof {
                    assert forall|ns: Seq<Node>, e: int|
                        #[trigger] canonical_items_at(bs@, i as int, e, ns) implies false by {
                        lemma_items_premise(bs@, i as int, e, ns);
                        let e0 = i + render_node(ns[0]).len();
                        assert(j1 == e0);
                        assert(ns.len() >= 2);
                        assert(canonical_items_at(bs@, e0 + 1, e, ns.skip(1)));
                    }
                }
                return Err(err);
            },
        };
        proof {
            assert(g2 == Ok::<(Vec<TreeValue>, usize), ConversionError>((vs, j2)));
        }
        let ghost tailv = vs@;
        let ghost vv = v@;
        vs.insert(0, v);
        proof {
            assert(vs@ =~= seq![vs@[0]] + tailv);
            crate::value::lemma_nodes_of_split(seq![vs@[0]], tailv);
            lemma_nodes_of(seq![vs@[0]]);
            lemma_nodes_of(tailv);
            assert(nodes_of(seq![vs@[0]]) =~= seq![vv]);
            assert(nodes_of(vs@) == seq![vv] + nodes_of(tailv));
            assert(nodes_of(vs@).len() == 1 + tailv.len());
            assert((seq![vv] + nodes_of(tailv)).skip(1) =~= nodes_of(tailv));
            assert(nodes_of(vs@)[0] == vv);
            assert(render_items(nodes_of(vs@)) == render_node(vv) + seq![44u8] + render_items(
                nodes_of(tailv),
            ));
            assert forall|k: int| 0 <= k < vs@.len() implies wf(#[trigger] nodes_of(vs@)[k])
                && representable(nodes_of(vs@)[k]) by {
                if k > 0 {
                    assert(nodes_of(vs@)[k] == nodes_of(tailv)[k - 1]);
                }
            }
            assert(render_items(nodes_of(vs@)) + seq![93u8] =~= render_node(vv) + seq![44u8] + (
            render_items(nodes_of(tailv)) + seq![93u8]));
            assert(render_node(vv) + seq![44u8] + bs@.subrange(j1 as int + 1, j2 as int)
                =~= bs@.subrange(i as int, j2 as int));
            assert(render_items(nodes_of(vs@)) + seq![93u8] == bs@.subrange(i as int, j2 as int));
            assert forall|ns: Seq<Node>, e: int|
                #[trigger] canonical_items_at(bs@, i as int, e, ns) implies nodes_of(vs@) == ns
                && j2 == e by {
                lemma_items_premise(bs@, i as int, e, ns);
                let e0 = i + render_node(ns[0]).len();
                assert(vv == ns[0] && j1 == e0);
                assert(ns.len() >= 2);
                assert(canonical_items_at(bs@, j1 as int + 1, e, ns.skip(1)));
                assert(nodes_of(tailv) == ns.skip(1) && j2 == e);
                assert(nodes_of(vs@) == seq![vv] + nodes_of(tailv));
                assert(seq![ns[0]] + ns.skip(1) =~= ns);
            }
        }
        Ok((vs, j2))
    } else if j1 < len && bs[j1] == 93 {
        let mut vs: Vec<TreeValue> = Vec::new();
        vs.push(v);
        proof {
            lemma_nodes_of(vs@);
            assert(nodes_of(vs@) =~= seq![v@]);
            assert(render_items(nodes_of(vs@)) + seq![93u8] =~= bs@.subrange(
                i as int,
                j1 as int + 1,
            ));
            assert forall|ns: Seq<Node>, e: int|
                #[trigger] canonical_items_at(bs@, i as int, e, ns) implies nodes_of(vs@) == ns
                && j1 + 1 == e by {
                lemma_items_premise(bs@, i as int, e, ns);
                let e0 = i + render_node(ns[0]).len();
                assert(v@ == ns[0] && j1 == e0);
                assert(ns.len() == 1);
                assert(nodes_of(vs@) =~= seq![ns[0]]);
                assert(seq![ns[0]] =~= ns);
            }
        }
        Ok((vs, j1 + 1))
    } else {
        proof {
            assert forall|ns: Seq<Node>, e: int|
                #[trigger] canonical_items_at(bs@, i as int, e, ns) implies false by {
                lemma_items_premise(bs@, i as int, e, ns);
                let e0 = i + render_node(ns[0]).len();
                assert(v@ == ns[0] && j1 == e0);
            }
        }
        Err(ConversionError::Malformed)
    }
}

#[verifier::rlimit(100)]
fn parse_entries(bs: &Vec<u8>, i: usize) -> (r: Result<
    (Vec<(String, TreeValue)>, usize),
    ConversionError,
>)
    requires
        i <= bs@.len(),
    ensures
        match r {
            Ok((es, j)) => i < j <= bs@.len() && es@.len() >= 1 && keys_sorted(entries_of(es@)) && (
            forall|k: int|
                0 <= k < es@.len() ==> text_ok((#[trigger] entries_of(es@)[k]).0) && wf(
                    entries_of(es@)[k].1,
                ) && representable(entries_of(es@)[k].1)) && render_entries(entries_of(es@))
                + seq![125u8] == bs@.subrange(i as int, j as int),
            Err(_) => true,
        },
        forall|ms: Seq<(Seq<char>, Node)>, e: int|
            #[trigger] canonical_entries_at(bs@, i as int, e, ms) ==> (r matches Ok(p)
                && entries_of(p.0@) == ms && p.1 == e),
    decreases bs@.len() - i, 1int,
{
    let len = bs.len();
    if i >= len || bs[i] != 34 {
        proof {
            assert forall|ms: Seq<(Seq<char>, Node)>, e: int|
                #[trigger] canonical_entries_at(bs@, i as int, e, ms) implies false by {
                lemma_entries_premise(bs@, i as int, e, ms);
                lemma_text_premise(bs@, i as int, i + 2 + ms[0].0.len(), ms[0].0);
            }
        }
        return Err(ConversionError::Malformed);
    }
    let r1 = parse_string(bs, i);
    let ghost g1 = r1;
    let (key, j1) = match r1 {
        Ok(p) => p,
        Err(err) => {
            proof {
                assert forall|ms: Seq<(Seq<char>, Node)>, e: int|
                    #[trigger] canonical_entries_at(bs@, i as int, e, ms) implies false by {
                    lemma_entries_premise(bs@, i as int, e, ms);
                    assert(canonical_text_at(bs@, i as int, i + 2 + ms[0].0.len(), ms[0].0));
                }
            }
            return Err(err);
        },
    };
    proof {
        assert(g1 == Ok::<(String, usize), ConversionError>((key, j1)));
        assert forall|ms: Seq<(Seq<char>, Node)>, e: int|
            #[trigger] canonical_entries_at(bs@, i as int, e, ms) implies key@ == ms[0].0
            && j1 == i + 2 + ms[0].0.len() by {
            lemma_entries_premise(bs@, i as int, e, ms);
            assert(canonical_text_at(bs@, i as int, i + 2 + ms[0].0.len(), ms[0].0));
        }
    }
    if j1 >= len || bs[j1] != 58 {
        proof {
            assert forall|ms: Seq<(Seq<char>, Node)>, e: int|
                #[trigger] canonical_entries_at(bs@, i as int, e, ms) implies false by {
                lemma_entries_premise(bs@, i as int, e, ms);
            }
        }
        return Err(ConversionError::Malformed);
    }
    let r2 = parse_value(bs, j1 + 1);
    let ghost g2 = r2;
    let (v, j2) = match r2 {
        Ok(p) => p,
        Err(err) => {
            proof {
                assert forall|ms: Seq<(Seq<char>, Node)>, e: int|
                    #[trigger] canonical_entries_at(bs@, i as int, e, ms) implies false by {
                    lemma_entries_premise(bs@, i as int, e, ms);
                    let e1 = i + 2 + ms[0].0.len();
                    assert(j1 == e1);
                    assert(canonical_at(bs@, e1 + 1, e1 + 1 + render_node(ms[0].1).len(), ms[0].1));
                }
            }
            return Err(err);
        },
    };
    proof {
        assert(g2 == Ok::<(TreeValue, usize), ConversionError>((v, j2)));
        assert forall|ms: Seq<(Seq<char>, Node)>, e: int|
            #[trigger] canonical_entries_at(bs@, i as int, e, ms) implies v@ == ms[0].1
            && j2 == j1 + 1 + render_node(ms[0].1).len() by {
            lemma_entries_premise(bs@, i as int, e, ms);
            let e1 = i + 2 + ms[0].0.len();
            assert(j1 == e1);
            assert(canonical_at(bs@, e1 + 1, e1 + 1 + render_node(ms[0].1).len(), ms[0].1));
        }
    }
    if j2 < len && bs[j2] == 44 {
        let r3 = parse_entries(bs, j2 + 1);
        let ghost g3 = r3;
        let (mut es, j3) = match r3 {
            Ok(p) => p,
            Err(err) => {
                proof {
                    assert forall|ms: Seq<(Seq<char>, Node)>, e: int|
                        #[trigger] canonical_entries_at(bs@, i as int, e, ms) implies false by {
                        lemma_entries_premise(bs@, i as int, e, ms);
                        let e1 = i + 2 + ms[0].0.len();
                        let e2 = e1 + 1 + render_node(ms[0].1).len();
                        assert(j2 == e2);
                        assert(ms.len() >= 2);
                        assert(canonical_entries_at(bs@, e2 + 1, e, ms.skip(1)));
                    }
                }
                return Err(err);
            },
        };
        proof {
            assert(g3 == Ok::<(Vec<(String, TreeValue)>, usize), ConversionError>((es, j3)));
            lemma_entries_of(es@);
        }
        if !str_lex_lt(key.as_str(), es[0].0.as_str()) {
            proof {
                assert forall|ms: Seq<(Seq<char>, Node)>, e: int|
                    #[trigger] canonical_entries_at(bs@, i as int, e, ms) implies false by {
                    lemma_entries_premise(bs@, i as int, e, ms);
                    let e1 = i + 2 + ms[0].0.len();
                    let e2 = e1 + 1 + render_node(ms[0].1).len();
                    assert(j2 == e2);
                    assert(ms.len() >= 2);
                    assert(canonical_entries_at(bs@, e2 + 1, e, ms.skip(1)));
                    assert(entries_of(es@) == ms.skip(1));
                    assert(entries_of(es@)[0] == (es@[0].0@, node_of(es@[0].1)));
                    assert(es@[0].0@ == ms.skip(1)[0].0);
                    assert(ms.skip(1)[0] == ms[1]);
                    assert(lex_lt(key@, es@[0].0@));
                }
            }
            return Err(ConversionError::Malformed);
        }
        let ghost tailv = es@;
        let ghost kv = key@;
        let ghost vv = v@;
        es.insert(0, (key, v));
        proof {
            let e0 = es@[0];
            assert(e0.0@ == kv && e0.1@ == vv);
            assert(es@ =~= seq![e0] + tailv);
            crate::value::lemma_entries_of_split(seq![e0], tailv);
            lemma_entries_of(seq![e0]);
            lemma_entries_of(tailv);
            assert(entries_of(seq![e0]) =~= seq![(kv, vv)]);
            assert(entries_of(es@) == seq![(kv, vv)] + entries_of(tailv));
            assert(entries_of(es@).len() == 1 + tailv.len());
            assert((seq![(kv, vv)] + entries_of(tailv)).skip(1) =~= entries_of(tailv));
            assert(entries_of(es@)[0] == (kv, vv));
            assert(render_entries(entries_of(es@)) == (seq![34u8] + chars_bytes(kv) + seq![
                34u8,
                58u8,
            ] + render_node(vv)) + seq![44u8] + render_entries(entries_of(tailv)));
            assert forall|k: int| 0 <= k < es@.len() implies text_ok(
                (#[trigger] entries_of(es@)[k]).0,
            ) && wf(entries_of(es@)[k].1) && representable(entries_of(es@)[k].1) by {
                if k > 0 {
                    assert(entries_of(es@)[k] == entries_of(tailv)[k - 1]);
                }
            }
            assert forall|k: int| 0 <= k < entries_of(es@).len() - 1 implies lex_lt(
                (#[trigger] entries_of(es@)[k]).0,
                entries_of(es@)[k + 1].0,
            ) by {
                if k == 0 {
                    assert(entries_of(es@)[1] == entries_of(tailv)[0]);
                    assert(entries_of(tailv)[0].0 == tailv[0].0@);
                } else {
                    assert(entries_of(es@)[k] == entries_of(tailv)[k - 1]);
                    assert(entries_of(es@)[k + 1] == entries_of(tailv)[k]);
                }
            }
            assert(seq![34u8] + chars_bytes(kv) + seq![34u8, 58u8] + render_node(vv) =~= (seq![34u8]
                + chars_bytes(kv) + seq![34u8]) + seq![58u8] + render_node(vv));
            assert((seq![34u8] + chars_bytes(kv) + seq![34u8]) + seq![58u8] + render_node(vv)
                =~= bs@.subrange(i as int, j2 as int));
            assert(render_entries(entries_of(es@)) + seq![125u8] =~= bs@.subrange(
                i as int,
                j2 as int,
            ) + seq![44u8] + (render_entries(entries_of(tailv)) + seq![125u8]));
            assert(bs@.subrange(i as int, j2 as int) + seq![44u8] + bs@.subrange(
                j2 as int + 1,
                j3 as int,
            ) =~= bs@.subrange(i as int, j3 as int));
            assert(render_entries(entries_of(es@)) + seq![125u8] == bs@.subrange(
                i as int,
                j3 as int,
            ));
            assert forall|ms: Seq<(Seq<char>, Node)>, e: int|
                #[trigger] canonical_entries_at(bs@, i as int, e, ms) implies entries_of(es@) == ms
                && j3 == e by {
                lemma_entries_premise(bs@, i as int, e, ms);
                let e1 = i + 2 + ms[0].0.len();
                let e2 = e1 + 1 + render_node(ms[0].1).len();
                assert(kv == ms[0].0 && vv == ms[0].1 && j2 == e2);
                assert(ms.len() >= 2);
                assert(canonical_entries_at(bs@, e2 + 1, e, ms.skip(1)));
                assert(entries_of(tailv) == ms.skip(1) && j3 == e);
                assert(entries_of(es@) == seq![(kv, vv)] + entries_of(tailv));
                assert((ms[0].0, ms[0].1) == ms[0]);
                assert(seq![ms[0]] + ms.skip(1) =~= ms);
            }
        }
        Ok((es, j3))
    } else if j2 < len && bs[j2] == 125 {
        let ghost kv = key@;
        let ghost vv = v@;
        let mut es: Vec<(String, TreeValue)> = Vec::new();
        es.push((key, v));
        proof {
            lemma_entries_of(es@);
            assert(entries_of(es@) =~= seq![(kv, vv)]);
            assert(entries_of(es@)[0] == (kv, vv));
            assert(render_entries(entries_of(es@)) == seq![34u8] + chars_bytes(kv) + seq![
                34u8,
                58u8,
            ] + render_node(vv));
            assert(seq![34u8] + chars_bytes(kv) + seq![34u8, 58u8] + render_node(vv) =~= (seq![34u8]
                + chars_bytes(kv) + seq![34u8]) + seq![58u8] + render_node(vv));
            assert((seq![34u8] + chars_bytes(kv) + seq![34u8]) + seq![58u8] + render_node(vv)
                =~= bs@.subrange(i as int, j2 as int));
            assert(bs@.subrange(i as int, j2 as int) + seq![125u8] =~= bs@.subrange(
                i as int,
                j2 as int + 1,
            ));
            assert(render_entries(entries_of(es@)) + seq![125u8] == bs@.subrange(
                i as int,
                j2 as int + 1,
            ));
            assert forall|ms: Seq<(Seq<char>, Node)>, e: int|
                #[trigger] canonical_entries_at(bs@, i as int, e, ms) implies entries_of(es@) == ms
                && j2 + 1 == e by {
                lemma_entries_premise(bs@, i as int, e, ms);
                let e1 = i + 2 + ms[0].0.len();
                let e2 = e1 + 1 + render_node(ms[0].1).len();
                assert(kv == ms[0].0 && vv == ms[0].1 && j2 == e2);
                assert(ms.len() == 1);
                assert((ms[0].0, ms[0].1) == ms[0]);
                assert(entries_of(es@) =~= seq![ms[0]]);
                assert(seq![ms[0]] =~= ms);
            }
        }
        Ok((es, j2 + 1))
    } else {
        proof {
            assert forall|ms: Seq<(Seq<char>, Node)>, e: int|
                #[trigger] canonical_entries_at(bs@, i as int, e, ms) implies false by {
                lemma_entries_premise(bs@, i as int, e, ms);
                let e1 = i + 2 + ms[0].0.len();
                let e2 = e1 + 1 + render_node(ms[0].1).len();
                assert(j2 == e2);
            }
        }
        Err(ConversionError::Malformed)
    }
}

/// Parse canonical bytes back into a tree. On success the result is
/// well-formed, representable, and renders back to exactly the input; and
/// whenever the input is the canonical notation of a well-formed
/// representable tree, parsing succeeds and returns exactly that tree —
/// together with [`render`]'s contract this is the round-trip law.
pub fn parse(bytes: &Vec<u8>) -> (r: Result<TreeValue, ConversionError>)
    ensures
        match r {
            Ok(v) => wf(v@) && representable(v@) && render_node(v@) == bytes@,
            Err(_) => true,
        },
        forall|n: Node|
            wf(n) && representable(n) && #[trigger] render_node(n) == bytes@ ==> (r matches Ok(v)
                && v@ == n),
{
    proof {
        assert(bytes@.subrange(0, bytes@.len() as int) =~= bytes@);
        assert forall|n: Node|
            wf(n) && representable(n) && #[trigger] render_node(n) == bytes@ implies canonical_at(
            bytes@,
            0,
            bytes@.len() as int,
            n,
        ) by {}
    }
    let r1 = parse_value(bytes, 0);
    let ghost g1 = r1;
    match r1 {
        Ok((v, j)) => {
            proof {
                assert(g1 == Ok::<(TreeValue, usize), ConversionError>((v, j)));
            }
            if j == bytes.len() {
                Ok(v)
            } else {
                proof {
                    assert forall|n: Node|
                        wf(n) && representable(n) && #[trigger] render_node(n)
                            == bytes@ implies false by {
                        assert(canonical_at(bytes@, 0, bytes@.len() as int, n));
                    }
                }
                Err(ConversionError::Malformed)
            }
        },
        Err(err) => {
            proof {
                assert forall|n: Node|
                    wf(n) && representable(n) && #[trigger] render_node(n)
                        == bytes@ implies false by {
                    assert(canonical_at(bytes@, 0, bytes@.len() as int, n));
                }
            }
            Err(err)
        },
    }
}

/// The escaped bytes of one key inside a pointer: `~` and `/` are written
/// `~0` and `~1`, every other character as its own byte.
pub open spec fn escape_key(k: Seq<char>) -> Seq<u8>
    decreases k.len(),
{
    if k.len() == 0 {
        Seq::empty()
    } else {
        (if k[0] == '~' {
            seq![126u8, 48u8]
        } else if k[0] == '/' {
            seq![126u8, 49u8]
        } else {
            seq![k[0] as u8]
        }) + escape_key(k.skip(1))
    }
}

/// The bytes of one pointer segment.
pub open spec fn seg_bytes(s: crate::patch::Seg) -> Seq<u8> {
    match s {
        crate::patch::Seg::Key(k) => escape_key(k),
        crate::patch::Seg::Index(j) => render_nat(j),
    }
}

/// The pointer-style notation of a path: `/` before each segment.
pub open spec fn pointer_bytes(p: Seq<crate::patch::Seg>) -> Seq<u8>
    decreases p.len(),
{
    if p.len() == 0 {
        Seq::empty()
    } else {
        seq![47u8] + seg_bytes(p[0]) + pointer_bytes(p.skip(1))
    }
}

/// Keys of a path lie in the representable text subset.
pub open spec fn path_ok(p: Seq<crate::patch::Seg>) -> bool {
    forall|k: int|
        0 <= k < p.len() ==> ((#[trigger] p[k]) matches crate::patch::Seg::Key(s) ==> text_ok(s))
}

fn escape_key_from(st: &str, ci: usize, n: usize, out: &mut Vec<u8>) -> (r: bool)
    requires
        n == st@.len(),
        ci <= n,
        forall|q: int| 0 <= q < old(out)@.len() ==> 32 <= #[trigger] old(out)@[q] <= 126
            && old(out)@[q] != 34 && old(out)@[q] != 92,
    ensures
        r == text_ok(st@.skip(ci as int)),
        r ==> final(out)@ == old(out)@ + escape_key(st@.skip(ci as int)),
        r ==> forall|q: int| 0 <= q < final(out)@.len() ==> 32 <= #[trigger] final(out)@[q] <= 126
            && final(out)@[q] != 34 && final(out)@[q] != 92,
    decreases n - ci,
{
    proof {
        if ci < n {
            assert(st@.skip(ci as int)[0] == st@[ci as int]);
            assert(st@.skip(ci as int).skip(1) =~= st@.skip(ci as int + 1));
        }
    }
    if ci == n {
        proof {
            assert(out@ =~= out@ + escape_key(st@.skip(ci as int)));
        }
        return true;
    }
    let c = st.get_char(ci);
    if c < ' ' || c > '~' || c == '"' || c == '\\' {
        proof {
            assert(st@.skip(ci as int)[0] == c);
        }
        return false;
    }
    let ghost before = out@;
    if c == '~' {
        out.push(126);
        out.push(48);
    } else if c == '/' {
        out.push(126);
        out.push(49);
    } else {
        out.push(c as u8);
    }
    let r = escape_key_from(st, ci + 1, n, out);
    proof {
        let suffix = st@.skip(ci as int);
        let rest = st@.skip(ci as int + 1);
        assert(suffix[0] == c);
        if r {
            assert forall|q: int| 0 <= q < suffix.len() implies ' ' <= #[trigger] suffix[q]
                && suffix[q] <= '~' && suffix[q] != '"' && suffix[q] != '\\' by {
                if q > 0 {
                    assert(suffix[q] == rest[q - 1]);
                }
            }
            assert(text_ok(suffix));
            assert(out@ =~= before + escape_key(suffix));
        } else {
            if text_ok(suffix) {
                assert forall|q: int| 0 <= q < rest.len() implies ' ' <= #[trigger] rest[q]
                    && rest[q] <= '~' && rest[q] != '"' && rest[q] != '\\' by {
                    assert(rest[q] == suffix[q + 1]);
                }
                assert(text_ok(rest));
                assert(false);
            }
        }
    }
    r
}

fn pointer_of_from(path: &Vec<PathSeg>, idx: usize, out: &mut Vec<u8>) -> (r: bool)
    requires
        idx <= path@.len(),
        forall|q: int| 0 <= q < old(out)@.len() ==> 32 <= #[trigger] old(out)@[q] <= 126
            && old(out)@[q] != 34 && old(out)@[q] != 92,
    ensures
        r == path_ok(segs_of(path@).skip(idx as int)),
        r ==> final(out)@ == old(out)@ + pointer_bytes(segs_of(path@).skip(idx as int)),
        r ==> forall|q: int| 0 <= q < final(out)@.len() ==> 32 <= #[trigger] final(out)@[q] <= 126
            && final(out)@[q] != 34 && final(out)@[q] != 92,
    decreases path@.len() - idx,
{
    proof {
        if idx < path@.len() {
            assert(segs_of(path@).skip(idx as int)[0] == path@[idx as int]@);
            assert(segs_of(path@).skip(idx as int).skip(1) =~= segs_of(path@).skip(idx as int + 1));
        }
    }
    if idx == path.len() {
        proof {
            assert(out@ =~= out@ + pointer_bytes(segs_of(path@).skip(idx as int)));
        }
        return true;
    }
    let ghost before = out@;
    out.push(47);
    match &path[idx] {
        PathSeg::Key(k) => {
            let st = k.as_str();
            let n = st.unicode_len();
            if !escape_key_from(st, 0, n, out) {
                proof {
                    assert(st@.skip(0) =~= st@);
                    assert(segs_of(path@).skip(idx as int)[0] == path@[idx as int]@);
                    assert(!text_ok(k@));
                    assert(!path_ok(segs_of(path@).skip(idx as int)));
                }
                return false;
            }
            proof {
                assert(st@.skip(0) =~= st@);
            }
        },
        PathSeg::Index(j) => {
            proof {
                lemma_render_nat_shape(*j as int);
            }
            let ghost mid = out@;
            render_nat_exec(*j as u64, out);
            proof {
                assert forall|q: int| 0 <= q < out@.len() implies 32 <= #[trigger] out@[q] <= 126
                    && out@[q] != 34 && out@[q] != 92 by {
                    if q >= mid.len() {
                        assert(out@[q] == render_nat(*j as int)[q - mid.len()]);
                        assert(is_digit(render_nat(*j as int)[q - mid.len()]));
                    }
                }
            }
        },
    }
    let r = pointer_of_from(path, idx + 1, out);
    proof {
        let suffix = segs_of(path@).skip(idx as int);
        let rest = segs_of(path@).skip(idx as int + 1);
        assert(suffix[0] == path@[idx as int]@);
        if r {
            assert forall|k: int| 0 <= k < suffix.len() implies ((#[trigger] suffix[k])
                matches crate::patch::Seg::Key(s) ==> text_ok(s)) by {
                if k > 0 {
                    assert(suffix[k] == rest[k - 1]);
                }
            }
            assert(path_ok(suffix));
            assert(out@ =~= before + pointer_bytes(suffix));
        } else {
            if path_ok(suffix) {
                assert forall|k: int| 0 <= k < rest.len() implies ((#[trigger] rest[k])
                    matches crate::patch::Seg::Key(s) ==> text_ok(s)) by {
                    assert(rest[k] == suffix[k + 1]);
                }
                assert(path_ok(rest));
                assert(false);
            }
        }
    }
    r
}

/// The pointer-style text of a path: `/` followed by `/`-separated
/// segments, with `~` and `/` in keys written `~0` and `~1`. Fails exactly
/// when some key lies outside the representable text subset.
pub fn pointer_of(path: &Vec<PathSeg>) -> (r: Result<String, ConversionError>)
    ensures
        match r {
            Ok(s) => path_ok(segs_of(path@)) && chars_bytes(s@) == pointer_bytes(segs_of(path@))
                && text_ok(s@),
            Err(e) => !path_ok(segs_of(path@)) && e == ConversionError::Unrepresentable,
        },
{
    let mut out: Vec<u8> = Vec::new();
    if pointer_of_from(path, 0, &mut out) {
        proof {
            assert(segs_of(path@).skip(0) =~= segs_of(path@));
        }
        let s = string_from_ascii(out);
        Ok(s)
    } else {
        proof {
            assert(segs_of(path@).skip(0) =~= segs_of(path@));
        }
        Err(ConversionError::Unrepresentable)
    }
}

/// Render a tree as canonical bytes; fails, without truncation, on any
/// value outside the representable subset.
pub fn render(v: &TreeValue) -> (r: Result<Vec<u8>, ConversionError>)
    ensures
        match r {
            Ok(bs) => representable(v@) && bs@ == render_node(v@),
            Err(e) => !representable(v@) && e == ConversionError::Unrepresentable,
        },
{
    let mut out: Vec<u8> = Vec::new();
    if render_value_exec(v, &mut out) {
        proof {
            assert(out@ =~= render_node(v@));
        }
        Ok(out)
    } else {
        Err(ConversionError::Unrepresentable)
    }
}

} // verus!
