//! Tree parsing of one MessagePack value, and typed accessors on its nodes.

use vstd::prelude::*;
use vstd::slice::slice_subrange;
use crate::common::{tag_kind, Error, Number, Tag, Type};
use crate::expect::{bytes_equal, find_key, lemma_find_key_none, lemma_find_key_step};
use crate::reader::{
    lemma_discard_progress, tag_array, tag_bin, tag_bool, tag_float_bits, tag_i64, tag_map, tag_real,
    tag_str, tag_u64, Reader, ReaderView,
};

verus! {

/// One parsed node: its tag, where its header and its payload start in the
/// input, and the indices of its children (for a map: key, value, key,
/// value, ...).
pub struct NodeView {
    pub tag: Tag,
    pub start: int,
    pub payload_off: int,
    pub children: Seq<usize>,
}

/// The number of child nodes a tag announces.
pub open spec fn child_count(tag: Tag) -> nat {
    match tag {
        Tag::Array(c) => c as nat,
        Tag::Mapping(c) => 2 * c as nat,
        _ => 0,
    }
}

/// Whether another node may be added under the node limit.
pub open spec fn can_add(nodes: Seq<NodeView>, max_nodes: Option<usize>) -> bool {
    match max_nodes {
        Some(m) => nodes.len() < m,
        None => true,
    }
}

/// Reading the header (and skipping the payload) of the node that starts at
/// `pos`, and adding it, childless, after `nodes`: the position after its
/// payload, the nodes, and how many children it announces.
pub open spec fn node_read(d: Seq<u8>, pos: int, nodes: Seq<NodeView>, max_nodes: Option<usize>) -> Result<
    (int, Seq<NodeView>, nat),
    Error,
> {
    if !can_add(nodes, max_nodes) {
        Err(Error::TooBig)
    } else {
        let r0 = ReaderView { data: d, pos, error: Error::NoError };
        let (r1, t) = r0.tag_step(true);
        match t {
            None => Err(r1.error),
            Some(tag) => {
                let r2 = match tag {
                    Tag::Str(l) => r1.skip(l as int),
                    Tag::Bin(l) => r1.skip(l as int),
                    Tag::Ext { extension_type: _, length: l } => r1.skip(l as int),
                    _ => r1,
                };
                if r2.error != Error::NoError {
                    Err(r2.error)
                } else if child_count(tag) > u32::MAX {
                    Err(Error::Invalid)
                } else {
                    Ok(
                        (
                            r2.pos,
                            nodes.push(NodeView { tag, start: pos, payload_off: r1.pos, children: Seq::empty() }),
                            child_count(tag),
                        ),
                    )
                }
            },
        }
    }
}

/// A node's header, with the check that the input can still hold one byte
/// for each child it announces.
pub open spec fn node_header(d: Seq<u8>, pos: int, nodes: Seq<NodeView>, max_nodes: Option<usize>) -> Result<
    (int, Seq<NodeView>, nat),
    Error,
> {
    match node_read(d, pos, nodes, max_nodes) {
        Err(e) => Err(e),
        Ok((p, n, c)) => if c > 0 && c > d.len() - p {
            Err(Error::Invalid)
        } else {
            Ok((p, n, c))
        },
    }
}

/// Node `k` with one more child, `idx`.
pub open spec fn add_child(nodes: Seq<NodeView>, k: int, idx: int) -> Seq<NodeView> {
    nodes.update(
        k,
        NodeView {
            tag: nodes[k].tag,
            start: nodes[k].start,
            payload_off: nodes[k].payload_off,
            children: nodes[k].children.push(idx as usize),
        },
    )
}

#[verifier::opaque]
/// Parsing `c` more children of node `k`, each a complete value, in order:
/// the position after them and the nodes, in pre-order; or the first error.
pub open spec fn parse_children(
    d: Seq<u8>,
    pos: int,
    nodes: Seq<NodeView>,
    k: int,
    c: nat,
    max_nodes: Option<usize>,
) -> Result<(int, Seq<NodeView>), Error>
    decreases d.len() - pos, c,
{
    if c == 0 {
        Ok((pos, nodes))
    } else {
        match node_header(d, pos, nodes, max_nodes) {
            Err(e) => Err(e),
            Ok((p1, n1, cc)) => if !(pos < p1 <= d.len()) {
                Err(Error::Bug)
            } else {
                let idx = nodes.len() as int;
                match parse_children(d, p1, add_child(n1, k, idx), idx, cc, max_nodes) {
                    Err(e) => Err(e),
                    Ok((p3, n3)) => if !(pos < p3 <= d.len()) {
                        Err(Error::Bug)
                    } else {
                        parse_children(d, p3, n3, k, (c - 1) as nat, max_nodes)
                    },
                }
            },
        }
    }
}

#[verifier::opaque]
/// Parsing one complete value at the start of `d`, its root as node 0.
pub open spec fn parse_root(d: Seq<u8>, max_nodes: Option<usize>) -> Result<(int, Seq<NodeView>), Error> {
    if d.len() == 0 {
        Err(Error::Invalid)
    } else {
        match node_header(d, 0, Seq::empty(), max_nodes) {
            Err(e) => Err(e),
            Ok((p1, n1, cc)) => parse_children(d, p1, n1, 0, cc, max_nodes),
        }
    }
}

#[verifier::opaque]
/// The rest of a parse with open compounds `stack` (innermost last), each
/// with the number of children it still expects.
pub open spec fn parse_pending(
    d: Seq<u8>,
    pos: int,
    nodes: Seq<NodeView>,
    stack: Seq<(usize, u32)>,
    max_nodes: Option<usize>,
) -> Result<(int, Seq<NodeView>), Error>
    decreases stack.len(),
{
    if stack.len() == 0 {
        Ok((pos, nodes))
    } else {
        match parse_children(
            d,
            pos,
            nodes,
            stack.last().0 as int,
            stack.last().1 as nat,
            max_nodes,
        ) {
            Err(e) => Err(e),
            Ok((p, n)) => parse_pending(d, p, n, stack.drop_last(), max_nodes),
        }
    }
}

/// The state of a tree: its input, its nodes, the root, the sticky error and
/// the size of the parsed value.
pub struct TreeView {
    pub data: Seq<u8>,
    pub nodes: Seq<NodeView>,
    pub root: Option<usize>,
    pub error: Error,
    pub size: int,
}

/// The tree that parsing `d` gives: on an error it has no nodes and size 0.
pub open spec fn tree_of(d: Seq<u8>, max_nodes: Option<usize>) -> TreeView {
    match parse_root(d, max_nodes) {
        Ok((end, nodes)) => TreeView { data: d, nodes, root: Some(0), error: Error::NoError, size: end },
        Err(e) => TreeView { data: d, nodes: Seq::empty(), root: None, error: e, size: 0 },
    }
}

proof fn lemma_node_header_progress(d: Seq<u8>, pos: int, nodes: Seq<NodeView>, max_nodes: Option<usize>)
    requires
        0 <= pos <= d.len(),
    ensures
        node_header(d, pos, nodes, max_nodes) matches Ok((p, n, c)) ==> pos < p <= d.len() && n.len()
            == nodes.len() + 1 && (forall|i: int| 0 <= i < nodes.len() ==> n[i] == nodes[i]),
{
}

proof fn lemma_children_progress(
    d: Seq<u8>,
    pos: int,
    nodes: Seq<NodeView>,
    k: int,
    c: nat,
    max_nodes: Option<usize>,
)
    requires
        0 <= pos <= d.len(),
    ensures
        parse_children(d, pos, nodes, k, c, max_nodes) matches Ok((p, n)) ==> pos <= p <= d.len()
            && (c > 0 ==> pos < p),
    decreases d.len() - pos, c,
{
    reveal(parse_children);
    if c > 0 {
        lemma_node_header_progress(d, pos, nodes, max_nodes);
        match node_header(d, pos, nodes, max_nodes) {
            Err(e) => {},
            Ok((p1, n1, cc)) => {
                if pos < p1 <= d.len() {
                    let idx = nodes.len() as int;
                    lemma_children_progress(d, p1, add_child(n1, k, idx), idx, cc, max_nodes);
                    match parse_children(d, p1, add_child(n1, k, idx), idx, cc, max_nodes) {
                        Err(e) => {},
                        Ok((p3, n3)) => {
                            if pos < p3 <= d.len() {
                                lemma_children_progress(d, p3, n3, k, (c - 1) as nat, max_nodes);
                            }
                        },
                    }
                }
            },
        }
    }
}


/// The payload length that a tag announces (none for values without one).
pub open spec fn payload_len(tag: Tag) -> nat {
    match tag {
        Tag::Str(l) => l as nat,
        Tag::Bin(l) => l as nat,
        Tag::Ext { extension_type: _, length } => length as nat,
        _ => 0,
    }
}

/// Node `i` holds as many children as its tag announces, each a later node,
/// and its payload lies within the first `end` bytes of the input.
pub open spec fn node_complete(nodes: Seq<NodeView>, i: int, end: int) -> bool {
    &&& nodes[i].children.len() == child_count(nodes[i].tag)
    &&& forall|j: int|
        0 <= j < nodes[i].children.len() ==> i < #[trigger] nodes[i].children[j] < nodes.len()
    &&& 0 <= nodes[i].payload_off
    &&& nodes[i].payload_off + payload_len(nodes[i].tag) <= end
}

proof fn lemma_header_shape(d: Seq<u8>, pos: int, nodes: Seq<NodeView>, max_nodes: Option<usize>)
    requires
        0 <= pos <= d.len(),
    ensures
        node_header(d, pos, nodes, max_nodes) matches Ok((p, n, c)) ==> {
            &&& pos < p <= d.len()
            &&& n.len() == nodes.len() + 1
            &&& n.drop_last() == nodes
            &&& n.last().children == Seq::<usize>::empty()
            &&& c == child_count(n.last().tag)
            &&& c <= u32::MAX
            &&& 0 <= n.last().payload_off
            &&& n.last().payload_off + payload_len(n.last().tag) == p
        },
{
    match node_read(d, pos, nodes, max_nodes) {
        Err(e) => {},
        Ok((p, n, c)) => {
            assert(n.drop_last() =~= nodes);
        },
    }
}

/// A complete node stays complete when later nodes are added and the input
/// read so far grows.
proof fn lemma_complete_grows(a: Seq<NodeView>, b: Seq<NodeView>, i: int, e: int, e2: int)
    requires
        node_complete(a, i, e),
        0 <= i < a.len() <= b.len(),
        b[i] == a[i],
        e <= e2,
    ensures
        node_complete(b, i, e2),
{
}

/// Parsing `c` more children of node `k`: the nodes before stay as they
/// were, except node `k`, which gets `c` more children, each a new node;
/// and every new node is complete.
proof fn lemma_children_shape(
    d: Seq<u8>,
    pos: int,
    nodes: Seq<NodeView>,
    k: int,
    c: nat,
    max_nodes: Option<usize>,
)
    requires
        0 <= pos <= d.len() <= usize::MAX,
        0 <= k < nodes.len() <= pos,
    ensures
        parse_children(d, pos, nodes, k, c, max_nodes) matches Ok((p, n)) ==> {
            &&& pos <= p <= d.len()
            &&& nodes.len() <= n.len() <= p
            &&& forall|i: int| 0 <= i < nodes.len() && i != k ==> #[trigger] n[i] == nodes[i]
            &&& n[k].tag == nodes[k].tag
            &&& n[k].start == nodes[k].start
            &&& n[k].payload_off == nodes[k].payload_off
            &&& n[k].children.len() == nodes[k].children.len() + c
            &&& n[k].children.subrange(0, nodes[k].children.len() as int) == nodes[k].children
            &&& forall|j: int|
                nodes[k].children.len() <= j < n[k].children.len() ==> nodes.len()
                    <= #[trigger] n[k].children[j] < n.len()
            &&& forall|i: int| nodes.len() <= i < n.len() ==> #[trigger] node_complete(n, i, p)
        },
    decreases d.len() - pos, c,
{
    reveal(parse_children);
    lemma_children_progress(d, pos, nodes, k, c, max_nodes);
    if c == 0 {
        assert(nodes[k].children.subrange(0, nodes[k].children.len() as int) =~= nodes[k].children);
        return ;
    }
    lemma_header_shape(d, pos, nodes, max_nodes);
    match node_header(d, pos, nodes, max_nodes) {
        Err(e) => {},
        Ok((p1, n1, cc)) => {
            if !(pos < p1 <= d.len()) {
                return ;
            }
            let idx = nodes.len() as int;
            let n2 = add_child(n1, k, idx);
            assert(n1[idx].children == Seq::<usize>::empty());
            assert(n2[idx] == n1[idx]);
            lemma_children_shape(d, p1, n2, idx, cc, max_nodes);
            lemma_children_progress(d, p1, n2, idx, cc, max_nodes);
            match parse_children(d, p1, n2, idx, cc, max_nodes) {
                Err(e) => {},
                Ok((p3, n3)) => {
                    if !(pos < p3 <= d.len()) {
                        return ;
                    }
                    lemma_children_shape(d, p3, n3, k, (c - 1) as nat, max_nodes);
                    match parse_children(d, p3, n3, k, (c - 1) as nat, max_nodes) {
                        Err(e) => {},
                        Ok((p, n)) => {
                            assert(n3[k] == n2[k]);
                            assert(n2[k].children == nodes[k].children.push(idx as usize));
                            // node idx is complete in n3 at p3, and unchanged in n
                            assert(n3[idx].children.len() == cc);
                            assert(node_complete(n3, idx, p3)) by {
                                assert(n3[idx].tag == n2[idx].tag);
                                assert(n3[idx].payload_off == n2[idx].payload_off);
                                assert forall|j: int| 0 <= j < n3[idx].children.len() implies idx
                                    < #[trigger] n3[idx].children[j] < n3.len() by {
                                    assert(n2[idx].children.len() == 0);
                                }
                            }
                            assert forall|i: int| nodes.len() <= i < n.len() implies #[trigger] node_complete(
                                n,
                                i,
                                p,
                            ) by {
                                if i < n3.len() {
                                    if i == idx {
                                        lemma_complete_grows(n3, n, i, p3, p);
                                    } else {
                                        assert(node_complete(n3, i, p3));
                                        lemma_complete_grows(n3, n, i, p3, p);
                                    }
                                }
                            }
                            assert forall|i: int| 0 <= i < nodes.len() && i != k implies #[trigger] n[i]
                                == nodes[i] by {
                                assert(n3[i] == n2[i]);
                                assert(n2[i] == n1[i]);
                            }
                            let ck = nodes[k].children.len() as int;
                            assert(n[k].children.subrange(0, ck) =~= nodes[k].children) by {
                                assert(n3[k].children.subrange(0, ck) =~= nodes[k].children);
                                assert(n[k].children.subrange(0, ck + 1) == n3[k].children);
                            }
                            assert forall|j: int| ck <= j < n[k].children.len() implies nodes.len()
                                <= #[trigger] n[k].children[j] < n.len() by {
                                assert(n[k].children.subrange(0, ck + 1) == n3[k].children);
                                if j == ck {
                                    assert(n[k].children.subrange(0, ck + 1)[j] == n[k].children[j]);
                                    assert(n3[k].children[j] == idx);
                                    assert(n3.len() >= n2.len());
                                } else {
                                    assert(j >= n3[k].children.len());
                                }
                            }
                        },
                    }
                },
            }
        },
    }
}

#[derive(Debug)]
struct NodeData {
    tag: Tag,
    start: usize,
    payload_off: usize,
    children: Vec<usize>,
}

spec fn node_view(n: NodeData) -> NodeView {
    NodeView { tag: n.tag, start: n.start as int, payload_off: n.payload_off as int, children: n.children@ }
}

spec fn nodes_view(v: Seq<NodeData>) -> Seq<NodeView> {
    v.map_values(|n: NodeData| node_view(n))
}

#[derive(Debug, Clone, Copy)]
struct ParseFrame {
    node_index: usize,
    remaining: u32,
}

spec fn stack_view(v: Seq<ParseFrame>) -> Seq<(usize, u32)> {
    v.map_values(|f: ParseFrame| (f.node_index, f.remaining))
}

fn can_add_node(nodes: &Vec<NodeData>, max_nodes: Option<usize>) -> (ok: bool)
    ensures
        ok == can_add(nodes_view(nodes@), max_nodes),
{
    match max_nodes {
        Some(max) => nodes.len() < max,
        None => true,
    }
}

/// The number of children a compound tag announces, if it fits in `u32`.
fn compound_remaining(tag: Tag) -> (r: Option<u32>)
    ensures
        match tag {
            Tag::Array(_) => r == Some(child_count(tag) as u32),
            Tag::Mapping(_) => if child_count(tag) <= u32::MAX {
                r == Some(child_count(tag) as u32)
            } else {
                r is None
            },
            _ => r is None,
        },
{
    match tag {
        Tag::Array(count) => Some(count),
        Tag::Mapping(count) => {
            if count <= u32::MAX / 2 {
                Some(count * 2)
            } else {
                None
            }
        },
        _ => None,
    }
}

/// Whether the input can still hold one byte per announced child; records
/// `Invalid` when it cannot.
fn reserve_children(reader: &mut Reader<'_>, child_nodes: u32) -> (ok: bool)
    requires
        old(reader)@.wf(),
    ensures
        final(reader)@.wf(),
        ok == (child_nodes == 0 || child_nodes <= old(reader)@.remaining()),
        final(reader)@ == if ok {
            old(reader)@
        } else {
            old(reader)@.flag(Error::Invalid)
        },
{
    if child_nodes == 0 {
        return true;
    }
    if child_nodes as usize > reader.remaining() {
        reader.flag_error(Error::Invalid);
        return false;
    }
    true
}

/// Reads one node's header, skips its payload, and adds the node.
fn parse_push_node(reader: &mut Reader<'_>, nodes: &mut Vec<NodeData>, max_nodes: Option<usize>) -> (r:
    Option<usize>)
    requires
        old(reader)@.wf(),
        old(reader)@.error == Error::NoError,
    ensures
        final(reader)@.wf(),
        final(reader)@.data == old(reader)@.data,
        match node_read(old(reader)@.data, old(reader)@.pos, nodes_view(old(nodes)@), max_nodes) {
            Err(e) => r is None && final(reader)@.error == e && e != Error::NoError,
            Ok((p, n, c)) => r == Some(old(nodes)@.len() as usize) && final(reader)@.pos == p
                && final(reader)@.error == Error::NoError && nodes_view(final(nodes)@) == n,
        },
{
    if !can_add_node(nodes, max_nodes) {
        reader.flag_error(Error::TooBig);
        return None;
    }
    let start = reader.used();
    let tag = match reader.read_tag() {
        Some(t) => t,
        None => {
            return None;
        },
    };
    let payload_off = reader.used();
    match tag {
        Tag::Str(length) => {
            if !reader.skip_bytes(length as usize) {
                return None;
            }
        },
        Tag::Bin(length) => {
            if !reader.skip_bytes(length as usize) {
                return None;
            }
        },
        Tag::Ext { extension_type: _, length } => {
            if !reader.skip_bytes(length as usize) {
                return None;
            }
        },
        Tag::Mapping(count) => {
            if count > u32::MAX / 2 {
                reader.flag_error(Error::Invalid);
                return None;
            }
        },
        _ => {},
    }
    let index = nodes.len();
    nodes.push(NodeData { tag, start, payload_off, children: Vec::new() });
    proof {
        assert(nodes_view(nodes@) =~= nodes_view(old(nodes)@).push(
            NodeView { tag, start: start as int, payload_off: payload_off as int, children: Seq::empty() },
        ));
    }
    Some(index)
}

proof fn lemma_pending_pop(
    d: Seq<u8>,
    pos: int,
    nodes: Seq<NodeView>,
    stack: Seq<(usize, u32)>,
    max_nodes: Option<usize>,
)
    requires
        stack.len() > 0,
        stack.last().1 == 0,
    ensures
        parse_pending(d, pos, nodes, stack, max_nodes) == parse_pending(
            d,
            pos,
            nodes,
            stack.drop_last(),
            max_nodes,
        ),
{
    reveal(parse_pending);
    reveal(parse_children);
}

/// The stack after one more child of the innermost compound was read, with
/// its own children still to come.
pub open spec fn stack_after_child(stack: Seq<(usize, u32)>, idx: int, cc: nat) -> Seq<(usize, u32)> {
    let s1 = stack.drop_last().push((stack.last().0, (stack.last().1 - 1) as u32));
    if cc > 0 {
        s1.push((idx as usize, cc as u32))
    } else {
        s1
    }
}

proof fn lemma_pending_child(
    d: Seq<u8>,
    pos: int,
    nodes: Seq<NodeView>,
    stack: Seq<(usize, u32)>,
    max_nodes: Option<usize>,
)
    requires
        stack.len() > 0,
        stack.last().1 > 0,
        0 <= pos <= d.len() <= usize::MAX,
        nodes.len() <= pos,
    ensures
        node_header(d, pos, nodes, max_nodes) matches Err(e) ==> parse_pending(
            d,
            pos,
            nodes,
            stack,
            max_nodes,
        ) == Err::<(int, Seq<NodeView>), Error>(e),
        node_header(d, pos, nodes, max_nodes) matches Ok((p1, n1, cc)) ==> cc <= u32::MAX
            && parse_pending(d, pos, nodes, stack, max_nodes) == parse_pending(
            d,
            p1,
            add_child(n1, stack.last().0 as int, nodes.len() as int),
            stack_after_child(stack, nodes.len() as int, cc),
            max_nodes,
        ),
{
    reveal(parse_pending);
    reveal(parse_children);
    let k = stack.last().0 as int;
    let c = stack.last().1 as nat;
    let rest = stack.drop_last();
    lemma_node_header_progress(d, pos, nodes, max_nodes);
    lemma_node_header_count(d, pos, nodes, max_nodes);
    match node_header(d, pos, nodes, max_nodes) {
        Err(e) => {},
        Ok((p1, n1, cc)) => {
            let idx = nodes.len() as int;
            let n2 = add_child(n1, k, idx);
            let s1 = rest.push((k as usize, (c - 1) as u32));
            assert(s1.drop_last() =~= rest);
            assert(s1.last() == (k as usize, (c - 1) as u32));
            lemma_children_progress(d, p1, n2, idx, cc, max_nodes);
            let inner = parse_children(d, p1, n2, idx, cc, max_nodes);
            let after = match inner {
                Err(e) => Err(e),
                Ok((p3, n3)) => parse_children(d, p3, n3, k, (c - 1) as nat, max_nodes),
            };
            assert(parse_children(d, pos, nodes, k, c, max_nodes) == after);
            if cc > 0 {
                let s2 = s1.push((idx as usize, cc as u32));
                assert(s2.drop_last() =~= s1);
                assert(s2.last() == (idx as usize, cc as u32));
                assert(stack_after_child(stack, idx, cc) == s2);
                match inner {
                    Err(e) => {},
                    Ok((p3, n3)) => {
                        assert(parse_pending(d, p1, n2, s2, max_nodes) == parse_pending(
                            d,
                            p3,
                            n3,
                            s1,
                            max_nodes,
                        ));
                    },
                }
            } else {
                assert(stack_after_child(stack, idx, cc) == s1);
                assert(inner == Ok::<(int, Seq<NodeView>), Error>((p1, n2)));
            }
        },
    }
}

proof fn lemma_node_header_count(d: Seq<u8>, pos: int, nodes: Seq<NodeView>, max_nodes: Option<usize>)
    ensures
        node_header(d, pos, nodes, max_nodes) matches Ok((p, n, c)) ==> c <= u32::MAX,
{
    match node_read(d, pos, nodes, max_nodes) {
        Err(e) => {},
        Ok((p, n, c)) => {},
    }
}

proof fn lemma_pending_empty(d: Seq<u8>, pos: int, nodes: Seq<NodeView>, max_nodes: Option<usize>)
    ensures
        parse_pending(d, pos, nodes, Seq::empty(), max_nodes) == Ok::<(int, Seq<NodeView>), Error>(
            (pos, nodes),
        ),
{
    reveal(parse_pending);
}

proof fn lemma_pending_single(
    d: Seq<u8>,
    pos: int,
    nodes: Seq<NodeView>,
    k: usize,
    c: u32,
    max_nodes: Option<usize>,
)
    ensures
        parse_pending(d, pos, nodes, seq![(k, c)], max_nodes) == parse_children(
            d,
            pos,
            nodes,
            k as int,
            c as nat,
            max_nodes,
        ),
{
    reveal(parse_pending);
    let s = seq![(k, c)];
    assert(s.drop_last() =~= Seq::<(usize, u32)>::empty());
    match parse_children(d, pos, nodes, k as int, c as nat, max_nodes) {
        Err(e) => {},
        Ok((p, n)) => {
            assert(parse_pending(d, p, n, Seq::empty(), max_nodes) == Ok::<
                (int, Seq<NodeView>),
                Error,
            >((p, n)));
        },
    }
}

proof fn lemma_node_read_shape(d: Seq<u8>, pos: int, nodes: Seq<NodeView>, max_nodes: Option<usize>)
    ensures
        node_read(d, pos, nodes, max_nodes) matches Ok((p, n, c)) ==> n.len() == nodes.len() + 1
            && n.drop_last() == nodes && c == child_count(n.last().tag) && c <= u32::MAX,
{
    match node_read(d, pos, nodes, max_nodes) {
        Err(e) => {},
        Ok((p, n, c)) => {
            assert(n.drop_last() =~= nodes);
        },
    }
}

proof fn lemma_root(d: Seq<u8>, max_nodes: Option<usize>)
    ensures
        d.len() == 0 ==> parse_root(d, max_nodes) == Err::<(int, Seq<NodeView>), Error>(
            Error::Invalid,
        ),
        d.len() > 0 ==> (node_header(d, 0, Seq::empty(), max_nodes) matches Err(e) ==> parse_root(
            d,
            max_nodes,
        ) == Err::<(int, Seq<NodeView>), Error>(e)),
        d.len() > 0 ==> (node_header(d, 0, Seq::empty(), max_nodes) matches Ok((p1, n1, cc)) ==> cc
            <= u32::MAX && parse_root(d, max_nodes) == parse_pending(
            d,
            p1,
            n1,
            if cc > 0 {
                seq![(0usize, cc as u32)]
            } else {
                Seq::empty()
            },
            max_nodes,
        )),
{
    reveal(parse_root);
    reveal(parse_pending);
    reveal(parse_children);
    lemma_node_header_count(d, 0, Seq::empty(), max_nodes);
    if d.len() == 0 {
        return ;
    }
    match node_header(d, 0, Seq::empty(), max_nodes) {
        Err(e) => {},
        Ok((p1, n1, cc)) => {
            if cc > 0 {
                lemma_pending_single(d, p1, n1, 0, cc as u32, max_nodes);
            }
        },
    }
}

/// Parses one value into `nodes`, iteratively, so that deep nesting does not
/// grow the call stack.
fn parse_tree(reader: &mut Reader<'_>, nodes: &mut Vec<NodeData>, max_nodes: Option<usize>) -> (r:
    Option<usize>)
    requires
        old(reader)@.wf(),
        old(reader)@.error == Error::NoError,
        old(reader)@.pos == 0,
        old(nodes)@.len() == 0,
    ensures
        final(reader)@.wf(),
        match parse_root(old(reader)@.data, max_nodes) {
            Err(e) => r is None && final(reader)@.error == e && e != Error::NoError,
            Ok((p, n)) => r == Some(0usize) && final(reader)@.pos == p && final(reader)@.error
                == Error::NoError && nodes_view(final(nodes)@) == n,
        },
{
    let ghost d = reader@.data;
    assert(nodes_view(nodes@) =~= Seq::<NodeView>::empty());
    proof {
        lemma_root(d, max_nodes);
        lemma_node_read_shape(d, 0, Seq::empty(), max_nodes);
    }
    if reader.remaining() == 0 {
        reader.flag_error(Error::Invalid);
        return None;
    }
    let root = match parse_push_node(reader, nodes, max_nodes) {
        Some(i) => i,
        None => {
            return None;
        },
    };
    let ghost n1 = nodes_view(nodes@);
    let root_children = match compound_remaining(nodes[root].tag) {
        Some(c) => c,
        None => 0,
    };
    if !reserve_children(reader, root_children) {
        return None;
    }
    let mut stack: Vec<ParseFrame> = Vec::new();
    if root_children > 0 {
        stack.push(ParseFrame { node_index: root, remaining: root_children });
    }
    proof {
        assert(stack_view(stack@) =~= if root_children > 0 {
            seq![(0usize, root_children)]
        } else {
            Seq::empty()
        });
    }
    while stack.len() > 0
        invariant
            reader@.wf(),
            reader@.data == d,
            d == old(reader)@.data,
            reader@.error == Error::NoError,
            parse_root(d, max_nodes) == parse_pending(
                d,
                reader@.pos,
                nodes_view(nodes@),
                stack_view(stack@),
                max_nodes,
            ),
            forall|i: int| 0 <= i < stack@.len() ==> stack@[i].node_index < nodes@.len(),
            nodes@.len() <= reader@.pos,
        decreases reader@.remaining(), stack@.len(),
    {
        let ghost pre_stack = stack_view(stack@);
        let ghost pre_nodes = nodes_view(nodes@);
        let ghost pos0 = reader@.pos;
        let top = stack.len() - 1;
        let frame = stack[top];
        assert(pre_stack.last() == (frame.node_index, frame.remaining));
        if frame.remaining == 0 {
            stack.pop();
            proof {
                assert(stack_view(stack@) =~= pre_stack.drop_last());
                lemma_pending_pop(d, pos0, pre_nodes, pre_stack, max_nodes);
            }
            continue;
        }
        proof {
            lemma_pending_child(d, pos0, pre_nodes, pre_stack, max_nodes);
            lemma_node_read_shape(d, pos0, pre_nodes, max_nodes);
        }
        stack.set(top, ParseFrame { node_index: frame.node_index, remaining: frame.remaining - 1 });
        let parent = frame.node_index;
        let child = match parse_push_node(reader, nodes, max_nodes) {
            Some(i) => i,
            None => {
                return None;
            },
        };
        let ghost n1 = nodes_view(nodes@);
        assert(nodes@.len() == n1.len());
        nodes[parent].children.push(child);
        proof {
            assert(nodes_view(nodes@) =~= add_child(n1, parent as int, child as int));
        }
        let cc = match compound_remaining(nodes[child].tag) {
            Some(c) => c,
            None => 0,
        };
        if !reserve_children(reader, cc) {
            return None;
        }
        if cc > 0 {
            stack.push(ParseFrame { node_index: child, remaining: cc });
        }
        proof {
            assert(stack_view(stack@) =~= stack_after_child(pre_stack, child as int, cc as nat));
        }
    }
    proof {
        lemma_pending_empty(d, reader@.pos, nodes_view(nodes@), max_nodes);
        assert(stack_view(stack@) =~= Seq::<(usize, u32)>::empty());
    }
    Some(root)
}

impl TreeView {
    pub open spec fn flag(self, e: Error) -> TreeView {
        if self.error == Error::NoError && e != Error::NoError {
            TreeView { error: e, ..self }
        } else {
            self
        }
    }

    /// Node `i`'s tag; an index that names no node records `Bug` and reads as nil.
    pub open spec fn tag_at(self, i: usize) -> (TreeView, Tag) {
        if i < self.nodes.len() {
            (self, self.nodes[i as int].tag)
        } else {
            (self.flag(Error::Bug), Tag::Nil)
        }
    }

    /// Node `i`'s value converted with `conv`, on an error-free tree; a value
    /// that does not convert records a type error.
    pub open spec fn typed_at<T>(self, i: usize, conv: spec_fn(Tag) -> Option<T>) -> (
        TreeView,
        Option<T>,
    ) {
        if self.error != Error::NoError {
            (self, None)
        } else {
            let (t1, tag) = self.tag_at(i);
            match conv(tag) {
                Some(v) => (t1, Some(v)),
                None => (t1.flag(Error::Type), None),
            }
        }
    }

    /// The `len` payload bytes of node `i`, if they lie within the input.
    pub open spec fn payload_at(self, i: usize, len: nat) -> Option<Seq<u8>> {
        let start = self.nodes[i as int].payload_off;
        if 0 <= start && start + len <= self.data.len() {
            Some(self.data.subrange(start, start + len))
        } else {
            None
        }
    }

    /// The payload of node `i`, whose tag `conv` accepts with its length;
    /// a payload outside the input records `Bug`.
    pub open spec fn payload_step(self, i: usize, conv: spec_fn(Tag) -> Option<u32>) -> (
        TreeView,
        Option<Seq<u8>>,
    ) {
        let (t1, l) = self.typed_at(i, conv);
        match l {
            None => (t1, None),
            Some(l) => match t1.payload_at(i, l as nat) {
                Some(b) => (t1, Some(b)),
                None => (t1.flag(Error::Bug), None),
            },
        }
    }

    /// Child `j` of node `i`, whose tag `conv` accepts; a missing child
    /// records `Data`.
    pub open spec fn child_step(self, i: usize, conv: spec_fn(Tag) -> Option<u32>, j: int) -> (
        TreeView,
        Option<usize>,
    ) {
        let (t1, l) = self.typed_at(i, conv);
        match l {
            None => (t1, None),
            Some(_) => {
                let ch = t1.nodes[i as int].children;
                if 0 <= j < ch.len() {
                    (t1, Some(ch[j]))
                } else {
                    (t1.flag(Error::Data), None)
                }
            },
        }
    }
}

/// A map key to look up.
pub enum KeyView {
    Int(i64),
    Uint(u64),
    Str(Seq<u8>),
}

/// Whether node `ki` is a key equal to `key`: integers compare by value
/// whatever their signedness, strings by their bytes.
pub open spec fn key_matches(t: TreeView, ki: usize, key: KeyView) -> bool {
    if ki >= t.nodes.len() {
        false
    } else {
        match (key, t.nodes[ki as int].tag) {
            (KeyView::Int(w), Tag::Int(v)) => v == w,
            (KeyView::Int(w), Tag::Uint(v)) => w >= 0 && v == w,
            (KeyView::Uint(w), Tag::Uint(v)) => v == w,
            (KeyView::Uint(w), Tag::Int(v)) => v >= 0 && v == w,
            (KeyView::Str(w), Tag::Str(len)) => t.payload_at(ki, len as nat) == Some(w),
            _ => false,
        }
    }
}

/// The indices of the first `n` pairs of `ch` whose key matches.
pub open spec fn matching_pairs(t: TreeView, ch: Seq<usize>, key: KeyView, n: nat) -> Seq<int>
    decreases n,
{
    if n == 0 {
        Seq::empty()
    } else {
        let m = matching_pairs(t, ch, key, (n - 1) as nat);
        if key_matches(t, ch[2 * (n - 1)], key) {
            m.push(n - 1)
        } else {
            m
        }
    }
}

/// Looking up the value of `key` in map node `i`: a key found twice records
/// `Data`, and so does a missing key when `required`.
pub open spec fn lookup_step(t: TreeView, i: usize, key: KeyView, required: bool) -> (
    TreeView,
    Option<usize>,
) {
    let (t1, l) = t.typed_at(i, |tag: Tag| tag_map(tag));
    match l {
        None => (t1, None),
        Some(_) => {
            let ch = t1.nodes[i as int].children;
            let m = matching_pairs(t1, ch, key, ch.len() / 2);
            if m.len() >= 2 {
                (t1.flag(Error::Data), None)
            } else if m.len() == 1 {
                (t1, Some(ch[2 * m[0] + 1]))
            } else if required {
                (t1.flag(Error::Data), None)
            } else {
                (t1, None)
            }
        },
    }
}

proof fn lemma_matching_grows(t: TreeView, ch: Seq<usize>, key: KeyView, a: nat, b: nat)
    requires
        a <= b,
    ensures
        matching_pairs(t, ch, key, a).len() <= matching_pairs(t, ch, key, b).len(),
    decreases b,
{
    if a < b {
        lemma_matching_grows(t, ch, key, a, (b - 1) as nat);
    }
}

/// Matching the string node `i` against `strings`: the index of the first
/// equal one, or `strings.len()`; a miss records a type error unless
/// `optional`.
pub open spec fn enum_step(t: TreeView, i: usize, strings: Seq<Seq<u8>>, optional: bool) -> (
    TreeView,
    int,
) {
    let count = strings.len() as int;
    if t.error != Error::NoError {
        (t, count)
    } else {
        let (t1, tag) = t.tag_at(i);
        match tag {
            Tag::Str(len) => match t1.payload_at(i, len as nat) {
                None => (t1.flag(Error::Bug), count),
                Some(b) => {
                    let k = find_key(strings, b);
                    if k < count {
                        (t1, k)
                    } else if optional {
                        (t1, count)
                    } else {
                        (t1.flag(Error::Type), count)
                    }
                },
            },
            _ => if optional {
                (t1, count)
            } else {
                (t1.flag(Error::Type), count)
            },
        }
    }
}

/// A parsed MessagePack tree over caller-owned input bytes.
#[derive(Debug)]
pub struct Tree<'data> {
    data: &'data [u8],
    nodes: Vec<NodeData>,
    root: Option<usize>,
    error: Error,
    size: usize,
}

impl<'data> View for Tree<'data> {
    type V = TreeView;

    closed spec fn view(&self) -> TreeView {
        TreeView {
            data: self.data@,
            nodes: nodes_view(self.nodes@),
            root: self.root,
            error: self.error,
            size: self.size as int,
        }
    }
}

/// A handle to one node of a tree; the accessors take the tree it came from.
#[derive(Debug, Clone, Copy)]
pub struct Node {
    index: usize,
}

impl View for Node {
    type V = usize;

    closed spec fn view(&self) -> usize {
        self.index
    }
}

/// Map key used by the lookups.
#[derive(Clone, Copy)]
enum MapKey<'a> {
    Int(i64),
    Uint(u64),
    Str(&'a [u8]),
}

spec fn map_key_view(k: MapKey) -> KeyView {
    match k {
        MapKey::Int(v) => KeyView::Int(v),
        MapKey::Uint(v) => KeyView::Uint(v),
        MapKey::Str(s) => KeyView::Str(s@),
    }
}

impl<'data> Tree<'data> {
    /// Parses one MessagePack value from `data` into a node tree; bytes after
    /// the value are allowed.
    pub fn parse(data: &'data [u8]) -> (t: Self)
        ensures
            t@ == tree_of(data@, None),
    {
        Self::parse_with_limits(data, None)
    }

    /// Like [`parse`](Self::parse), but fails with `TooBig` once more than
    /// `max_nodes` nodes would be needed.
    pub fn parse_with_limits(data: &'data [u8], max_nodes: Option<usize>) -> (t: Self)
        ensures
            t@ == tree_of(data@, max_nodes),
    {
        let mut reader = Reader::new(data);
        let mut nodes: Vec<NodeData> = Vec::new();
        let root = parse_tree(&mut reader, &mut nodes, max_nodes);
        let error = reader.error();
        if error == Error::NoError {
            let t = Tree { data, nodes, root, error, size: reader.used() };
            t
        } else {
            let t = Tree { data, nodes: Vec::new(), root: None, error, size: 0 };
            assert(t@.nodes =~= Seq::<NodeView>::empty());
            t
        }
    }

    /// The input the tree was parsed from.
    pub(crate) fn input(&self) -> (d: &'data [u8])
        ensures
            d@ == self@.data,
    {
        self.data
    }

    /// Where the header of the node that `node` names starts in the input,
    /// if it names a node of this tree.
    pub(crate) fn node_start(&self, node: Node) -> (r: Option<usize>)
        ensures
            match r {
                Some(s) => node@ < self@.nodes.len() && s == self@.nodes[node@ as int].start,
                None => node@ >= self@.nodes.len(),
            },
    {
        if node.index < self.nodes.len() {
            Some(self.nodes[node.index].start)
        } else {
            None
        }
    }

    /// Bytes taken by the parsed value (0 when the tree has an error).
    pub fn size(&self) -> (n: usize)
        ensures
            n == self@.size,
    {
        self.size
    }

    /// Returns the tree's sticky error.
    pub fn error(&self) -> (e: Error)
        ensures
            e == self@.error,
    {
        self.error
    }

    /// Records an error if the tree is currently error-free.
    pub fn flag_error(&mut self, error: Error)
        ensures
            final(self)@ == old(self)@.flag(error),
    {
        if self.error == Error::NoError && error != Error::NoError {
            self.error = error;
        }
    }

    /// The root node, when parsing succeeded and the tree is error-free.
    pub fn root(&self) -> (r: Option<Node>)
        ensures
            match r {
                Some(n) => self@.error == Error::NoError && self@.root == Some(n@),
                None => self@.error != Error::NoError || self@.root is None,
            },
    {
        if self.error != Error::NoError {
            return None;
        }
        match self.root {
            Some(index) => Some(Node { index }),
            None => None,
        }
    }

    fn payload(&self, index: usize, length: u32) -> (r: Option<&'data [u8]>)
        requires
            index < self@.nodes.len(),
        ensures
            match r {
                Some(b) => self@.payload_at(index, length as nat) == Some(b@),
                None => self@.payload_at(index, length as nat) is None,
            },
    {
        let start = self.nodes[index].payload_off;
        let len = self.data.len();
        if start <= len && length as usize <= len - start {
            Some(slice_subrange(self.data, start, start + length as usize))
        } else {
            None
        }
    }

    fn key_matches(&self, key_index: usize, key: MapKey<'_>) -> (r: bool)
        ensures
            r == key_matches(self@, key_index, map_key_view(key)),
    {
        if key_index >= self.nodes.len() {
            return false;
        }
        match key {
            MapKey::Int(want) => match self.nodes[key_index].tag {
                Tag::Int(value) => value == want,
                Tag::Uint(value) => want >= 0 && value == want as u64,
                _ => false,
            },
            MapKey::Uint(want) => match self.nodes[key_index].tag {
                Tag::Uint(value) => value == want,
                Tag::Int(value) => value >= 0 && value as u64 == want,
                _ => false,
            },
            MapKey::Str(want) => match self.nodes[key_index].tag {
                Tag::Str(length) => match self.payload(key_index, length) {
                    Some(bytes) => bytes_equal(bytes, want),
                    None => false,
                },
                _ => false,
            },
        }
    }
}

/// The bytes a returned slice holds, if one was returned.
pub open spec fn opt_bytes(r: Option<&[u8]>) -> Option<Seq<u8>> {
    match r {
        Some(b) => Some(b@),
        None => None,
    }
}

/// The node a returned handle names, if one was returned.
pub open spec fn opt_node(r: Option<Node>) -> Option<usize> {
    match r {
        Some(n) => Some(n@),
        None => None,
    }
}

/// The payload length of an ext tag.
pub open spec fn ext_len(t: Tag) -> Option<u32> {
    match t {
        Tag::Ext { extension_type: _, length } => Some(length),
        _ => None,
    }
}

/// The bytes of each candidate string.
pub open spec fn byte_strings(s: Seq<&[u8]>) -> Seq<Seq<u8>> {
    s.map_values(|b: &[u8]| b@)
}

impl Node {
    /// The node's tag, even when the tree already has an error; a handle that
    /// names no node records `Bug` and reads as nil.
    pub fn tag(self, tree: &mut Tree<'_>) -> (t: Tag)
        ensures
            (final(tree)@, t) == old(tree)@.tag_at(self@),
    {
        if self.index < tree.nodes.len() {
            tree.nodes[self.index].tag
        } else {
            tree.flag_error(Error::Bug);
            Tag::Nil
        }
    }

    /// The node's MessagePack type.
    pub fn type_(self, tree: &mut Tree<'_>) -> (t: Type)
        ensures
            final(tree)@ == old(tree)@.tag_at(self@).0,
            t == tag_kind(old(tree)@.tag_at(self@).1),
    {
        self.tag(tree).kind()
    }

    /// Whether the node is nil.
    pub fn is_nil(self, tree: &mut Tree<'_>) -> (r: bool)
        ensures
            final(tree)@ == old(tree)@.tag_at(self@).0,
            r == (old(tree)@.tag_at(self@).1 is Nil),
    {
        match self.tag(tree) {
            Tag::Nil => true,
            _ => false,
        }
    }

    /// Reads a bool; anything else records a type error.
    pub fn as_bool(self, tree: &mut Tree<'_>) -> (r: Option<bool>)
        ensures
            (final(tree)@, r) == old(tree)@.typed_at(self@, |t: Tag| tag_bool(t)),
    {
        if tree.error != Error::NoError {
            return None;
        }
        match self.tag(tree) {
            Tag::Bool(value) => Some(value),
            _ => {
                tree.flag_error(Error::Type);
                None
            },
        }
    }

    /// Reads an unsigned value (a uint, or a non-negative int).
    pub fn as_u64(self, tree: &mut Tree<'_>) -> (r: Option<u64>)
        ensures
            (final(tree)@, r) == old(tree)@.typed_at(self@, |t: Tag| tag_u64(t)),
    {
        if tree.error != Error::NoError {
            return None;
        }
        match self.tag(tree) {
            Tag::Uint(value) => Some(value),
            Tag::Int(value) => {
                if value >= 0 {
                    Some(value as u64)
                } else {
                    tree.flag_error(Error::Type);
                    None
                }
            },
            _ => {
                tree.flag_error(Error::Type);
                None
            },
        }
    }

    /// Reads a signed value (an int, or a uint that fits in `i64`).
    pub fn as_i64(self, tree: &mut Tree<'_>) -> (r: Option<i64>)
        ensures
            (final(tree)@, r) == old(tree)@.typed_at(self@, |t: Tag| tag_i64(t)),
    {
        if tree.error != Error::NoError {
            return None;
        }
        match self.tag(tree) {
            Tag::Int(value) => Some(value),
            Tag::Uint(value) => {
                if value <= i64::MAX as u64 {
                    Some(value as i64)
                } else {
                    tree.flag_error(Error::Type);
                    None
                }
            },
            _ => {
                tree.flag_error(Error::Type);
                None
            },
        }
    }

    /// The bits of a float32 node; anything else records a type error.
    pub fn as_f32_bits(self, tree: &mut Tree<'_>) -> (r: Option<u32>)
        ensures
            (final(tree)@, r) == old(tree)@.typed_at(self@, |t: Tag| tag_float_bits(t)),
    {
        if tree.error != Error::NoError {
            return None;
        }
        match self.tag(tree) {
            Tag::Float(bits) => Some(bits),
            _ => {
                tree.flag_error(Error::Type);
                None
            },
        }
    }

    /// A float32 or float64 node, as encoded; anything else records a type
    /// error. Converting it to a floating-point value is left to the caller.
    pub fn as_float_or_double(self, tree: &mut Tree<'_>) -> (r: Option<Number>)
        ensures
            (final(tree)@, r) == old(tree)@.typed_at(self@, |t: Tag| tag_real(t)),
    {
        if tree.error != Error::NoError {
            return None;
        }
        match self.tag(tree) {
            Tag::Float(bits) => Some(Number::Float(bits)),
            Tag::Double(bits) => Some(Number::Double(bits)),
            _ => {
                tree.flag_error(Error::Type);
                None
            },
        }
    }

    /// The `length` payload bytes of this node, which the caller has found in
    /// the tree; bytes outside the input record `Bug`.
    fn payload_or_bug<'data>(self, tree: &mut Tree<'data>, length: u32) -> (r: Option<&'data [u8]>)
        requires
            self@ < old(tree)@.nodes.len(),
        ensures
            match old(tree)@.payload_at(self@, length as nat) {
                Some(b) => final(tree)@ == old(tree)@ && opt_bytes(r) == Some(b),
                None => final(tree)@ == old(tree)@.flag(Error::Bug) && r is None,
            },
    {
        match tree.payload(self.index, length) {
            Some(bytes) => Some(bytes),
            None => {
                tree.flag_error(Error::Bug);
                None
            },
        }
    }

    /// The bytes of a str node; anything else records a type error.
    pub fn str_bytes<'data>(self, tree: &mut Tree<'data>) -> (r: Option<&'data [u8]>)
        ensures
            final(tree)@ == old(tree)@.payload_step(self@, |t: Tag| tag_str(t)).0,
            opt_bytes(r) == old(tree)@.payload_step(self@, |t: Tag| tag_str(t)).1,
    {
        if tree.error != Error::NoError {
            return None;
        }
        let length = match self.tag(tree) {
            Tag::Str(length) => length,
            _ => {
                tree.flag_error(Error::Type);
                return None;
            },
        };
        self.payload_or_bug(tree, length)
    }

    /// The bytes of a bin node; anything else records a type error.
    pub fn bin_bytes<'data>(self, tree: &mut Tree<'data>) -> (r: Option<&'data [u8]>)
        ensures
            final(tree)@ == old(tree)@.payload_step(self@, |t: Tag| tag_bin(t)).0,
            opt_bytes(r) == old(tree)@.payload_step(self@, |t: Tag| tag_bin(t)).1,
    {
        if tree.error != Error::NoError {
            return None;
        }
        let length = match self.tag(tree) {
            Tag::Bin(length) => length,
            _ => {
                tree.flag_error(Error::Type);
                return None;
            },
        };
        self.payload_or_bug(tree, length)
    }

    /// The extension type and payload of an ext node; anything else records
    /// a type error.
    pub fn ext<'data>(self, tree: &mut Tree<'data>) -> (r: Option<(i8, &'data [u8])>)
        ensures
            final(tree)@ == old(tree)@.payload_step(self@, |t: Tag| ext_len(t)).0,
            match r {
                Some((et, b)) => {
                    &&& old(tree)@.payload_step(self@, |t: Tag| ext_len(t)).1 == Some(b@)
                    &&& old(tree)@.nodes[self@ as int].tag matches Tag::Ext { extension_type, length: _ }
                    &&& extension_type == et
                },
                None => old(tree)@.payload_step(self@, |t: Tag| ext_len(t)).1 is None,
            },
    {
        if tree.error != Error::NoError {
            return None;
        }
        let (extension_type, length) = match self.tag(tree) {
            Tag::Ext { extension_type, length } => (extension_type, length),
            _ => {
                tree.flag_error(Error::Type);
                return None;
            },
        };
        match self.payload_or_bug(tree, length) {
            Some(bytes) => Some((extension_type, bytes)),
            None => None,
        }
    }

    /// The element count of an array node; anything else records a type
    /// error.
    pub fn array_len(self, tree: &mut Tree<'_>) -> (r: Option<usize>)
        ensures
            final(tree)@ == old(tree)@.typed_at(self@, |t: Tag| tag_array(t)).0,
            match r {
                Some(n) => old(tree)@.typed_at(self@, |t: Tag| tag_array(t)).1 is Some && n
                    == old(tree)@.nodes[self@ as int].children.len(),
                None => old(tree)@.typed_at(self@, |t: Tag| tag_array(t)).1 is None,
            },
    {
        if tree.error != Error::NoError {
            return None;
        }
        match self.tag(tree) {
            Tag::Array(_) => Some(tree.nodes[self.index].children.len()),
            _ => {
                tree.flag_error(Error::Type);
                None
            },
        }
    }

    /// Child `at` of this node once its tag was found to be a compound.
    fn child_or_data(self, tree: &mut Tree<'_>, at: usize) -> (r: Option<Node>)
        requires
            self@ < old(tree)@.nodes.len(),
        ensures
            old(tree)@.nodes[self@ as int].children.len() <= usize::MAX,
            if at < old(tree)@.nodes[self@ as int].children.len() {
                final(tree)@ == old(tree)@ && opt_node(r) == Some(
                    old(tree)@.nodes[self@ as int].children[at as int],
                )
            } else {
                final(tree)@ == old(tree)@.flag(Error::Data) && r is None
            },
    {
        if at < tree.nodes[self.index].children.len() {
            Some(Node { index: tree.nodes[self.index].children[at] })
        } else {
            tree.flag_error(Error::Data);
            None
        }
    }

    /// Element `index` of an array node; a missing element records `Data`.
    pub fn array_at(self, tree: &mut Tree<'_>, index: usize) -> (r: Option<Node>)
        ensures
            final(tree)@ == old(tree)@.child_step(self@, |t: Tag| tag_array(t), index as int).0,
            opt_node(r) == old(tree)@.child_step(self@, |t: Tag| tag_array(t), index as int).1,
    {
        if tree.error != Error::NoError {
            return None;
        }
        match self.tag(tree) {
            Tag::Array(_) => {},
            _ => {
                tree.flag_error(Error::Type);
                return None;
            },
        }
        self.child_or_data(tree, index)
    }

    /// The entry count of a map node; anything else records a type error.
    pub fn map_count(self, tree: &mut Tree<'_>) -> (r: Option<usize>)
        ensures
            final(tree)@ == old(tree)@.typed_at(self@, |t: Tag| tag_map(t)).0,
            match r {
                Some(n) => old(tree)@.typed_at(self@, |t: Tag| tag_map(t)).1 is Some && n
                    == old(tree)@.nodes[self@ as int].children.len() / 2,
                None => old(tree)@.typed_at(self@, |t: Tag| tag_map(t)).1 is None,
            },
    {
        if tree.error != Error::NoError {
            return None;
        }
        match self.tag(tree) {
            Tag::Mapping(_) => Some(tree.nodes[self.index].children.len() / 2),
            _ => {
                tree.flag_error(Error::Type);
                None
            },
        }
    }

    /// The key of entry `index` of a map node; a missing entry records
    /// `Data`.
    pub fn map_key_at(self, tree: &mut Tree<'_>, index: usize) -> (r: Option<Node>)
        ensures
            final(tree)@ == old(tree)@.child_step(self@, |t: Tag| tag_map(t), 2 * index).0,
            opt_node(r) == old(tree)@.child_step(self@, |t: Tag| tag_map(t), 2 * index).1,
    {
        if tree.error != Error::NoError {
            return None;
        }
        match self.tag(tree) {
            Tag::Mapping(_) => {},
            _ => {
                tree.flag_error(Error::Type);
                return None;
            },
        }
        let at = match index.checked_mul(2) {
            Some(at) => at,
            None => usize::MAX,
        };
        self.child_or_data(tree, at)
    }

    /// The value of entry `index` of a map node; a missing entry records
    /// `Data`.
    pub fn map_value_at(self, tree: &mut Tree<'_>, index: usize) -> (r: Option<Node>)
        ensures
            final(tree)@ == old(tree)@.child_step(self@, |t: Tag| tag_map(t), 2 * index + 1).0,
            opt_node(r) == old(tree)@.child_step(self@, |t: Tag| tag_map(t), 2 * index + 1).1,
    {
        if tree.error != Error::NoError {
            return None;
        }
        match self.tag(tree) {
            Tag::Mapping(_) => {},
            _ => {
                tree.flag_error(Error::Type);
                return None;
            },
        }
        let at = match index.checked_mul(2) {
            Some(at) => at.saturating_add(1),
            None => usize::MAX,
        };
        self.child_or_data(tree, at)
    }

    /// Looks up `key` in a map node: the value of the one entry whose key
    /// matches; a key found twice records `Data`, and so does a missing key
    /// when `required`.
    #[verifier::loop_isolation(false)]
    fn map_lookup(self, tree: &mut Tree<'_>, key: MapKey<'_>, required: bool) -> (r: Option<Node>)
        ensures
            final(tree)@ == lookup_step(old(tree)@, self@, map_key_view(key), required).0,
            opt_node(r) == lookup_step(old(tree)@, self@, map_key_view(key), required).1,
    {
        if tree.error != Error::NoError {
            return None;
        }
        match self.tag(tree) {
            Tag::Mapping(_) => {},
            _ => {
                tree.flag_error(Error::Type);
                return None;
            },
        }
        let ghost t = tree@;
        let ghost kv = map_key_view(key);
        let ghost ch = t.nodes[self.index as int].children;
        let pairs = tree.nodes[self.index].children.len() / 2;
        let mut found: Option<usize> = None;
        let mut i: usize = 0;
        while i < pairs
            invariant
                tree@ == t,
                self.index < tree.nodes@.len(),
                ch == tree.nodes@[self.index as int].children@,
                ch == t.nodes[self.index as int].children,
                kv == map_key_view(key),
                i <= pairs,
                pairs == ch.len() / 2,
                matching_pairs(t, ch, kv, i as nat).len() <= 1,
                found == (if matching_pairs(t, ch, kv, i as nat).len() == 1 {
                    Some(ch[2 * matching_pairs(t, ch, kv, i as nat)[0] + 1])
                } else {
                    None::<usize>
                }),
                forall|j: int| 0 <= j < matching_pairs(t, ch, kv, i as nat).len() ==> 0 <= #[trigger] matching_pairs(t, ch, kv, i as nat)[j] < i,
            decreases pairs - i,
        {
            let key_index = tree.nodes[self.index].children[2 * i];
            let value_index = tree.nodes[self.index].children[2 * i + 1];
            if tree.key_matches(key_index, key) {
                if found.is_some() {
                    tree.flag_error(Error::Data);
                    proof {
                        lemma_matching_grows(t, ch, kv, (i + 1) as nat, ch.len() / 2);
                    }
                    return None;
                }
                found = Some(value_index);
            }
            i = i + 1;
        }
        match found {
            Some(index) => Some(Node { index }),
            None => {
                if required {
                    tree.flag_error(Error::Data);
                }
                None
            },
        }
    }

    /// The value under the integer key `key` (compared by value, whatever
    /// the key's signedness); a missing or repeated key records `Data`.
    pub fn map_int(self, tree: &mut Tree<'_>, key: i64) -> (r: Option<Node>)
        ensures
            final(tree)@ == lookup_step(old(tree)@, self@, KeyView::Int(key), true).0,
            opt_node(r) == lookup_step(old(tree)@, self@, KeyView::Int(key), true).1,
    {
        self.map_lookup(tree, MapKey::Int(key), true)
    }

    /// Like [`map_int`](Self::map_int), but a missing key is no error.
    pub fn map_int_optional(self, tree: &mut Tree<'_>, key: i64) -> (r: Option<Node>)
        ensures
            final(tree)@ == lookup_step(old(tree)@, self@, KeyView::Int(key), false).0,
            opt_node(r) == lookup_step(old(tree)@, self@, KeyView::Int(key), false).1,
    {
        self.map_lookup(tree, MapKey::Int(key), false)
    }

    /// The value under the unsigned key `key`; a missing or repeated key
    /// records `Data`.
    pub fn map_uint(self, tree: &mut Tree<'_>, key: u64) -> (r: Option<Node>)
        ensures
            final(tree)@ == lookup_step(old(tree)@, self@, KeyView::Uint(key), true).0,
            opt_node(r) == lookup_step(old(tree)@, self@, KeyView::Uint(key), true).1,
    {
        self.map_lookup(tree, MapKey::Uint(key), true)
    }

    /// Like [`map_uint`](Self::map_uint), but a missing key is no error.
    pub fn map_uint_optional(self, tree: &mut Tree<'_>, key: u64) -> (r: Option<Node>)
        ensures
            final(tree)@ == lookup_step(old(tree)@, self@, KeyView::Uint(key), false).0,
            opt_node(r) == lookup_step(old(tree)@, self@, KeyView::Uint(key), false).1,
    {
        self.map_lookup(tree, MapKey::Uint(key), false)
    }

    /// The value under the str key with exactly the bytes `key`; a missing
    /// or repeated key records `Data`.
    pub fn map_str(self, tree: &mut Tree<'_>, key: &[u8]) -> (r: Option<Node>)
        ensures
            final(tree)@ == lookup_step(old(tree)@, self@, KeyView::Str(key@), true).0,
            opt_node(r) == lookup_step(old(tree)@, self@, KeyView::Str(key@), true).1,
    {
        self.map_lookup(tree, MapKey::Str(key), true)
    }

    /// Like [`map_str`](Self::map_str), but a missing key is no error.
    pub fn map_str_optional(self, tree: &mut Tree<'_>, key: &[u8]) -> (r: Option<Node>)
        ensures
            final(tree)@ == lookup_step(old(tree)@, self@, KeyView::Str(key@), false).0,
            opt_node(r) == lookup_step(old(tree)@, self@, KeyView::Str(key@), false).1,
    {
        self.map_lookup(tree, MapKey::Str(key), false)
    }

    /// Whether the map holds the integer key `key` exactly once.
    pub fn map_contains_int(self, tree: &mut Tree<'_>, key: i64) -> (r: bool)
        ensures
            final(tree)@ == lookup_step(old(tree)@, self@, KeyView::Int(key), false).0,
            r == (lookup_step(old(tree)@, self@, KeyView::Int(key), false).1 is Some),
    {
        let found = self.map_lookup(tree, MapKey::Int(key), false);
        found.is_some() && tree.error == Error::NoError
    }

    /// Whether the map holds the unsigned key `key` exactly once.
    pub fn map_contains_uint(self, tree: &mut Tree<'_>, key: u64) -> (r: bool)
        ensures
            final(tree)@ == lookup_step(old(tree)@, self@, KeyView::Uint(key), false).0,
            r == (lookup_step(old(tree)@, self@, KeyView::Uint(key), false).1 is Some),
    {
        let found = self.map_lookup(tree, MapKey::Uint(key), false);
        found.is_some() && tree.error == Error::NoError
    }

    /// Whether the map holds the str key `key` exactly once.
    pub fn map_contains_str(self, tree: &mut Tree<'_>, key: &[u8]) -> (r: bool)
        ensures
            final(tree)@ == lookup_step(old(tree)@, self@, KeyView::Str(key@), false).0,
            r == (lookup_step(old(tree)@, self@, KeyView::Str(key@), false).1 is Some),
    {
        let found = self.map_lookup(tree, MapKey::Str(key), false);
        found.is_some() && tree.error == Error::NoError
    }

    /// Matches this str node against `strings`: the index of the first equal
    /// one, or `strings.len()` when none is or the node is no str; a miss
    /// records a type error unless `optional`.
    #[verifier::loop_isolation(false)]
    pub fn enum_str(self, tree: &mut Tree<'_>, strings: &[&[u8]], optional: bool) -> (r: usize)
        ensures
            final(tree)@ == enum_step(old(tree)@, self@, byte_strings(strings@), optional).0,
            r == enum_step(old(tree)@, self@, byte_strings(strings@), optional).1,
    {
        let ghost ks = byte_strings(strings@);
        let count = strings.len();
        if tree.error != Error::NoError {
            return count;
        }
        let length = match self.tag(tree) {
            Tag::Str(length) => length,
            _ => {
                if !optional {
                    tree.flag_error(Error::Type);
                }
                return count;
            },
        };
        let bytes = match tree.payload(self.index, length) {
            Some(b) => b,
            None => {
                tree.flag_error(Error::Bug);
                return count;
            },
        };
        let ghost t = tree@;
        let mut i: usize = 0;
        while i < count
            invariant
                i <= count,
                count == strings@.len(),
                ks == byte_strings(strings@),
                tree@ == t,
                forall|j: int| 0 <= j < i ==> ks[j] != bytes@,
            decreases count - i,
        {
            proof {
                lemma_find_key_step(ks, bytes@, i as int);
            }
            assert(ks[i as int] == strings@[i as int]@);
            if bytes_equal(strings[i], bytes) {
                return i;
            }
            i = i + 1;
        }
        proof {
            lemma_find_key_none(ks, bytes@);
        }
        if !optional {
            tree.flag_error(Error::Type);
        }
        count
    }
}

/// Byte-size gates for loading a whole file into a tree: a negative size is
/// an I/O error, an empty file is invalid, and a size above a non-zero
/// `max_bytes` is too big (never truncated).
pub fn check_file_tree_bytes(file_size: i64, max_bytes: usize) -> (r: Result<usize, Error>)
    ensures
        r == if file_size < 0 {
            Err(Error::Io)
        } else if file_size == 0 {
            Err(Error::Invalid)
        } else if file_size > usize::MAX || (max_bytes != 0 && file_size > max_bytes) {
            Err(Error::TooBig)
        } else {
            Ok(file_size as usize)
        },
{
    if file_size < 0 {
        return Err(Error::Io);
    }
    if file_size == 0 {
        return Err(Error::Invalid);
    }
    if file_size as u64 > usize::MAX as u64 {
        return Err(Error::TooBig);
    }
    let size = file_size as usize;
    if max_bytes != 0 && size > max_bytes {
        return Err(Error::TooBig);
    }
    Ok(size)
}


/// A tree that has recorded an error keeps it: every typed read, payload,
/// child, lookup and string match leaves it as it is and gives nothing
/// (`strings.len()` for a match).
pub proof fn law_tree_sticky<T>(
    t: TreeView,
    i: usize,
    conv: spec_fn(Tag) -> Option<T>,
    lconv: spec_fn(Tag) -> Option<u32>,
    j: int,
    key: KeyView,
    required: bool,
    strings: Seq<Seq<u8>>,
    optional: bool,
    e: Error,
)
    requires
        t.error != Error::NoError,
    ensures
        t.typed_at(i, conv) == (t, None::<T>),
        t.payload_step(i, lconv) == (t, None::<Seq<u8>>),
        t.child_step(i, lconv, j) == (t, None::<usize>),
        lookup_step(t, i, key, required) == (t, None::<usize>),
        enum_step(t, i, strings, optional) == (t, strings.len() as int),
        t.flag(e) == t,
{
}



/// A failed header read records a real error.
proof fn lemma_header_err(d: Seq<u8>, pos: int, nodes: Seq<NodeView>, max_nodes: Option<usize>)
    ensures
        node_header(d, pos, nodes, max_nodes) matches Err(e) ==> e != Error::NoError,
{
}

/// A failed parse records a real error.
proof fn lemma_children_err(
    d: Seq<u8>,
    pos: int,
    nodes: Seq<NodeView>,
    k: int,
    c: nat,
    max_nodes: Option<usize>,
)
    ensures
        parse_children(d, pos, nodes, k, c, max_nodes) matches Err(e) ==> e != Error::NoError,
    decreases d.len() - pos, c,
{
    reveal(parse_children);
    if c > 0 {
        lemma_header_err(d, pos, nodes, max_nodes);
        match node_header(d, pos, nodes, max_nodes) {
            Err(e) => {},
            Ok((p1, n1, cc)) => {
                if pos < p1 <= d.len() {
                    let idx = nodes.len() as int;
                    lemma_children_err(d, p1, add_child(n1, k, idx), idx, cc, max_nodes);
                    match parse_children(d, p1, add_child(n1, k, idx), idx, cc, max_nodes) {
                        Err(e) => {},
                        Ok((p3, n3)) => {
                            if pos < p3 <= d.len() {
                                lemma_children_err(d, p3, n3, k, (c - 1) as nat, max_nodes);
                            }
                        },
                    }
                }
            },
        }
    }
}

/// A successfully parsed tree is a tree of the value at the start of the
/// input: its root is node 0, whose header starts the input, every node
/// holds exactly as many children as its header announced (two per map
/// pair), each child is a later node, and every payload lies within the
/// bytes the value took.
pub proof fn law_parsed_tree_shape(d: Seq<u8>, max_nodes: Option<usize>)
    requires
        d.len() <= usize::MAX,
    ensures
        tree_of(d, max_nodes).error == Error::NoError ==> {
            let t = tree_of(d, max_nodes);
            &&& t.root == Some(0usize)
            &&& 1 <= t.nodes.len() <= t.size <= d.len()
            &&& t.nodes[0].start == 0
            &&& forall|i: int| 0 <= i < t.nodes.len() ==> #[trigger] node_complete(t.nodes, i, t.size)
        },
{
    reveal(parse_root);
    if d.len() == 0 {
        return ;
    }
    lemma_header_shape(d, 0, Seq::empty(), max_nodes);
    lemma_header_err(d, 0, Seq::empty(), max_nodes);
    match node_header(d, 0, Seq::empty(), max_nodes) {
        Err(e) => {},
        Ok((p1, n1, cc)) => {
            lemma_children_shape(d, p1, n1, 0, cc, max_nodes);
            lemma_children_err(d, p1, n1, 0, cc, max_nodes);
            match parse_children(d, p1, n1, 0, cc, max_nodes) {
                Err(e) => {},
                Ok((p, n)) => {
                    assert(parse_root(d, max_nodes) == Ok::<(int, Seq<NodeView>), Error>((p, n)));
                    assert(tree_of(d, max_nodes).nodes == n);
                    assert(tree_of(d, max_nodes).size == p);
                    assert(n1.len() == 1 && n1.last() == n1[0]);
                    assert(n1[0].children.len() == 0);
                    assert forall|i: int| 0 <= i < n.len() implies #[trigger] node_complete(
                        n,
                        i,
                        p,
                    ) by {
                        if i == 0 {
                            assert(n[0].children.subrange(0, 0) =~= Seq::<usize>::empty());
                        }
                    }
                },
            }
        },
    }
}

/// A reader at `pos` in `d`, without an error.
pub open spec fn reader_at(d: Seq<u8>, pos: int) -> ReaderView {
    ReaderView { data: d, pos, error: Error::NoError }
}

/// Whether a parse error must also be the error of skipping: without a
/// node limit, on an input that `u32` lengths can span.
pub open spec fn errors_agree(d: Seq<u8>, max_nodes: Option<usize>) -> bool {
    max_nodes is None && d.len() <= u32::MAX
}

/// Skipping the value at `pos` does what reading its header with
/// `node_header` and parsing its `cc` children (onto any nodes) does: it
/// stops where they end, or fails with their error where errors agree.
proof fn lemma_value_discard(
    d: Seq<u8>,
    pos: int,
    nodes: Seq<NodeView>,
    nodes2: Seq<NodeView>,
    idx: int,
    max_nodes: Option<usize>,
)
    requires
        0 <= pos <= d.len() <= usize::MAX,
    ensures
        (match node_header(d, pos, nodes, max_nodes) {
            Ok((p1, _, cc)) => pos < p1 <= d.len() ==> match parse_children(d, p1, nodes2, idx, cc, max_nodes) {
                Ok((p3, _)) => reader_at(d, pos).discard_value() == reader_at(d, p3),
                Err(e) => errors_agree(d, max_nodes) ==> reader_at(d, pos).discard_value().error == e,
            },
            Err(e) => errors_agree(d, max_nodes) ==> reader_at(d, pos).discard_value().error == e,
        }),
    decreases d.len() - pos, 0nat, 0nat,
{
    let r = reader_at(d, pos);
    let (r1, t) = r.tag_step(true);
    match node_header(d, pos, nodes, max_nodes) {
        Err(e) => {},
        Ok((p1, n1, cc)) => {
            if pos < p1 <= d.len() {
                lemma_children_discard(d, p1, nodes2, idx, cc, max_nodes);
                match t {
                    Some(tag) => {
                        match tag {
                            Tag::Array(n) => {},
                            Tag::Mapping(n) => {},
                            _ => {
                                assert(cc == 0);
                                reveal(parse_children);
                            },
                        }
                    },
                    None => {},
                }
            }
        },
    }
}

/// Skipping `c` values from `pos` does what parsing them as `c` children
/// does: it stops where they end, or fails with their error where errors
/// agree.
proof fn lemma_children_discard(
    d: Seq<u8>,
    pos: int,
    nodes: Seq<NodeView>,
    k: int,
    c: nat,
    max_nodes: Option<usize>,
)
    requires
        0 <= pos <= d.len() <= usize::MAX,
    ensures
        (match parse_children(d, pos, nodes, k, c, max_nodes) {
            Ok((p, _)) => reader_at(d, pos).discard_values(c as int) == reader_at(d, p),
            Err(e) => errors_agree(d, max_nodes) ==> reader_at(d, pos).discard_values(c as int).error == e,
        }),
    decreases d.len() - pos, 0nat, c,
{
    reveal(parse_children);
    if c > 0 {
        lemma_node_header_progress(d, pos, nodes, max_nodes);
        lemma_header_err(d, pos, nodes, max_nodes);
        lemma_discard_progress(reader_at(d, pos));
        let idx = nodes.len() as int;
        match node_header(d, pos, nodes, max_nodes) {
            Err(e) => {
                lemma_value_discard(d, pos, nodes, nodes, idx, max_nodes);
            },
            Ok((p1, n1, cc)) => {
                let n2 = add_child(n1, k, idx);
                lemma_children_progress(d, p1, n2, idx, cc, max_nodes);
                lemma_children_err(d, p1, n2, idx, cc, max_nodes);
                lemma_value_discard(d, pos, nodes, n2, idx, max_nodes);
                match parse_children(d, p1, n2, idx, cc, max_nodes) {
                    Err(e) => {},
                    Ok((p3, n3)) => {
                        lemma_children_discard(d, p3, n3, k, (c - 1) as nat, max_nodes);
                    },
                }
            },
        }
    }
}

/// Parsing a tree takes exactly the bytes that skipping the value takes:
/// when the first value of `d` parses into a tree, discarding it from the
/// start of `d` with a reader succeeds and stops at the tree's size.
pub proof fn law_tree_size_is_discard(d: Seq<u8>, max_nodes: Option<usize>)
    requires
        d.len() <= usize::MAX,
        tree_of(d, max_nodes).error == Error::NoError,
    ensures
        reader_at(d, 0).discard_value() == reader_at(d, tree_of(d, max_nodes).size),
{
    reveal(parse_root);
    lemma_node_header_progress(d, 0, Seq::empty(), max_nodes);
    lemma_header_err(d, 0, Seq::empty(), max_nodes);
    match node_header(d, 0, Seq::empty(), max_nodes) {
        Err(e) => {},
        Ok((p1, n1, cc)) => {
            lemma_children_err(d, p1, n1, 0, cc, max_nodes);
            match parse_children(d, p1, n1, 0, cc, max_nodes) {
                Err(e) => {},
                Ok((p3, n3)) => {
                    assert(tree_of(d, max_nodes).size == p3);
                    lemma_value_discard(d, 0, Seq::empty(), n1, 0, max_nodes);
                },
            }
        },
    }
}

/// The tree parser accepts exactly the values that a reader can skip:
/// without a node limit, on an input that `u32` lengths can span, parsing
/// the first value of `d` fails with the error that discarding it fails
/// with, and succeeds exactly when discarding does.
pub proof fn law_tree_parse_matches_discard(d: Seq<u8>)
    requires
        d.len() <= u32::MAX,
    ensures
        tree_of(d, None).error == reader_at(d, 0).discard_value().error,
{
    reveal(parse_root);
    if d.len() > 0 {
        lemma_node_header_progress(d, 0, Seq::empty(), None);
        match node_header(d, 0, Seq::empty(), None) {
            Err(e) => {
                lemma_value_discard(d, 0, Seq::empty(), Seq::empty(), 0, None);
            },
            Ok((p1, n1, cc)) => {
                lemma_value_discard(d, 0, Seq::empty(), n1, 0, None);
            },
        }
    }
}

/// Node `k` of `t` is a string whose bytes are exactly `w`: its length is
/// `w`'s and its payload, within the input, holds `w`'s bytes.
pub open spec fn str_node_is(t: TreeView, k: usize, w: Seq<u8>) -> bool {
    &&& k < t.nodes.len()
    &&& t.nodes[k as int].tag matches Tag::Str(len) && len as nat == w.len()
    &&& 0 <= t.nodes[k as int].payload_off
    &&& t.nodes[k as int].payload_off + w.len() <= t.data.len()
    &&& t.data.subrange(t.nodes[k as int].payload_off, t.nodes[k as int].payload_off + w.len()) == w
}

/// A string key matches a lookup key exactly when it has the lookup key's
/// length and bytes: a key that only starts with it, or is only a part of
/// it, does not match.
pub proof fn law_str_key_exact(t: TreeView, k: usize, w: Seq<u8>)
    ensures
        key_matches(t, k, KeyView::Str(w)) <==> str_node_is(t, k, w),
{
}

proof fn lemma_matching_pairs_facts(t: TreeView, ch: Seq<usize>, key: KeyView, n: nat)
    ensures
        forall|x: int|
            0 <= x < matching_pairs(t, ch, key, n).len() ==> 0 <= #[trigger] matching_pairs(t, ch, key, n)[x]
                < n && key_matches(t, ch[2 * matching_pairs(t, ch, key, n)[x]], key),
        (forall|k: int| 0 <= k < n ==> !key_matches(t, #[trigger] ch[2 * k], key)) ==> matching_pairs(
            t,
            ch,
            key,
            n,
        ).len() == 0,
    decreases n,
{
    if n > 0 {
        lemma_matching_pairs_facts(t, ch, key, (n - 1) as nat);
        let m = matching_pairs(t, ch, key, (n - 1) as nat);
        if (forall|k: int| 0 <= k < n ==> !key_matches(t, #[trigger] ch[2 * k], key)) {
            assert(!key_matches(t, ch[2 * (n - 1)], key));
        }
    }
}

proof fn lemma_matching_pairs_one(t: TreeView, ch: Seq<usize>, key: KeyView, n: nat, j: int)
    requires
        0 <= j < n,
        key_matches(t, ch[2 * j], key),
        forall|k: int| 0 <= k < n && k != j ==> !key_matches(t, #[trigger] ch[2 * k], key),
    ensures
        matching_pairs(t, ch, key, n) == seq![j],
    decreases n,
{
    let m = matching_pairs(t, ch, key, (n - 1) as nat);
    if j == n - 1 {
        lemma_matching_pairs_facts(t, ch, key, (n - 1) as nat);
        assert(forall|k: int| 0 <= k < n - 1 ==> !key_matches(t, #[trigger] ch[2 * k], key));
        assert(m.push(j) =~= seq![j]);
    } else {
        lemma_matching_pairs_one(t, ch, key, (n - 1) as nat, j);
        assert(!key_matches(t, ch[2 * (n - 1)], key));
    }
}

/// Looking up a string key in a map of an error-free tree: a value found is
/// the value of a pair whose key is exactly that string; when no key is,
/// nothing is found, and the tree records `Data` exactly when the key is
/// required.
pub proof fn law_lookup_str_found_key_is_exact(t: TreeView, i: usize, w: Seq<u8>, required: bool)
    requires
        t.error == Error::NoError,
        i < t.nodes.len(),
        t.nodes[i as int].tag is Mapping,
    ensures
        ({
            let ch = t.nodes[i as int].children;
            let (t2, r) = lookup_step(t, i, KeyView::Str(w), required);
            &&& r matches Some(v) ==> exists|j: int|
                0 <= j < ch.len() / 2 && v == ch[2 * j + 1] && str_node_is(t, #[trigger] ch[2 * j], w)
            &&& (forall|j: int| 0 <= j < ch.len() / 2 ==> !str_node_is(t, #[trigger] ch[2 * j], w)) ==> (r
                is None && (t2.error == Error::NoError <==> !required))
        }),
{
    let ch = t.nodes[i as int].children;
    let n = ch.len() / 2;
    let key = KeyView::Str(w);
    lemma_matching_pairs_facts(t, ch, key, n);
    let m = matching_pairs(t, ch, key, n);
    let (t2, r) = lookup_step(t, i, key, required);
    if m.len() == 1 {
        let j = m[0];
        law_str_key_exact(t, ch[2 * j], w);
        assert(0 <= j < n && str_node_is(t, ch[2 * j], w));
    }
    assert forall|k: int| 0 <= k < n && !str_node_is(t, #[trigger] ch[2 * k], w) implies !key_matches(
        t,
        ch[2 * k],
        key,
    ) by {
        law_str_key_exact(t, ch[2 * k], w);
    }
}

/// Looking up a string key that exactly one key of a map of an error-free
/// tree equals finds that pair's value and leaves the tree as it was, even
/// when other keys start with it or are parts of it.
pub proof fn law_lookup_str_unique(t: TreeView, i: usize, w: Seq<u8>, required: bool, j: int)
    requires
        t.error == Error::NoError,
        i < t.nodes.len(),
        t.nodes[i as int].tag is Mapping,
        0 <= j < t.nodes[i as int].children.len() / 2,
        str_node_is(t, t.nodes[i as int].children[2 * j], w),
        forall|k: int|
            0 <= k < t.nodes[i as int].children.len() / 2 && k != j ==> !str_node_is(
                t,
                #[trigger] t.nodes[i as int].children[2 * k],
                w,
            ),
    ensures
        lookup_step(t, i, KeyView::Str(w), required) == (t, Some(t.nodes[i as int].children[2 * j + 1])),
{
    let ch = t.nodes[i as int].children;
    let n = ch.len() / 2;
    let key = KeyView::Str(w);
    law_str_key_exact(t, ch[2 * j], w);
    assert forall|k: int| 0 <= k < n && k != j implies !key_matches(t, #[trigger] ch[2 * k], key) by {
        law_str_key_exact(t, ch[2 * k], w);
    }
    lemma_matching_pairs_one(t, ch, key, n, j);
}

proof fn lemma_matching_pairs_has(t: TreeView, ch: Seq<usize>, key: KeyView, n: nat, j: int)
    requires
        0 <= j < n,
        key_matches(t, ch[2 * j], key),
    ensures
        matching_pairs(t, ch, key, n).contains(j),
    decreases n,
{
    let m = matching_pairs(t, ch, key, (n - 1) as nat);
    if j == n - 1 {
        assert(m.push(j)[m.len() as int] == j);
    } else {
        lemma_matching_pairs_has(t, ch, key, (n - 1) as nat, j);
        let x = choose|x: int| 0 <= x < m.len() && m[x] == j;
        if key_matches(t, ch[2 * (n - 1)], key) {
            assert(m.push(n - 1)[x] == j);
        }
    }
}

/// Looking up a string key that two keys of a map of an error-free tree
/// equal finds nothing and records `Data`, required or not.
pub proof fn law_lookup_str_duplicate(t: TreeView, i: usize, w: Seq<u8>, required: bool, j1: int, j2: int)
    requires
        t.error == Error::NoError,
        i < t.nodes.len(),
        t.nodes[i as int].tag is Mapping,
        0 <= j1 < j2 < t.nodes[i as int].children.len() / 2,
        str_node_is(t, t.nodes[i as int].children[2 * j1], w),
        str_node_is(t, t.nodes[i as int].children[2 * j2], w),
    ensures
        lookup_step(t, i, KeyView::Str(w), required) == (t.flag(Error::Data), None::<usize>),
{
    let ch = t.nodes[i as int].children;
    let n = ch.len() / 2;
    let key = KeyView::Str(w);
    law_str_key_exact(t, ch[2 * j1], w);
    law_str_key_exact(t, ch[2 * j2], w);
    lemma_matching_pairs_has(t, ch, key, n, j1);
    lemma_matching_pairs_has(t, ch, key, n, j2);
    let m = matching_pairs(t, ch, key, n);
    if m.len() < 2 {
        let x1 = choose|x: int| 0 <= x < m.len() && m[x] == j1;
        let x2 = choose|x: int| 0 <= x < m.len() && m[x] == j2;
        assert(x1 == 0 && x2 == 0);
    }
}

} // verus!
