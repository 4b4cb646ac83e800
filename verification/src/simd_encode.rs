//! Batch node encoding: many nodes encoded into one buffer, four at a time,
//! in exactly the format that `encode_node` writes one node in.
use vstd::prelude::*;
use vstd::string::StrSliceExecFns;
use vstd::utf8::encode_utf8;
use crate::indexes::{encode_node, encode_node_spec, lemma_decimal_utf8, node_body, node_fits, node_tag, opt_field, text_field};
use crate::keybuf::{key_bytes, KeyBuf};
use crate::node::{opt_text, Node};
use crate::text::decimal_string;
use crate::varint::{encode_varint_to_vec, lemma_varint_len, varint};
pub use crate::bytes::prefix_compare_simd;

verus! {

/// The encodings of `nodes`, one after another.
pub open spec fn encode_all(nodes: Seq<Node>) -> Seq<u8>
    decreases nodes.len(),
{
    if nodes.len() == 0 {
        Seq::empty()
    } else {
        encode_all(nodes.drop_last()) + encode_node_spec(nodes.last()@)
    }
}

/// Whether every node of `nodes` can be encoded.
pub open spec fn all_fit(nodes: Seq<Node>) -> bool {
    forall|i: int| 0 <= i < nodes.len() ==> node_fits(#[trigger] nodes[i]@)
}

/// The type byte of a node: 0 IRI, 1 literal, 2 blank node, 3 quoted triple, 4 variable.
pub fn node_type_byte(node: &Node) -> (r: u8)
    ensures
        r == node_tag(node@),
{
    match node {
        Node::Iri(_) => 0u8,
        Node::Literal { .. } => 1u8,
        Node::BlankNode(_) => 2u8,
        Node::QuotedTriple(_) => 3u8,
        Node::Variable(_) => 4u8,
    }
}

fn append_bytes(output: &mut Vec<u8>, bytes: &[u8])
    ensures
        final(output)@ == old(output)@ + bytes@,
{
    let mut i: usize = 0;
    while i < bytes.len()
        invariant
            i <= bytes@.len(),
            output@ == old(output)@ + bytes@.take(i as int),
        decreases bytes@.len() - i,
    {
        output.push(bytes[i]);
        i += 1;
        assert(output@ =~= old(output)@ + bytes@.take(i as int));
    }
    assert(bytes@.take(i as int) =~= bytes@);
}

fn append_text(output: &mut Vec<u8>, s: &str)
    requires
        encode_utf8(s@).len() <= u64::MAX,
    ensures
        final(output)@ == old(output)@ + text_field(s@),
{
    let bytes = s.as_bytes();
    encode_varint_to_vec(output, bytes.len() as u64);
    append_bytes(output, bytes);
    assert(output@ =~= old(output)@ + text_field(s@));
}

fn append_opt_text(output: &mut Vec<u8>, s: &Option<String>)
    requires
        s matches Some(t) ==> encode_utf8(t@).len() <= u64::MAX,
    ensures
        final(output)@ == old(output)@ + opt_field(opt_text(*s)),
{
    match s {
        Some(t) => {
            output.push(1);
            append_text(output, t.as_str());
        },
        None => {
            output.push(0);
        },
    }
    assert(output@ =~= old(output)@ + opt_field(opt_text(*s)));
}

/// Appends everything of a node's encoding after its type byte: the
/// length-prefixed text, with a literal's language and datatype fields, and a
/// blank node written as its decimal identifier.
pub fn encode_node_data(output: &mut Vec<u8>, node: &Node)
    requires
        node_fits(node@),
    ensures
        final(output)@ == old(output)@ + node_body(node@),
{
    match node {
        Node::Literal { lexical_form, language, datatype } => {
            append_text(output, lexical_form.as_str());
            append_opt_text(output, language);
            append_opt_text(output, datatype);
        },
        Node::BlankNode(id) => {
            let id_str = decimal_string(*id);
            proof {
                lemma_decimal_utf8(*id as nat);
            }
            append_text(output, id_str.as_str());
        },
        Node::Iri(v) => {
            append_text(output, v.as_str());
        },
        Node::QuotedTriple(v) => {
            append_text(output, v.as_str());
        },
        Node::Variable(v) => {
            append_text(output, v.as_str());
        },
    }
    assert(output@ =~= old(output)@ + node_body(node@));
}

proof fn lemma_encode_all_push(nodes: Seq<Node>, n: Node)
    ensures
        encode_all(nodes.push(n)) == encode_all(nodes) + encode_node_spec(n@),
{
    assert(nodes.push(n).drop_last() =~= nodes);
}

/// Encodes four nodes, each as its type byte followed by its data.
fn encode_four_nodes_simd(output: &mut Vec<u8>, nodes: &[Node])
    requires
        nodes@.len() == 4,
        all_fit(nodes@),
    ensures
        final(output)@ == old(output)@ + encode_all(nodes@),
{
    let mut i: usize = 0;
    assert(nodes@.take(0) =~= Seq::<Node>::empty());
    while i < 4
        invariant
            i <= 4,
            nodes@.len() == 4,
            all_fit(nodes@),
            output@ == old(output)@ + encode_all(nodes@.take(i as int)),
        decreases 4 - i,
    {
        let node = &nodes[i];
        output.push(node_type_byte(node));
        encode_node_data(output, node);
        proof {
            assert(nodes@.take(i + 1) =~= nodes@.take(i as int).push(*node));
            lemma_encode_all_push(nodes@.take(i as int), *node);
        }
        assert(output@ =~= old(output)@ + encode_all(nodes@.take(i + 1)));
        i += 1;
    }
    assert(nodes@.take(4) =~= nodes@);
}

/// Encodes a batch of nodes into one buffer: each full group of four through
/// the type-byte-and-data path, the rest one by one through `encode_node`; the
/// result is the nodes' encodings one after another.
pub fn encode_nodes_batch_simd(nodes: &[Node]) -> (r: Vec<u8>)
    requires
        all_fit(nodes@),
        encode_all(nodes@).len() <= usize::MAX,
    ensures
        r@ == encode_all(nodes@),
{
    let mut output: Vec<u8> = Vec::new();
    let n = nodes.len();
    let mut start: usize = 0;
    assert(nodes@.take(0) =~= Seq::<Node>::empty());
    while start < n
        invariant
            n == nodes@.len(),
            start <= n,
            all_fit(nodes@),
            encode_all(nodes@).len() <= usize::MAX,
            output@ == encode_all(nodes@.take(start as int)),
        decreases n - start,
    {
        if n - start >= 4 {
            let chunk = vstd::slice::slice_subrange(nodes, start, start + 4);
            proof {
                assert(chunk@ =~= nodes@.subrange(start as int, start + 4));
                lemma_encode_all_concat(nodes@.take(start as int), chunk@);
                assert(nodes@.take(start + 4) =~= nodes@.take(start as int) + chunk@);
            }
            encode_four_nodes_simd(&mut output, chunk);
            start = start + 4;
        } else {
            let node = &nodes[start];
            proof {
                assert(nodes@.take(start + 1) =~= nodes@.take(start as int).push(*node));
                lemma_encode_all_push(nodes@.take(start as int), *node);
                lemma_encode_all_prefix(nodes@, start + 1);
            }
            let mut buf = KeyBuf::new();
            encode_node(&mut buf, node);
            append_bytes(&mut output, buf.as_slice());
            start = start + 1;
        }
    }
    assert(nodes@.take(n as int) =~= nodes@);
    output
}

proof fn lemma_encode_all_concat(a: Seq<Node>, b: Seq<Node>)
    ensures
        encode_all(a + b) == encode_all(a) + encode_all(b),
    decreases b.len(),
{
    if b.len() == 0 {
        assert(a + b =~= a);
        assert(encode_all(a) + encode_all(b) =~= encode_all(a));
    } else {
        assert((a + b).drop_last() =~= a + b.drop_last());
        lemma_encode_all_concat(a, b.drop_last());
        assert(encode_all(a + b) =~= encode_all(a) + encode_all(b));
    }
}

proof fn lemma_encode_all_prefix(nodes: Seq<Node>, k: int)
    requires
        0 <= k <= nodes.len(),
    ensures
        encode_all(nodes.take(k)).len() <= encode_all(nodes).len(),
{
    lemma_encode_all_concat(nodes.take(k), nodes.skip(k));
    assert(nodes.take(k) + nodes.skip(k) =~= nodes);
}

} // verus!
