//! Quad index keys: the four permutation orders (SPOC, POCS, OCSP, CSPO), the
//! binary node encoding they are built from, and its decoder.
use vstd::prelude::*;
use vstd::slice::slice_subrange;
use vstd::string::StrSliceExecFns;
use vstd::utf8::{decode_utf8, encode_utf8, valid_utf8};
use crate::keybuf::{key_bytes, KeyBuf};
use crate::node::{opt_node, Node, NodeView, Quad, QuadView};
use crate::text::{decimal, decimal_string, parse_u64, parse_u64_spec, lemma_parse_decimal, chars_of};
use crate::varint::{
    decode_varint_at, lemma_parse_varint_roundtrip, lemma_varint_len, parse_varint, varint,
    KeyError,
};

verus! {

/// Index type for different access patterns.
#[derive(Debug, Clone, Copy, PartialEq, Eq, Hash, Structural)]
pub enum IndexType {
    /// Subject-Predicate-Object-Context; best for (?s ?p ?o) or (?s ?p ?).
    SPOC,
    /// Predicate-Object-Context-Subject; best for (? ?p ?o) or (? ?p ?).
    POCS,
    /// Object-Context-Subject-Predicate; best for (? ? ?o).
    OCSP,
    /// Context-Subject-Predicate-Object; best for GRAPH queries.
    CSPO,
}

/// A position of a quad.
#[derive(Debug, Clone, Copy, PartialEq, Eq, Structural)]
pub enum Component {
    /// The subject.
    Subject,
    /// The predicate.
    Predicate,
    /// The object.
    Object,
    /// The graph (possibly the default graph).
    Graph,
}

/// The order in which an index lays out a quad's components.
pub open spec fn index_order(t: IndexType) -> Seq<Component> {
    match t {
        IndexType::SPOC => seq![Component::Subject, Component::Predicate, Component::Object, Component::Graph],
        IndexType::POCS => seq![Component::Predicate, Component::Object, Component::Graph, Component::Subject],
        IndexType::OCSP => seq![Component::Object, Component::Graph, Component::Subject, Component::Predicate],
        IndexType::CSPO => seq![Component::Graph, Component::Subject, Component::Predicate, Component::Object],
    }
}

/// The type byte of a node: 0 IRI, 1 literal, 2 blank node, 3 quoted triple, 4 variable.
pub open spec fn node_tag(n: NodeView) -> u8 {
    match n {
        NodeView::Iri(_) => 0,
        NodeView::Literal { .. } => 1,
        NodeView::BlankNode(_) => 2,
        NodeView::QuotedTriple(_) => 3,
        NodeView::Variable(_) => 4,
    }
}

/// A length-prefixed text: the varint byte length of its UTF-8 form, then the bytes.
pub open spec fn text_field(t: Seq<char>) -> Seq<u8> {
    varint(encode_utf8(t).len()) + encode_utf8(t)
}

/// An optional text: a 1 marker and the text, or a 0 marker alone.
pub open spec fn opt_field(o: Option<Seq<char>>) -> Seq<u8> {
    match o {
        Some(t) => seq![1u8] + text_field(t),
        None => seq![0u8],
    }
}

/// Everything of a node's encoding after its type byte.
pub open spec fn node_body(n: NodeView) -> Seq<u8> {
    match n {
        NodeView::Literal { lexical_form, language, datatype } => text_field(lexical_form) + opt_field(
            language,
        ) + opt_field(datatype),
        NodeView::BlankNode(id) => text_field(decimal(id as nat)),
        NodeView::Iri(t) => text_field(t),
        NodeView::QuotedTriple(t) => text_field(t),
        NodeView::Variable(t) => text_field(t),
    }
}

/// The encoding of a node: `[type][length varint][text]`, literals followed by
/// their language and datatype fields, blank nodes by their decimal identifier.
pub open spec fn encode_node_spec(n: NodeView) -> Seq<u8> {
    seq![node_tag(n)] + node_body(n)
}

/// The encoding of a graph: a 1 marker and the node, or a 0 marker for the
/// default graph.
pub open spec fn encode_graph_spec(g: Option<NodeView>) -> Seq<u8> {
    match g {
        Some(n) => seq![1u8] + encode_node_spec(n),
        None => seq![0u8],
    }
}

/// The encoding of one component of a quad.
pub open spec fn encode_component(q: QuadView, c: Component) -> Seq<u8> {
    match c {
        Component::Subject => encode_node_spec(q.subject),
        Component::Predicate => encode_node_spec(q.predicate),
        Component::Object => encode_node_spec(q.object),
        Component::Graph => encode_graph_spec(q.graph),
    }
}

/// The concatenated encodings of the given components.
pub open spec fn encode_components(q: QuadView, cs: Seq<Component>) -> Seq<u8>
    decreases cs.len(),
{
    if cs.len() == 0 {
        Seq::empty()
    } else {
        encode_component(q, cs[0]) + encode_components(q, cs.drop_first())
    }
}

/// The key of a quad in an index: its components' encodings in the index's order.
pub open spec fn key_spec(t: IndexType, q: QuadView) -> Seq<u8> {
    encode_components(q, index_order(t))
}

/// Whether every text of a node has a UTF-8 form whose length fits in a `u64`.
pub open spec fn node_fits(n: NodeView) -> bool {
    match n {
        NodeView::Literal { lexical_form, language, datatype } => {
            &&& encode_utf8(lexical_form).len() <= u64::MAX
            &&& (language matches Some(l) ==> encode_utf8(l).len() <= u64::MAX)
            &&& (datatype matches Some(d) ==> encode_utf8(d).len() <= u64::MAX)
        },
        NodeView::BlankNode(_) => true,
        NodeView::Iri(t) => encode_utf8(t).len() <= u64::MAX,
        NodeView::QuotedTriple(t) => encode_utf8(t).len() <= u64::MAX,
        NodeView::Variable(t) => encode_utf8(t).len() <= u64::MAX,
    }
}

/// Whether the decoder reads a node back: IRIs, blank nodes, and literals
/// that do not carry both a language tag and a datatype.
pub open spec fn decodable(n: NodeView) -> bool {
    &&& node_fits(n)
    &&& match n {
        NodeView::Iri(_) => true,
        NodeView::BlankNode(_) => true,
        NodeView::Literal { language, datatype, .. } => !(language is Some && datatype is Some),
        _ => false,
    }
}

/// Whether every node of a quad is decodable.
pub open spec fn quad_decodable(q: QuadView) -> bool {
    &&& decodable(q.subject)
    &&& decodable(q.predicate)
    &&& decodable(q.object)
    &&& (q.graph matches Some(g) ==> decodable(g))
}

/// Appends the LEB128 encoding of `value` to a key buffer.
pub fn encode_varint(buf: &mut KeyBuf, value: u64)
    requires
        key_bytes(*old(buf)).len() + varint(value as nat).len() <= usize::MAX,
    ensures
        key_bytes(*final(buf)) == key_bytes(*old(buf)) + varint(value as nat),
{
    let mut value = value;
    let ghost start = key_bytes(*old(buf));
    let ghost orig = value;
    loop
        invariant_except_break
            start + varint(orig as nat) == key_bytes(*buf) + varint(value as nat),
            start.len() + varint(orig as nat).len() <= usize::MAX,
        ensures
            key_bytes(*buf) == start + varint(orig as nat),
        decreases value,
    {
        proof {
            assert((value & 0x7F) == value % 128) by (bit_vector);
            assert((value >> 7) == value / 128) by (bit_vector);
            assert(((value & 0x7F) as u8 | 0x80) == ((value & 0x7F) as u8) + 128) by (bit_vector);
            assert((value & 0x7F) < 128) by (bit_vector);
        }
        let ghost before = value;
        let mut byte = (value & 0x7F) as u8;
        value = value >> 7;
        if value != 0 {
            byte = byte | 0x80;
        }
        let ghost out0 = key_bytes(*buf);
        proof {
            if before >= 128 {
                assert(varint(before as nat) == seq![byte] + varint(value as nat));
            } else {
                assert(varint(before as nat) == seq![byte]);
            }
            assert(out0.len() + varint(before as nat).len() == start.len() + varint(orig as nat).len()) by {
                assert((start + varint(orig as nat)).len() == (out0 + varint(before as nat)).len());
            }
        }
        buf.push(byte);
        proof {
            if before >= 128 {
                assert(out0 + varint(before as nat) =~= key_bytes(*buf) + varint(value as nat));
            } else {
                assert(out0 + varint(before as nat) =~= key_bytes(*buf));
            }
        }
        if value == 0 {
            break;
        }
    }
}

/// Appends a length-prefixed text.
fn encode_text(buf: &mut KeyBuf, s: &str)
    requires
        key_bytes(*old(buf)).len() + text_field(s@).len() <= usize::MAX,
        encode_utf8(s@).len() <= u64::MAX,
    ensures
        key_bytes(*final(buf)) == key_bytes(*old(buf)) + text_field(s@),
{
    let bytes = s.as_bytes();
    let n = bytes.len();
    encode_varint(buf, n as u64);
    buf.extend_from_slice(bytes);
    assert(key_bytes(*buf) =~= key_bytes(*old(buf)) + text_field(s@));
}

/// Appends an optional text with its presence marker.
fn encode_opt_text(buf: &mut KeyBuf, s: &Option<String>)
    requires
        key_bytes(*old(buf)).len() + opt_field(crate::node::opt_text(*s)).len() <= usize::MAX,
        s matches Some(t) ==> encode_utf8(t@).len() <= u64::MAX,
    ensures
        key_bytes(*final(buf)) == key_bytes(*old(buf)) + opt_field(crate::node::opt_text(*s)),
{
    match s {
        Some(t) => {
            buf.push(1);
            encode_text(buf, t.as_str());
            assert(key_bytes(*buf) =~= key_bytes(*old(buf)) + opt_field(crate::node::opt_text(*s)));
        },
        None => {
            buf.push(0);
            assert(key_bytes(*buf) =~= key_bytes(*old(buf)) + opt_field(crate::node::opt_text(*s)));
        },
    }
}

/// Appends the encoding of a node: a type byte, then its length-prefixed text;
/// a literal adds its language and datatype fields, a blank node is written as
/// its decimal identifier.
pub fn encode_node(buf: &mut KeyBuf, node: &Node)
    requires
        key_bytes(*old(buf)).len() + encode_node_spec(node@).len() <= usize::MAX,
        node_fits(node@),
    ensures
        key_bytes(*final(buf)) == key_bytes(*old(buf)) + encode_node_spec(node@),
{
    let type_byte: u8 = match node {
        Node::Iri(_) => 0,
        Node::Literal { .. } => 1,
        Node::BlankNode(_) => 2,
        Node::QuotedTriple(_) => 3,
        Node::Variable(_) => 4,
    };
    buf.push(type_byte);
    match node {
        Node::Literal { lexical_form, language, datatype } => {
            encode_text(buf, lexical_form.as_str());
            encode_opt_text(buf, language);
            encode_opt_text(buf, datatype);
        },
        Node::BlankNode(id) => {
            let id_str = decimal_string(*id);
            proof {
                lemma_decimal_utf8(*id as nat);
            }
            encode_text(buf, id_str.as_str());
        },
        Node::Iri(v) => {
            encode_text(buf, v.as_str());
        },
        Node::QuotedTriple(v) => {
            encode_text(buf, v.as_str());
        },
        Node::Variable(v) => {
            encode_text(buf, v.as_str());
        },
    }
    assert(key_bytes(*buf) =~= key_bytes(*old(buf)) + encode_node_spec(node@));
}

/// A decimal numeral is ASCII, so its UTF-8 form is one byte per digit.
pub proof fn lemma_decimal_utf8(n: nat)
    ensures
        encode_utf8(decimal(n)).len() == decimal(n).len(),
        decimal(n).len() <= if n < 1 { 1 } else { n },
{
    crate::text::lemma_decimal_digits(n);
    let d = decimal(n);
    assert(vstd::utf8::is_ascii_chars(d)) by {
        assert forall|i| 0 <= i < d.len() implies '\0' <= #[trigger] d[i] <= '\u{7f}' by {
            assert(crate::text::is_digit(d[i]));
        }
    }
    vstd::utf8::is_ascii_chars_encode_utf8(d);
    lemma_decimal_len(n);
}

proof fn lemma_decimal_len(n: nat)
    ensures
        decimal(n).len() <= if n < 1 { 1 } else { n },
    decreases n,
{
    if n >= 10 {
        lemma_decimal_len(n / 10);
    }
}

/// Appends the encoding of a graph (an optional node): a 1 marker and the
/// node, or a lone 0 marker for the default graph.
pub fn encode_node_opt(buf: &mut KeyBuf, node: &Option<Node>)
    requires
        key_bytes(*old(buf)).len() + encode_graph_spec(opt_node(*node)).len() <= usize::MAX,
        node matches Some(n) ==> node_fits(n@),
    ensures
        key_bytes(*final(buf)) == key_bytes(*old(buf)) + encode_graph_spec(opt_node(*node)),
{
    match node {
        Some(n) => {
            buf.push(1);
            encode_node(buf, n);
            assert(key_bytes(*buf) =~= key_bytes(*old(buf)) + encode_graph_spec(opt_node(*node)));
        },
        None => {
            buf.push(0);
            assert(key_bytes(*buf) =~= key_bytes(*old(buf)) + encode_graph_spec(opt_node(*node)));
        },
    }
}

/// Whether every node of a quad has texts whose UTF-8 lengths fit in a `u64`.
pub open spec fn quad_fits(q: QuadView) -> bool {
    &&& node_fits(q.subject)
    &&& node_fits(q.predicate)
    &&& node_fits(q.object)
    &&& (q.graph matches Some(g) ==> node_fits(g))
}

/// The key of a quad, written out for each index order.
pub proof fn lemma_key_spec_unfold(t: IndexType, q: QuadView)
    ensures
        key_spec(t, q) == match t {
            IndexType::SPOC => encode_node_spec(q.subject) + encode_node_spec(q.predicate)
                + encode_node_spec(q.object) + encode_graph_spec(q.graph),
            IndexType::POCS => encode_node_spec(q.predicate) + encode_node_spec(q.object)
                + encode_graph_spec(q.graph) + encode_node_spec(q.subject),
            IndexType::OCSP => encode_node_spec(q.object) + encode_graph_spec(q.graph)
                + encode_node_spec(q.subject) + encode_node_spec(q.predicate),
            IndexType::CSPO => encode_graph_spec(q.graph) + encode_node_spec(q.subject)
                + encode_node_spec(q.predicate) + encode_node_spec(q.object),
        },
{
    let o = index_order(t);
    reveal_with_fuel(encode_components, 5);
    assert(o.drop_first().drop_first().drop_first().drop_first() =~= Seq::<Component>::empty());
    let e3 = encode_components(q, o.drop_first().drop_first().drop_first());
    assert(e3 == encode_component(q, o[3]) + Seq::<u8>::empty());
    assert(e3 =~= encode_component(q, o[3]));
    assert(o.drop_first()[0] == o[1]);
    assert(o.drop_first().drop_first()[0] == o[2]);
    assert(o.drop_first().drop_first().drop_first()[0] == o[3]);
    assert(key_spec(t, q) =~= encode_component(q, o[0]) + encode_component(q, o[1]) + encode_component(q, o[2])
        + encode_component(q, o[3]));
}

impl IndexType {
    /// All index types, in the order SPOC, POCS, OCSP, CSPO.
    pub fn all() -> (r: &'static [IndexType])
        ensures
            r@ == seq![IndexType::SPOC, IndexType::POCS, IndexType::OCSP, IndexType::CSPO],
    {
        let r: &'static [IndexType] = &[IndexType::SPOC, IndexType::POCS, IndexType::OCSP, IndexType::CSPO];
        assert(r@ =~= seq![IndexType::SPOC, IndexType::POCS, IndexType::OCSP, IndexType::CSPO]);
        r
    }

    /// Encodes a quad into this index's key: the four components in the
    /// index's order.
    pub fn encode_key(&self, quad: &Quad) -> (r: KeyBuf)
        requires
            key_spec(*self, quad@).len() <= usize::MAX,
            quad_fits(quad@),
        ensures
            key_bytes(r) == key_spec(*self, quad@),
    {
        proof {
            lemma_key_spec_unfold(*self, quad@);
        }
        let mut key = KeyBuf::new();
        match self {
            IndexType::SPOC => {
                encode_node(&mut key, &quad.subject);
                encode_node(&mut key, &quad.predicate);
                encode_node(&mut key, &quad.object);
                encode_node_opt(&mut key, &quad.graph);
            },
            IndexType::POCS => {
                encode_node(&mut key, &quad.predicate);
                encode_node(&mut key, &quad.object);
                encode_node_opt(&mut key, &quad.graph);
                encode_node(&mut key, &quad.subject);
            },
            IndexType::OCSP => {
                encode_node(&mut key, &quad.object);
                encode_node_opt(&mut key, &quad.graph);
                encode_node(&mut key, &quad.subject);
                encode_node(&mut key, &quad.predicate);
            },
            IndexType::CSPO => {
                encode_node_opt(&mut key, &quad.graph);
                encode_node(&mut key, &quad.subject);
                encode_node(&mut key, &quad.predicate);
                encode_node(&mut key, &quad.object);
            },
        }
        assert(key_bytes(key) =~= key_spec(*self, quad@));
        key
    }
}

} // verus!

verus! {

/// Which text of a node a field holds; it decides the error a bad field gives.
#[derive(Clone, Copy)]
pub enum FieldRole {
    /// The node's main text (IRI, lexical form, identifier).
    Value,
    /// A literal's language tag.
    Language,
    /// A literal's datatype IRI.
    Datatype,
}

/// The error for a field whose stated length runs past the end.
pub open spec fn bounds_error(r: FieldRole) -> KeyError {
    match r {
        FieldRole::Value => KeyError::InvalidNodeEncoding,
        FieldRole::Language => KeyError::InvalidLanguageTagEncoding,
        FieldRole::Datatype => KeyError::InvalidDatatypeEncoding,
    }
}

/// The error for a field whose bytes are not UTF-8.
pub open spec fn utf8_error(r: FieldRole) -> KeyError {
    match r {
        FieldRole::Value => KeyError::InvalidUtf8,
        FieldRole::Language => KeyError::InvalidUtf8InLanguageTag,
        FieldRole::Datatype => KeyError::InvalidUtf8InDatatype,
    }
}

/// The error for an optional field whose marker byte is missing.
pub open spec fn marker_error(r: FieldRole) -> KeyError {
    match r {
        FieldRole::Datatype => KeyError::MissingDatatypeMarker,
        _ => KeyError::MissingLanguageMarker,
    }
}

/// Reading a length-prefixed text from the start of `d`: the text and the
/// number of bytes it took.
pub open spec fn parse_text_field(d: Seq<u8>, role: FieldRole) -> Result<(Seq<char>, nat), KeyError> {
    match parse_varint(d) {
        Err(e) => Err(e),
        Ok((len, k)) => if k + len > d.len() {
            Err(bounds_error(role))
        } else if valid_utf8(d.subrange(k as int, k + len)) {
            Ok((decode_utf8(d.subrange(k as int, k + len)), (k + len) as nat))
        } else {
            Err(utf8_error(role))
        },
    }
}

/// Reading an optional text: a marker byte (1 means a text follows, anything
/// else means none), then the text.
pub open spec fn parse_opt_field(d: Seq<u8>, role: FieldRole) -> Result<(Option<Seq<char>>, nat), KeyError> {
    if d.len() == 0 {
        Err(marker_error(role))
    } else if d[0] == 1 {
        match parse_text_field(d.drop_first(), role) {
            Err(e) => Err(e),
            Ok((t, k)) => Ok((Some(t), k + 1)),
        }
    } else {
        Ok((None, 1))
    }
}

/// Reading a node from the start of `d`: the node and the number of bytes it
/// took. The main text is read and checked before the type byte is looked at;
/// only IRIs (0), literals (1) and blank nodes (2) are read back.
#[verifier::opaque]
pub open spec fn parse_node(d: Seq<u8>) -> Result<(NodeView, nat), KeyError> {
    if d.len() == 0 {
        Err(KeyError::EmptyData)
    } else {
        match parse_text_field(d.drop_first(), FieldRole::Value) {
            Err(e) => Err(e),
            Ok((value, k)) => {
                let off = 1 + k;
                if d[0] == 0 {
                    Ok((NodeView::Iri(value), off))
                } else if d[0] == 1 {
                    match parse_opt_field(d.skip(off as int), FieldRole::Language) {
                        Err(e) => Err(e),
                        Ok((language, k2)) => match parse_opt_field(d.skip((off + k2) as int), FieldRole::Datatype) {
                            Err(e) => Err(e),
                            Ok((datatype, k3)) => if language is Some && datatype is Some {
                                Err(KeyError::LanguageAndDatatype)
                            } else {
                                Ok((NodeView::Literal { lexical_form: value, language, datatype }, off + k2 + k3))
                            },
                        },
                    }
                } else if d[0] == 2 {
                    match parse_u64_spec(value) {
                        Some(id) => Ok((NodeView::BlankNode(id), off)),
                        None => Err(KeyError::InvalidBlankNodeId),
                    }
                } else {
                    Err(KeyError::UnknownNodeType(d[0]))
                }
            },
        }
    }
}

/// Reading a graph: a 0 marker is the default graph, any other marker is
/// followed by a node.
pub open spec fn parse_graph(d: Seq<u8>) -> Result<(Option<NodeView>, nat), KeyError> {
    if d.len() == 0 {
        Err(KeyError::EmptyData)
    } else if d[0] == 0 {
        Ok((None, 1))
    } else {
        match parse_node(d.drop_first()) {
            Err(e) => Err(e),
            Ok((n, k)) => Ok((Some(n), k + 1)),
        }
    }
}

/// Reading one component; a subject, predicate or object comes back as `Some`.
pub open spec fn parse_component(d: Seq<u8>, c: Component) -> Result<(Option<NodeView>, nat), KeyError> {
    match c {
        Component::Graph => parse_graph(d),
        _ => match parse_node(d) {
            Err(e) => Err(e),
            Ok((n, k)) => Ok((Some(n), k)),
        },
    }
}

/// Reading the given components one after another.
pub open spec fn parse_components(d: Seq<u8>, cs: Seq<Component>) -> Result<Seq<Option<NodeView>>, KeyError>
    decreases cs.len(),
{
    if cs.len() == 0 {
        Ok(Seq::empty())
    } else {
        match parse_component(d, cs[0]) {
            Err(e) => Err(e),
            Ok((v, k)) => match parse_components(d.skip(k as int), cs.drop_first()) {
                Err(e) => Err(e),
                Ok(vs) => Ok(seq![v] + vs),
            },
        }
    }
}

/// The value of one component of a quad, as `parse_component` gives it back.
pub open spec fn component_value(q: QuadView, c: Component) -> Option<NodeView> {
    match c {
        Component::Subject => Some(q.subject),
        Component::Predicate => Some(q.predicate),
        Component::Object => Some(q.object),
        Component::Graph => q.graph,
    }
}

/// The quad whose components, in the index's order, are `vs`.
pub open spec fn assemble(t: IndexType, vs: Seq<Option<NodeView>>) -> QuadView {
    match t {
        IndexType::SPOC => QuadView { subject: vs[0]->0, predicate: vs[1]->0, object: vs[2]->0, graph: vs[3] },
        IndexType::POCS => QuadView { predicate: vs[0]->0, object: vs[1]->0, graph: vs[2], subject: vs[3]->0 },
        IndexType::OCSP => QuadView { object: vs[0]->0, graph: vs[1], subject: vs[2]->0, predicate: vs[3]->0 },
        IndexType::CSPO => QuadView { graph: vs[0], subject: vs[1]->0, predicate: vs[2]->0, object: vs[3]->0 },
    }
}

/// What decoding a key of an index gives: the quad read from its components in
/// the index's order (bytes after the last component are ignored), or the first
/// error met.
pub open spec fn parse_key(t: IndexType, d: Seq<u8>) -> Result<QuadView, KeyError> {
    match parse_components(d, index_order(t)) {
        Err(e) => Err(e),
        Ok(vs) => Ok(assemble(t, vs)),
    }
}

} // verus!

verus! {

/// A decoder's answer agrees with the parse of the bytes from `at` on: the same
/// value with the end position `at + k`, or the same error.
pub open spec fn agrees<T, V>(r: Result<(T, usize), KeyError>, p: Result<(V, nat), KeyError>, at: nat, view: spec_fn(T) -> V) -> bool {
    match (r, p) {
        (Ok((x, e)), Ok((v, k))) => view(x) == v && e == at + k,
        (Err(a), Err(b)) => a == b,
        _ => false,
    }
}

fn role_bounds_error(role: FieldRole) -> (e: KeyError)
    ensures
        e == bounds_error(role),
{
    match role {
        FieldRole::Value => KeyError::InvalidNodeEncoding,
        FieldRole::Language => KeyError::InvalidLanguageTagEncoding,
        FieldRole::Datatype => KeyError::InvalidDatatypeEncoding,
    }
}

fn role_utf8_error(role: FieldRole) -> (e: KeyError)
    ensures
        e == utf8_error(role),
{
    match role {
        FieldRole::Value => KeyError::InvalidUtf8,
        FieldRole::Language => KeyError::InvalidUtf8InLanguageTag,
        FieldRole::Datatype => KeyError::InvalidUtf8InDatatype,
    }
}

fn role_marker_error(role: FieldRole) -> (e: KeyError)
    ensures
        e == marker_error(role),
{
    match role {
        FieldRole::Datatype => KeyError::MissingDatatypeMarker,
        _ => KeyError::MissingLanguageMarker,
    }
}

/// Reads a length-prefixed UTF-8 text at `data[at]`; gives the text and the
/// position after it.
fn decode_text_field(data: &[u8], at: usize, role: FieldRole) -> (r: Result<(String, usize), KeyError>)
    requires
        at <= data@.len(),
    ensures
        agrees(r, parse_text_field(data@.skip(at as int), role), at as nat, |s: String| s@),
        r matches Ok((_, e)) ==> e <= data@.len(),
{
    let ghost d = data@.skip(at as int);
    proof {
        crate::varint::lemma_parse_varint_len(d);
    }
    let (len, k) = match decode_varint_at(data, at) {
        Ok(p) => p,
        Err(e) => {
            return Err(e);
        },
    };
    assert(parse_varint(d) matches Ok((w, j)) && w == len && j == k as nat);
    assert(k as nat <= d.len());
    assert(d.len() == data@.len() - at);
    let dlen = data.len();
    let start = at + k;
    if len > (data.len() - start) as u64 {
        return Err(role_bounds_error(role));
    }
    let end = start + len as usize;
    let bytes = slice_subrange(data, start, end);
    assert(bytes@ =~= d.subrange(k as int, k + len));
    match crate::text::utf8_string(bytes) {
        Some(s) => Ok((s, end)),
        None => Err(role_utf8_error(role)),
    }
}

/// Reads an optional text at `data[at]`: a marker byte, then the text when
/// the marker is 1.
fn decode_opt_field(data: &[u8], at: usize, role: FieldRole) -> (r: Result<(Option<String>, usize), KeyError>)
    requires
        at <= data@.len(),
    ensures
        agrees(r, parse_opt_field(data@.skip(at as int), role), at as nat, |o: Option<String>| crate::node::opt_text(o)),
        r matches Ok((_, e)) ==> e <= data@.len(),
{
    let ghost d = data@.skip(at as int);
    if at >= data.len() {
        return Err(role_marker_error(role));
    }
    if data[at] == 1 {
        assert(d.drop_first() =~= data@.skip(at + 1));
        match decode_text_field(data, at + 1, role) {
            Ok((s, e)) => Ok((Some(s), e)),
            Err(err) => Err(err),
        }
    } else {
        Ok((None, at + 1))
    }
}

/// Reads a node at `data[at]`; gives the node and the position after it.
pub fn decode_node(data: &[u8], at: usize) -> (r: Result<(Node, usize), KeyError>)
    requires
        at <= data@.len(),
    ensures
        agrees(r, parse_node(data@.skip(at as int)), at as nat, |n: Node| n@),
        r matches Ok((_, e)) ==> e <= data@.len(),
{
    let ghost d = data@.skip(at as int);
    proof {
        reveal(parse_node);
    }
    if at >= data.len() {
        return Err(KeyError::EmptyData);
    }
    let type_byte = data[at];
    assert(d.drop_first() =~= data@.skip(at + 1));
    let (value, off) = match decode_text_field(data, at + 1, FieldRole::Value) {
        Ok(p) => p,
        Err(e) => {
            return Err(e);
        },
    };
    if type_byte == 0 {
        Ok((Node::Iri(value), off))
    } else if type_byte == 1 {
        assert(d.skip(off - at) =~= data@.skip(off as int));
        let (language, off2) = match decode_opt_field(data, off, FieldRole::Language) {
            Ok(p) => p,
            Err(e) => {
                return Err(e);
            },
        };
        assert(d.skip(off2 - at) =~= data@.skip(off2 as int));
        let (datatype, off3) = match decode_opt_field(data, off2, FieldRole::Datatype) {
            Ok(p) => p,
            Err(e) => {
                return Err(e);
            },
        };
        if language.is_some() && datatype.is_some() {
            return Err(KeyError::LanguageAndDatatype);
        }
        Ok((Node::Literal { lexical_form: value, language, datatype }, off3))
    } else if type_byte == 2 {
        let cs = chars_of(value.as_str());
        match parse_u64(cs.as_slice()) {
            Some(id) => Ok((Node::BlankNode(id), off)),
            None => Err(KeyError::InvalidBlankNodeId),
        }
    } else {
        Err(KeyError::UnknownNodeType(type_byte))
    }
}

/// Reads a graph at `data[at]`: a 0 marker for the default graph, or a marker
/// and a node.
pub fn decode_node_opt(data: &[u8], at: usize) -> (r: Result<(Option<Node>, usize), KeyError>)
    requires
        at <= data@.len(),
    ensures
        agrees(r, parse_graph(data@.skip(at as int)), at as nat, |o: Option<Node>| opt_node(o)),
        r matches Ok((_, e)) ==> e <= data@.len(),
{
    let ghost d = data@.skip(at as int);
    if at >= data.len() {
        return Err(KeyError::EmptyData);
    }
    if data[at] == 0 {
        Ok((None, at + 1))
    } else {
        assert(d.drop_first() =~= data@.skip(at + 1));
        match decode_node(data, at + 1) {
            Ok((n, e)) => Ok((Some(n), e)),
            Err(err) => Err(err),
        }
    }
}

} // verus!

verus! {

/// `r` put in front of a parse result, when it succeeded.
pub open spec fn prepend(p: Seq<Option<NodeView>>, r: Result<Seq<Option<NodeView>>, KeyError>) -> Result<
    Seq<Option<NodeView>>,
    KeyError,
> {
    match r {
        Ok(vs) => Ok(p + vs),
        Err(e) => Err(e),
    }
}

/// The values of a vector of optional nodes.
pub open spec fn opt_nodes(v: Seq<Option<Node>>) -> Seq<Option<NodeView>> {
    v.map_values(|o: Option<Node>| opt_node(o))
}

/// Reads one component at `data[at]`.
fn decode_component(data: &[u8], at: usize, c: Component) -> (r: Result<(Option<Node>, usize), KeyError>)
    requires
        at <= data@.len(),
    ensures
        agrees(r, parse_component(data@.skip(at as int), c), at as nat, |o: Option<Node>| opt_node(o)),
        r matches Ok((_, e)) ==> e <= data@.len(),
        r matches Ok((o, _)) ==> (o is Some || c == Component::Graph),
{
    match c {
        Component::Graph => decode_node_opt(data, at),
        _ => match decode_node(data, at) {
            Ok((n, e)) => Ok((Some(n), e)),
            Err(err) => Err(err),
        },
    }
}

proof fn lemma_components_step(d: Seq<u8>, cs: Seq<Component>)
    requires
        cs.len() > 0,
    ensures
        parse_components(d, cs) == match parse_component(d, cs[0]) {
            Err(e) => Err(e),
            Ok((v, k)) => prepend(seq![v], parse_components(d.skip(k as int), cs.drop_first())),
        },
{
}

proof fn lemma_prepend_assoc(a: Seq<Option<NodeView>>, b: Seq<Option<NodeView>>, r: Result<Seq<Option<NodeView>>, KeyError>)
    ensures
        prepend(a, prepend(b, r)) == prepend(a + b, r),
{
    if let Ok(vs) = r {
        assert(a + (b + vs) =~= a + b + vs);
    }
}

/// Reads the given components one after another from the start of `data`.
#[verifier::rlimit(50)]
fn decode_components(data: &[u8], order: &[Component]) -> (r: Result<Vec<Option<Node>>, KeyError>)
    ensures
        match (r, parse_components(data@, order@)) {
            (Ok(vs), Ok(ws)) => opt_nodes(vs@) == ws && vs@.len() == order@.len() && (forall|i: int|
                0 <= i < vs@.len() && order@[i] != Component::Graph ==> #[trigger] vs@[i] is Some),
            (Err(a), Err(b)) => a == b,
            _ => false,
        },
{
    let mut vals: Vec<Option<Node>> = Vec::new();
    let mut pos: usize = 0;
    let mut i: usize = 0;
    assert(data@.skip(0) =~= data@);
    assert(order@.skip(0) =~= order@);
    assert(opt_nodes(vals@) =~= Seq::<Option<NodeView>>::empty());
    while i < order.len()
        invariant
            i <= order@.len(),
            pos <= data@.len(),
            vals@.len() == i,
            forall|j: int| 0 <= j < i && order@[j] != Component::Graph ==> #[trigger] vals@[j] is Some,
            parse_components(data@, order@) == prepend(opt_nodes(vals@), parse_components(data@.skip(pos as int), order@.skip(i as int))),
        decreases order@.len() - i,
    {
        let ghost d = data@.skip(pos as int);
        let ghost cs = order@.skip(i as int);
        assert(cs[0] == order@[i as int]);
        let c = order[i];
        proof {
            lemma_components_step(d, cs);
        }
        match decode_component(data, pos, c) {
            Ok((v, e)) => {
                proof {
                    let k = (e - pos) as nat;
                    assert(d.skip(k as int) =~= data@.skip(e as int));
                    assert(cs.drop_first() =~= order@.skip(i + 1));
                    lemma_prepend_assoc(opt_nodes(vals@), seq![opt_node(v)], parse_components(data@.skip(e as int), order@.skip(i + 1)));
                    assert(opt_nodes(vals@.push(v)) =~= opt_nodes(vals@) + seq![opt_node(v)]);
                }
                vals.push(v);
                pos = e;
            },
            Err(err) => {
                return Err(err);
            },
        }
        i += 1;
    }
    assert(order@.skip(i as int) =~= Seq::<Component>::empty());
    assert(opt_nodes(vals@) + Seq::<Option<NodeView>>::empty() =~= opt_nodes(vals@));
    Ok(vals)
}

impl IndexType {
    /// The order in which this index lays out a quad's components.
    pub fn order(&self) -> (r: &'static [Component])
        ensures
            r@ == index_order(*self),
    {
        match self {
            IndexType::SPOC => {
                let r: &'static [Component] = &[Component::Subject, Component::Predicate, Component::Object, Component::Graph];
                assert(r@ =~= index_order(*self));
                r
            },
            IndexType::POCS => {
                let r: &'static [Component] = &[Component::Predicate, Component::Object, Component::Graph, Component::Subject];
                assert(r@ =~= index_order(*self));
                r
            },
            IndexType::OCSP => {
                let r: &'static [Component] = &[Component::Object, Component::Graph, Component::Subject, Component::Predicate];
                assert(r@ =~= index_order(*self));
                r
            },
            IndexType::CSPO => {
                let r: &'static [Component] = &[Component::Graph, Component::Subject, Component::Predicate, Component::Object];
                assert(r@ =~= index_order(*self));
                r
            },
        }
    }

    /// Decodes a key of this index back into a quad: the components are read
    /// in the index's order, and anything after the last one is ignored.
    pub fn decode_key(&self, key: &[u8]) -> (r: Result<Quad, KeyError>)
        ensures
            match (r, parse_key(*self, key@)) {
                (Ok(q), Ok(v)) => q@ == v,
                (Err(a), Err(b)) => a == b,
                _ => false,
            },
    {
        let order = self.order();
        let mut vals = match decode_components(key, order) {
            Ok(v) => v,
            Err(e) => {
                return Err(e);
            },
        };
        let ghost vv = vals@;
        assert(opt_node(vv[0]) == opt_nodes(vv)[0]);
        assert(opt_node(vv[1]) == opt_nodes(vv)[1]);
        assert(opt_node(vv[2]) == opt_nodes(vv)[2]);
        assert(opt_node(vv[3]) == opt_nodes(vv)[3]);
        let v3 = vals.pop().unwrap();
        let v2 = vals.pop().unwrap();
        let v1 = vals.pop().unwrap();
        let v0 = vals.pop().unwrap();
        assert(v0 == vv[0] && v1 == vv[1] && v2 == vv[2] && v3 == vv[3]);
        match self {
            IndexType::SPOC => match (v0, v1, v2) {
                (Some(s), Some(p), Some(o)) => Ok(Quad { subject: s, predicate: p, object: o, graph: v3 }),
                _ => Err(KeyError::EmptyData),
            },
            IndexType::POCS => match (v0, v1, v3) {
                (Some(p), Some(o), Some(s)) => Ok(Quad { subject: s, predicate: p, object: o, graph: v2 }),
                _ => Err(KeyError::EmptyData),
            },
            IndexType::OCSP => match (v0, v2, v3) {
                (Some(o), Some(s), Some(p)) => Ok(Quad { subject: s, predicate: p, object: o, graph: v1 }),
                _ => Err(KeyError::EmptyData),
            },
            IndexType::CSPO => match (v1, v2, v3) {
                (Some(s), Some(p), Some(o)) => Ok(Quad { subject: s, predicate: p, object: o, graph: v0 }),
                _ => Err(KeyError::EmptyData),
            },
        }
    }
}

} // verus!

verus! {

proof fn lemma_text_roundtrip(t: Seq<char>, rest: Seq<u8>, role: FieldRole)
    requires
        encode_utf8(t).len() <= u64::MAX,
    ensures
        parse_text_field(text_field(t) + rest, role) == Ok::<(Seq<char>, nat), KeyError>((t, text_field(t).len())),
{
    let b = encode_utf8(t);
    let n = b.len() as u64;
    lemma_parse_varint_roundtrip(n, b + rest);
    let d = text_field(t) + rest;
    assert(d =~= varint(n as nat) + (b + rest));
    let k = varint(n as nat).len();
    assert(d.subrange(k as int, k + n) =~= b);
    vstd::utf8::encode_utf8_valid_utf8(t);
    vstd::utf8::encode_utf8_decode_utf8(t);
}

proof fn lemma_opt_roundtrip(o: Option<Seq<char>>, rest: Seq<u8>, role: FieldRole)
    requires
        o matches Some(t) ==> encode_utf8(t).len() <= u64::MAX,
    ensures
        parse_opt_field(opt_field(o) + rest, role) == Ok::<(Option<Seq<char>>, nat), KeyError>((o, opt_field(o).len())),
{
    let d = opt_field(o) + rest;
    match o {
        Some(t) => {
            assert(d.drop_first() =~= text_field(t) + rest);
            lemma_text_roundtrip(t, rest, role);
        },
        None => {},
    }
}

proof fn lemma_literal_roundtrip(
    lexical_form: Seq<char>,
    language: Option<Seq<char>>,
    datatype: Option<Seq<char>>,
    rest: Seq<u8>,
)
    requires
        decodable(NodeView::Literal { lexical_form, language, datatype }),
    ensures
        parse_node(encode_node_spec(NodeView::Literal { lexical_form, language, datatype }) + rest) == Ok::<
            (NodeView, nat),
            KeyError,
        >(
            (
                NodeView::Literal { lexical_form, language, datatype },
                encode_node_spec(NodeView::Literal { lexical_form, language, datatype }).len(),
            ),
        ),
{
    reveal(parse_node);
    let n = NodeView::Literal { lexical_form, language, datatype };
    let d = encode_node_spec(n) + rest;
    let tail = opt_field(language) + opt_field(datatype) + rest;
    assert(d.drop_first() =~= text_field(lexical_form) + tail);
    lemma_text_roundtrip(lexical_form, tail, FieldRole::Value);
    let off = 1 + text_field(lexical_form).len();
    assert(d.skip(off as int) =~= opt_field(language) + (opt_field(datatype) + rest));
    lemma_opt_roundtrip(language, opt_field(datatype) + rest, FieldRole::Language);
    let off2 = off + opt_field(language).len();
    assert(d.skip(off2 as int) =~= opt_field(datatype) + rest);
    lemma_opt_roundtrip(datatype, rest, FieldRole::Datatype);
    assert(d[0] == 1);
    assert(encode_node_spec(n).len() == off2 + opt_field(datatype).len());
}

proof fn lemma_blank_roundtrip(id: u64, rest: Seq<u8>)
    ensures
        parse_node(encode_node_spec(NodeView::BlankNode(id)) + rest) == Ok::<(NodeView, nat), KeyError>(
            (NodeView::BlankNode(id), encode_node_spec(NodeView::BlankNode(id)).len()),
        ),
{
    reveal(parse_node);
    let n = NodeView::BlankNode(id);
    let d = encode_node_spec(n) + rest;
    let t = decimal(id as nat);
    lemma_decimal_utf8(id as nat);
    assert(d.drop_first() =~= text_field(t) + rest);
    lemma_text_roundtrip(t, rest, FieldRole::Value);
    lemma_parse_decimal(id);
    assert(d[0] == 2);
}

proof fn lemma_iri_roundtrip(t: Seq<char>, rest: Seq<u8>)
    requires
        encode_utf8(t).len() <= u64::MAX,
    ensures
        parse_node(encode_node_spec(NodeView::Iri(t)) + rest) == Ok::<(NodeView, nat), KeyError>(
            (NodeView::Iri(t), encode_node_spec(NodeView::Iri(t)).len()),
        ),
{
    reveal(parse_node);
    let d = encode_node_spec(NodeView::Iri(t)) + rest;
    assert(d.drop_first() =~= text_field(t) + rest);
    lemma_text_roundtrip(t, rest, FieldRole::Value);
    assert(d[0] == 0);
}

proof fn lemma_node_roundtrip(n: NodeView, rest: Seq<u8>)
    requires
        decodable(n),
    ensures
        parse_node(encode_node_spec(n) + rest) == Ok::<(NodeView, nat), KeyError>((n, encode_node_spec(n).len())),
{
    match n {
        NodeView::Iri(t) => lemma_iri_roundtrip(t, rest),
        NodeView::BlankNode(id) => lemma_blank_roundtrip(id, rest),
        NodeView::Literal { lexical_form, language, datatype } => lemma_literal_roundtrip(
            lexical_form,
            language,
            datatype,
            rest,
        ),
        _ => {},
    }
}

proof fn lemma_graph_roundtrip(g: Option<NodeView>, rest: Seq<u8>)
    requires
        g matches Some(n) ==> decodable(n),
    ensures
        parse_graph(encode_graph_spec(g) + rest) == Ok::<(Option<NodeView>, nat), KeyError>((g, encode_graph_spec(g).len())),
{
    let d = encode_graph_spec(g) + rest;
    match g {
        Some(n) => {
            assert(d.drop_first() =~= encode_node_spec(n) + rest);
            lemma_node_roundtrip(n, rest);
        },
        None => {},
    }
}

proof fn lemma_components_roundtrip(q: QuadView, cs: Seq<Component>, rest: Seq<u8>)
    requires
        quad_decodable(q),
    ensures
        parse_components(encode_components(q, cs) + rest, cs) == Ok::<Seq<Option<NodeView>>, KeyError>(
            cs.map_values(|c: Component| component_value(q, c)),
        ),
    decreases cs.len(),
{
    if cs.len() == 0 {
        assert(cs.map_values(|c: Component| component_value(q, c)) =~= Seq::<Option<NodeView>>::empty());
    } else {
        let c = cs[0];
        let tail = encode_components(q, cs.drop_first()) + rest;
        let d = encode_components(q, cs) + rest;
        assert(d =~= encode_component(q, c) + tail);
        match c {
            Component::Graph => lemma_graph_roundtrip(q.graph, tail),
            Component::Subject => lemma_node_roundtrip(q.subject, tail),
            Component::Predicate => lemma_node_roundtrip(q.predicate, tail),
            Component::Object => lemma_node_roundtrip(q.object, tail),
        }
        let k = encode_component(q, c).len();
        assert(d.skip(k as int) =~= tail);
        lemma_components_roundtrip(q, cs.drop_first(), rest);
        assert(cs.map_values(|c: Component| component_value(q, c)) =~= seq![component_value(q, c)]
            + cs.drop_first().map_values(|c: Component| component_value(q, c)));
    }
}

/// Decoding the key of a quad in any index, with anything after it, gives the
/// quad back, provided its nodes are of the kinds the decoder reads (IRIs, blank
/// nodes, and literals without both a language tag and a datatype).
pub proof fn lemma_decode_key_inverts_encode_key(t: IndexType, q: QuadView, rest: Seq<u8>)
    requires
        quad_decodable(q),
    ensures
        parse_key(t, key_spec(t, q) + rest) == Ok::<QuadView, KeyError>(q),
{
    let o = index_order(t);
    lemma_components_roundtrip(q, o, rest);
    let vs = o.map_values(|c: Component| component_value(q, c));
    assert(vs[0] == component_value(q, o[0]));
    assert(vs[1] == component_value(q, o[1]));
    assert(vs[2] == component_value(q, o[2]));
    assert(vs[3] == component_value(q, o[3]));
    assert(assemble(t, vs) == q);
}

/// Decoding the key of a node, with anything after it, gives the node back
/// and the key's length, for the kinds of node the decoder reads.
pub proof fn lemma_decode_node_inverts_encode_node(n: NodeView, rest: Seq<u8>)
    requires
        decodable(n),
    ensures
        parse_node(encode_node_spec(n) + rest) == Ok::<(NodeView, nat), KeyError>((n, encode_node_spec(n).len())),
{
    lemma_node_roundtrip(n, rest);
}

} // verus!

verus! {

/// Whether component `c` is bound, given which of subject, predicate,
/// object and graph are.
pub open spec fn component_bound(c: Component, s: bool, p: bool, o: bool, g: bool) -> bool {
    match c {
        Component::Subject => s,
        Component::Predicate => p,
        Component::Object => o,
        Component::Graph => g,
    }
}

/// How many of the components `cs`, from the first on, are bound before the
/// first one that is not.
pub open spec fn bound_run(cs: Seq<Component>, s: bool, p: bool, o: bool, g: bool) -> nat
    decreases cs.len(),
{
    if cs.len() > 0 && component_bound(cs[0], s, p, o, g) {
        1 + bound_run(cs.drop_first(), s, p, o, g)
    } else {
        0
    }
}

/// The number of bound positions that lead index `t`'s key order: the length
/// of the key prefix a scan of `t` can fix.
pub open spec fn lead(t: IndexType, s: bool, p: bool, o: bool, g: bool) -> nat {
    bound_run(index_order(t), s, p, o, g)
}

/// The index that serves a pattern best: one whose key order begins with the
/// longest run of bound positions, the first of SPOC, POCS, OCSP, CSPO on a
/// tie.
pub open spec fn best_index(s: bool, p: bool, o: bool, g: bool) -> IndexType {
    let a = lead(IndexType::SPOC, s, p, o, g);
    let b = lead(IndexType::POCS, s, p, o, g);
    let c = lead(IndexType::OCSP, s, p, o, g);
    let d = lead(IndexType::CSPO, s, p, o, g);
    if a >= b && a >= c && a >= d {
        IndexType::SPOC
    } else if b >= c && b >= d {
        IndexType::POCS
    } else if c >= d {
        IndexType::OCSP
    } else {
        IndexType::CSPO
    }
}

/// The length of the run of bound positions that leads index `t`.
fn lead_of(t: IndexType, s: bool, p: bool, o: bool, g: bool) -> (r: u8)
    ensures
        r == lead(t, s, p, o, g),
{
    let (c0, c1, c2, c3) = match t {
        IndexType::SPOC => (s, p, o, g),
        IndexType::POCS => (p, o, g, s),
        IndexType::OCSP => (o, g, s, p),
        IndexType::CSPO => (g, s, p, o),
    };
    proof {
        let cs = index_order(t);
        assert(cs.drop_first().drop_first().drop_first().drop_first() =~= Seq::<Component>::empty());
        reveal_with_fuel(bound_run, 5);
        assert(cs.drop_first()[0] == cs[1]);
        assert(cs.drop_first().drop_first()[0] == cs[2]);
        assert(cs.drop_first().drop_first().drop_first()[0] == cs[3]);
    }
    if !c0 {
        0
    } else if !c1 {
        1
    } else if !c2 {
        2
    } else if !c3 {
        3
    } else {
        4
    }
}

impl IndexType {
    /// Selects the most efficient index for a query pattern from which
    /// positions are bound (not wildcards): one whose key order starts with
    /// the longest run of bound positions, so that its scan prefix is the
    /// longest.
    pub fn select_best(subject_bound: bool, predicate_bound: bool, object_bound: bool, graph_bound: bool) -> (r:
        IndexType)
        ensures
            r == best_index(subject_bound, predicate_bound, object_bound, graph_bound),
            forall|t: IndexType|
                lead(r, subject_bound, predicate_bound, object_bound, graph_bound) >= #[trigger] lead(
                    t,
                    subject_bound,
                    predicate_bound,
                    object_bound,
                    graph_bound,
                ),
    {
        let (s, p, o, g) = (subject_bound, predicate_bound, object_bound, graph_bound);
        let a = lead_of(IndexType::SPOC, s, p, o, g);
        let b = lead_of(IndexType::POCS, s, p, o, g);
        let c = lead_of(IndexType::OCSP, s, p, o, g);
        let d = lead_of(IndexType::CSPO, s, p, o, g);
        if a >= b && a >= c && a >= d {
            IndexType::SPOC
        } else if b >= c && b >= d {
            IndexType::POCS
        } else if c >= d {
            IndexType::OCSP
        } else {
            IndexType::CSPO
        }
    }
}

/// An index over one permutation of quad components.
pub struct QuadIndex {
    index_type: IndexType,
}

impl View for QuadIndex {
    type V = IndexType;

    closed spec fn view(&self) -> IndexType {
        self.index_type
    }
}

impl QuadIndex {
    /// Creates an index of the given type.
    pub fn new(index_type: IndexType) -> (r: QuadIndex)
        ensures
            r@ == index_type,
    {
        QuadIndex { index_type }
    }

    /// The index's type.
    pub fn index_type(&self) -> (r: IndexType)
        ensures
            r == self@,
    {
        self.index_type
    }
}

} // verus!
