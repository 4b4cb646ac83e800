//! The vehicle's knowledge graph: facts about the ego vehicle and about the
//! traffic lights it detects, kept as triples in a quad store kept in memory.
use vstd::prelude::*;
use crate::av_ontology::{VocabHelper, AVVocab, AV_NS, SENSOR_NS};
use crate::backend::StorageError;
use crate::inmemory::InMemoryBackend;
use crate::node::{Node, NodeView, Quad, QuadView};
use crate::quad_store::{counted, holds_quad, quad_storable, quad_views, with_quad, with_quads, QuadStore};
use crate::text::{decimal, decimal_string, push_str, string_of};
use crate::vehicle::{TrafficLightState, RED_TRAFFIC_LIGHT_QUERY};

verus! {

/// The IRI of the ego vehicle.
pub const EGO_VEHICLE: &'static str = "http://zenya.com/vehicle/ego";

/// The IRI of `rdf:type`.
pub const RDF_TYPE: &'static str = "http://www.w3.org/1999/02/22-rdf-syntax-ns#type";

/// The XSD float datatype.
pub const XSD_FLOAT: &'static str = "http://www.w3.org/2001/XMLSchema#float";

/// The XSD date-time datatype.
pub const XSD_DATE_TIME: &'static str = "http://www.w3.org/2001/XMLSchema#dateTime";

/// The prefix of traffic light IRIs.
pub const TRAFFIC_LIGHT_NS: &'static str = "http://zenya.com/traffic_light/";

/// A triple, as a quad in the default graph.
pub open spec fn triple(s: NodeView, p: NodeView, o: NodeView) -> QuadView {
    QuadView { subject: s, predicate: p, object: o, graph: None }
}

/// A plain literal.
pub open spec fn plain(t: Seq<char>) -> NodeView {
    NodeView::Literal { lexical_form: t, language: None, datatype: None }
}

/// A literal of a datatype.
pub open spec fn typed(t: Seq<char>, d: Seq<char>) -> NodeView {
    NodeView::Literal { lexical_form: t, language: None, datatype: Some(d) }
}

/// An IRI in the vehicle namespace.
pub open spec fn av_term(t: Seq<char>) -> NodeView {
    NodeView::Iri(AV_NS@ + t)
}

/// The texts of a vehicle state: its velocity, its position `(x, y)`, and
/// its time in RFC 3339, as the numbers render.
pub struct VehicleStateText {
    /// The velocity in metres per second.
    pub velocity: String,
    /// The position, `(x, y)`.
    pub position: String,
    /// The time of measurement.
    pub timestamp: String,
}

/// The triples recording a vehicle state: the ego vehicle's velocity (a
/// float), position (plain text) and timestamp (a date-time).
pub open spec fn state_triples(
    ego_iri: Seq<char>,
    velocity: Seq<char>,
    position: Seq<char>,
    time: Seq<char>,
) -> Seq<QuadView> {
    let ego = NodeView::Iri(ego_iri);
    seq![
        triple(ego, av_term("hasVelocity"@), typed(velocity, XSD_FLOAT@)),
        triple(ego, av_term("hasPosition"@), plain(position)),
        triple(ego, av_term("timestamp"@), typed(time, XSD_DATE_TIME@)),
    ]
}

/// The word for a light's state.
pub open spec fn light_word(s: TrafficLightState) -> Seq<char> {
    match s {
        TrafficLightState::Red => "red"@,
        TrafficLightState::Yellow => "yellow"@,
        TrafficLightState::Green => "green"@,
    }
}

/// The IRI of traffic light `id`.
pub open spec fn light_iri(id: u32) -> NodeView {
    NodeView::Iri(TRAFFIC_LIGHT_NS@ + decimal(id as nat))
}

/// The triples recording a detected traffic light: its type, its state, the
/// ego vehicle's distance to it, its distance (a float) and the detection's
/// confidence (a float).
pub open spec fn light_triples(
    ego_iri: Seq<char>,
    id: u32,
    state: TrafficLightState,
    distance: Seq<char>,
    confidence: Seq<char>,
) -> Seq<QuadView> {
    let tl = light_iri(id);
    let dist = av_term("distanceTo"@);
    seq![
        triple(tl, NodeView::Iri(RDF_TYPE@), av_term("TrafficLight"@)),
        triple(tl, av_term("state"@), plain(light_word(state))),
        triple(NodeView::Iri(ego_iri), dist, tl),
        triple(tl, dist, typed(distance, XSD_FLOAT@)),
        triple(tl, NodeView::Iri(SENSOR_NS@ + "confidence"@), typed(confidence, XSD_FLOAT@)),
    ]
}

/// Every quad of `qs` can be stored.
pub open spec fn all_storable_views(qs: Seq<QuadView>) -> bool {
    forall|i: int| 0 <= i < qs.len() ==> quad_storable(#[trigger] qs[i])
}

/// The reasoning engine's knowledge graph.
pub struct ReasoningEngine {
    /// The triples, in a store kept in memory.
    pub quad_store: QuadStore<InMemoryBackend>,
    ego_vehicle_uri: String,
}

impl ReasoningEngine {
    /// The store of triples.
    pub closed spec fn graph(&self) -> QuadStore<InMemoryBackend> {
        self.quad_store
    }

    /// The ego vehicle's IRI.
    pub closed spec fn ego_spec(&self) -> Seq<char> {
        self.ego_vehicle_uri@
    }

    /// An engine with an empty graph.
    pub fn new() -> (r: ReasoningEngine)
        ensures
            r.graph().entries() == crate::backend::no_entries(),
            r.graph().count() == 0,
            r.graph().never_fails(),
            r.ego_spec() == EGO_VEHICLE@,
    {
        ReasoningEngine { quad_store: QuadStore::new_in_memory(), ego_vehicle_uri: EGO_VEHICLE.to_owned() }
    }

    /// Adds a triple.
    pub fn insert_triple(&mut self, subject: Node, predicate: Node, object: Node) -> (r: Result<(), StorageError>)
        requires
            quad_storable(triple(subject@, predicate@, object@)),
        ensures
            old(self).graph().never_fails() ==> r is Ok,
            final(self).graph().never_fails() == old(self).graph().never_fails(),
            final(self).ego_spec() == old(self).ego_spec(),
            r is Ok ==> final(self).graph().entries() == with_quad(
                old(self).graph().entries(),
                triple(subject@, predicate@, object@),
            ),
            r is Ok ==> final(self).graph().count() == if holds_quad(
                old(self).graph().entries(),
                triple(subject@, predicate@, object@),
            ) {
                old(self).graph().count()
            } else {
                old(self).graph().count().wrapping_add(1)
            },
    {
        let quad = Quad::new(subject, predicate, object, None);
        self.quad_store.insert(quad)
    }

    /// The ego vehicle's node.
    pub fn ego_vehicle(&self) -> (r: Node)
        ensures
            r@ == NodeView::Iri(self.ego_spec()),
    {
        Node::iri(self.ego_vehicle_uri.as_str())
    }

    /// Adds each quad of `quads` in turn, stopping at the first failure.
    fn insert_triples(&mut self, quads: &Vec<Quad>) -> (r: Result<(), StorageError>)
        requires
            all_storable_views(quad_views(quads@)),
        ensures
            old(self).graph().never_fails() ==> r is Ok,
            final(self).graph().never_fails() == old(self).graph().never_fails(),
            final(self).ego_spec() == old(self).ego_spec(),
            r is Ok ==> final(self).graph().entries() == with_quads(
                old(self).graph().entries(),
                quad_views(quads@),
            ),
            r is Ok ==> final(self).graph().count() == counted(
                old(self).graph().count(),
                old(self).graph().entries(),
                quad_views(quads@),
            ),
    {
        let ghost qs = quad_views(quads@);
        let mut i: usize = 0;
        while i < quads.len()
            invariant
                i <= quads@.len(),
                qs == quad_views(quads@),
                all_storable_views(qs),
                self.graph().never_fails() == old(self).graph().never_fails(),
                self.ego_spec() == old(self).ego_spec(),
                self.graph().entries() == with_quads(old(self).graph().entries(), qs.take(i as int)),
                self.graph().count() == counted(
                    old(self).graph().count(),
                    old(self).graph().entries(),
                    qs.take(i as int),
                ),
            decreases quads@.len() - i,
        {
            let q = quads[i].duplicate();
            assert(quad_storable(qs[i as int]));
            match self.quad_store.insert(q) {
                Ok(()) => {},
                Err(e) => {
                    return Err(e);
                },
            }
            proof {
                assert(qs.take(i + 1).drop_last() =~= qs.take(i as int));
            }
            i = i + 1;
        }
        proof {
            assert(qs.take(quads@.len() as int) =~= qs);
        }
        Ok(())
    }

    /// Records the ego vehicle's velocity, position and timestamp.
    pub fn update_vehicle_state(&mut self, state: &VehicleStateText) -> (r: Result<(), StorageError>)
        requires
            all_storable_views(state_triples(old(self).ego_spec(), state.velocity@, state.position@, state.timestamp@)),
        ensures
            old(self).graph().never_fails() ==> r is Ok,
            final(self).ego_spec() == old(self).ego_spec(),
            r is Ok ==> final(self).graph().entries() == with_quads(
                old(self).graph().entries(),
                state_triples(old(self).ego_spec(), state.velocity@, state.position@, state.timestamp@),
            ),
            r is Ok ==> final(self).graph().count() == counted(
                old(self).graph().count(),
                old(self).graph().entries(),
                state_triples(old(self).ego_spec(), state.velocity@, state.position@, state.timestamp@),
            ),
    {
        let ghost ts = state_triples(self.ego_spec(), state.velocity@, state.position@, state.timestamp@);
        let vocab = VocabHelper::new();
        let av = AVVocab::default();
        let ego = self.ego_vehicle();
        let velocity_pred = Node::iri(vocab.av_uri(av.has_velocity).as_str());
        let velocity_obj = Node::literal_typed(state.velocity.as_str(), XSD_FLOAT);
        let pos_pred = Node::iri(vocab.av_uri(av.has_position).as_str());
        let pos_obj = Node::literal_str(state.position.as_str());
        let ts_pred = Node::iri(vocab.av_uri(av.timestamp).as_str());
        let ts_obj = Node::literal_typed(state.timestamp.as_str(), XSD_DATE_TIME);
        let mut quads: Vec<Quad> = Vec::new();
        quads.push(Quad::new(ego.duplicate(), velocity_pred, velocity_obj, None));
        quads.push(Quad::new(ego.duplicate(), pos_pred, pos_obj, None));
        quads.push(Quad::new(ego, ts_pred, ts_obj, None));
        proof {
            assert(quad_views(quads@) =~= ts);
        }
        self.insert_triples(&quads)
    }

    fn light_node(id: u32) -> (r: Node)
        ensures
            r@ == light_iri(id),
    {
        let mut cs: Vec<char> = Vec::new();
        push_str(&mut cs, TRAFFIC_LIGHT_NS);
        let digits = decimal_string(id as u64);
        push_str(&mut cs, digits.as_str());
        let s = string_of(cs.as_slice());
        Node::iri(s.as_str())
    }

    /// Records a detected traffic light: its type and state, its distance
    /// from the ego vehicle, and the detection's confidence.
    pub fn detect_traffic_light(
        &mut self,
        id: u32,
        state: TrafficLightState,
        distance: &str,
        confidence: &str,
    ) -> (r: Result<(), StorageError>)
        requires
            all_storable_views(light_triples(old(self).ego_spec(), id, state, distance@, confidence@)),
        ensures
            old(self).graph().never_fails() ==> r is Ok,
            final(self).ego_spec() == old(self).ego_spec(),
            r is Ok ==> final(self).graph().entries() == with_quads(
                old(self).graph().entries(),
                light_triples(old(self).ego_spec(), id, state, distance@, confidence@),
            ),
            r is Ok ==> final(self).graph().count() == counted(
                old(self).graph().count(),
                old(self).graph().entries(),
                light_triples(old(self).ego_spec(), id, state, distance@, confidence@),
            ),
    {
        let ghost ts = light_triples(self.ego_spec(), id, state, distance@, confidence@);
        let vocab = VocabHelper::new();
        let av = AVVocab::default();
        let tl = ReasoningEngine::light_node(id);
        let type_pred = Node::iri(RDF_TYPE);
        let tl_type = Node::iri(vocab.av_uri(av.traffic_light).as_str());
        let state_pred = Node::iri(vocab.av_uri(av.state).as_str());
        let word = match state {
            TrafficLightState::Red => "red",
            TrafficLightState::Yellow => "yellow",
            TrafficLightState::Green => "green",
        };
        proof {
            reveal_strlit("red");
            reveal_strlit("yellow");
            reveal_strlit("green");
        }
        let state_obj = Node::literal_str(word);
        let ego = self.ego_vehicle();
        let dist_pred = Node::iri(vocab.av_uri(av.distance_to).as_str());
        let dist_obj = Node::literal_typed(distance, XSD_FLOAT);
        let conf_pred = Node::iri(vocab.sensor_uri("confidence").as_str());
        let conf_obj = Node::literal_typed(confidence, XSD_FLOAT);
        let mut quads: Vec<Quad> = Vec::new();
        quads.push(Quad::new(tl.duplicate(), type_pred, tl_type, None));
        quads.push(Quad::new(tl.duplicate(), state_pred, state_obj, None));
        quads.push(Quad::new(ego, dist_pred.duplicate(), tl.duplicate(), None));
        quads.push(Quad::new(tl.duplicate(), dist_pred, dist_obj, None));
        quads.push(Quad::new(tl, conf_pred, conf_obj, None));
        proof {
            assert(quad_views(quads@) =~= ts);
        }
        self.insert_triples(&quads)
    }
}

impl Default for ReasoningEngine {
    fn default() -> (r: ReasoningEngine)
        ensures
            r.graph().entries() == crate::backend::no_entries(),
            r.graph().count() == 0,
            r.graph().never_fails(),
            r.ego_spec() == EGO_VEHICLE@,
    {
        ReasoningEngine::new()
    }
}

/// A light's state is stored as a word of its own: different states are
/// stored as different words.
pub proof fn lemma_light_words_distinct(a: TrafficLightState, b: TrafficLightState)
    requires
        a != b,
    ensures
        light_word(a) != light_word(b),
{
    reveal_strlit("red");
    reveal_strlit("yellow");
    reveal_strlit("green");
    assert(light_word(a).len() != light_word(b).len());
}

/// The word stored for a red light is the one the red-light query looks
/// for: the query holds `av:state "` followed by that word and a quote.
pub proof fn lemma_red_word_is_queried()
    ensures
        exists|k: int|
            0 <= k && k + 11 + light_word(TrafficLightState::Red).len() <= RED_TRAFFIC_LIGHT_QUERY@.len()
                && #[trigger] RED_TRAFFIC_LIGHT_QUERY@.subrange(k, k + 11 + light_word(TrafficLightState::Red).len())
                == "av:state \""@ + light_word(TrafficLightState::Red) + "\""@,
{
    reveal_strlit("red");
    reveal_strlit("av:state \"");
    reveal_strlit("\"");
    reveal_strlit(r#"
PREFIX av: <http://zenya.com/ontology/av#>
PREFIX action: <http://zenya.com/ontology/action#>
PREFIX sensor: <http://zenya.com/ontology/sensor#>
PREFIX xsd: <http://www.w3.org/2001/XMLSchema#>
PREFIX prov: <http://www.w3.org/ns/prov#>

# Check if emergency braking is required for red light
ASK {
  # Get ego vehicle state
  <http://zenya.com/vehicle/ego> av:hasVelocity ?speedMps .

  # Traffic light detection
  ?tl a av:TrafficLight ;
      av:state "red"^^xsd:string ;
      av:distanceTo ?distance ;
      sensor:confidence ?conf .

  # Only trust high-confidence detections (>85%)
  FILTER(?conf > 0.85)

  # Calculate stopping distance: d = v^2 / (2 * a)
  # Assuming max deceleration a = 5 m/s^2
  # stoppingDist = v^2 / 10
  BIND((?speedMps * ?speedMps) / 10.0 AS ?minStoppingDist)

  # Add 10m safety margin
  BIND(?minStoppingDist + 10.0 AS ?safeStoppingDist)

  # Check if within stopping distance
  FILTER(?distance <= ?safeStoppingDist)
}
"#);
    let q = RED_TRAFFIC_LIGHT_QUERY@;
    assert(q.subrange(445, 459) =~= "av:state \""@ + light_word(TrafficLightState::Red) + "\""@);
    assert(q.subrange(445, 445int + 11 + light_word(TrafficLightState::Red).len()) == "av:state \""@ + light_word(
        TrafficLightState::Red,
    ) + "\""@);
}

/// Different traffic lights are recorded as different nodes: the light's
/// IRI determines its number.
pub proof fn lemma_light_iri_names_one_light(a: u32, b: u32)
    requires
        light_iri(a) == light_iri(b),
    ensures
        a == b,
{
    let n = TRAFFIC_LIGHT_NS@;
    crate::text::lemma_decimal_digits(a as nat);
    crate::text::lemma_decimal_digits(b as nat);
    assert((n + decimal(a as nat)).skip(n.len() as int) =~= decimal(a as nat));
    assert((n + decimal(b as nat)).skip(n.len() as int) =~= decimal(b as nat));
}

} // verus!
