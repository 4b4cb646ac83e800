use chrono::Utc;
use kgdb::engine::{ReasoningEngine, VehicleStateText, EGO_VEHICLE, RDF_TYPE, XSD_DATE_TIME, XSD_FLOAT};
use kgdb::node::{Node, Quad};
use kgdb::vehicle::TrafficLightState;

fn holds(engine: &ReasoningEngine, s: Node, p: Node, o: Node) -> bool {
    engine.quad_store.contains(&Quad::new(s, p, o, None)).unwrap()
}

#[test]
fn test_create_reasoning_engine() {
    let engine = ReasoningEngine::new();
    assert_eq!(engine.ego_vehicle(), Node::iri("http://zenya.com/vehicle/ego"));
}

#[test]
fn test_update_vehicle_state() {
    let mut engine = ReasoningEngine::new();

    let state = VehicleStateText {
        velocity: format!("{}", 15.5f32),
        position: format!("({}, {})", 100.0f32, 50.0f32),
        timestamp: Utc::now().to_rfc3339(),
    };

    let result = engine.update_vehicle_state(&state);
    assert!(result.is_ok());
}

#[test]
fn test_detect_traffic_light() {
    let mut engine = ReasoningEngine::new();

    let result = engine.detect_traffic_light(1, TrafficLightState::Red, &format!("{}", 30.0f32), &format!("{}", 0.98f32));
    assert!(result.is_ok());
}

#[test]
fn engine_default_is_empty() {
    let engine = ReasoningEngine::default();
    assert!(engine.quad_store.is_empty());
    assert_eq!(engine.ego_vehicle(), Node::iri(EGO_VEHICLE));
}

#[test]
fn vehicle_state_is_stored_as_three_triples() {
    let mut engine = ReasoningEngine::new();
    let state = VehicleStateText {
        velocity: "15.5".to_string(),
        position: "(100, 50)".to_string(),
        timestamp: "2024-01-01T00:00:00+00:00".to_string(),
    };
    engine.update_vehicle_state(&state).unwrap();
    assert_eq!(engine.quad_store.len(), 3);
    let ego = Node::iri(EGO_VEHICLE);
    assert!(holds(
        &engine,
        ego.clone(),
        Node::iri("http://zenya.com/ontology/av#hasVelocity"),
        Node::literal_typed("15.5", XSD_FLOAT),
    ));
    assert!(holds(
        &engine,
        ego.clone(),
        Node::iri("http://zenya.com/ontology/av#hasPosition"),
        Node::literal_str("(100, 50)"),
    ));
    assert!(holds(
        &engine,
        ego.clone(),
        Node::iri("http://zenya.com/ontology/av#timestamp"),
        Node::literal_typed("2024-01-01T00:00:00+00:00", XSD_DATE_TIME),
    ));
    assert!(!holds(
        &engine,
        ego,
        Node::iri("http://zenya.com/ontology/av#hasVelocity"),
        Node::literal_typed("16", XSD_FLOAT),
    ));
}

#[test]
fn traffic_light_is_stored_as_five_triples() {
    let mut engine = ReasoningEngine::new();
    engine.detect_traffic_light(42, TrafficLightState::Yellow, "30", "0.98").unwrap();
    assert_eq!(engine.quad_store.len(), 5);
    let tl = Node::iri("http://zenya.com/traffic_light/42");
    assert!(holds(&engine, tl.clone(), Node::iri(RDF_TYPE), Node::iri("http://zenya.com/ontology/av#TrafficLight")));
    assert!(holds(&engine, tl.clone(), Node::iri("http://zenya.com/ontology/av#state"), Node::literal_str("yellow")));
    assert!(holds(
        &engine,
        Node::iri(EGO_VEHICLE),
        Node::iri("http://zenya.com/ontology/av#distanceTo"),
        tl.clone(),
    ));
    assert!(holds(
        &engine,
        tl.clone(),
        Node::iri("http://zenya.com/ontology/av#distanceTo"),
        Node::literal_typed("30", XSD_FLOAT),
    ));
    assert!(holds(
        &engine,
        tl.clone(),
        Node::iri("http://zenya.com/ontology/sensor#confidence"),
        Node::literal_typed("0.98", XSD_FLOAT),
    ));
    assert!(!holds(&engine, tl, Node::iri("http://zenya.com/ontology/av#state"), Node::literal_str("red")));
}

#[test]
fn insert_triple_adds_one_quad() {
    let mut engine = ReasoningEngine::new();
    engine
        .insert_triple(Node::iri("http://ex/s"), Node::iri("http://ex/p"), Node::literal_str("o"))
        .unwrap();
    assert_eq!(engine.quad_store.len(), 1);
    assert!(holds(&engine, Node::iri("http://ex/s"), Node::iri("http://ex/p"), Node::literal_str("o")));
}
