use kgdb::av_ontology::{build_uri, AVVocab, VocabHelper, ACTION_NS, AV_NS};
use kgdb::csv_ttl::{header_columns, row_map, DecimalFields, RowStep, SchemaType, TTLConverter};
use kgdb::lubm::{Department, University};
use kgdb::node::{Node, Quad};
use kgdb::quad_store::QuadStore;
use kgdb::sdk::{Error, Node as SdkNode, UpdateBuilder};
use kgdb::routes::{api_response_plan, api_route, cors_headers, response_plan, route, ApiRoute, HttpMethod, Route};
use kgdb::sim_bridge::UnityClient;
use kgdb::vehicle::{
    get_query, Priority, TrafficRules, ZoneType, RED_LIGHT_BRAKE_INTENSITY_QUERY,
    RED_TRAFFIC_LIGHT_QUERY,
};

#[test]
fn test_build_uri() {
    assert_eq!(build_uri(AV_NS, "Vehicle"), "http://zenya.com/ontology/av#Vehicle");
}

#[test]
fn test_vocab_helper() {
    let vocab = VocabHelper::new();
    let vehicle_uri = vocab.av_uri("Vehicle");
    assert_eq!(vehicle_uri, "http://zenya.com/ontology/av#Vehicle");
    assert_eq!(vocab.action_uri(vocab.action.brake), format!("{}Brake", ACTION_NS));
    assert_eq!(vocab.road_uri("speedLimit"), "http://zenya.com/ontology/road#speedLimit");
    assert_eq!(AVVocab::default().vehicle, "Vehicle");
}

#[test]
fn test_priority_ordering() {
    assert!(Priority::Critical > Priority::High);
    assert!(Priority::High > Priority::Medium);
    assert!(Priority::Medium > Priority::Low);
}

#[test]
fn priority_rank_and_label() {
    assert!(Priority::Critical.is_above(&Priority::High));
    assert!(!Priority::Low.is_above(&Priority::Low));
    assert_eq!(Priority::Medium.rank(), 1);
    assert_eq!(Priority::Critical.to_display_string(), "CRITICAL");
}

#[test]
fn test_get_query() {
    assert!(get_query("red-traffic-light").is_some());
    assert!(get_query("pedestrian-crossing").is_some());
    assert!(get_query("nonexistent").is_none());
    assert_eq!(get_query("red-light-intensity"), Some(RED_LIGHT_BRAKE_INTENSITY_QUERY));
}

#[test]
fn test_queries_not_empty() {
    assert!(!RED_TRAFFIC_LIGHT_QUERY.is_empty());
    assert!(!RED_LIGHT_BRAKE_INTENSITY_QUERY.is_empty());
}

#[test]
fn test_speed_limit_priority() {
    assert_eq!(TrafficRules::speed_limit_priority(ZoneType::SchoolZone), Priority::High);
    assert_eq!(TrafficRules::speed_limit_priority(ZoneType::Highway), Priority::Low);
}

#[test]
fn pedestrian_priority_outranks_every_zone() {
    let p = TrafficRules::pedestrian_priority();
    assert_eq!(p, Priority::Critical);
    for z in [ZoneType::Highway, ZoneType::Urban, ZoneType::Residential, ZoneType::SchoolZone] {
        assert!(p.is_above(&TrafficRules::speed_limit_priority(z)));
    }
}

#[test]
fn unity_client_defaults() {
    let c = UnityClient::default();
    assert_eq!(c.host(), "127.0.0.1");
    assert_eq!(c.port(), 4567);
    let c = UnityClient::new("sim.local", 9000);
    assert_eq!(c.host(), "sim.local");
    assert_eq!(c.port(), 9000);
}

#[test]
fn sdk_transactions_are_refused() {
    let e = Error::InvalidOperation("Transactions not yet implemented".to_string());
    assert!(matches!(e, Error::InvalidOperation(_)));
}

#[test]
fn lubm_department_lines() {
    let d = Department::new(0, 1);
    assert_eq!(d.uri(), "http://www.University0.edu/Department1");
    let lines = d.generate_rdf();
    assert_eq!(lines.len(), 217);
    assert_eq!(
        lines[0],
        "<http://www.University0.edu/Department1> <http://www.w3.org/1999/02/22-rdf-syntax-ns#type> <http://swat.cse.lehigh.edu/onto/univ-bench.owl#Department> ."
    );
    assert_eq!(
        lines[1],
        "<http://www.University0.edu/Department1> <http://swat.cse.lehigh.edu/onto/univ-bench.owl#name> \"Department1\" ."
    );
    assert_eq!(
        lines[2],
        "<http://www.University0.edu/Department1/FullProfessor0> <http://www.w3.org/1999/02/22-rdf-syntax-ns#type> <http://swat.cse.lehigh.edu/onto/univ-bench.owl#FullProfessor>  ."
    );
    assert_eq!(
        lines[6],
        "<http://www.University0.edu/Department1/FullProfessor0> <http://swat.cse.lehigh.edu/onto/univ-bench.owl#emailAddress> \"FullProfessor0@University0.edu\" ."
    );
    assert_eq!(
        lines[216],
        "<http://www.University0.edu/Department1/Course9> <http://swat.cse.lehigh.edu/onto/univ-bench.owl#name> \"Course9\" ."
    );
}

#[test]
fn lubm_university_lines() {
    let u = University::new(3);
    assert_eq!(u.uri(), "http://www.University3.edu");
    let lines = u.generate_rdf();
    assert_eq!(lines.len(), 2 + 15 * 218);
    assert_eq!(
        lines[1],
        "<http://www.University3.edu> <http://swat.cse.lehigh.edu/onto/univ-bench.owl#name> \"University3\" ."
    );
    assert_eq!(
        lines[2 + 217],
        "<http://www.University3.edu/Department0> <http://swat.cse.lehigh.edu/onto/univ-bench.owl#subOrganizationOf> <http://www.University3.edu> ."
    );
}

#[test]
fn csv_sanitize_and_escape() {
    let c = TTLConverter::new(SchemaType::Order, None);
    assert_eq!(c.sanitize_uri("a b/c?d-e.f_g"), "a_b_c_d-e.f_g");
    assert_eq!(c.sanitize_uri("Café%"), "Café_");
    assert_eq!(c.escape_literal("a\"b\\c\nd\te"), "a\\\"b\\\\c\\nd\\te");
    assert_eq!(c.base_uri(), "http://example.org/data/");
    assert!(c.generate_prefixes().starts_with("@prefix rdf:"));
    assert!(c.generate_prefixes().contains("@prefix : <http://example.org/data/> ."));
}

#[test]
fn csv_line_parsing() {
    let c = TTLConverter::new(SchemaType::Order, None);
    assert_eq!(c.parse_csv_line("a, b ,c"), vec!["a", "b", "c"]);
    assert_eq!(c.parse_csv_line("\"x,y\",z"), vec!["x,y", "z"]);
    assert_eq!(c.parse_csv_line("\"say \"\"hi\"\"\",1"), vec!["say \"hi\"", "1"]);
    assert_eq!(c.parse_csv_line(""), vec![""]);
    assert_eq!(header_columns(" \"Order Id\" ,Sales"), vec!["Order Id", "Sales"]);
}

#[test]
fn csv_order_row() {
    let c = TTLConverter::new(SchemaType::Order, None);
    let cols = vec![
        "Order Id".to_string(),
        "Customer Id".to_string(),
        "Customer Fname".to_string(),
        "Product Name".to_string(),
        "Product Price".to_string(),
        "Order Item Quantity".to_string(),
    ];
    let vals = vec![
        "77".to_string(),
        "C 1".to_string(),
        "Ann".to_string(),
        "Big Box".to_string(),
        "9.5".to_string(),
        "3".to_string(),
    ];
    let row = row_map(&cols, &vals);
    let decimals = DecimalFields { price: Some("9.5".to_string()), sales: None };
    let triples = c.generate_triples(&row, 4, &decimals);
    assert_eq!(
        triples,
        vec![
            ":Order_4  rdf:type  schema:Order .",
            ":Order_4  schema:orderNumber  \"77\" .",
            ":Order_4  schema:customer  :Customer_C_1 .",
            ":Customer_C_1  rdf:type  schema:Person .",
            ":Customer_C_1  schema:givenName  \"Ann\" .",
            ":Order_4  schema:orderedItem  :Product_Big_Box .",
            ":Product_Big_Box  rdf:type  schema:Product .",
            ":Product_Big_Box  schema:name  \"Big Box\" .",
            ":Product_Big_Box  schema:price  \"9.5\"^^xsd:decimal .",
            ":Order_4  schema:orderQuantity  \"3\"^^xsd:integer .",
        ]
    );
}

#[test]
fn csv_other_schemas() {
    let row = row_map(&[], &[]);
    let none = DecimalFields { price: None, sales: None };
    let ins = TTLConverter::new(SchemaType::Insurance, None);
    assert_eq!(ins.generate_triples(&row, 2, &none), vec![":Policy_2  rdf:type  ins:InsurancePolicy ."]);
    let sc = TTLConverter::new(SchemaType::SupplyChain, Some(5));
    assert_eq!(sc.generate_triples(&row, 0, &none), vec![":Shipment_0  rdf:type  sc:Shipment ."]);
    assert_eq!(sc.base_uri(), "http://example.org/supplychain/");
    assert_eq!(sc.limit(), Some(5));
}

#[test]
fn csv_row_classification() {
    let c = TTLConverter::new(SchemaType::Order, Some(2));
    assert!(matches!(c.classify_row("   ", 0, 2), RowStep::Blank));
    assert!(matches!(c.classify_row("a,b", 2, 2), RowStep::LimitReached));
    assert!(matches!(c.classify_row("a,b,c", 0, 2), RowStep::Mismatch));
    match c.classify_row("a,b", 1, 2) {
        RowStep::Row(v) => assert_eq!(v, vec!["a", "b"]),
        _ => panic!("expected a row"),
    }
}

#[test]
fn test_update_builder_no_triples() {
    let mut store = QuadStore::new_in_memory();
    let result = UpdateBuilder::new(&mut store).execute();
    assert!(result.is_err());
    assert!(matches!(result, Err(Error::InvalidOperation(_))));
}

#[test]
fn update_builder_test_insert_single_triple() {
    let mut store = QuadStore::new_in_memory();
    let result = UpdateBuilder::new(&mut store)
        .triple(
            SdkNode::iri("http://example.org/alice"),
            SdkNode::iri("http://xmlns.com/foaf/0.1/name"),
            SdkNode::literal("Alice"),
        )
        .execute();
    assert!(result.is_ok());
    assert_eq!(store.len(), 1);
}

#[test]
fn update_builder_test_insert_multiple_triples() {
    let mut store = QuadStore::new_in_memory();
    let result = UpdateBuilder::new(&mut store)
        .triple(
            SdkNode::iri("http://example.org/alice"),
            SdkNode::iri("http://xmlns.com/foaf/0.1/name"),
            SdkNode::literal("Alice"),
        )
        .triple(
            SdkNode::iri("http://example.org/bob"),
            SdkNode::iri("http://xmlns.com/foaf/0.1/name"),
            SdkNode::literal("Bob"),
        )
        .execute();
    assert!(result.is_ok());
    assert_eq!(store.len(), 2);
}

#[test]
fn update_builder_puts_triples_in_the_graph_set() {
    let mut store = QuadStore::new_in_memory();
    UpdateBuilder::new(&mut store)
        .graph(SdkNode::iri("http://example.org/g"))
        .triple(
            SdkNode::iri("http://example.org/alice"),
            SdkNode::iri("http://xmlns.com/foaf/0.1/age"),
            SdkNode::Literal { value: "42".to_string(), datatype: Some("http://www.w3.org/2001/XMLSchema#integer".to_string()), lang: Some("en".to_string()) },
        )
        .triple(SdkNode::BlankNode("b1".to_string()), SdkNode::iri("http://p"), SdkNode::Literal { value: "hi".to_string(), datatype: None, lang: Some("en".to_string()) })
        .execute()
        .unwrap();
    assert_eq!(store.len(), 2);
    let stored = Quad::new(
        Node::iri("http://example.org/alice"),
        Node::iri("http://xmlns.com/foaf/0.1/age"),
        Node::literal_typed("42", "http://www.w3.org/2001/XMLSchema#integer"),
        Some(Node::iri("http://example.org/g")),
    );
    assert!(store.contains(&stored).unwrap());
}

#[test]
fn requests_are_routed_by_method_and_path() {
    assert_eq!(route(HttpMethod::Options, "/anything"), Route::Preflight);
    assert_eq!(route(HttpMethod::Post, "/load"), Route::Load);
    assert_eq!(route(HttpMethod::Post, "/ask"), Route::Ask);
    assert_eq!(route(HttpMethod::Post, "/select"), Route::Select);
    assert_eq!(route(HttpMethod::Get, "/stats"), Route::Stats);
    assert_eq!(route(HttpMethod::Post, "/stats"), Route::Stats);
    assert_eq!(route(HttpMethod::Post, "/clear"), Route::Clear);
    assert_eq!(route(HttpMethod::Get, "/health"), Route::Health);
    assert_eq!(route(HttpMethod::Get, "/load"), Route::NotFound);
    assert_eq!(route(HttpMethod::Post, "/loads"), Route::NotFound);
    assert_eq!(route(HttpMethod::Other, "/health"), Route::NotFound);
}

#[test]
fn one_blank_label_is_one_stored_node() {
    let mut store = QuadStore::new_in_memory();
    UpdateBuilder::new(&mut store)
        .triple(SdkNode::BlankNode("b1".to_string()), SdkNode::iri("http://p"), SdkNode::literal("x"))
        .triple(SdkNode::BlankNode("b1".to_string()), SdkNode::iri("http://p"), SdkNode::literal("x"))
        .triple(SdkNode::BlankNode("b2".to_string()), SdkNode::iri("http://p"), SdkNode::literal("x"))
        .execute()
        .unwrap();
    assert_eq!(store.len(), 2);
}

#[test]
fn server_responses_follow_the_route() {
    let cors = cors_headers();
    assert_eq!(cors.len(), 3);
    assert_eq!(cors[0], ("Access-Control-Allow-Origin".to_string(), "*".to_string()));
    assert_eq!(cors[1], ("Access-Control-Allow-Methods".to_string(), "GET, POST, OPTIONS".to_string()));
    assert_eq!(cors[2], ("Access-Control-Allow-Headers".to_string(), "Content-Type".to_string()));
    let health = response_plan(Route::Health);
    assert_eq!(health.status, 200);
    assert_eq!(health.body, Some("{\"status\":\"healthy\",\"backend\":\"rust-kgdb\"}".to_string()));
    let missing = response_plan(route(HttpMethod::Get, "/nowhere"));
    assert_eq!(missing.status, 404);
    assert_eq!(missing.body, Some("{\"error\":\"Not found\"}".to_string()));
    let load = response_plan(Route::Load);
    assert_eq!(load.status, 200);
    assert!(load.json);
    assert_eq!(load.body, None);
    assert_eq!(response_plan(Route::Preflight).body, Some(String::new()));
}

#[test]
fn api_server_routes_and_responses() {
    assert_eq!(api_route(HttpMethod::Get, "/health"), ApiRoute::Health);
    assert_eq!(api_route(HttpMethod::Get, "/api/stats"), ApiRoute::Stats);
    assert_eq!(api_route(HttpMethod::Post, "/api/clear"), ApiRoute::Clear);
    assert_eq!(api_route(HttpMethod::Post, "/api/load"), ApiRoute::Load);
    assert_eq!(api_route(HttpMethod::Post, "/api/ask"), ApiRoute::Ask);
    assert_eq!(api_route(HttpMethod::Post, "/api/select"), ApiRoute::Select);
    assert_eq!(api_route(HttpMethod::Options, "/x"), ApiRoute::Preflight);
    assert_eq!(api_route(HttpMethod::Post, "/api/stats"), ApiRoute::NotFound);
    let health = api_response_plan(ApiRoute::Health, 12);
    assert_eq!(health.status, 200);
    assert_eq!(
        health.body,
        Some("{\"status\":\"healthy\",\"backend\":\"rust-kgdb InMemory\",\"triples\":12}".to_string())
    );
    let stats = api_response_plan(ApiRoute::Stats, 0);
    assert_eq!(stats.body, Some("{\"triples\":0,\"backend\":\"rust-kgdb InMemory\"}".to_string()));
    let missing = api_response_plan(ApiRoute::NotFound, 3);
    assert_eq!(missing.status, 404);
    assert_eq!(missing.body, Some("{\"success\":false,\"error\":\"Not found\"}".to_string()));
    assert!(!api_response_plan(ApiRoute::Preflight, 3).json);
}
