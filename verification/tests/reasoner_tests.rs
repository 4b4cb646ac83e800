use kgdb::schema::{turtle_readable, OntologySchema};
use kgdb::string_sets::{StringKeyMap, StringSet};
use kgdb::turtle_lines::{
    contains_predicate, expand_prefixed_name, extract_last_uri_or_prefixed, extract_subject,
    extract_subject_object, is_class_definition, is_functional_property, is_property_definition,
    is_rule_declaration, is_symmetric_property, is_transitive_property, parse_prefix_declaration,
    try_parse_prefix_declaration,
};

#[test]
fn test_empty_schema() {
    let schema = OntologySchema::new();
    assert!(schema.classes.is_empty());
    assert!(schema.properties.is_empty());
}

#[test]
fn test_parse_class_prefixed() {
    let ttl = r#"
            <http://example.org/Person> a owl:Class .
        "#;

    let schema = OntologySchema::from_turtle(ttl).unwrap();
    assert!(schema.classes.contains("http://example.org/Person"));
}

#[test]
fn test_parse_class_full_uri() {
    let ttl = r#"
            <http://example.org/Person> a <http://www.w3.org/2002/07/owl#Class> .
        "#;

    let schema = OntologySchema::from_turtle(ttl).unwrap();
    assert!(schema.classes.contains("http://example.org/Person"));
}

#[test]
fn test_parse_transitive_property_prefixed() {
    let ttl = r#"
            <http://example.org/knows> a owl:TransitiveProperty .
        "#;

    let schema = OntologySchema::from_turtle(ttl).unwrap();
    assert!(schema.transitive_properties.contains("http://example.org/knows"));
}

#[test]
fn test_parse_transitive_property_full_uri() {
    let ttl = r#"
            <http://example.org/knows> a <http://www.w3.org/2002/07/owl#TransitiveProperty> .
        "#;

    let schema = OntologySchema::from_turtle(ttl).unwrap();
    assert!(
        schema.transitive_properties.contains("http://example.org/knows"),
        "Failed to parse transitive property with full URI format"
    );
}

#[test]
fn test_parse_subclass_full_uri() {
    let ttl = r#"
            <http://example.org/Student> <http://www.w3.org/2000/01/rdf-schema#subClassOf> <http://example.org/Person> .
        "#;

    let schema = OntologySchema::from_turtle(ttl).unwrap();
    assert!(
        schema.class_hierarchy.contains_key("http://example.org/Student"),
        "Student not found in class_hierarchy"
    );
    let supers = schema.class_hierarchy.get("http://example.org/Student").unwrap();
    assert!(
        supers.contains("http://example.org/Person"),
        "Person not in superclasses of Student"
    );
}

#[test]
fn test_parse_domain_range_full_uri() {
    let ttl = r#"
            <http://example.org/hasParent> <http://www.w3.org/2000/01/rdf-schema#domain> <http://example.org/Person> .
            <http://example.org/hasParent> <http://www.w3.org/2000/01/rdf-schema#range> <http://example.org/Person> .
        "#;

    let schema = OntologySchema::from_turtle(ttl).unwrap();

    assert!(
        schema.domains.contains_key("http://example.org/hasParent"),
        "hasParent not in domains"
    );
    assert!(
        schema.ranges.contains_key("http://example.org/hasParent"),
        "hasParent not in ranges"
    );
}

#[test]
fn test_helper_is_transitive_property() {
    let line_prefixed = "<http://example.org/knows> a owl:TransitiveProperty .";
    let line_full = "<http://example.org/knows> a <http://www.w3.org/2002/07/owl#TransitiveProperty> .";

    assert!(is_transitive_property(line_prefixed), "Prefixed form not detected");
    assert!(is_transitive_property(line_full), "Full URI form not detected");
}

#[test]
fn test_helper_contains_predicate() {
    let line = "<http://example.org/Student> <http://www.w3.org/2000/01/rdf-schema#subClassOf> <http://example.org/Person> .";

    assert!(
        contains_predicate(line, "subClassOf"),
        "subClassOf not detected in line: {}",
        line
    );
}

#[test]
fn test_helper_extract_subject_object() {
    let line = "<http://example.org/Student> <http://www.w3.org/2000/01/rdf-schema#subClassOf> <http://example.org/Person> .";

    let (subject, object) = extract_subject_object(line);

    assert_eq!(
        subject,
        Some("http://example.org/Student".to_string()),
        "Subject extraction failed"
    );
    assert_eq!(
        object,
        Some("http://example.org/Person".to_string()),
        "Object extraction failed"
    );
}

#[test]
fn test_superclass_transitive_closure() {
    let mut schema = OntologySchema::new();

    let mut student_supers = StringSet::new();
    student_supers.insert("http://example.org/Person".to_string());
    schema
        .class_hierarchy
        .insert("http://example.org/Student".to_string(), student_supers);

    let mut person_supers = StringSet::new();
    person_supers.insert("http://example.org/LivingThing".to_string());
    schema
        .class_hierarchy
        .insert("http://example.org/Person".to_string(), person_supers);

    let all_supers = schema.get_all_superclasses("http://example.org/Student");

    assert!(all_supers.contains("http://example.org/Person"));
    assert!(all_supers.contains("http://example.org/LivingThing"));
}

#[test]
fn superclass_closure_survives_cycles() {
    let mut schema = OntologySchema::new();
    let mut a = StringSet::new();
    a.insert("B".to_string());
    schema.class_hierarchy.insert("A".to_string(), a);
    let mut b = StringSet::new();
    b.insert("A".to_string());
    schema.class_hierarchy.insert("B".to_string(), b);
    let supers = schema.get_all_superclasses("A");
    assert!(supers.contains("A"));
    assert!(supers.contains("B"));
    assert_eq!(supers.len(), 2);
    assert!(schema.get_all_superclasses("Z").is_empty());
}

#[test]
fn superproperty_closure() {
    let ttl = "<http://x/a> <http://www.w3.org/2000/01/rdf-schema#subPropertyOf> <http://x/b> .\n<http://x/b> <http://www.w3.org/2000/01/rdf-schema#subPropertyOf> <http://x/c> .";
    let schema = OntologySchema::from_turtle(ttl).unwrap();
    let supers = schema.get_all_superproperties("http://x/a");
    assert!(supers.contains("http://x/b"));
    assert!(supers.contains("http://x/c"));
    assert_eq!(supers.len(), 2);
}

#[test]
fn test_prefix_declaration_parsing() {
    let line = "@prefix ins: <http://insurance.gonnect.ai/> .";
    let result = parse_prefix_declaration(line);
    assert!(result.is_some());
    let (prefix, uri) = result.unwrap();
    assert_eq!(prefix, "ins:");
    assert_eq!(uri, "http://insurance.gonnect.ai/");
}

#[test]
fn sparql_prefix_declaration_parsing() {
    let result = parse_prefix_declaration("PREFIX ex: <http://x/>");
    assert_eq!(result, Some(("ex:".to_string(), "http://x/".to_string())));
    assert_eq!(
        parse_prefix_declaration("@prefix ex <http://x/> ."),
        Some(("ex:".to_string(), "http://x/".to_string()))
    );
    assert_eq!(parse_prefix_declaration("@prefix ex: http://x/ ."), None);
}

#[test]
fn test_prefix_expansion() {
    let mut prefixes = StringKeyMap::new();
    prefixes.insert("ins:".to_string(), "http://insurance.gonnect.ai/".to_string());
    prefixes.insert("owl:".to_string(), "http://www.w3.org/2002/07/owl#".to_string());

    assert_eq!(
        expand_prefixed_name("ins:transfers", &prefixes),
        "http://insurance.gonnect.ai/transfers"
    );
    assert_eq!(
        expand_prefixed_name("http://example.org/test", &prefixes),
        "http://example.org/test"
    );
    assert_eq!(expand_prefixed_name("unknown:test", &prefixes), "unknown:test");
}

#[test]
fn test_parse_symmetric_property_with_prefix() {
    let ttl = r#"
            @prefix ins: <http://insurance.gonnect.ai/> .
            @prefix owl: <http://www.w3.org/2002/07/owl#> .

            ins:relatedTo a owl:SymmetricProperty .
        "#;

    let schema = OntologySchema::from_turtle(ttl).unwrap();

    assert!(
        schema
            .symmetric_properties
            .contains("http://insurance.gonnect.ai/relatedTo"),
        "Expected 'http://insurance.gonnect.ai/relatedTo' in symmetric_properties"
    );
}

#[test]
fn test_parse_transitive_property_with_prefix() {
    let ttl = r#"
            @prefix ins: <http://insurance.gonnect.ai/> .
            @prefix owl: <http://www.w3.org/2002/07/owl#> .

            ins:transfers a owl:TransitiveProperty .
        "#;

    let schema = OntologySchema::from_turtle(ttl).unwrap();

    assert!(
        schema
            .transitive_properties
            .contains("http://insurance.gonnect.ai/transfers"),
        "Expected 'http://insurance.gonnect.ai/transfers' in transitive_properties"
    );
}

#[test]
fn line_classifiers() {
    assert!(is_class_definition("<http://x/A> a owl:Class ."));
    assert!(is_class_definition("<http://x/A> rdf:type owl:Class ."));
    assert!(!is_class_definition("<http://x/A> rdf:type rdfs:Class ."));
    assert!(!is_class_definition("<http://x/A> a owl:ObjectProperty ."));
    assert!(is_property_definition("<http://x/p> a owl:ObjectProperty ."));
    assert!(is_symmetric_property("<http://x/p> a owl:SymmetricProperty ."));
    assert!(!is_symmetric_property("<http://x/p> a owl:TransitiveProperty ."));
    assert!(is_functional_property("<http://x/p> a owl:FunctionalProperty ."));
    assert!(!is_rule_declaration("<http://x/A> a owl:Class ."));
}

#[test]
fn subject_and_last_uri_extraction() {
    assert_eq!(extract_subject("<http://x/A> a owl:Class ."), Some("http://x/A".to_string()));
    assert_eq!(extract_subject("ex:A a owl:Class ."), Some("ex:A".to_string()));
    assert_eq!(
        extract_last_uri_or_prefixed("<http://x/A> <http://p> <http://x/B> ."),
        Some("http://x/B".to_string())
    );
}

#[test]
fn schema_merge_unions_everything() {
    let a = OntologySchema::from_turtle("<http://x/A> a owl:Class .\n<http://x/A> <http://www.w3.org/2000/01/rdf-schema#subClassOf> <http://x/B> .").unwrap();
    let mut b = OntologySchema::from_turtle("<http://x/C> a owl:Class .\n<http://x/A> <http://www.w3.org/2000/01/rdf-schema#subClassOf> <http://x/D> .").unwrap();
    b.merge(&a);
    assert!(b.classes.contains("http://x/A"));
    assert!(b.classes.contains("http://x/C"));
    let supers = b.class_hierarchy.get("http://x/A").unwrap();
    assert!(supers.contains("http://x/B"));
    assert!(supers.contains("http://x/D"));
    assert_eq!(supers.len(), 2);
}

#[test]
fn string_set_keeps_one_copy() {
    let mut s = StringSet::new();
    assert!(s.insert("a".to_string()));
    assert!(!s.insert("a".to_string()));
    assert_eq!(s.len(), 1);
    let mut m: StringKeyMap<String> = StringKeyMap::new();
    m.insert("k".to_string(), "v1".to_string());
    m.insert("k".to_string(), "v2".to_string());
    assert_eq!(m.len(), 1);
    assert_eq!(m.get("k"), Some(&"v2".to_string()));
    assert_eq!(m.get("other"), None);
}

#[test]
fn turtle_readable_tells_which_texts_can_be_read() {
    let good = "@prefix ex: <http://example.org/> .\nex:Animal a owl:Class .\nex:Dog rdfs:subClassOf ex:Animal .";
    assert!(turtle_readable(good));
    assert!(OntologySchema::from_turtle(good).is_ok());
    assert!(!turtle_readable("x> <y a owl:Class ."));
    assert!(!turtle_readable("@prefix ex: > <http://x> ."));
    assert!(turtle_readable("# x> <y a owl:Class ."));
}

#[test]
fn try_parse_prefix_declaration_refuses_unreadable_lines() {
    assert_eq!(
        try_parse_prefix_declaration("@prefix ex: <http://example.org/> ."),
        Some(Some(("ex:".to_string(), "http://example.org/".to_string())))
    );
    assert_eq!(try_parse_prefix_declaration("ex:A a owl:Class ."), Some(None));
    assert_eq!(try_parse_prefix_declaration("@prefix ex: > <http://x> ."), None);
}
