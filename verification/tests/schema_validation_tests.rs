use graph_traffic::schema::validate_json_simulation;
use serde_json::Value;

fn valid_config_item() -> Value {
    serde_json::from_str(
        r#"{
            "uuid": "123e4567-e89b-12d3-a456-426614174000",
            "graph_file_name": "graph.txt",
            "message_generation": 0.5,
            "max_iterations": 100,
            "warm_up_iterations": 10,
            "random_seed": 42,
            "routing_method": "minimal_paths",
            "observers": [],
            "modifiers": []
        }"#,
    )
    .unwrap()
}

fn value(text: &str) -> Value {
    serde_json::from_str(text).unwrap()
}

fn accepts(items: Vec<Value>) -> bool {
    let text = serde_json::to_string(&Value::Array(items)).unwrap();
    validate_json_simulation(&text)
}

fn without(key: &str) -> Value {
    let mut item = valid_config_item();
    item.as_object_mut().unwrap().remove(key);
    item
}

fn with(key: &str, v: &str) -> Value {
    let mut item = valid_config_item();
    item[key] = value(v);
    item
}

#[test]
fn test_valid_json() {
    assert!(accepts(vec![valid_config_item()]), "Valid JSON should pass validation");
}

#[test]
fn test_multiple_valid_items() {
    let item1 = valid_config_item();
    let item2 = with("uuid", "\"123e4567-e89b-12d3-a456-426614174001\"");
    assert!(accepts(vec![item1, item2]), "Multiple valid items should pass");
}

#[test]
fn test_graph_file_name_constraints() {
    assert!(!accepts(vec![without("graph_file_name")]), "Missing graph_file_name should fail");
    assert!(!accepts(vec![with("graph_file_name", "123")]), "graph_file_name as number should fail");
}

#[test]
fn test_message_generation_constraints() {
    assert!(!accepts(vec![without("message_generation")]), "Missing message_generation should fail");
    assert!(!accepts(vec![with("message_generation", "0")]), "message_generation 0 should fail (exclusiveMinimum)");
    assert!(!accepts(vec![with("message_generation", "-0.1")]), "message_generation < 0 should fail");
    assert!(!accepts(vec![with("message_generation", "1.1")]), "message_generation > 1 should fail");
    assert!(accepts(vec![with("message_generation", "1")]), "message_generation 1 should pass");
}

#[test]
fn test_max_iterations_constraints() {
    assert!(!accepts(vec![without("max_iterations")]), "Missing max_iterations should fail");
    assert!(!accepts(vec![with("max_iterations", "0")]), "max_iterations 0 should fail (exclusiveMinimum)");
    assert!(!accepts(vec![with("max_iterations", "10.5")]), "max_iterations float should fail");
}

#[test]
fn test_warm_up_iterations_constraints() {
    assert!(accepts(vec![without("warm_up_iterations")]), "Missing warm_up_iterations should pass");
    assert!(!accepts(vec![with("warm_up_iterations", "-1")]), "warm_up_iterations < 0 should fail");
    assert!(accepts(vec![with("warm_up_iterations", "0")]), "warm_up_iterations 0 should pass");
}

#[test]
fn test_random_seed_constraints() {
    assert!(accepts(vec![without("random_seed")]), "Missing random_seed should pass");
    assert!(!accepts(vec![with("random_seed", "-1")]), "random_seed < 0 should fail");
}

#[test]
fn test_routing_method_constraints() {
    assert!(!accepts(vec![without("routing_method")]), "Missing routing_method should fail");

    let valid_methods = vec![
        "\"minimal_paths\"",
        "\"random_walk\"",
        "{ \"limited_visibility\": 0 }",
        "{ \"limited_visibility\": 10 }",
    ];
    for method in valid_methods {
        assert!(accepts(vec![with("routing_method", method)]), "Valid routing_method {} should pass", method);
    }

    let invalid_methods = vec![
        "\"invalid_method\"",
        "{}",
        "{ \"limited_visibility\": -1 }",
        "{ \"limited_visibility\": 5, \"extra\": true }",
        "123",
    ];
    for method in invalid_methods {
        assert!(!accepts(vec![with("routing_method", method)]), "Invalid routing_method {} should fail", method);
    }
}

#[test]
fn test_observers_constraints() {
    assert!(accepts(vec![without("observers")]), "Missing observers should pass");
    assert!(!accepts(vec![with("observers", "{}")]), "observers as object should fail");
}

#[test]
fn test_modifiers_constraints() {
    assert!(accepts(vec![without("modifiers")]), "Missing modifiers should pass");
    assert!(!accepts(vec![with("modifiers", "{}")]), "modifiers as object should fail");
}

#[test]
fn validate_json_simulation_refuses_text_that_is_not_json() {
    assert!(!validate_json_simulation("[{\"uuid\": "));
    assert!(!validate_json_simulation(""));
}

#[test]
fn validate_json_simulation_accepts_an_empty_list() {
    assert!(validate_json_simulation("[]"));
}

#[test]
fn validate_json_simulation_refuses_a_single_object() {
    let text = serde_json::to_string(&valid_config_item()).unwrap();
    assert!(!validate_json_simulation(&text));
}
