use datacert::tree::{
    analyze_json_structure, NodeType, PathTracker, ProfilingMode, StructureAnalysis,
    StructureConfig, TreeNode,
};

#[test]
fn test_analyze_shallow_json() {
    let data = r#"[
            {"id": 1, "name": "Alice"},
            {"id": 2, "name": "Bob"}
        ]"#;
    let result = analyze_json_structure(data.as_bytes(), None);
    assert!(result.is_ok());
    let analysis = result.unwrap();
    assert_eq!(analysis.max_depth, 1);
    assert_eq!(analysis.rows_sampled, 2);
    assert!(analysis.total_paths >= 2);
    assert_eq!(analysis.recommended_mode, ProfilingMode::Tabular);
}

#[test]
fn test_analyze_deeply_nested_json() {
    let data = r#"[
            {
                "level1": {
                    "level2": {
                        "level3": {
                            "level4": {
                                "level5": {
                                    "value": "deep"
                                }
                            }
                        }
                    }
                }
            }
        ]"#;
    let result = analyze_json_structure(data.as_bytes(), None);
    assert!(result.is_ok());
    let analysis = result.unwrap();
    assert_eq!(analysis.max_depth, 6);
    assert!(analysis.total_paths >= 6);
    assert_eq!(analysis.recommended_mode, ProfilingMode::Tree);
}

#[test]
fn test_analyze_wide_json() {
    let mut fields = Vec::new();
    for i in 0..100 {
        fields.push(format!("\"field{}\": {}", i, i));
    }
    let data = format!("[{{{}}}]", fields.join(","));
    let result = analyze_json_structure(data.as_bytes(), None);
    assert!(result.is_ok());
    let analysis = result.unwrap();
    assert_eq!(analysis.total_paths, 101);
    assert_eq!(analysis.max_depth, 1);
}

#[test]
fn test_analyze_population_tracking() {
    let data = r#"[
            {"id": 1, "email": "alice@example.com"},
            {"id": 2, "email": "bob@example.com"},
            {"id": 3},
            {"id": 4}
        ]"#;
    let result = analyze_json_structure(data.as_bytes(), None);
    assert!(result.is_ok());
    let analysis = result.unwrap();
    let email_node = analysis.tree.children.iter().find(|c| c.path == "$.email");
    assert!(email_node.is_some());
    let email = email_node.unwrap();
    let population = email.count as f64 / analysis.rows_sampled as f64 * 100.0;
    assert!((population - 50.0).abs() < 0.1);
}

#[test]
fn test_analyze_mixed_types() {
    let data = r#"[
            {"value": "string"},
            {"value": 123},
            {"value": true}
        ]"#;
    let result = analyze_json_structure(data.as_bytes(), None);
    assert!(result.is_ok());
    let analysis = result.unwrap();
    let value_node = analysis.tree.children.iter().find(|c| c.path == "$.value");
    assert!(value_node.is_some());
    assert_eq!(value_node.unwrap().data_type, NodeType::Mixed);
}

#[test]
fn test_analyze_jsonl_format() {
    let data = r#"{"id": 1, "name": "Alice"}
{"id": 2, "name": "Bob"}
{"id": 3, "name": "Charlie"}"#;
    let result = analyze_json_structure(data.as_bytes(), None);
    assert!(result.is_ok());
    let analysis = result.unwrap();
    assert_eq!(analysis.rows_sampled, 3);
    assert!(analysis.total_paths >= 2);
}

#[test]
fn test_analyze_with_sampling() {
    let rows: Vec<String> = (0..2000)
        .map(|i| format!(r#"{{"id": {}, "value": "row{}" }}"#, i, i))
        .collect();
    let data = format!("[{}]", rows.join(","));
    let config = StructureConfig { max_sample_rows: 100, collect_examples: true };
    let result = analyze_json_structure(data.as_bytes(), Some(config));
    assert!(result.is_ok());
    let analysis = result.unwrap();
    assert_eq!(analysis.rows_sampled, 100);
}

#[test]
fn test_analyze_example_collection() {
    let data = r#"[
            {"name": "Alice"},
            {"name": "Bob"},
            {"name": "Charlie"}
        ]"#;
    let config = StructureConfig { max_sample_rows: 1000, collect_examples: true };
    let result = analyze_json_structure(data.as_bytes(), Some(config));
    assert!(result.is_ok());
    let analysis = result.unwrap();
    let name_node = analysis.tree.children.iter().find(|c| c.path == "$.name");
    assert!(name_node.is_some());
    let name = name_node.unwrap();
    assert!(!name.examples.is_empty());
    assert!(name.examples.len() <= 3);
}

#[test]
fn unknown_or_invalid_sources_fail() {
    assert_eq!(
        analyze_json_structure(b"hello", None).err(),
        Some("Unable to detect JSON format".to_string())
    );
    assert_eq!(
        analyze_json_structure(b"[1, 2", None).err(),
        Some("Invalid JSON array format".to_string())
    );
}

#[test]
fn depth_five_stays_tabular() {
    let data = r#"[{"a": {"b": {"c": {"d": {"e": 1}}}}}]"#;
    let analysis = analyze_json_structure(data.as_bytes(), None).unwrap();
    assert_eq!(analysis.max_depth, 5);
    assert_eq!(analysis.recommended_mode, ProfilingMode::Tabular);
}

#[test]
fn mode_follows_depth_and_width() {
    let mut a = StructureAnalysis::new();
    a.max_depth = 6;
    a.determine_mode();
    assert_eq!(a.recommended_mode, ProfilingMode::Tree);
    a.max_depth = 2;
    a.total_paths = 1001;
    a.determine_mode();
    assert_eq!(a.recommended_mode, ProfilingMode::Tree);
    a.total_paths = 1000;
    a.determine_mode();
    assert_eq!(a.recommended_mode, ProfilingMode::Tabular);
}

#[test]
fn parent_paths_and_node_types() {
    assert_eq!(PathTracker::get_parent_path("$"), "$");
    assert_eq!(PathTracker::get_parent_path("$.a.b"), "$.a");
    assert_eq!(PathTracker::get_parent_path("plain"), "$");
    assert_eq!(PathTracker::determine_node_type(&vec![NodeType::Number]), NodeType::Number);
    assert_eq!(
        PathTracker::determine_node_type(&vec![NodeType::Number, NodeType::Null]),
        NodeType::Mixed
    );
}

#[test]
fn tree_nodes_keep_three_examples() {
    let mut node = TreeNode::new("$.x".to_string(), 1, NodeType::String);
    for v in ["a", "b", "c", "d"] {
        node.add_example(v.to_string());
    }
    assert_eq!(node.examples, vec!["a", "b", "c"]);
    node.add_child(TreeNode::new("$.x.y".to_string(), 2, NodeType::Null));
    assert_eq!(node.child_count, 1);
}

#[test]
fn nested_children_are_attached_in_discovery_order() {
    let data = r#"[{"b": 1, "a": {"c": null}}]"#;
    let analysis = analyze_json_structure(data.as_bytes(), None).unwrap();
    let paths: Vec<&str> = analysis.tree.children.iter().map(|c| c.path.as_str()).collect();
    assert_eq!(paths, vec!["$.a", "$.b"]);
    assert_eq!(analysis.tree.children[0].children[0].path, "$.a.c");
    assert_eq!(analysis.tree.children[0].children[0].data_type, NodeType::Null);
    assert_eq!(analysis.tree.count, 1);
}

#[test]
fn tree_nodes_count_children_and_cap_examples() {
    fn check(node: &TreeNode) {
        assert_eq!(node.child_count, node.children.len());
        assert!(node.examples.len() <= 3);
        for c in &node.children {
            check(c);
        }
    }
    let data = r#"[{"a": {"b": 1, "c": [1]}, "d": "x"}, {"a": {"b": 2}, "d": "y"}, {"d": "z"}, {"d": "w"}]"#;
    let analysis = analyze_json_structure(data.as_bytes(), None).unwrap();
    check(&analysis.tree);
    let d = analysis.tree.children.iter().find(|c| c.path == "$.d").unwrap();
    assert_eq!(d.count, 4);
    assert_eq!(d.examples.len(), 3);
}

#[test]
fn dotted_keys_can_meet_a_path_twice() {
    let data = r#"[{"a.b": 1, "a": {"b": 2}}]"#;
    let analysis = analyze_json_structure(data.as_bytes(), None).unwrap();
    assert_eq!(analysis.rows_sampled, 1);
    let a = analysis.tree.children.iter().find(|c| c.path == "$.a").unwrap();
    let ab = a.children.iter().find(|c| c.path == "$.a.b").unwrap();
    assert_eq!(ab.count, 2);
    assert_eq!(ab.data_type, NodeType::Number);
    assert_eq!(analysis.total_paths, 3);
    assert_eq!(analysis.max_depth, 2);
}
