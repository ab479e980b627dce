use slurmtool::node::Node;
use slurmtool::partition::Partition;
use slurmtool::tokenize::tokenize;

#[test]
fn test_node_from_fields() {
    let fields = vec![
        ("NodeName", "node1"),
        ("Arch", "x86_64"),
        ("CoresPerSocket", "2"),
        ("CPUAlloc", "1"),
        ("CPUEfctv", "1"),
        ("CPUTot", "2"),
        ("CPULoad", "0.00"),
        ("AvailableFeatures", "feature1,feature2"),
        ("ActiveFeatures", "feature1"),
        ("Gres", "gpu:1"),
    ];

    let node = Node::from_fields(&fields);

    assert_eq!(node.name, "node1");
    assert_eq!(node.arch, Some("x86_64".to_string()));
    assert_eq!(node.cores_per_socket, Some(2));
    assert_eq!(node.cpu_alloc, Some(1));
    assert_eq!(node.cpu_effective, Some(1));
    assert_eq!(node.cpu_total, Some(2));
    assert_eq!(node.cpu_load, Some("0.00".to_string()));
    assert_eq!(
        node.available_features,
        vec!["feature1".to_string(), "feature2".to_string()]
    );
    assert_eq!(node.active_features, vec!["feature1".to_string()]);
    assert_eq!(node.gres, Some("gpu:1".to_string()));
}

#[test]
fn test_node_from_fields_partial() {
    let fields = vec![("NodeName", "node2"), ("Arch", "arm64")];

    let node = Node::from_fields(&fields);

    assert_eq!(node.name, "node2");
    assert_eq!(node.arch, Some("arm64".to_string()));
    assert_eq!(node.cores_per_socket, None);
    assert_eq!(node.cpu_alloc, None);
    assert_eq!(node.cpu_effective, None);
    assert_eq!(node.cpu_total, None);
    assert_eq!(node.cpu_load, None);
    assert!(node.available_features.is_empty());
    assert!(node.active_features.is_empty());
    assert_eq!(node.gres, None);
}

#[test]
fn test_node_from_fields_empty() {
    let fields: Vec<(&str, &str)> = vec![];

    let node = Node::from_fields(&fields);

    assert_eq!(node.name, "");
    assert_eq!(node.arch, None);
    assert_eq!(node.cores_per_socket, None);
    assert_eq!(node.cpu_alloc, None);
    assert_eq!(node.cpu_effective, None);
    assert_eq!(node.cpu_total, None);
    assert_eq!(node.cpu_load, None);
    assert!(node.available_features.is_empty());
    assert!(node.active_features.is_empty());
    assert_eq!(node.gres, None);
}

#[test]
fn test_node_from_fields_invalid_values() {
    let fields = vec![
        ("NodeName", "node3"),
        ("CoresPerSocket", "invalid"),
        ("CPUAlloc", "invalid"),
        ("CPULoad", "invalid"),
    ];

    let node = Node::from_fields(&fields);

    assert_eq!(node.name, "node3");
    assert_eq!(node.cores_per_socket, None);
    assert_eq!(node.cpu_alloc, None);
    assert_eq!(node.cpu_load, None);
}

#[test]
fn cpu_load_keeps_text_that_reads_as_a_float() {
    let node = Node::from_fields(&vec![("CPULoad", "1.5e3")]);
    assert_eq!(node.cpu_load, Some("1.5e3".to_string()));
    let node = Node::from_fields(&vec![("CPULoad", "12")]);
    assert_eq!(node.cpu_load, Some("12".to_string()));
    let node = Node::from_fields(&vec![("CPULoad", "1.2.3")]);
    assert_eq!(node.cpu_load, None);
    let node = Node::from_fields(&vec![("CPULoad", "")]);
    assert_eq!(node.cpu_load, None);
}

#[test]
fn partition_from_empty_fields_is_all_defaults() {
    let fields: Vec<(&str, &str)> = vec![];

    let partition = Partition::from_fields(&fields).unwrap();

    assert_eq!(partition.name, "");
    assert_eq!(partition.allow_groups, None);
    assert!(partition.allow_accounts.is_empty());
    assert!(!partition.default);
    assert!(!partition.disable_root_jobs);
    assert!(!partition.exclusive_user);
    assert!(!partition.hidden);
    assert!(!partition.lln);
    assert!(!partition.root_only);
    assert!(!partition.req_resv);
    assert!(!partition.oversubscribe);
    assert_eq!(partition.grace_time, None);
    assert_eq!(partition.max_nodes, None);
    assert!(partition.nodes.is_empty());
    assert_eq!(partition.tres, None);
}

#[test]
fn boolean_fields_are_true_only_for_exact_yes() {
    let p = Partition::from_fields(&vec![("Default", "YES")]).unwrap();
    assert!(p.default);
    let p = Partition::from_fields(&vec![("Default", "yes")]).unwrap();
    assert!(!p.default);
    let p = Partition::from_fields(&vec![("Default", "No")]).unwrap();
    assert!(!p.default);
    let p = Partition::from_fields(&vec![("Default", "")]).unwrap();
    assert!(!p.default);
    let p = Partition::from_fields(&vec![("Default", "1")]).unwrap();
    assert!(!p.default);
    let p = Partition::from_fields(&vec![("Hidden", "YES"), ("LLN", "YES"), ("RootOnly", "no")])
        .unwrap();
    assert!(p.hidden);
    assert!(p.lln);
    assert!(!p.root_only);
}

#[test]
fn invalid_numeric_values_become_absent() {
    let p = Partition::from_fields(&vec![
        ("GraceTime", "invalid"),
        ("MaxNodes", "12x"),
        ("TotalCPUs", ""),
        ("TotalNodes", "4294967296"),
        ("MinNodes", "17"),
    ])
    .unwrap();
    assert_eq!(p.grace_time, None);
    assert_eq!(p.max_nodes, None);
    assert_eq!(p.total_cpus, None);
    assert_eq!(p.total_nodes, None);
    assert_eq!(p.min_nodes, Some(17));
}

#[test]
fn numeric_parsing_follows_std_unsigned_rules() {
    let p = Partition::from_fields(&vec![
        ("GraceTime", "+5"),
        ("MaxNodes", "4294967295"),
        ("TotalCPUs", "-3"),
    ])
    .unwrap();
    assert_eq!(p.grace_time, Some(5));
    assert_eq!(p.max_nodes, Some(u32::MAX));
    assert_eq!(p.total_cpus, None);
}

#[test]
fn later_occurrences_overwrite_earlier_ones() {
    let p = Partition::from_fields(&vec![
        ("PartitionName", "first"),
        ("PartitionName", "second"),
        ("GraceTime", "1"),
        ("GraceTime", "oops"),
    ])
    .unwrap();
    assert_eq!(p.name, "second");
    assert_eq!(p.grace_time, None);
}

#[test]
fn unknown_keys_are_ignored() {
    let p = Partition::from_fields(&vec![
        ("NoSuchKey", "whatever"),
        ("PartitionName", "p1"),
        ("partitionname", "lowercase-is-not-matched"),
    ])
    .unwrap();
    assert_eq!(p.name, "p1");
}

#[test]
fn partition_nodes_value_is_hostlist_expanded() {
    let p = Partition::from_fields(&vec![("Nodes", "node[39-40,42-43]")]).unwrap();
    assert_eq!(p.nodes, vec!["node39", "node40", "node42", "node43"]);
    // membership lists on other keys are plain comma splits
    let p = Partition::from_fields(&vec![("AllowAccounts", "acct1,acct2,acct1")]).unwrap();
    assert_eq!(p.allow_accounts, vec!["acct1", "acct2", "acct1"]);
}

#[test]
fn malformed_nodes_range_fails_the_record() {
    let err = Partition::from_fields(&vec![("PartitionName", "p"), ("Nodes", "n[1-oops]")])
        .unwrap_err();
    assert_eq!(err.segment, "1-oops");
}

#[test]
fn tokenize_line_without_equals_is_empty() {
    assert!(tokenize("").is_empty());
    assert!(tokenize("hello world").is_empty());
    assert!(tokenize("   spaced   out   ").is_empty());
}

#[test]
fn tokenize_splits_each_word_at_its_first_equals() {
    assert_eq!(
        tokenize("Key=Value=extra"),
        vec![("Key".to_string(), "Value=extra".to_string())]
    );
    assert_eq!(
        tokenize("a=1 b=2"),
        vec![
            ("a".to_string(), "1".to_string()),
            ("b".to_string(), "2".to_string())
        ]
    );
    // words without `=` are dropped, order is kept
    assert_eq!(
        tokenize("noise a=1   more  b==x"),
        vec![
            ("a".to_string(), "1".to_string()),
            ("b".to_string(), "=x".to_string())
        ]
    );
    // an `=` at the start of a word gives an empty key
    assert_eq!(tokenize("=v"), vec![("".to_string(), "v".to_string())]);
}

#[test]
fn tokenize_splits_on_unicode_whitespace() {
    assert_eq!(
        tokenize("a=1\u{00A0}b=2\tc=3"),
        vec![
            ("a".to_string(), "1".to_string()),
            ("b".to_string(), "2".to_string()),
            ("c".to_string(), "3".to_string())
        ]
    );
}
