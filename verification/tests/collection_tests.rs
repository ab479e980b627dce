use slurmtool::node::Node;
use slurmtool::node::NodeMap;
use slurmtool::node::parse_nodes;
use slurmtool::partition::Partition;
use slurmtool::partition::PartitionMap;
use slurmtool::partition::parse_partitions;
use slurmtool::partition::partitions_input_wf;
use slurmtool::terminal_size::TerminalSize;

fn partition_named(name: &str) -> Partition {
    Partition::from_fields(&vec![("PartitionName", name)]).unwrap()
}

fn node_named(name: &str) -> Node {
    Node::from_fields(&vec![("NodeName", name)])
}

#[test]
fn duplicate_partition_name_fails_the_build() {
    let parts = vec![
        partition_named("alpha"),
        partition_named("beta"),
        partition_named("alpha"),
    ];
    let err = PartitionMap::build(parts).unwrap_err();
    assert_eq!(err.name, "alpha");
}

#[test]
fn duplicate_node_name_fails_the_build() {
    let nodes = vec![node_named("n1"), node_named("n1")];
    let err = NodeMap::build(nodes).unwrap_err();
    assert_eq!(err.name, "n1");
}

#[test]
fn distinct_names_build_and_lookup_exactly() {
    let parts = vec![
        partition_named("alpha"),
        partition_named("beta"),
        partition_named("gamma"),
    ];
    let map = PartitionMap::build(parts).unwrap();
    assert_eq!(map.get("alpha").unwrap().name, "alpha");
    assert_eq!(map.get("beta").unwrap().name, "beta");
    assert_eq!(map.get("gamma").unwrap().name, "gamma");
    assert!(map.get("delta").is_none());
    assert!(map.get("").is_none());
}

#[test]
fn node_lookup_returns_the_inserted_record() {
    let mut n1 = node_named("n1");
    n1.arch = Some("x86_64".to_string());
    let nodes = vec![n1, node_named("n2")];
    let map = NodeMap::build(nodes).unwrap();
    assert_eq!(map.get("n1").unwrap().arch, Some("x86_64".to_string()));
    assert_eq!(map.get("n2").unwrap().arch, None);
    assert!(map.get("n3").is_none());
}

#[test]
fn iteration_visits_records_in_name_order() {
    let parts = vec![
        partition_named("gamma"),
        partition_named("alpha"),
        partition_named("beta"),
    ];
    let map = PartitionMap::build(parts).unwrap();
    let names: Vec<&str> = map.partitions.iter().map(|p| p.name.as_str()).collect();
    assert_eq!(names, vec!["alpha", "beta", "gamma"]);

    let nodes = vec![node_named("n10"), node_named("n1"), node_named("n2")];
    let nmap = NodeMap::build(nodes).unwrap();
    let nnames: Vec<&str> = nmap.nodes.iter().map(|n| n.name.as_str()).collect();
    assert_eq!(nnames, vec!["n1", "n10", "n2"]);
}

#[test]
fn insertion_order_does_not_affect_iteration() {
    let forward = PartitionMap::build(vec![partition_named("a"), partition_named("b")]).unwrap();
    let backward = PartitionMap::build(vec![partition_named("b"), partition_named("a")]).unwrap();
    let f: Vec<&str> = forward.partitions.iter().map(|p| p.name.as_str()).collect();
    let b: Vec<&str> = backward.partitions.iter().map(|p| p.name.as_str()).collect();
    assert_eq!(f, b);
    assert_eq!(f, vec!["a", "b"]);
}

#[test]
fn parse_nodes_decodes_one_record_per_line() {
    let text = "NodeName=n1 CPUTot=4 State=IDLE\nNodeName=n2 CPUTot=8\n";
    let nodes = parse_nodes(text);
    assert_eq!(nodes.len(), 2);
    assert_eq!(nodes[0].name, "n1");
    assert_eq!(nodes[0].cpu_total, Some(4));
    assert_eq!(nodes[0].state, Some("IDLE".to_string()));
    assert_eq!(nodes[1].name, "n2");
    assert_eq!(nodes[1].cpu_total, Some(8));
}

#[test]
fn parse_nodes_of_empty_text_is_empty() {
    assert!(parse_nodes("").is_empty());
}

#[test]
fn parse_partitions_decodes_and_expands() {
    let text = "PartitionName=batch Nodes=node[1-2] TotalNodes=2\nPartitionName=debug Default=YES\n";
    assert!(partitions_input_wf(text));
    let parts = parse_partitions(text).unwrap();
    assert_eq!(parts.len(), 2);
    assert_eq!(parts[0].name, "batch");
    assert_eq!(parts[0].nodes, vec!["node1", "node2"]);
    assert_eq!(parts[0].total_nodes, Some(2));
    assert_eq!(parts[1].name, "debug");
    assert!(parts[1].default);
}

#[test]
fn parse_partitions_reports_the_bad_segment() {
    let text = "PartitionName=batch Nodes=node[x-2]\n";
    assert!(partitions_input_wf(text));
    let err = parse_partitions(text).unwrap_err();
    assert_eq!(err.segment, "x-2");
}

#[test]
fn input_wellformedness_flags_reversed_brackets() {
    assert!(partitions_input_wf("PartitionName=p Nodes=n[1-2]\n"));
    assert!(!partitions_input_wf("PartitionName=p Nodes=n]1[2\n"));
    // a bracket in another field's value does not matter
    assert!(partitions_input_wf("PartitionName=p State=up]x[\n"));
}

#[test]
fn carriage_returns_are_stripped_from_line_ends() {
    let nodes = parse_nodes("NodeName=a\r\nNodeName=b");
    assert_eq!(nodes.len(), 2);
    assert_eq!(nodes[0].name, "a");
    assert_eq!(nodes[1].name, "b");
}

#[test]
fn test_terminal_size() {
    let terminal_size = TerminalSize::new(80, 24);
    println!("{:?}", terminal_size);
    assert_eq!(terminal_size.width, 80);
    assert_eq!(terminal_size.height, 24);
}
