use slurmtool::hostlist::expand_node_range;
use slurmtool::hostlist::hostlist_wf;

#[test]
fn test_expand_node_range() {
    let test_cases = vec![
        ("node[39-40,42-43]", vec!["node39", "node40", "node42", "node43"]),
        (
            "myslumbox,node[39-40,42-43]",
            vec!["myslumbox", "node39", "node40", "node42", "node43"],
        ),
        ("node50", vec!["node50"]),
        (
            "firstnode,node[1-3,5],othernode",
            vec!["firstnode", "node1", "node2", "node3", "node5", "othernode"],
        ),
    ];

    for (input, expected) in test_cases {
        assert_eq!(expand_node_range(input).unwrap(), expected);
    }
}

#[test]
fn plain_comma_split_without_brackets() {
    assert_eq!(expand_node_range("a,b,c").unwrap(), vec!["a", "b", "c"]);
    assert_eq!(expand_node_range("single").unwrap(), vec!["single"]);
    assert_eq!(expand_node_range("").unwrap(), vec![""]);
    assert_eq!(expand_node_range("a,,b").unwrap(), vec!["a", "", "b"]);
}

#[test]
fn bracket_without_close_yields_nothing() {
    assert_eq!(expand_node_range("node[3").unwrap(), Vec::<String>::new());
}

#[test]
fn single_numbers_and_literals_inside_brackets() {
    assert_eq!(expand_node_range("n[7]").unwrap(), vec!["n7"]);
    assert_eq!(expand_node_range("n[7,9]").unwrap(), vec!["n7", "n9"]);
    assert_eq!(expand_node_range("n[abc]").unwrap(), vec!["nabc"]);
}

#[test]
fn empty_prefix_and_descending_range() {
    assert_eq!(expand_node_range("[1-3]").unwrap(), vec!["1", "2", "3"]);
    // start above end denotes no names at all
    assert_eq!(expand_node_range("n[5-3]").unwrap(), Vec::<String>::new());
}

#[test]
fn no_zero_padding_in_expanded_numbers() {
    // the width of the written bounds is not preserved
    assert_eq!(expand_node_range("n[08-10]").unwrap(), vec!["n8", "n9", "n10"]);
}

#[test]
fn second_bracket_group_is_literal_suffix_text() {
    assert_eq!(
        expand_node_range("a[1-2],c[3-4]").unwrap(),
        vec!["a1", "a2", "c[3-4]"]
    );
}

#[test]
fn suffix_names_after_bracket() {
    assert_eq!(
        expand_node_range("n[1-2],x,y").unwrap(),
        vec!["n1", "n2", "x", "y"]
    );
    // a lone comma after the bracket leaves one empty name
    assert_eq!(expand_node_range("n[1-2],").unwrap(), vec!["n1", "n2", ""]);
    // whatever character follows the bracket is dropped as the separator
    assert_eq!(expand_node_range("n[1-2]x").unwrap(), vec!["n1", "n2", ""]);
}

#[test]
fn malformed_range_bound_is_an_error() {
    let err = expand_node_range("node[a-b]").unwrap_err();
    assert_eq!(err.segment, "a-b");
    let err = expand_node_range("node[1-x]").unwrap_err();
    assert_eq!(err.segment, "1-x");
    // the error carries the first failing segment
    let err = expand_node_range("node[1-2,q-4,r-6]").unwrap_err();
    assert_eq!(err.segment, "q-4");
    // a negative bound does not parse as unsigned
    let err = expand_node_range("node[-5]").unwrap_err();
    assert_eq!(err.segment, "-5");
}

#[test]
fn wellformedness_of_bracket_order() {
    assert!(hostlist_wf("node[1-2]"));
    assert!(hostlist_wf("plain"));
    assert!(hostlist_wf("node[3"));
    assert!(!hostlist_wf("a]b[c"));
}
