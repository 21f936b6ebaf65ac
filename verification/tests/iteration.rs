use wysiwyg::{
    ContainerNode, Dom, DomHandle, DomIterator, DomNode, DomNodeIterator, LineBreakNode, TextNode,
    ZwspNode,
};

fn ch(path: &[usize]) -> DomHandle {
    DomHandle::from_raw(path.to_vec())
}

fn text(path: &[usize], s: &str) -> DomNode {
    DomNode::Text(TextNode::new(ch(path), s.to_string()))
}

fn cont(path: &[usize], name: &str, children: Vec<DomNode>) -> DomNode {
    DomNode::Container(ContainerNode::new(ch(path), name.to_string(), children))
}

fn br(path: &[usize]) -> DomNode {
    DomNode::LineBreak(LineBreakNode::new(ch(path)))
}

/// The example document:
/// a list with one item holding text "b" and a bold span holding "c",
/// a second list item "foo", an italic span with "d", text "e", a line
/// break, and a bold span "x".
fn example_dom() -> Dom {
    Dom::new(vec![
        cont(
            &[0],
            "ul",
            vec![
                cont(
                    &[0, 0],
                    "li",
                    vec![
                        text(&[0, 0, 0], "b"),
                        cont(&[0, 0, 1], "strong", vec![text(&[0, 0, 1, 0], "c")]),
                    ],
                ),
                cont(&[0, 1], "li", vec![text(&[0, 1, 0], "foo")]),
            ],
        ),
        cont(&[1], "i", vec![text(&[1, 0], "d")]),
        text(&[2], "e"),
        br(&[3]),
        cont(&[4], "b", vec![text(&[4, 0], "x")]),
    ])
    .unwrap()
}

fn node_txt(node: &DomNode) -> String {
    match node {
        DomNode::Container(c) => c.name().to_string(),
        DomNode::Text(t) => format!("'{}'", t.data()),
        DomNode::LineBreak(_) => String::from("br"),
        DomNode::Zwsp(_) => String::from("~"),
    }
}

fn collect_subtree(mut it: DomIterator) -> Vec<String> {
    let mut out = Vec::new();
    while let Some(n) = it.next() {
        out.push(node_txt(n));
    }
    out
}

fn collect_fwd(mut it: DomNodeIterator) -> Vec<String> {
    let mut out = Vec::new();
    while let Some(n) = it.next() {
        out.push(node_txt(n));
    }
    out
}

fn collect_rev(mut it: DomNodeIterator) -> Vec<String> {
    let mut out = Vec::new();
    while let Some(n) = it.next_back() {
        out.push(node_txt(n));
    }
    out
}

#[test]
fn can_walk_all_nodes() {
    let dom = example_dom();
    let text_nodes: Vec<String> = collect_subtree(dom.iter());

    assert_eq!(
        text_nodes,
        vec![
            "", "ul", "li", "'b'", "strong", "'c'", "li", "'foo'", "i", "'d'", "'e'", "br", "b",
            "'x'"
        ]
    );
}

#[test]
fn can_walk_all_nodes_of_a_leading_subtree() {
    let dom = example_dom();
    let first_child = dom.children().first().unwrap();
    let text_nodes: Vec<String> = collect_subtree(first_child.iter_subtree());

    assert_eq!(
        text_nodes,
        vec!["ul", "li", "'b'", "strong", "'c'", "li", "'foo'"]
    )
}

#[test]
fn can_walk_all_nodes_of_a_middle_subtree() {
    let dom = example_dom();
    let second_child = &dom.children()[1];
    let text_nodes: Vec<String> = collect_subtree(second_child.iter_subtree());

    assert_eq!(text_nodes, vec!["i", "'d'"])
}

#[test]
fn can_walk_all_nodes_of_a_trailing_subtree() {
    let dom = example_dom();
    let last_child = dom.children().last().unwrap();
    let text_nodes: Vec<String> = collect_subtree(last_child.iter_subtree());

    assert_eq!(text_nodes, vec!["b", "'x'"])
}

#[test]
fn can_walk_all_nodes_of_a_deep_subtree() {
    let dom = example_dom();
    if let DomNode::Container(list) = dom.children().first().unwrap() {
        let deep_child = list.children().first().unwrap();
        let text_nodes: Vec<String> = collect_subtree(deep_child.iter_subtree());

        assert_eq!(text_nodes, vec!["li", "'b'", "strong", "'c'"])
    } else {
        panic!("First child should have been the list")
    }
}

#[test]
fn can_walk_all_text_nodes() {
    let dom = example_dom();
    let mut it = dom.iter_text();
    let mut text_nodes: Vec<String> = Vec::new();
    while let Some(t) = it.next() {
        text_nodes.push(t.data().to_string());
    }

    assert_eq!(text_nodes, vec!["b", "c", "foo", "d", "e", "x"]);
}

#[test]
fn can_walk_all_text_nodes_of_a_leading_subtree() {
    let dom = example_dom();
    let first_child = dom.children().first().unwrap();
    let mut it = first_child.iter_text_in_subtree();
    let mut text_nodes: Vec<String> = Vec::new();
    while let Some(t) = it.next() {
        text_nodes.push(t.data().to_string());
    }

    assert_eq!(text_nodes, vec!["b", "c", "foo"])
}

#[test]
fn can_walk_all_text_nodes_of_a_middle_subtree() {
    let dom = example_dom();
    let second_child = &dom.children()[1];
    let mut it = second_child.iter_text_in_subtree();
    let mut text_nodes: Vec<String> = Vec::new();
    while let Some(t) = it.next() {
        text_nodes.push(t.data().to_string());
    }

    assert_eq!(text_nodes, vec!["d"])
}

#[test]
fn can_walk_all_text_nodes_of_a_trailing_subtree() {
    let dom = example_dom();
    let last_child = dom.children().last().unwrap();
    let mut it = last_child.iter_text_in_subtree();
    let mut text_nodes: Vec<String> = Vec::new();
    while let Some(t) = it.next() {
        text_nodes.push(t.data().to_string());
    }

    assert_eq!(text_nodes, vec!["x"])
}

#[test]
fn can_walk_all_text_nodes_of_a_deep_subtree() {
    let dom = example_dom();
    if let DomNode::Container(list) = dom.children().first().unwrap() {
        let deep_child = list.children().first().unwrap();
        let mut it = deep_child.iter_text_in_subtree();
        let mut text_nodes: Vec<String> = Vec::new();
        while let Some(t) = it.next() {
            text_nodes.push(t.data().to_string());
        }

        assert_eq!(text_nodes, vec!["b", "c"])
    } else {
        panic!("First child should have been the list")
    }
}

#[test]
fn can_walk_all_nodes_of_the_tree_from_a_node() {
    let dom = example_dom();
    let first_child = dom.children().first().unwrap();
    let text_nodes: Vec<String> = collect_fwd(dom.iter_from(first_child));

    assert_eq!(
        text_nodes,
        vec![
            "ul", "li", "'b'", "strong", "'c'", "li", "'foo'", "i", "'d'", "'e'", "br", "b", "'x'"
        ]
    )
}

#[test]
fn can_walk_all_nodes_of_the_tree_from_a_leaf_node() {
    let dom = example_dom();
    let handle = DomHandle::from_raw(vec![0, 0, 1, 0]);
    let text_nodes: Vec<String> = collect_fwd(dom.iter_from_handle(&handle));

    assert_eq!(
        text_nodes,
        vec!["'c'", "li", "'foo'", "i", "'d'", "'e'", "br", "b", "'x'"]
    )
}

#[test]
fn can_walk_all_nodes_of_the_tree_from_root() {
    let dom = example_dom();
    let text_nodes: Vec<String> = collect_fwd(dom.iter_from(dom.document_node()));

    assert_eq!(
        text_nodes,
        vec![
            "", "ul", "li", "'b'", "strong", "'c'", "li", "'foo'", "i", "'d'", "'e'", "br", "b",
            "'x'"
        ]
    )
}

#[test]
fn can_walk_all_nodes_of_the_tree_from_last_node_in_dom() {
    let dom = example_dom();
    let handle = DomHandle::from_raw(vec![4, 0]);
    let text_nodes: Vec<String> = collect_fwd(dom.iter_from_handle(&handle));

    assert_eq!(text_nodes, vec!["'x'"])
}

#[test]
fn can_walk_all_nodes_of_the_tree_from_last_node_in_dom_reversed() {
    let dom = example_dom();
    let handle = DomHandle::from_raw(vec![4, 0]);
    let text_nodes: Vec<String> = collect_rev(dom.iter_from_handle(&handle));

    assert_eq!(
        text_nodes,
        vec![
            "'x'", "b", "br", "'e'", "i", "'d'", "ul", "li", "'foo'", "li", "strong", "'c'", "'b'",
            "",
        ]
    )
}

#[test]
fn can_walk_all_nodes_of_the_tree_from_root_reversed() {
    let dom = example_dom();
    let text_nodes: Vec<String> = collect_rev(dom.iter_from(dom.document_node()));

    assert_eq!(text_nodes, vec![""])
}

#[test]
fn can_walk_all_nodes_of_the_tree_from_first_child_reversed() {
    let dom = example_dom();
    let text_nodes: Vec<String> =
        collect_rev(dom.iter_from(dom.document().children().first().unwrap()));

    assert_eq!(text_nodes, vec!["ul", ""])
}

#[test]
fn can_walk_all_nodes_of_the_tree_from_a_leaf_node_reversed() {
    let dom = example_dom();
    let handle = DomHandle::from_raw(vec![0, 0, 1, 0]);
    let text_nodes: Vec<String> = collect_rev(dom.iter_from_handle(&handle));

    assert_eq!(text_nodes, vec!["'c'", "strong", "'b'", "li", "ul", ""])
}

#[test]
fn can_walk_all_nodes_of_the_tree_from_a_leaf_node_reversed_2() {
    let dom = example_dom();
    let handle = DomHandle::from_raw(vec![0, 1, 0]);
    let text_nodes: Vec<String> = collect_rev(dom.iter_from_handle(&handle));

    assert_eq!(
        text_nodes,
        vec!["'foo'", "li", "li", "strong", "'c'", "'b'", "ul", ""]
    )
}

#[test]
fn can_walk_all_nodes_of_the_tree_from_a_node_reversed() {
    let dom = example_dom();
    let last_child = dom.children().last().unwrap();
    let text_nodes: Vec<String> = collect_rev(dom.iter_from(last_child));

    assert_eq!(
        text_nodes,
        vec![
            "b", "br", "'e'", "i", "'d'", "ul", "li", "'foo'", "li", "strong", "'c'", "'b'", ""
        ]
    )
}

#[test]
fn can_walk_all_container_nodes() {
    let dom = example_dom();
    let mut it = dom.iter_containers();
    let mut container_nodes: Vec<String> = Vec::new();
    while let Some(c) = it.next() {
        container_nodes.push(c.name().to_string());
    }

    assert_eq!(
        container_nodes,
        vec!["", "ul", "li", "strong", "li", "i", "b"]
    );
}

#[test]
fn first_pull_from_either_end_is_the_anchor() {
    let dom = example_dom();
    let handle = DomHandle::from_raw(vec![1]);

    let mut fwd = dom.iter_from_handle(&handle);
    assert_eq!(node_txt(fwd.next().unwrap()), "i");

    let mut rev = dom.iter_from_handle(&handle);
    assert_eq!(node_txt(rev.next_back().unwrap()), "i");
}

#[test]
fn backward_from_root_yields_only_the_root() {
    let dom = example_dom();
    let mut it = dom.iter_from_handle(&DomHandle::root());
    assert_eq!(node_txt(it.next_back().unwrap()), "");
    assert!(it.next_back().is_none());
    assert!(it.next_back().is_none());
}

#[test]
fn forward_from_last_leaf_yields_only_that_leaf() {
    let dom = example_dom();
    let handle = DomHandle::from_raw(vec![4, 0]);
    let mut it = dom.iter_from_handle(&handle);
    assert_eq!(node_txt(it.next().unwrap()), "'x'");
    assert!(it.next().is_none());
    assert!(it.next().is_none());
}

#[test]
fn next_node_after_a_leaf_is_its_following_sibling() {
    let dom = example_dom();
    let handle = DomHandle::from_raw(vec![0, 0, 0]);
    let next = dom.next_node(&handle).unwrap();
    assert_eq!(node_txt(next), "strong");
}

#[test]
fn next_node_after_a_last_child_is_the_ancestor_sibling() {
    let dom = example_dom();
    let handle = DomHandle::from_raw(vec![0, 1, 0]);
    let next = dom.next_node(&handle).unwrap();
    assert_eq!(node_txt(next), "i");
    assert_eq!(dom.next_handle(&handle).unwrap().raw_path(), &vec![1usize]);
}

#[test]
fn next_node_at_document_end_is_absent() {
    let dom = example_dom();
    let handle = DomHandle::from_raw(vec![4, 0]);
    assert!(dom.next_node(&handle).is_none());
    assert!(dom.next_handle(&handle).is_none());
}

#[test]
fn prev_node_before_the_root_is_absent() {
    let dom = example_dom();
    assert!(dom.prev_node(&DomHandle::root()).is_none());
    assert!(dom.prev_handle(&DomHandle::root()).is_none());
}

#[test]
fn prev_node_is_the_previous_sibling_or_parent() {
    let dom = example_dom();
    let handle = DomHandle::from_raw(vec![2]);
    assert_eq!(node_txt(dom.prev_node(&handle).unwrap()), "i");
    assert_eq!(dom.prev_handle(&handle).unwrap().raw_path(), &vec![1usize]);

    let first_grandchild = DomHandle::from_raw(vec![0, 0]);
    assert_eq!(node_txt(dom.prev_node(&first_grandchild).unwrap()), "ul");
}

#[test]
fn text_iterator_from_a_mid_document_node() {
    let dom = example_dom();
    let anchor = DomHandle::from_raw(vec![0, 0, 1, 0]);
    let node = dom.lookup_node(&anchor);
    let mut it = dom.iter_text_from(node);
    let mut seen: Vec<String> = Vec::new();
    while let Some(t) = it.next() {
        seen.push(t.data().to_string());
    }
    assert_eq!(seen, vec!["c", "foo", "d", "e", "x"]);
}

#[test]
fn zero_width_markers_are_walked_but_are_not_text() {
    let dom = Dom::new(vec![
        DomNode::Zwsp(ZwspNode::new(ch(&[0]))),
        text(&[1], "a"),
    ])
    .unwrap();
    assert_eq!(collect_subtree(dom.iter()), vec!["", "~", "'a'"]);

    let mut it = dom.iter_text();
    let mut seen: Vec<String> = Vec::new();
    while let Some(t) = it.next() {
        seen.push(t.data().to_string());
    }
    assert_eq!(seen, vec!["a"]);
}

#[test]
fn misaddressed_nodes_are_rejected() {
    assert!(Dom::new(vec![text(&[1], "a")]).is_none());
    assert!(Dom::new(vec![cont(&[0], "ul", vec![text(&[0, 1], "a")])]).is_none());
    assert!(Dom::new(vec![text(&[0], "a")]).is_some());
}

#[test]
fn subtree_iterator_stays_inside_the_subtree() {
    let dom = example_dom();
    let second_child = &dom.children()[1];

    let in_subtree = collect_subtree(second_child.iter_subtree());
    assert_eq!(in_subtree, vec!["i", "'d'"]);

    let whole_document_from_there = collect_fwd(dom.iter_from(second_child));
    assert_eq!(
        whole_document_from_there,
        vec!["i", "'d'", "'e'", "br", "b", "'x'"]
    );
}

#[test]
fn backward_walk_from_the_end_covers_every_node_exactly_once() {
    let dom = example_dom();
    let forward: Vec<String> = collect_fwd(dom.iter_from(dom.document_node()));
    let handle = DomHandle::from_raw(vec![4, 0]);
    let backward: Vec<String> = collect_rev(dom.iter_from_handle(&handle));

    assert_eq!(forward.len(), backward.len());
    let mut fwd_sorted = forward.clone();
    fwd_sorted.sort();
    let mut bwd_sorted = backward.clone();
    bwd_sorted.sort();
    assert_eq!(fwd_sorted, bwd_sorted);
}

#[test]
fn reversal_is_exact_on_a_flat_document() {
    let dom = Dom::new(vec![text(&[0], "a"), text(&[1], "b"), text(&[2], "c")]).unwrap();
    let forward: Vec<String> = collect_fwd(dom.iter_from(dom.document_node()));
    assert_eq!(forward, vec!["", "'a'", "'b'", "'c'"]);

    let last = DomHandle::from_raw(vec![2]);
    let backward: Vec<String> = collect_rev(dom.iter_from_handle(&last));
    let mut reversed = forward.clone();
    reversed.reverse();
    assert_eq!(backward, reversed);
}

#[test]
fn mixed_direction_pulls_never_repeat_an_address() {
    let dom = Dom::new(vec![text(&[0], "a"), text(&[1], "b")]).unwrap();
    let mut it = dom.iter_from_handle(&DomHandle::from_raw(vec![0]));
    assert_eq!(node_txt(it.next().unwrap()), "'a'");
    assert_eq!(node_txt(it.next().unwrap()), "'b'");
    assert_eq!(node_txt(it.next_back().unwrap()), "");
    assert!(it.next_back().is_none());

    let dom2 = Dom::new(vec![
        text(&[0], "a"),
        cont(&[1], "b", vec![text(&[1, 0], "c")]),
        text(&[2], "d"),
    ])
    .unwrap();
    let mut it2 = dom2.iter_from_handle(&DomHandle::from_raw(vec![1]));
    assert_eq!(node_txt(it2.next_back().unwrap()), "b");
    assert_eq!(node_txt(it2.next_back().unwrap()), "'a'");
    // the forward sibling step must skip the already-emitted "b"
    assert_eq!(node_txt(it2.next().unwrap()), "'d'");
    assert!(it2.next().is_none());
}

#[test]
fn forward_walk_passes_an_empty_container() {
    let dom = Dom::new(vec![cont(&[0], "ul", vec![]), text(&[1], "a")]).unwrap();
    assert_eq!(collect_subtree(dom.iter()), vec!["", "ul", "'a'"]);
    assert_eq!(
        collect_fwd(dom.iter_from(dom.document_node())),
        vec!["", "ul", "'a'"]
    );

    let empty = DomHandle::from_raw(vec![0]);
    assert_eq!(node_txt(dom.next_node(&empty).unwrap()), "'a'");
    assert_eq!(dom.next_handle(&empty).unwrap().raw_path(), &vec![1usize]);
}

#[test]
fn empty_container_document() {
    let dom = Dom::new(vec![cont(&[0], "ul", vec![])]).unwrap();
    assert_eq!(collect_subtree(dom.iter()), vec!["", "ul"]);
    assert_eq!(
        collect_rev(dom.iter_from_handle(&DomHandle::from_raw(vec![0]))),
        vec!["ul", ""]
    );
}
