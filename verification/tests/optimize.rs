use fervid::ast::{
    DirectivesSummary, ElementKind, ElementNode, Node, SfcTemplateBlock, StartingTag, VSlotSummary,
};
use fervid::optimizer::optimize_template;

fn element(tag: &str, children: Vec<Node>) -> Node {
    Node::Element(ElementNode {
        starting_tag: StartingTag {
            tag_name: tag.to_string(),
            attributes: vec![],
            directives: None,
            is_self_closing: false,
            kind: ElementKind::Normal,
        },
        children,
        template_scope: 0,
    })
}

fn slot_template(slot_name: Option<&str>) -> Node {
    Node::Element(ElementNode {
        starting_tag: StartingTag {
            tag_name: "template".to_string(),
            attributes: vec![],
            directives: Some(DirectivesSummary {
                v_slot: Some(VSlotSummary {
                    slot_name: slot_name.map(|s| s.to_string()),
                    is_dynamic_slot: false,
                }),
            }),
            is_self_closing: false,
            kind: ElementKind::Normal,
        },
        children: vec![],
        template_scope: 0,
    })
}

fn optimize_roots(roots: Vec<Node>) -> Vec<Node> {
    let mut block = SfcTemplateBlock { lang: "html".to_string(), roots };
    optimize_template(&mut block);
    block.roots
}

#[test]
fn whitespace_trim_on_flanked_children() {
    // [Text(" "), Element(a), Text("  "), Element(b), Text(" ")]:
    // first and last are whitespace, the middle one is flanked by elements.
    let roots = optimize_roots(vec![element(
        "div",
        vec![
            Node::Text(" ".to_string()),
            element("a", vec![]),
            Node::Text("  ".to_string()),
            element("b", vec![]),
            Node::Text(" ".to_string()),
        ],
    )]);
    assert_eq!(roots.len(), 1);
    let expected = vec![element("a", vec![]), element("b", vec![])];
    match &roots[0] {
        Node::Element(el) => assert_eq!(el.children, expected),
        _ => panic!("root must stay an element"),
    }
}

#[test]
fn whitespace_between_text_neighbours_is_kept() {
    // A whitespace text node flanked by text is not discarded.
    let roots = optimize_roots(vec![element(
        "div",
        vec![
            Node::Text("a".to_string()),
            Node::Text(" ".to_string()),
            Node::Text("b".to_string()),
        ],
    )]);
    match &roots[0] {
        Node::Element(el) => {
            assert_eq!(
                el.children,
                vec![
                    Node::Text("a".to_string()),
                    Node::Text(" ".to_string()),
                    Node::Text("b".to_string()),
                ]
            );
        },
        _ => panic!("root must stay an element"),
    }
}

#[test]
fn slot_partition_is_stable() {
    // [NamedSlotTemplate("foo"), PlainText, DefaultSlotTemplate]: the
    // default-eligible children move in front, keeping their order.
    let roots = optimize_roots(vec![element(
        "my-component",
        vec![
            slot_template(Some("foo")),
            Node::Text("plain".to_string()),
            slot_template(None),
        ],
    )]);
    match &roots[0] {
        Node::Element(el) => {
            assert_eq!(
                el.children,
                vec![
                    Node::Text("plain".to_string()),
                    slot_template(None),
                    slot_template(Some("foo")),
                ]
            );
        },
        _ => panic!("root must stay an element"),
    }
}

#[test]
fn host_element_children_are_not_reordered() {
    let roots = optimize_roots(vec![element(
        "div",
        vec![slot_template(Some("foo")), Node::Text("plain".to_string())],
    )]);
    match &roots[0] {
        Node::Element(el) => {
            assert_eq!(
                el.children,
                vec![slot_template(Some("foo")), Node::Text("plain".to_string())]
            );
        },
        _ => panic!("root must stay an element"),
    }
}

#[test]
fn non_element_roots_are_discarded() {
    let roots = optimize_roots(vec![
        Node::Text("stray".to_string()),
        Node::Comment("note".to_string()),
        element("div", vec![]),
    ]);
    assert_eq!(roots, vec![element("div", vec![])]);
}

#[test]
fn optimize_twice_equals_once_on_whitespace_free_tree() {
    let tree = vec![element(
        "my-component",
        vec![
            slot_template(Some("foo")),
            Node::Text("plain".to_string()),
            element("div", vec![Node::Text("inner".to_string())]),
        ],
    )];
    let once = optimize_roots(tree.clone_for_test());
    let twice = optimize_roots(once.clone_for_test());
    assert_eq!(once, twice);
}

/// Rebuilding test inputs without a derived clone on the node types.
trait CloneForTest {
    fn clone_for_test(&self) -> Self;
}

impl CloneForTest for Vec<Node> {
    fn clone_for_test(&self) -> Vec<Node> {
        self.iter().map(clone_node).collect()
    }
}

fn clone_node(n: &Node) -> Node {
    match n {
        Node::Element(el) => Node::Element(ElementNode {
            starting_tag: StartingTag {
                tag_name: el.starting_tag.tag_name.clone(),
                attributes: vec![],
                directives: el.starting_tag.directives.as_ref().map(|d| DirectivesSummary {
                    v_slot: d.v_slot.as_ref().map(|v| VSlotSummary {
                        slot_name: v.slot_name.clone(),
                        is_dynamic_slot: v.is_dynamic_slot,
                    }),
                }),
                is_self_closing: el.starting_tag.is_self_closing,
                kind: el.starting_tag.kind,
            },
            children: el.children.clone_for_test(),
            template_scope: el.template_scope,
        }),
        Node::Text(t) => Node::Text(t.clone()),
        Node::Comment(c) => Node::Comment(c.clone()),
        Node::DynamicExpression { value, template_scope } => Node::DynamicExpression {
            value: value.clone(),
            template_scope: *template_scope,
        },
    }
}

#[test]
fn large_child_lists_are_pruned_by_the_same_rule() {
    // Lists far beyond any fixed mask width follow the same
    // first/last/flanked rule at every position.
    let mut children = vec![Node::Text(" ".to_string())];
    for _ in 0..150 {
        children.push(element("a", vec![]));
        children.push(Node::Text("  ".to_string()));
    }
    // children = [ws, (a, ws) x 150]: the leading and trailing whitespace
    // nodes go, and every whitespace node flanked by elements goes.
    let roots = optimize_roots(vec![element("div", children)]);
    match &roots[0] {
        Node::Element(el) => {
            assert_eq!(el.children.len(), 150);
            for c in &el.children {
                assert_eq!(*c, element("a", vec![]));
            }
        },
        _ => panic!("root must stay an element"),
    }
}
