use fervid::ast::{Attribute, ElementKind, Node};
use fervid::parser::{
    parse_dynamic_expression_node, parse_element_end_tag, parse_element_node,
    parse_element_starting_tag, parse_root_block, parse_sfc,
};

#[test]
fn parses_a_simple_starting_tag() {
    let (tag, end) = parse_element_starting_tag("<div>", 0).unwrap();
    assert_eq!(tag.tag_name, "div");
    assert_eq!(tag.attributes.len(), 0);
    assert!(!tag.is_self_closing);
    assert_eq!(tag.kind, ElementKind::Normal);
    assert_eq!(end, 5);
}

#[test]
fn parses_a_self_closing_tag_with_attributes() {
    let (tag, end) = parse_element_starting_tag("<img src=\"a.png\" />", 0).unwrap();
    assert_eq!(tag.tag_name, "img");
    assert_eq!(tag.kind, ElementKind::Void);
    assert!(tag.is_self_closing);
    assert_eq!(
        tag.attributes,
        vec![Attribute::Regular { name: "src".to_string(), value: "a.png".to_string() }]
    );
    assert_eq!(end, 19);
}

#[test]
fn classifies_directive_shorthands() {
    let (tag, _) = parse_element_starting_tag(
        "<div :class=\"c\" @click.prevent=\"go\" v-my-dir:arg.m1.m2=\"v\" #header>",
        0,
    )
    .unwrap();
    assert_eq!(tag.attributes.len(), 4);
    match &tag.attributes[0] {
        Attribute::Directive(d) => {
            assert_eq!(d.name, "bind");
            assert_eq!(d.argument, "class");
            assert_eq!(d.value.as_deref(), Some("c"));
            assert!(d.modifiers.is_empty());
        },
        _ => panic!("expected a binding directive"),
    }
    match &tag.attributes[1] {
        Attribute::Directive(d) => {
            assert_eq!(d.name, "on");
            assert_eq!(d.argument, "click");
            assert_eq!(d.modifiers, vec!["prevent".to_string()]);
            assert_eq!(d.value.as_deref(), Some("go"));
        },
        _ => panic!("expected an event directive"),
    }
    match &tag.attributes[2] {
        Attribute::Directive(d) => {
            assert_eq!(d.name, "my-dir");
            assert_eq!(d.argument, "arg");
            assert_eq!(d.modifiers, vec!["m1".to_string(), "m2".to_string()]);
            assert_eq!(d.value.as_deref(), Some("v"));
        },
        _ => panic!("expected a named directive"),
    }
    match &tag.attributes[3] {
        Attribute::Directive(d) => {
            assert_eq!(d.name, "slot");
            assert_eq!(d.argument, "header");
            assert_eq!(d.value, None);
            assert!(!d.is_dynamic_slot);
        },
        _ => panic!("expected a slot directive"),
    }
}

#[test]
fn dynamic_slot_argument_is_flagged() {
    let (tag, _) = parse_element_starting_tag("<template v-slot:[name]>", 0).unwrap();
    match &tag.attributes[0] {
        Attribute::Directive(d) => {
            assert_eq!(d.name, "slot");
            assert_eq!(d.argument, "name");
            assert!(d.is_dynamic_slot);
        },
        _ => panic!("expected a slot directive"),
    }
    let summary = tag.directives.expect("slot summary recorded");
    let v_slot = summary.v_slot.expect("slot summary recorded");
    assert_eq!(v_slot.slot_name.as_deref(), Some("name"));
    assert!(v_slot.is_dynamic_slot);
}

#[test]
fn unterminated_starting_tag_fails() {
    assert!(parse_element_starting_tag("<div foo=\"bar\"", 0).is_none());
    assert!(parse_element_starting_tag("div>", 0).is_none());
    assert!(parse_element_starting_tag("<>", 0).is_none());
}

#[test]
fn parses_an_end_tag_with_any_name() {
    let (name, end) = parse_element_end_tag("</div >", 0).unwrap();
    assert_eq!(name, "div");
    assert_eq!(end, 7);
    assert!(parse_element_end_tag("<div>", 0).is_none());
}

#[test]
fn parses_a_dynamic_expression_trimmed() {
    let (node, end) = parse_dynamic_expression_node("{{  user.name  }}", 0).unwrap();
    assert_eq!(
        node,
        Node::DynamicExpression { value: "user.name".to_string(), template_scope: 0 }
    );
    assert_eq!(end, 17);
    assert!(parse_dynamic_expression_node("{{ unclosed", 0).is_none());
    assert!(parse_dynamic_expression_node("plain", 0).is_none());
}

#[test]
fn parses_nested_elements_and_text() {
    let mut diags = vec![];
    let (node, end) = parse_element_node("<p>hi {{ name }}<br></p>", 0, &mut diags).unwrap();
    assert_eq!(end, 24);
    assert!(diags.is_empty());
    match node {
        Node::Element(el) => {
            assert_eq!(el.starting_tag.tag_name, "p");
            assert_eq!(el.children.len(), 3);
            assert_eq!(el.children[0], Node::Text("hi ".to_string()));
            assert_eq!(
                el.children[1],
                Node::DynamicExpression { value: "name".to_string(), template_scope: 0 }
            );
            match &el.children[2] {
                Node::Element(br) => {
                    assert_eq!(br.starting_tag.tag_name, "br");
                    assert_eq!(br.starting_tag.kind, ElementKind::Void);
                    assert!(br.children.is_empty());
                },
                _ => panic!("expected the void br element"),
            }
        },
        _ => panic!("expected an element"),
    }
}

#[test]
fn parses_comments() {
    let mut diags = vec![];
    let (node, _) = parse_element_node("<div><!-- note --></div>", 0, &mut diags).unwrap();
    match node {
        Node::Element(el) => {
            assert_eq!(el.children, vec![Node::Comment(" note ".to_string())]);
        },
        _ => panic!("expected an element"),
    }
}

#[test]
fn end_tag_mismatch_is_tolerated_with_a_diagnostic() {
    // The span consumes the stray end tag and records the mismatch; the
    // enclosing block still parses, keeping the span as parsed so far.
    let (roots, end, diags) = parse_sfc("<template><span></div></template>");
    assert_eq!(roots.len(), 1);
    assert_eq!(end, 33);
    assert_eq!(diags.len(), 1);
    assert_eq!(diags[0].expected, "span");
    assert_eq!(diags[0].found, "div");
    match &roots[0] {
        Node::Element(el) => {
            assert_eq!(el.starting_tag.tag_name, "template");
            assert_eq!(el.children.len(), 1);
            match &el.children[0] {
                Node::Element(span) => {
                    assert_eq!(span.starting_tag.tag_name, "span");
                    assert!(span.children.is_empty());
                },
                _ => panic!("expected the span"),
            }
        },
        _ => panic!("expected the template block"),
    }
}

#[test]
fn parses_a_whole_sfc() {
    let src = "<template><p>x</p></template>\n<script>let a = 1</script>\n";
    let (roots, end, diags) = parse_sfc(src);
    assert!(diags.is_empty());
    assert_eq!(roots.len(), 2);
    // Only trailing whitespace remains.
    assert_eq!(end, src.len() - 1);
    match &roots[1] {
        Node::Element(el) => assert_eq!(el.starting_tag.tag_name, "script"),
        _ => panic!("expected the script block"),
    }
}

#[test]
fn root_block_skips_leading_whitespace() {
    let mut diags = vec![];
    let (node, _) = parse_root_block("  \n<template></template>", 0, &mut diags).unwrap();
    match node {
        Node::Element(el) => assert_eq!(el.starting_tag.tag_name, "template"),
        _ => panic!("expected the template block"),
    }
}

#[test]
fn malformed_input_yields_no_root_blocks() {
    let (roots, end, _) = parse_sfc("not markup");
    assert!(roots.is_empty());
    assert_eq!(end, 0);
}

#[test]
fn abandoned_parse_attempts_report_no_diagnostics() {
    // The inner i element tolerates the stray end tag, but the enclosing
    // div never finds its own end tag, so the whole attempt is abandoned
    // and its diagnostics are dropped with it.
    let (roots, end, diags) = parse_sfc("<template><div><i></x></div");
    assert!(roots.is_empty());
    assert_eq!(end, 0);
    assert!(diags.is_empty());
}
