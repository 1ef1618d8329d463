use fervid::ast::{
    Attribute, BuiltinKind, DirectivesSummary, ElementKind, ElementNode, Node, StartingTag,
    VDirective, VSlotSummary,
};
use fervid::context::{CodegenContext, ScopeResolver, ScopeResolverEntry};
use fervid::directives::CodegenError;

fn new_ctx() -> CodegenContext {
    CodegenContext::new(ScopeResolver { entries: vec![] })
}

fn transition_tag(attributes: Vec<Attribute>) -> StartingTag {
    StartingTag {
        tag_name: "transition".to_string(),
        attributes,
        directives: None,
        is_self_closing: false,
        kind: ElementKind::Builtin(BuiltinKind::Transition),
    }
}

fn transition_attrs() -> Vec<Attribute> {
    vec![
        Attribute::Regular { name: "foo".to_string(), value: "bar".to_string() },
        Attribute::Directive(VDirective {
            name: "bind".to_string(),
            argument: "baz".to_string(),
            modifiers: vec![],
            value: Some("qux".to_string()),
            is_dynamic_slot: false,
        }),
    ]
}

#[test]
fn it_generates_empty_transition() {
    // <transition></transition>
    let input = ElementNode {
        starting_tag: transition_tag(vec![]),
        children: vec![],
        template_scope: 0,
    };
    let mut ctx = new_ctx();
    let out = ctx.generate_transition(&input);
    assert_eq!(out, r#"_createVNode(_Transition)"#);
}

#[test]
fn it_generates_transition_attrs() {
    // <transition foo="bar" :baz="qux"></transition>
    let input = ElementNode {
        starting_tag: transition_tag(transition_attrs()),
        children: vec![],
        template_scope: 0,
    };
    let mut ctx = new_ctx();
    let out = ctx.generate_transition(&input);
    assert_eq!(out, r#"_createVNode(_Transition,{foo:"bar",baz:qux})"#);
}

#[test]
fn it_generates_transition_children() {
    // <transition>foobar</transition>
    let input = ElementNode {
        starting_tag: transition_tag(vec![]),
        children: vec![Node::Text("foobar".to_string())],
        template_scope: 0,
    };
    let mut ctx = new_ctx();
    let out = ctx.generate_transition(&input);
    assert_eq!(
        out,
        r#"_createVNode(_Transition,null,{"default":_withCtx(()=>[_createTextVNode("foobar")]),_:1})"#
    );
}

#[test]
fn it_generates_full_transition() {
    // <transition foo="bar" :baz="qux">foobar</transition>
    let input = ElementNode {
        starting_tag: transition_tag(transition_attrs()),
        children: vec![Node::Text("foobar".to_string())],
        template_scope: 0,
    };
    let mut ctx = new_ctx();
    let out = ctx.generate_transition(&input);
    assert_eq!(
        out,
        r#"_createVNode(_Transition,{foo:"bar",baz:qux},{"default":_withCtx(()=>[_createTextVNode("foobar")]),_:1})"#
    );
}

#[test]
fn directive_registry_dedups_names() {
    let mut ctx = new_ctx();
    let mut buf1 = String::new();
    ctx.add_to_directives_and_write(&mut buf1, "focus");
    let mut buf2 = String::new();
    ctx.add_to_directives_and_write(&mut buf2, "focus");
    assert_eq!(buf1, "_directive_focus");
    assert_eq!(buf1, buf2);
    assert_eq!(ctx.directives.len(), 1);
    let mut buf3 = String::new();
    ctx.add_to_directives_and_write(&mut buf3, "my-dir");
    assert_eq!(buf3, "_directive_my_ddir");
    assert_ne!(buf3, buf1);
    assert_eq!(ctx.directives.len(), 2);
}

#[test]
fn directive_identifiers_never_collide() {
    // Names differing only in `-` versus `_` keep distinct identifiers:
    // the escaping is injective.
    let mut ctx = new_ctx();
    let mut dashed = String::new();
    ctx.add_to_directives_and_write(&mut dashed, "a-b");
    let mut underscored = String::new();
    ctx.add_to_directives_and_write(&mut underscored, "a_b");
    assert_eq!(dashed, "_directive_a_db");
    assert_eq!(underscored, "_directive_a_ub");
    assert_ne!(dashed, underscored);
    assert_eq!(ctx.directives.len(), 2);
}

#[test]
fn directive_resolves_are_sorted_by_identifier() {
    let mut ctx = new_ctx();
    let mut sink = String::new();
    ctx.add_to_directives_and_write(&mut sink, "foo");
    ctx.add_to_directives_and_write(&mut sink, "bar");
    let mut out = String::new();
    ctx.generate_directive_resolves(&mut out);
    assert_eq!(
        out,
        "const _directive_bar = _resolveDirective(\"bar\")\nconst _directive_foo = _resolveDirective(\"foo\")"
    );
}

#[test]
fn directive_resolves_empty_registry_is_a_no_op() {
    let mut ctx = new_ctx();
    let mut out = String::new();
    ctx.generate_directive_resolves(&mut out);
    assert_eq!(out, "");
    assert_eq!(ctx.imports.len(), 0);
}

fn input_tag(type_value: Option<&str>) -> StartingTag {
    let mut attributes = vec![];
    if let Some(t) = type_value {
        attributes.push(Attribute::Regular { name: "type".to_string(), value: t.to_string() });
    }
    StartingTag {
        tag_name: "input".to_string(),
        attributes,
        directives: None,
        is_self_closing: false,
        kind: ElementKind::Void,
    }
}

fn plain_tag(name: &str) -> StartingTag {
    StartingTag {
        tag_name: name.to_string(),
        attributes: vec![],
        directives: None,
        is_self_closing: false,
        kind: ElementKind::Normal,
    }
}

#[test]
fn vmodel_selects_checkbox_helper() {
    let mut ctx = new_ctx();
    let r = ctx.get_vmodel_directive_name(&input_tag(Some("checkbox")));
    assert_eq!(r.unwrap(), "_vModelCheckbox");
}

#[test]
fn vmodel_selects_radio_helper() {
    let mut ctx = new_ctx();
    let r = ctx.get_vmodel_directive_name(&input_tag(Some("radio")));
    assert_eq!(r.unwrap(), "_vModelRadio");
}

#[test]
fn vmodel_without_type_selects_text_helper() {
    let mut ctx = new_ctx();
    let r = ctx.get_vmodel_directive_name(&input_tag(None));
    assert_eq!(r.unwrap(), "_vModelText");
}

#[test]
fn vmodel_on_select_selects_select_helper() {
    let mut ctx = new_ctx();
    let r = ctx.get_vmodel_directive_name(&plain_tag("select"));
    assert_eq!(r.unwrap(), "_vModelSelect");
}

#[test]
fn vmodel_on_textarea_selects_text_helper() {
    let mut ctx = new_ctx();
    let r = ctx.get_vmodel_directive_name(&plain_tag("textarea"));
    assert_eq!(r.unwrap(), "_vModelText");
}

#[test]
fn vmodel_on_div_is_a_fatal_error() {
    let mut ctx = new_ctx();
    let r = ctx.get_vmodel_directive_name(&plain_tag("div"));
    assert_eq!(r, Err(CodegenError::UnsupportedModelTarget));
}

fn custom_directive(value: Option<&str>, argument: &str, modifiers: Vec<&str>) -> Attribute {
    Attribute::Directive(VDirective {
        name: "foo".to_string(),
        argument: argument.to_string(),
        modifiers: modifiers.into_iter().map(|m| m.to_string()).collect(),
        value: value.map(|v| v.to_string()),
        is_dynamic_slot: false,
    })
}

fn div_with(attributes: Vec<Attribute>) -> StartingTag {
    StartingTag {
        tag_name: "div".to_string(),
        attributes,
        directives: None,
        is_self_closing: false,
        kind: ElementKind::Normal,
    }
}

#[test]
fn directive_array_elides_all_trailing_slots() {
    let mut ctx = new_ctx();
    let mut buf = String::new();
    let tag = div_with(vec![custom_directive(None, "", vec![])]);
    ctx.generate_directives(&mut buf, &tag, false, 0).unwrap();
    assert_eq!(buf, "[\n  [_directive_foo]\n]");
}

#[test]
fn directive_array_with_value_only() {
    let mut ctx = new_ctx();
    let mut buf = String::new();
    let tag = div_with(vec![custom_directive(Some("x"), "", vec![])]);
    ctx.generate_directives(&mut buf, &tag, false, 0).unwrap();
    assert_eq!(buf, "[\n  [_directive_foo, x]\n]");
}

#[test]
fn directive_array_with_all_positions() {
    let mut ctx = new_ctx();
    let mut buf = String::new();
    let tag = div_with(vec![custom_directive(Some("x"), "a", vec!["m1", "m2"])]);
    ctx.generate_directives(&mut buf, &tag, false, 0).unwrap();
    assert_eq!(
        buf,
        "[\n  [\n    _directive_foo,\n    x,\n    \"a\",\n    { m1: true, m2: true }\n  ]\n]"
    );
}

#[test]
fn directive_value_goes_through_the_scope_resolver() {
    let mut ctx = CodegenContext::new(ScopeResolver {
        entries: vec![ScopeResolverEntry {
            expression: "x".to_string(),
            scope: 3,
            resolved: "_ctx.x".to_string(),
        }],
    });
    let mut buf = String::new();
    let tag = div_with(vec![custom_directive(Some("x"), "", vec![])]);
    ctx.generate_directives(&mut buf, &tag, false, 3).unwrap();
    assert_eq!(buf, "[\n  [_directive_foo, _ctx.x]\n]");
}

#[test]
fn model_on_plain_div_aborts_generation() {
    let mut ctx = new_ctx();
    let mut buf = String::new();
    let tag = div_with(vec![Attribute::Directive(VDirective {
        name: "model".to_string(),
        argument: String::new(),
        modifiers: vec![],
        value: Some("x".to_string()),
        is_dynamic_slot: false,
    })]);
    let r = ctx.generate_directives(&mut buf, &tag, false, 0);
    assert_eq!(r, Err(CodegenError::UnsupportedModelTarget));
    assert_eq!(buf, "");
}

#[test]
fn model_on_checkbox_input_emits_checkbox_helper() {
    let mut ctx = new_ctx();
    let mut buf = String::new();
    let mut tag = input_tag(Some("checkbox"));
    tag.attributes.push(Attribute::Directive(VDirective {
        name: "model".to_string(),
        argument: String::new(),
        modifiers: vec![],
        value: Some("x".to_string()),
        is_dynamic_slot: false,
    }));
    ctx.generate_directives(&mut buf, &tag, false, 0).unwrap();
    assert_eq!(buf, "[\n  [_vModelCheckbox, x]\n]");
}

#[test]
fn show_directive_uses_the_runtime_import() {
    let mut ctx = new_ctx();
    let mut buf = String::new();
    let tag = div_with(vec![Attribute::Directive(VDirective {
        name: "show".to_string(),
        argument: String::new(),
        modifiers: vec![],
        value: Some("visible".to_string()),
        is_dynamic_slot: false,
    })]);
    ctx.generate_directives(&mut buf, &tag, false, 0).unwrap();
    assert_eq!(buf, "[\n  [_vShow, visible]\n]");
    assert_eq!(ctx.imports.len(), 1);
}

#[test]
fn structural_directives_are_skipped() {
    let mut ctx = new_ctx();
    let mut buf = String::new();
    let tag = div_with(vec![Attribute::Directive(VDirective {
        name: "if".to_string(),
        argument: String::new(),
        modifiers: vec![],
        value: Some("cond".to_string()),
        is_dynamic_slot: false,
    })]);
    ctx.generate_directives(&mut buf, &tag, false, 0).unwrap();
    assert_eq!(buf, "[\n]");
}

#[test]
fn imports_are_registered_at_most_once() {
    let mut ctx = new_ctx();
    let input = ElementNode {
        starting_tag: transition_tag(vec![]),
        children: vec![Node::Text("x".to_string())],
        template_scope: 0,
    };
    let first = ctx.generate_transition(&input);
    let n_imports = ctx.imports.len();
    let input2 = ElementNode {
        starting_tag: transition_tag(vec![]),
        children: vec![Node::Text("x".to_string())],
        template_scope: 0,
    };
    let second = ctx.generate_transition(&input2);
    assert_eq!(first, second);
    assert_eq!(ctx.imports.len(), n_imports);
}

#[test]
fn named_slot_templates_become_named_regions() {
    let header_template = Node::Element(ElementNode {
        starting_tag: StartingTag {
            tag_name: "template".to_string(),
            attributes: vec![],
            directives: Some(DirectivesSummary {
                v_slot: Some(VSlotSummary {
                    slot_name: Some("header".to_string()),
                    is_dynamic_slot: false,
                }),
            }),
            is_self_closing: false,
            kind: ElementKind::Normal,
        },
        children: vec![Node::Text("hi".to_string())],
        template_scope: 0,
    });
    let input = ElementNode {
        starting_tag: transition_tag(vec![]),
        children: vec![header_template, Node::Text("body".to_string())],
        template_scope: 0,
    };
    let mut ctx = new_ctx();
    let out = ctx.generate_transition(&input);
    assert_eq!(
        out,
        r#"_createVNode(_Transition,null,{"default":_withCtx(()=>[_createTextVNode("body")]),"header":_withCtx(()=>[_createTextVNode("hi")]),_:1})"#
    );
}
