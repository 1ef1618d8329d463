//! Builtin-component code generation, shown on the transition-like wrapper:
//! a call creating the runtime node from the builtin's resolved identifier,
//! an attributes object, and a slots object in which default-slot content
//! and explicit named-slot templates each get their region. Slot bodies
//! cover the node forms this builtin emitter renders itself (text children);
//! rendering element or expression children inside a slot belongs to the
//! shared component emission outside this builtin's call contract, as does
//! any non-zero patch flag: the reserved placeholder flag stays zero and a
//! zero flag adds no argument to the call.

use vstd::prelude::*;
use crate::ast::{Attribute, AttributeV, ElementNode, Node, NodeV};
use crate::context::{add_import, import_ident, import_str, quoted_text, CodegenContext, VueImport};
use crate::strutil::str_eq;

verus! {

use crate::ast::{node_view, nodes_view};

/// The attributes-object entry for one attribute: plain attributes map the
/// name to the quoted value; bindings with an argument map the argument to
/// the bound expression; everything else is not part of the object.
pub open spec fn attr_entry(a: AttributeV) -> Option<Seq<char>> {
    match a {
        AttributeV::Regular { name, value } => Some(name + ":"@ + quoted_text(value)),
        AttributeV::Directive(d) => if d.name == "bind"@ && d.argument.len() > 0 && d.value
            is Some {
            Some(d.argument + ":"@ + d.value->Some_0)
        } else {
            None
        },
    }
}

/// The entries of the attributes object, in attribute order.
pub open spec fn attr_entries(attrs: Seq<AttributeV>) -> Seq<Seq<char>>
    decreases attrs,
{
    if attrs.len() == 0 {
        Seq::empty()
    } else {
        attr_entries(attrs.drop_last()) + (match attr_entry(attrs.last()) {
            Some(e) => seq![e],
            None => Seq::empty(),
        })
    }
}

/// The default-slot item for one child: text children become text-node
/// calls; other children are not rendered by this builtin emitter.
pub open spec fn child_item(n: NodeV) -> Option<Seq<char>> {
    match n {
        NodeV::Text(t) => Some(
            import_ident(VueImport::CreateTextVNode) + "("@ + quoted_text(t) + ")"@,
        ),
        _ => None,
    }
}

pub open spec fn child_items(kids: Seq<NodeV>) -> Seq<Seq<char>>
    decreases kids,
{
    if kids.len() == 0 {
        Seq::empty()
    } else {
        child_items(kids.drop_last()) + (match child_item(kids.last()) {
            Some(e) => seq![e],
            None => Seq::empty(),
        })
    }
}

/// An explicit named-slot child: a `template` element carrying a static,
/// non-default slot name. Its name and body make a named slot region.
pub open spec fn named_slot_of(n: NodeV) -> Option<(Seq<char>, Seq<NodeV>)> {
    match n {
        NodeV::Element(el) => if el.starting_tag.tag_name == "template"@ {
            match el.starting_tag.directives {
                Some(ds) => match ds.v_slot {
                    Some(vs) => if vs.is_dynamic_slot {
                        None
                    } else {
                        match vs.slot_name {
                            Some(nm) => if nm != "default"@ {
                                Some((nm, el.children))
                            } else {
                                None
                            },
                            None => None,
                        }
                    },
                    None => None,
                },
                None => None,
            }
        } else {
            None
        },
        _ => None,
    }
}

/// One named-slot region: the quoted slot name mapped to its wrapped body.
pub open spec fn named_slot_entry(nm: Seq<char>, body: Seq<NodeV>) -> Seq<char> {
    quoted_text(nm) + ":"@ + import_ident(VueImport::WithCtx) + "(()=>["@ + join_comma(
        child_items(body),
    ) + "])"@
}

/// The named-slot regions among the children, in child order.
pub open spec fn named_slot_entries(kids: Seq<NodeV>) -> Seq<Seq<char>>
    decreases kids,
{
    if kids.len() == 0 {
        Seq::empty()
    } else {
        named_slot_entries(kids.drop_last()) + (match named_slot_of(kids.last()) {
            Some(pr) => seq![named_slot_entry(pr.0, pr.1)],
            None => Seq::empty(),
        })
    }
}

/// Whether any named-slot body holds a rendered item.
pub open spec fn named_bodies_have_items(kids: Seq<NodeV>) -> bool
    decreases kids,
{
    if kids.len() == 0 {
        false
    } else {
        named_bodies_have_items(kids.drop_last()) || (match named_slot_of(kids.last()) {
            Some(pr) => child_items(pr.1).len() > 0,
            None => false,
        })
    }
}

/// The default-slot region, wrapping the rendered default items.
pub open spec fn default_slot_entry(cs: Seq<Seq<char>>) -> Seq<char> {
    "\"default\":"@ + import_ident(VueImport::WithCtx) + "(()=>["@ + join_comma(cs) + "])"@
}

/// All slot regions: the default slot, when it has content, followed by
/// the explicit named slots.
pub open spec fn slot_entries(kids: Seq<NodeV>) -> Seq<Seq<char>> {
    let cs = child_items(kids);
    (if cs.len() > 0 {
        seq![default_slot_entry(cs)]
    } else {
        Seq::empty()
    }) + named_slot_entries(kids)
}

/// The items joined with commas.
pub open spec fn join_comma(l: Seq<Seq<char>>) -> Seq<char>
    decreases l,
{
    if l.len() == 0 {
        Seq::empty()
    } else if l.len() == 1 {
        l[0]
    } else {
        join_comma(l.drop_last()) + ","@ + l.last()
    }
}

/// The complete expression creating the runtime node for a transition-like
/// builtin: identifier, attributes object (or `null` when slots follow an
/// empty object), and the slots object.
pub open spec fn transition_expr(attrs: Seq<AttributeV>, kids: Seq<NodeV>) -> Seq<char> {
    let es = attr_entries(attrs);
    let sl = slot_entries(kids);
    import_ident(VueImport::CreateVNode) + "("@ + import_ident(VueImport::Transition) + (if es.len()
        > 0 {
        ","@ + "{"@ + join_comma(es) + "}"@
    } else if sl.len() > 0 {
        ",null"@
    } else {
        Seq::empty()
    }) + (if sl.len() > 0 {
        ","@ + "{"@ + join_comma(sl) + ",_:1}"@
    } else {
        Seq::empty()
    }) + ")"@
}

/// How the import registry grows: the node-creation helper and the builtin
/// identifier always; the slot wrapper when any slot region exists; the
/// text-node helper when any region holds a text item.
pub open spec fn transition_imports(imports: Seq<VueImport>, kids: Seq<NodeV>) -> Seq<VueImport> {
    let base = add_import(add_import(imports, VueImport::CreateVNode), VueImport::Transition);
    let b2 = if slot_entries(kids).len() > 0 {
        add_import(base, VueImport::WithCtx)
    } else {
        base
    };
    if child_items(kids).len() > 0 || named_bodies_have_items(kids) {
        add_import(b2, VueImport::CreateTextVNode)
    } else {
        b2
    }
}

/// Joins rendered items with commas.
fn join_items(items: &Vec<String>) -> (r: String)
    ensures
        r@ == join_comma(items@.map_values(|m: String| m@)),
{
    let ghost iv = items@.map_values(|m: String| m@);
    let mut out = String::new();
    let n = items.len();
    let mut k: usize = 0;
    proof {
        assert(iv.take(0) =~= Seq::<Seq<char>>::empty());
    }
    while k < n
        invariant
            0 <= k <= n == items@.len(),
            iv == items@.map_values(|m: String| m@),
            out@ == join_comma(iv.take(k as int)),
        decreases n - k,
    {
        proof {
            assert(iv.take(k as int + 1).drop_last() =~= iv.take(k as int));
            assert(iv.take(k as int + 1).last() == iv[k as int]);
            assert(iv[k as int] == items@[k as int]@);
        }
        if k > 0 {
            out.append(",");
        }
        out.append(items[k].as_str());
        k = k + 1;
        proof {
            assert(out@ =~= join_comma(iv.take(k as int)));
        }
    }
    proof {
        assert(iv.take(n as int) =~= iv);
    }
    out
}

/// Renders the slot items of a child list: one text-node call per text
/// child.
fn build_items(children: &Vec<Node>) -> (r: Vec<String>)
    ensures
        r@.map_values(|c: String| c@) == child_items(nodes_view(children@)),
{
    let ghost kv = nodes_view(children@);
    let mut items: Vec<String> = Vec::new();
    let m = children.len();
    let mut k: usize = 0;
    proof {
        crate::ast::lemma_nodes_view(children@);
        assert(kv.take(0) =~= Seq::<NodeV>::empty());
        assert(items@.map_values(|c: String| c@) =~= child_items(kv.take(0)));
    }
    while k < m
        invariant
            0 <= k <= m == children@.len(),
            kv == nodes_view(children@),
            kv.len() == children@.len(),
            forall|j: int|
                0 <= j < children@.len() ==> kv[j] == node_view(#[trigger] children@[j]),
            items@.map_values(|c: String| c@) == child_items(kv.take(k as int)),
        decreases m - k,
    {
        proof {
            assert(kv.take(k as int + 1).drop_last() =~= kv.take(k as int));
            assert(kv.take(k as int + 1).last() == kv[k as int]);
        }
        match &children[k] {
            Node::Text(t) => {
                let mut e = import_str(VueImport::CreateTextVNode);
                e.append("(");
                crate::context::emit_quoted(&mut e, t.as_str());
                e.append(")");
                items.push(e);
                proof {
                    assert(items@.map_values(|c: String| c@) =~= child_items(
                        kv.take(k as int + 1),
                    ));
                }
            },
            _ => {
                proof {
                    assert(items@.map_values(|c: String| c@) =~= child_items(
                        kv.take(k as int + 1),
                    ));
                }
            },
        }
        k = k + 1;
    }
    proof {
        assert(kv.take(m as int) =~= kv);
    }
    items
}

/// Renders the named-slot region of one child, with whether its body holds
/// a rendered item.
fn build_named_entry(n: &Node) -> (r: Option<(String, bool)>)
    ensures
        match r {
            Some(pr) => named_slot_of(n@) matches Some(sl) && pr.0@ == named_slot_entry(
                sl.0,
                sl.1,
            ) && pr.1 == (child_items(sl.1).len() > 0),
            None => named_slot_of(n@) is None,
        },
{
    match n {
        Node::Element(el) => {
            if !str_eq(el.starting_tag.tag_name.as_str(), "template") {
                return None;
            }
            match &el.starting_tag.directives {
                None => None,
                Some(ds) => match &ds.v_slot {
                    None => None,
                    Some(vs) => {
                        if vs.is_dynamic_slot {
                            return None;
                        }
                        match &vs.slot_name {
                            None => None,
                            Some(nm) => {
                                if str_eq(nm.as_str(), "default") {
                                    return None;
                                }
                                let body = build_items(&el.children);
                                let has_items = body.len() > 0;
                                let mut e = String::new();
                                crate::context::emit_quoted(&mut e, nm.as_str());
                                e.append(":");
                                let wc = import_str(VueImport::WithCtx);
                                e.append(wc.as_str());
                                e.append("(()=>[");
                                let joined = join_items(&body);
                                e.append(joined.as_str());
                                e.append("])");
                                proof {
                                    assert(e@ =~= named_slot_entry(
                                        nm@,
                                        nodes_view(el.children@),
                                    ));
                                }
                                Some((e, has_items))
                            },
                        }
                    },
                },
            }
        },
        _ => None,
    }
}

impl CodegenContext {
    /// Emits the runtime call for a transition-like builtin element: its
    /// resolved identifier, an object of its plain attributes and argument
    /// bindings, and a slots object holding the default-slot content and
    /// the explicit named-slot templates among the children.
    pub fn generate_transition(&mut self, element_node: &ElementNode) -> (r: String)
        requires
            old(self).wf(),
        ensures
            final(self).wf(),
            r@ == transition_expr(element_node@.starting_tag.attributes, element_node@.children),
            final(self).imports@ == transition_imports(
                old(self).imports@,
                element_node@.children,
            ),
            final(self).directives == old(self).directives,
            final(self).indent == old(self).indent,
            final(self).resolver == old(self).resolver,
    {
        let ghost av = element_node@.starting_tag.attributes;
        let ghost kv = element_node@.children;
        // Render the attribute entries.
        let mut entries: Vec<String> = Vec::new();
        let n = element_node.starting_tag.attributes.len();
        let mut k: usize = 0;
        proof {
            assert(av == element_node.starting_tag.attributes@.map_values(|a: Attribute| a@));
            assert(av.take(0) =~= Seq::<AttributeV>::empty());
            assert(entries@.map_values(|m: String| m@) =~= attr_entries(av.take(0)));
        }
        while k < n
            invariant
                0 <= k <= n == element_node.starting_tag.attributes@.len(),
                av == element_node.starting_tag.attributes@.map_values(|a: Attribute| a@),
                entries@.map_values(|m: String| m@) == attr_entries(av.take(k as int)),
            decreases n - k,
        {
            proof {
                assert(av.take(k as int + 1).drop_last() =~= av.take(k as int));
                assert(av.take(k as int + 1).last() == av[k as int]);
                assert(av[k as int] == element_node.starting_tag.attributes@[k as int]@);
            }
            match &element_node.starting_tag.attributes[k] {
                Attribute::Regular { name, value } => {
                    let mut e = name.clone();
                    e.append(":");
                    crate::context::emit_quoted(&mut e, value.as_str());
                    entries.push(e);
                    proof {
                        assert(e@ =~= av[k as int]->Regular_name + ":"@ + quoted_text(
                            av[k as int]->Regular_value,
                        ));
                        assert(entries@.map_values(|m: String| m@) =~= attr_entries(
                            av.take(k as int + 1),
                        ));
                    }
                },
                Attribute::Directive(d) => {
                    if str_eq(d.name.as_str(), "bind") && !d.argument.as_str().is_empty()
                        && d.value.is_some() {
                        let mut e = d.argument.clone();
                        e.append(":");
                        match &d.value {
                            Some(v) => e.append(v.as_str()),
                            None => {},
                        }
                        entries.push(e);
                        proof {
                            assert(entries@.map_values(|m: String| m@) =~= attr_entries(
                                av.take(k as int + 1),
                            ));
                        }
                    } else {
                        proof {
                            assert(entries@.map_values(|m: String| m@) =~= attr_entries(
                                av.take(k as int + 1),
                            ));
                        }
                    }
                },
            }
            k = k + 1;
        }
        proof {
            assert(av.take(n as int) =~= av);
        }
        // Render the default-slot items and the named-slot regions.
        let childs = build_items(&element_node.children);
        let mut named: Vec<String> = Vec::new();
        let mut any_inner = false;
        let m = element_node.children.len();
        let mut k: usize = 0;
        proof {
            crate::ast::lemma_nodes_view(element_node.children@);
            assert(kv == nodes_view(element_node.children@));
            assert(kv.take(0) =~= Seq::<NodeV>::empty());
            assert(named@.map_values(|c: String| c@) =~= named_slot_entries(kv.take(0)));
        }
        while k < m
            invariant
                0 <= k <= m == element_node.children@.len(),
                kv == nodes_view(element_node.children@),
                kv.len() == element_node.children@.len(),
                forall|j: int|
                    0 <= j < element_node.children@.len() ==> kv[j] == node_view(
                        #[trigger] element_node.children@[j],
                    ),
                named@.map_values(|c: String| c@) == named_slot_entries(kv.take(k as int)),
                any_inner == named_bodies_have_items(kv.take(k as int)),
            decreases m - k,
        {
            proof {
                assert(kv.take(k as int + 1).drop_last() =~= kv.take(k as int));
                assert(kv.take(k as int + 1).last() == kv[k as int]);
            }
            match build_named_entry(&element_node.children[k]) {
                Some((e, has_items)) => {
                    named.push(e);
                    any_inner = any_inner || has_items;
                    proof {
                        assert(named@.map_values(|c: String| c@) =~= named_slot_entries(
                            kv.take(k as int + 1),
                        ));
                    }
                },
                None => {
                    proof {
                        assert(named@.map_values(|c: String| c@) =~= named_slot_entries(
                            kv.take(k as int + 1),
                        ));
                    }
                },
            }
            k = k + 1;
        }
        proof {
            assert(kv.take(m as int) =~= kv);
        }
        // Register the imports the emitted call relies on.
        let cv_str = self.get_and_add_import_str(VueImport::CreateVNode);
        let tr_str = self.get_and_add_import_str(VueImport::Transition);
        let with_slots = childs.len() > 0 || named.len() > 0;
        if with_slots {
            let _w = self.get_and_add_import_str(VueImport::WithCtx);
        }
        if childs.len() > 0 || any_inner {
            let _t = self.get_and_add_import_str(VueImport::CreateTextVNode);
        }
        proof {
            assert(with_slots == (slot_entries(kv).len() > 0));
            assert(self.imports@ == transition_imports(old(self).imports@, kv));
        }
        // Assemble the call.
        let mut out = cv_str;
        out.append("(");
        out.append(tr_str.as_str());
        if entries.len() > 0 {
            out.append(",");
            out.append("{");
            let joined = join_items(&entries);
            out.append(joined.as_str());
            out.append("}");
        } else if with_slots {
            out.append(",null");
        }
        if with_slots {
            out.append(",");
            out.append("{");
            let mut slot_vec: Vec<String> = Vec::new();
            if childs.len() > 0 {
                let mut de = ("\"default\":").to_owned();
                let wc = import_str(VueImport::WithCtx);
                de.append(wc.as_str());
                de.append("(()=>[");
                let joined = join_items(&childs);
                de.append(joined.as_str());
                de.append("])");
                proof {
                    assert(de@ =~= default_slot_entry(child_items(kv)));
                }
                slot_vec.push(de);
            }
            let ghost head = slot_vec@;
            let mut named_tail = named;
            slot_vec.append(&mut named_tail);
            proof {
                assert(slot_vec@.map_values(|c: String| c@) =~= slot_entries(kv)) by {
                    assert(forall|j: int|
                        0 <= j < head.len() ==> #[trigger] slot_vec@[j] == head[j]);
                }
            }
            let joined = join_items(&slot_vec);
            out.append(joined.as_str());
            out.append(",_:1}");
        }
        out.append(")");
        proof {
            assert(out@ =~= transition_expr(av, kv));
        }
        out
    }
}

} // verus!
