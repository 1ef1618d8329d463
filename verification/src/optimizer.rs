//! The tree-normalizing pass: prunes insignificant whitespace text nodes,
//! reorders component children so default-slot content precedes named
//! slots, and recurses depth-first through the surviving elements.

use vstd::prelude::*;
use crate::ast::{
    lemma_nodes_view, node_view, nodes_view, ElementNode, ElementNodeV, Node, NodeV,
    SfcTemplateBlock, StartingTagV,
};
use crate::html::{is_html_tag, is_html_tag_spec};
use crate::strutil::str_eq;

verus! {

/// The whitespace characters recognized by the pruning rule.
pub open spec fn is_space_char(c: char) -> bool {
    c == ' ' || c == '\n' || c == '\t' || c == '\r'
}

/// A sequence of whitespace characters alone.
pub open spec fn all_spaces(t: Seq<char>) -> bool {
    forall|i: int| 0 <= i < t.len() ==> is_space_char(#[trigger] t[i])
}

/// A text node consisting of whitespace alone.
pub open spec fn is_ws_text(n: NodeV) -> bool {
    match n {
        NodeV::Text(t) => all_spaces(t),
        _ => false,
    }
}

/// An element or comment node: the flanking kinds that make a middle
/// whitespace text node insignificant.
pub open spec fn is_elem_or_comment(n: NodeV) -> bool {
    n matches NodeV::Element(_) || n matches NodeV::Comment(_)
}

/// Whether the child at original position `i` is discarded: a whitespace
/// text node that is first, last, or flanked by element/comment siblings.
pub open spec fn discard_at(s: Seq<NodeV>, i: int) -> bool {
    &&& is_ws_text(s[i])
    &&& (i == 0 || i == s.len() - 1 || (is_elem_or_comment(s[i - 1]) && is_elem_or_comment(
        s[i + 1],
    )))
}

/// The children surviving the pruning rule, positions examined against the
/// original list.
pub open spec fn prune_from(s: Seq<NodeV>, i: int) -> Seq<NodeV>
    decreases s.len() - i,
    when 0 <= i
{
    if i >= s.len() {
        Seq::empty()
    } else if discard_at(s, i) {
        prune_from(s, i + 1)
    } else {
        seq![s[i]] + prune_from(s, i + 1)
    }
}

pub open spec fn prune_children(s: Seq<NodeV>) -> Seq<NodeV> {
    prune_from(s, 0)
}

/// Whether a child belongs to the component's default slot: anything but a
/// `template` element with a named or dynamic slot directive.
pub open spec fn is_from_default_slot_spec(n: NodeV) -> bool {
    match n {
        NodeV::Element(el) => if el.starting_tag.tag_name != "template"@ {
            true
        } else {
            match el.starting_tag.directives {
                None => true,
                Some(ds) => match ds.v_slot {
                    None => true,
                    Some(vs) => if vs.is_dynamic_slot {
                        false
                    } else {
                        match vs.slot_name {
                            None => true,
                            Some(sn) => sn == "default"@,
                        }
                    },
                },
            }
        },
        _ => true,
    }
}

/// The default-slot children, in their original order.
pub open spec fn defaults_of(s: Seq<NodeV>) -> Seq<NodeV>
    decreases s,
{
    if s.len() == 0 {
        Seq::empty()
    } else {
        defaults_of(s.drop_last()) + (if is_from_default_slot_spec(s.last()) {
            seq![s.last()]
        } else {
            Seq::empty()
        })
    }
}

/// The named- and dynamic-slot children, in their original order.
pub open spec fn others_of(s: Seq<NodeV>) -> Seq<NodeV>
    decreases s,
{
    if s.len() == 0 {
        Seq::empty()
    } else {
        others_of(s.drop_last()) + (if !is_from_default_slot_spec(s.last()) {
            seq![s.last()]
        } else {
            Seq::empty()
        })
    }
}

/// The stable partition placing default-slot content first.
pub open spec fn partition_children(s: Seq<NodeV>) -> Seq<NodeV> {
    defaults_of(s) + others_of(s)
}

/// A tag that is no recognized host-markup tag names a component.
pub open spec fn is_component_spec(tag: StartingTagV) -> bool {
    !is_html_tag_spec(tag.tag_name)
}

/// One normalization pass over a node: children are normalized depth-first,
/// whitespace is pruned, and component children are partitioned. Pruning
/// and partitioning inspect only each child's outermost constructor and
/// starting tag, which the recursion preserves, so this equals the
/// formulation that prunes before recursing.
pub open spec fn optimize_node_spec(n: NodeV) -> NodeV
    decreases n,
{
    match n {
        NodeV::Element(el) => {
            let ch = optimize_nodes_spec(el.children);
            let pruned = prune_children(ch);
            let part = if is_component_spec(el.starting_tag) && pruned.len() > 0 {
                partition_children(pruned)
            } else {
                pruned
            };
            NodeV::Element(ElementNodeV { starting_tag: el.starting_tag, children: part, template_scope: el.template_scope })
        },
        _ => n,
    }
}

pub open spec fn optimize_nodes_spec(s: Seq<NodeV>) -> Seq<NodeV>
    decreases s,
{
    if s.len() == 0 {
        Seq::empty()
    } else {
        optimize_nodes_spec(s.drop_last()).push(optimize_node_spec(s.last()))
    }
}

/// Normalized sequences map node views index by index.
pub proof fn lemma_optimize_nodes_spec(s: Seq<NodeV>)
    ensures
        optimize_nodes_spec(s).len() == s.len(),
        forall|i: int|
            0 <= i < s.len() ==> optimize_nodes_spec(s)[i] == optimize_node_spec(#[trigger] s[i]),
    decreases s,
{
    if s.len() > 0 {
        lemma_optimize_nodes_spec(s.drop_last());
        assert forall|i: int|
            0 <= i < s.len() implies optimize_nodes_spec(s)[i] == optimize_node_spec(
            #[trigger] s[i],
        ) by {
            if i < s.len() - 1 {
                assert(s.drop_last()[i] == s[i]);
            } else {
                assert(s[i] == s.last());
            }
        }
    }
}

/// The element nodes of a root sequence, in order: stray text and comments
/// at template top level are discarded.
pub open spec fn elements_only(s: Seq<NodeV>) -> Seq<NodeV>
    decreases s,
{
    if s.len() == 0 {
        Seq::empty()
    } else {
        elements_only(s.drop_last()) + (if s.last() matches NodeV::Element(_) {
            seq![s.last()]
        } else {
            Seq::empty()
        })
    }
}

/// The normalized roots of a template block.
pub open spec fn optimize_roots_spec(s: Seq<NodeV>) -> Seq<NodeV> {
    optimize_nodes_spec(elements_only(s))
}

/// Exec twin of [`is_ws_text`].
pub fn is_whitespace_text(n: &Node) -> (r: bool)
    ensures
        r == is_ws_text(n@),
{
    match n {
        Node::Text(t) => {
            proof {
                assert(n@ == NodeV::Text(t@));
            }
            let len = t.as_str().unicode_len();
            let mut i: usize = 0;
            while i < len
                invariant
                    0 <= i <= len == t@.len(),
                    is_ws_text(n@) == all_spaces(t@),
                    forall|j: int| 0 <= j < i ==> is_space_char(#[trigger] t@[j]),
                decreases len - i,
            {
                let c = t.as_str().get_char(i);
                if !(c == ' ' || c == '\n' || c == '\t' || c == '\r') {
                    proof {
                        assert(!is_space_char(t@[i as int]));
                        assert(!all_spaces(t@));
                    }
                    return false;
                }
                i = i + 1;
            }
            true
        },
        _ => false,
    }
}

/// Exec twin of [`is_elem_or_comment`].
pub fn node_is_elem_or_comment(n: &Node) -> (r: bool)
    ensures
        r == is_elem_or_comment(n@),
{
    match n {
        Node::Element(_) => true,
        Node::Comment(_) => true,
        _ => false,
    }
}

/// Exec twin of [`is_from_default_slot_spec`].
pub fn is_from_default_slot(n: &Node) -> (r: bool)
    ensures
        r == is_from_default_slot_spec(n@),
{
    match n {
        Node::Element(el) => {
            if !str_eq(el.starting_tag.tag_name.as_str(), "template") {
                return true;
            }
            match &el.starting_tag.directives {
                None => true,
                Some(ds) => match &ds.v_slot {
                    None => true,
                    Some(vs) => {
                        if vs.is_dynamic_slot {
                            false
                        } else {
                            match &vs.slot_name {
                                None => true,
                                Some(sn) => str_eq(sn.as_str(), "default"),
                            }
                        }
                    },
                },
            }
        },
        _ => true,
    }
}

/// One normalization pass over a node, depth-first.
pub fn optimize_node(n: Node) -> (r: Node)
    ensures
        r@ == optimize_node_spec(n@),
    decreases n,
{
    let ghost n0 = n;
    match n {
        Node::Element(el) => {
            let ghost el0 = el;
            let ElementNode { starting_tag, children, template_scope } = el;
            let ghost cs = children@;
            let ghost csv = nodes_view(cs);
            proof {
                lemma_nodes_view(cs);
                assert(decreases_to!(n0 => el0));
                assert(decreases_to!(el0 => el0.children));
                assert(decreases_to!(el0.children => cs));
                assert(decreases_to!(n0 => cs));
            }
            let total = children.len();
            // Normalize the children depth-first.
            let mut children = children;
            let mut opt: Vec<Node> = Vec::new();
            let mut k: usize = 0;
            proof {
                assert(csv.take(0) =~= Seq::<NodeV>::empty());
                assert(nodes_view(opt@) =~= optimize_nodes_spec(csv.take(0)));
            }
            while children.len() > 0
                invariant
                    k + children@.len() == total,
                    total == cs.len(),
                    n0 == n,
                    children@ == cs.skip(k as int),
                    csv == nodes_view(cs),
                    csv.len() == cs.len(),
                    forall|i: int| 0 <= i < cs.len() ==> csv[i] == node_view(#[trigger] cs[i]),
                    nodes_view(opt@) == optimize_nodes_spec(csv.take(k as int)),
                    decreases_to!(n0 => cs),
                decreases children@.len(),
            {
                let c = children.remove(0);
                proof {
                    assert(cs.skip(k as int)[0] == cs[k as int]);
                    assert(cs.skip(k as int).drop_first() =~= cs.skip(k as int + 1));
                    assert(c == cs[k as int]);
                    assert(decreases_to!(cs => c));
                }
                let oc = optimize_node(c);
                let ghost opt0 = opt@;
                opt.push(oc);
                k = k + 1;
                proof {
                    assert(csv.take(k as int).drop_last() =~= csv.take(k as int - 1));
                    assert(csv.take(k as int).last() == csv[k as int - 1]);
                    assert(nodes_view(opt@).drop_last() =~= nodes_view(opt@.drop_last()));
                    assert(opt@.drop_last() =~= opt0);
                    assert(nodes_view(opt@) =~= optimize_nodes_spec(csv.take(k as int)));
                }
            }
            proof {
                assert(csv.take(cs.len() as int) =~= csv);
            }
            let ghost ov = nodes_view(opt@);
            // Prune whitespace text nodes by original position.
            let mut flags: Vec<bool> = Vec::new();
            let olen = opt.len();
            let mut i: usize = 0;
            proof {
                lemma_nodes_view(opt@);
            }
            while i < olen
                invariant
                    0 <= i <= olen == opt@.len(),
                    ov == nodes_view(opt@),
                    ov.len() == opt@.len(),
                    forall|j: int| 0 <= j < opt@.len() ==> ov[j] == node_view(#[trigger] opt@[j]),
                    flags@.len() == i,
                    forall|j: int| 0 <= j < i ==> flags@[j] == discard_at(ov, j),
                decreases olen - i,
            {
                let ws = is_whitespace_text(&opt[i]);
                let di = ws && (i == 0 || i == olen - 1 || (node_is_elem_or_comment(&opt[i - 1])
                    && node_is_elem_or_comment(&opt[i + 1])));
                flags.push(di);
                i = i + 1;
            }
            let mut pruned: Vec<Node> = Vec::new();
            let mut k: usize = 0;
            let mut rest = opt;
            proof {
                assert(prune_from(ov, 0) == nodes_view(pruned@) + prune_from(ov, 0)) by {
                    assert(nodes_view(pruned@) =~= Seq::<NodeV>::empty());
                    assert(Seq::<NodeV>::empty() + prune_from(ov, 0) =~= prune_from(ov, 0));
                }
            }
            while rest.len() > 0
                invariant
                    k + rest@.len() == olen,
                    olen == ov.len(),
                    flags@.len() == olen,
                    forall|j: int| 0 <= j < olen ==> flags@[j] == discard_at(ov, j),
                    forall|j: int| 0 <= j < rest@.len() ==> node_view(#[trigger] rest@[j]) == ov[k + j],
                    prune_children(ov) == nodes_view(pruned@) + prune_from(ov, k as int),
                decreases rest@.len(),
            {
                let c = rest.remove(0);
                proof {
                    assert(node_view(c) == ov[k as int]);
                }
                if !flags[k] {
                    let ghost pruned0 = pruned@;
                    pruned.push(c);
                    proof {
                        assert(nodes_view(pruned@).drop_last() =~= nodes_view(pruned@.drop_last()));
                        assert(pruned@.drop_last() =~= pruned0);
                        assert(nodes_view(pruned@) =~= nodes_view(pruned@.drop_last()).push(
                            node_view(c),
                        ));
                        assert(nodes_view(pruned@) + prune_from(ov, k as int + 1) =~= (nodes_view(
                            pruned@.drop_last(),
                        ) + (seq![ov[k as int]] + prune_from(ov, k as int + 1))));
                    }
                } else {
                }
                k = k + 1;
            }
            proof {
                assert(prune_from(ov, olen as int) =~= Seq::<NodeV>::empty());
                assert(nodes_view(pruned@) + Seq::<NodeV>::empty() =~= nodes_view(pruned@));
                assert(nodes_view(pruned@) == prune_children(ov));
            }
            let ghost pv = nodes_view(pruned@);
            // For components with remaining children, move default-slot
            // content before named slots, keeping each side's order.
            let is_comp = !is_html_tag(starting_tag.tag_name.as_str());
            let result: Vec<Node> = if is_comp && pruned.len() > 0 {
                let mut defaults: Vec<Node> = Vec::new();
                let mut others: Vec<Node> = Vec::new();
                let mut rest = pruned;
                let total = rest.len();
                let mut k: usize = 0;
                proof {
                    lemma_nodes_view(rest@);
                    assert(pv.take(0) =~= Seq::<NodeV>::empty());
                    assert(nodes_view(defaults@) =~= defaults_of(pv.take(0)));
                    assert(nodes_view(others@) =~= others_of(pv.take(0)));
                }
                while rest.len() > 0
                    invariant
                        k + rest@.len() == total,
                        total == pv.len(),
                        forall|j: int|
                            0 <= j < rest@.len() ==> node_view(#[trigger] rest@[j]) == pv[k + j],
                        nodes_view(defaults@) == defaults_of(pv.take(k as int)),
                        nodes_view(others@) == others_of(pv.take(k as int)),
                    decreases rest@.len(),
                {
                    let c = rest.remove(0);
                    proof {
                        assert(node_view(c) == pv[k as int]);
                        assert(pv.take(k as int + 1).drop_last() =~= pv.take(k as int));
                        assert(pv.take(k as int + 1).last() == pv[k as int]);
                    }
                    if is_from_default_slot(&c) {
                        let ghost defaults0 = defaults@;
                        defaults.push(c);
                        proof {
                            assert(nodes_view(defaults@).drop_last() =~= nodes_view(
                                defaults@.drop_last(),
                            ));
                            assert(defaults@.drop_last() =~= defaults0);
                            assert(nodes_view(defaults@) =~= defaults_of(pv.take(k as int + 1)));
                            assert(nodes_view(others@) =~= others_of(pv.take(k as int + 1)));
                        }
                    } else {
                        let ghost others0 = others@;
                        others.push(c);
                        proof {
                            assert(nodes_view(others@).drop_last() =~= nodes_view(
                                others@.drop_last(),
                            ));
                            assert(others@.drop_last() =~= others0);
                            assert(nodes_view(others@) =~= others_of(pv.take(k as int + 1)));
                            assert(nodes_view(defaults@) =~= defaults_of(pv.take(k as int + 1)));
                        }
                    }
                    k = k + 1;
                }
                proof {
                    assert(pv.take(pv.len() as int) =~= pv);
                }
                let mut combined = defaults;
                let ghost dl = combined@;
                let ghost others_before = others@;
                combined.append(&mut others);
                proof {
                    lemma_nodes_view(combined@);
                    lemma_nodes_view(dl);
                    lemma_nodes_view(others_before);
                    assert(combined@ == dl + others_before);
                    assert(nodes_view(combined@).len() == dl.len() + others_before.len());
                    assert forall|j: int|
                        0 <= j < combined@.len() implies nodes_view(combined@)[j] == (nodes_view(
                        dl,
                    ) + nodes_view(others_before))[j] by {
                        if j < dl.len() {
                            assert(combined@[j] == dl[j]);
                            assert(nodes_view(combined@)[j] == node_view(combined@[j]));
                            assert(nodes_view(dl)[j] == node_view(dl[j]));
                        } else {
                            assert(combined@[j] == others_before[j - dl.len()]);
                            assert(nodes_view(combined@)[j] == node_view(combined@[j]));
                            assert(nodes_view(others_before)[j - dl.len()] == node_view(
                                others_before[j - dl.len()],
                            ));
                        }
                    }
                    assert(nodes_view(combined@) =~= nodes_view(dl) + nodes_view(others_before));
                    assert(nodes_view(combined@) == partition_children(pv));
                }
                combined
            } else {
                pruned
            };
            let r = Node::Element(ElementNode { starting_tag, children: result, template_scope });
            proof {
                assert(node_view(r) == optimize_node_spec(n0@));
            }
            r
        },
        Node::Text(t) => Node::Text(t),
        Node::Comment(c) => Node::Comment(c),
        Node::DynamicExpression { value, template_scope } => Node::DynamicExpression {
            value,
            template_scope,
        },
    }
}

/// Normalizes a template block in place: only element nodes are kept as
/// roots, and each root is normalized depth-first.
pub fn optimize_template(template: &mut SfcTemplateBlock)
    ensures
        final(template).lang == old(template).lang,
        nodes_view(final(template).roots@) == optimize_roots_spec(nodes_view(
            old(template).roots@,
        )),
{
    let mut roots: Vec<Node> = Vec::new();
    core::mem::swap(&mut roots, &mut template.roots);
    let ghost rv = nodes_view(roots@);
    proof {
        lemma_nodes_view(roots@);
    }
    let mut out: Vec<Node> = Vec::new();
    let total = roots.len();
    let mut k: usize = 0;
    proof {
        assert(rv.take(0) =~= Seq::<NodeV>::empty());
        assert(nodes_view(out@) =~= optimize_nodes_spec(elements_only(rv.take(0))));
    }
    while roots.len() > 0
        invariant
            k + roots@.len() == total,
            total == rv.len(),
            forall|j: int| 0 <= j < roots@.len() ==> node_view(#[trigger] roots@[j]) == rv[k + j],
            nodes_view(out@) == optimize_nodes_spec(elements_only(rv.take(k as int))),
        decreases roots@.len(),
    {
        let c = roots.remove(0);
        proof {
            assert(node_view(c) == rv[k as int]);
            assert(rv.take(k as int + 1).drop_last() =~= rv.take(k as int));
            assert(rv.take(k as int + 1).last() == rv[k as int]);
        }
        let is_elem = match &c {
            Node::Element(_) => true,
            _ => false,
        };
        if is_elem {
            let oc = optimize_node(c);
            let ghost out0 = out@;
            out.push(oc);
            proof {
                assert(elements_only(rv.take(k as int + 1)) =~= elements_only(rv.take(k as int))
                    + seq![rv[k as int]]);
                assert(elements_only(rv.take(k as int + 1)).drop_last() =~= elements_only(
                    rv.take(k as int),
                ));
                assert(nodes_view(out@).drop_last() =~= nodes_view(out@.drop_last()));
                assert(out@.drop_last() =~= out0);
                assert(nodes_view(out@) =~= optimize_nodes_spec(
                    elements_only(rv.take(k as int + 1)),
                ));
            }
        } else {
            proof {
                assert(elements_only(rv.take(k as int + 1)) =~= elements_only(rv.take(k as int)));
            }
        }
        k = k + 1;
    }
    proof {
        assert(rv.take(rv.len() as int) =~= rv);
    }
    template.roots = out;
}


/// A tree without whitespace-only text nodes anywhere.
pub open spec fn ws_free_node(n: NodeV) -> bool
    decreases n,
{
    match n {
        NodeV::Text(t) => !all_spaces(t),
        NodeV::Element(el) => ws_free_nodes(el.children),
        _ => true,
    }
}

pub open spec fn ws_free_nodes(s: Seq<NodeV>) -> bool
    decreases s,
{
    if s.len() == 0 {
        true
    } else {
        ws_free_nodes(s.drop_last()) && ws_free_node(s.last())
    }
}

/// Freedom from whitespace text nodes is an element-wise property.
pub proof fn lemma_ws_free_index(s: Seq<NodeV>)
    ensures
        ws_free_nodes(s) == (forall|i: int| 0 <= i < s.len() ==> ws_free_node(#[trigger] s[i])),
    decreases s,
{
    if s.len() > 0 {
        lemma_ws_free_index(s.drop_last());
        if ws_free_nodes(s) {
            assert forall|i: int| 0 <= i < s.len() implies ws_free_node(#[trigger] s[i]) by {
                if i < s.len() - 1 {
                    assert(s.drop_last()[i] == s[i]);
                } else {
                    assert(s[i] == s.last());
                }
            }
        }
        if forall|i: int| 0 <= i < s.len() ==> ws_free_node(#[trigger] s[i]) {
            assert forall|i: int|
                0 <= i < s.drop_last().len() implies ws_free_node(#[trigger] s.drop_last()[i]) by {
                assert(s.drop_last()[i] == s[i]);
            }
        }
    }
}

proof fn lemma_prune_from_identity(s: Seq<NodeV>, i: int)
    requires
        0 <= i <= s.len(),
        forall|j: int| 0 <= j < s.len() ==> !is_ws_text(#[trigger] s[j]),
    ensures
        prune_from(s, i) == s.skip(i),
    decreases s.len() - i,
{
    if i >= s.len() {
        assert(prune_from(s, i) =~= s.skip(i));
    } else {
        lemma_prune_from_identity(s, i + 1);
        assert(!discard_at(s, i));
        assert(seq![s[i]] + s.skip(i + 1) =~= s.skip(i));
    }
}

/// Pruning a whitespace-free child list leaves it unchanged: this is the
/// whitespace half of the claim that a second normalization pass changes
/// nothing. On lists that still hold discardable whitespace after one pass
/// a second pass prunes further: two leading whitespace text nodes before
/// an element are such a case.
pub proof fn lemma_prune_identity(s: Seq<NodeV>)
    requires
        forall|j: int| 0 <= j < s.len() ==> ws_free_node(#[trigger] s[j]),
    ensures
        prune_children(s) == s,
{
    assert forall|j: int| 0 <= j < s.len() implies !is_ws_text(#[trigger] s[j]) by {
        assert(ws_free_node(s[j]));
    }
    lemma_prune_from_identity(s, 0);
    assert(s.skip(0) =~= s);
}

proof fn lemma_defaults_concat(x: Seq<NodeV>, y: Seq<NodeV>)
    ensures
        defaults_of(x + y) == defaults_of(x) + defaults_of(y),
        others_of(x + y) == others_of(x) + others_of(y),
    decreases y,
{
    if y.len() == 0 {
        assert(x + y =~= x);
        assert(defaults_of(x) + defaults_of(y) =~= defaults_of(x));
        assert(others_of(x) + others_of(y) =~= others_of(x));
    } else {
        lemma_defaults_concat(x, y.drop_last());
        assert((x + y).drop_last() =~= x + y.drop_last());
        assert((x + y).last() == y.last());
        assert(y.drop_last().push(y.last()) =~= y);
        if is_from_default_slot_spec(y.last()) {
            assert(defaults_of(x + y) =~= defaults_of(x) + defaults_of(y));
            assert(others_of(x + y) =~= others_of(x) + others_of(y));
        } else {
            assert(defaults_of(x + y) =~= defaults_of(x) + defaults_of(y));
            assert(others_of(x + y) =~= others_of(x) + others_of(y));
        }
    }
}

proof fn lemma_all_default(d: Seq<NodeV>)
    requires
        forall|j: int| 0 <= j < d.len() ==> is_from_default_slot_spec(#[trigger] d[j]),
    ensures
        defaults_of(d) == d,
        others_of(d) == Seq::<NodeV>::empty(),
    decreases d,
{
    if d.len() > 0 {
        assert forall|j: int|
            0 <= j < d.drop_last().len() implies is_from_default_slot_spec(
            #[trigger] d.drop_last()[j],
        ) by {
            assert(d.drop_last()[j] == d[j]);
        }
        lemma_all_default(d.drop_last());
        assert(d.drop_last() + seq![d.last()] =~= d);
        assert(defaults_of(d) =~= d);
        assert(others_of(d) =~= Seq::<NodeV>::empty());
    } else {
        assert(defaults_of(d) =~= d);
        assert(others_of(d) =~= Seq::<NodeV>::empty());
    }
}

proof fn lemma_all_other(o: Seq<NodeV>)
    requires
        forall|j: int| 0 <= j < o.len() ==> !is_from_default_slot_spec(#[trigger] o[j]),
    ensures
        others_of(o) == o,
        defaults_of(o) == Seq::<NodeV>::empty(),
    decreases o,
{
    if o.len() > 0 {
        assert forall|j: int|
            0 <= j < o.drop_last().len() implies !is_from_default_slot_spec(
            #[trigger] o.drop_last()[j],
        ) by {
            assert(o.drop_last()[j] == o[j]);
        }
        lemma_all_other(o.drop_last());
        assert(o.drop_last() + seq![o.last()] =~= o);
        assert(others_of(o) =~= o);
        assert(defaults_of(o) =~= Seq::<NodeV>::empty());
    } else {
        assert(others_of(o) =~= o);
        assert(defaults_of(o) =~= Seq::<NodeV>::empty());
    }
}

proof fn lemma_partition_classes(s: Seq<NodeV>)
    ensures
        forall|j: int|
            0 <= j < defaults_of(s).len() ==> is_from_default_slot_spec(
                #[trigger] defaults_of(s)[j],
            ),
        forall|j: int|
            0 <= j < others_of(s).len() ==> !is_from_default_slot_spec(#[trigger] others_of(s)[j]),
        defaults_of(s).len() + others_of(s).len() == s.len(),
    decreases s,
{
    if s.len() > 0 {
        lemma_partition_classes(s.drop_last());
    }
}

/// The slot partition is stable and idempotent: default-slot content comes
/// first, each side keeps its order, and partitioning a partitioned list
/// changes nothing.
pub proof fn lemma_partition_idempotent(s: Seq<NodeV>)
    ensures
        partition_children(partition_children(s)) == partition_children(s),
        partition_children(s).len() == s.len(),
{
    let d = defaults_of(s);
    let o = others_of(s);
    lemma_partition_classes(s);
    lemma_defaults_concat(d, o);
    lemma_all_default(d);
    lemma_all_other(o);
    assert(defaults_of(d + o) =~= d);
    assert(others_of(d + o) =~= o);
}

/// The stable partition, characterized by filtering: the default-slot
/// children keep their order before the others, which keep theirs.
pub proof fn lemma_partition_stability(s: Seq<NodeV>)
    ensures
        defaults_of(s) == s.filter(|n: NodeV| is_from_default_slot_spec(n)),
        others_of(s) == s.filter(|n: NodeV| !is_from_default_slot_spec(n)),
        partition_children(s) == s.filter(|n: NodeV| is_from_default_slot_spec(n)) + s.filter(
            |n: NodeV| !is_from_default_slot_spec(n),
        ),
    decreases s,
{
    if s.len() == 0 {
        assert(s.filter(|n: NodeV| is_from_default_slot_spec(n)) =~= defaults_of(s));
        assert(s.filter(|n: NodeV| !is_from_default_slot_spec(n)) =~= others_of(s));
    } else {
        lemma_partition_stability(s.drop_last());
        reveal(Seq::filter);
        if is_from_default_slot_spec(s.last()) {
            assert(defaults_of(s) =~= s.filter(|n: NodeV| is_from_default_slot_spec(n)));
            assert(others_of(s) =~= s.filter(|n: NodeV| !is_from_default_slot_spec(n)));
        } else {
            assert(defaults_of(s) =~= s.filter(|n: NodeV| is_from_default_slot_spec(n)));
            assert(others_of(s) =~= s.filter(|n: NodeV| !is_from_default_slot_spec(n)));
        }
    }
}



/// Normalization preserves a node's outermost constructor and starting
/// tag, so the classifications the pass itself consults are stable.
proof fn lemma_optimize_preserves_shape(n: NodeV)
    ensures
        is_ws_text(optimize_node_spec(n)) == is_ws_text(n),
        is_elem_or_comment(optimize_node_spec(n)) == is_elem_or_comment(n),
        is_from_default_slot_spec(optimize_node_spec(n)) == is_from_default_slot_spec(n),
        n is Element ==> optimize_node_spec(n) is Element,
        !(n is Element) ==> optimize_node_spec(n) == n,
{
}

/// Each member of either partition class is a member of the original list.
proof fn lemma_partition_membership(s: Seq<NodeV>)
    ensures
        forall|j: int|
            0 <= j < defaults_of(s).len() ==> exists|i: int|
                0 <= i < s.len() && #[trigger] defaults_of(s)[j] == s[i],
        forall|j: int|
            0 <= j < others_of(s).len() ==> exists|i: int|
                0 <= i < s.len() && #[trigger] others_of(s)[j] == s[i],
    decreases s,
{
    if s.len() > 0 {
        lemma_partition_membership(s.drop_last());
        assert forall|j: int|
            0 <= j < defaults_of(s).len() implies exists|i: int|
            0 <= i < s.len() && #[trigger] defaults_of(s)[j] == s[i] by {
            if j < defaults_of(s.drop_last()).len() {
                assert(defaults_of(s)[j] == defaults_of(s.drop_last())[j]);
                let i = choose|i: int|
                    0 <= i < s.drop_last().len() && defaults_of(s.drop_last())[j]
                        == s.drop_last()[i];
                assert(s.drop_last()[i] == s[i]);
                assert(0 <= i < s.len() && defaults_of(s)[j] == s[i]);
            } else {
                assert(defaults_of(s)[j] == s.last());
                assert(0 <= s.len() - 1 < s.len() && defaults_of(s)[j] == s[s.len() - 1]);
            }
        }
        assert forall|j: int|
            0 <= j < others_of(s).len() implies exists|i: int|
            0 <= i < s.len() && #[trigger] others_of(s)[j] == s[i] by {
            if j < others_of(s.drop_last()).len() {
                assert(others_of(s)[j] == others_of(s.drop_last())[j]);
                let i = choose|i: int|
                    0 <= i < s.drop_last().len() && others_of(s.drop_last())[j] == s.drop_last()[i];
                assert(s.drop_last()[i] == s[i]);
                assert(0 <= i < s.len() && others_of(s)[j] == s[i]);
            } else {
                assert(others_of(s)[j] == s.last());
                assert(0 <= s.len() - 1 < s.len() && others_of(s)[j] == s[s.len() - 1]);
            }
        }
    }
}

/// Normalization never introduces whitespace-only text nodes.
proof fn lemma_optimize_preserves_ws_free(n: NodeV)
    requires
        ws_free_node(n),
    ensures
        ws_free_node(optimize_node_spec(n)),
    decreases n,
{
    match n {
        NodeV::Element(el) => {
            let ch = optimize_nodes_spec(el.children);
            lemma_optimize_nodes_spec(el.children);
            lemma_ws_free_index(el.children);
            assert forall|i: int| 0 <= i < ch.len() implies ws_free_node(#[trigger] ch[i]) by {
                assert(ch[i] == optimize_node_spec(el.children[i]));
                lemma_optimize_preserves_ws_free(el.children[i]);
            }
            assert forall|i: int| 0 <= i < ch.len() implies !is_ws_text(#[trigger] ch[i]) by {
                assert(ws_free_node(ch[i]));
            }
            lemma_prune_identity(ch);
            let part = if is_component_spec(el.starting_tag) && ch.len() > 0 {
                partition_children(ch)
            } else {
                ch
            };
            lemma_partition_membership(ch);
            assert forall|j: int| 0 <= j < part.len() implies ws_free_node(#[trigger] part[j]) by {
                if is_component_spec(el.starting_tag) && ch.len() > 0 {
                    if j < defaults_of(ch).len() {
                        assert(part[j] == defaults_of(ch)[j]);
                        let i = choose|i: int| 0 <= i < ch.len() && defaults_of(ch)[j] == ch[i];
                        assert(ws_free_node(ch[i]));
                    } else {
                        assert(part[j] == others_of(ch)[j - defaults_of(ch).len()]);
                        let i = choose|i: int|
                            0 <= i < ch.len() && others_of(ch)[j - defaults_of(ch).len()] == ch[i];
                        assert(ws_free_node(ch[i]));
                    }
                }
            }
            lemma_ws_free_index(part);
            assert(optimize_node_spec(n) matches NodeV::Element(e2) && e2.children == part);
        },
        _ => {},
    }
}

/// One normalization pass reaches a fixed point on whitespace-free trees:
/// running the pass twice on such a node yields what one run yields. On
/// trees that still hold discardable whitespace after one pass the claim
/// fails: children `[Text(" "), Text(" "), Element]` lose only the first
/// text node in one pass and the second one only in the next.
pub proof fn lemma_optimize_idempotent(n: NodeV)
    requires
        ws_free_node(n),
    ensures
        optimize_node_spec(optimize_node_spec(n)) == optimize_node_spec(n),
    decreases n,
{
    match n {
        NodeV::Element(el) => {
            let ch = optimize_nodes_spec(el.children);
            lemma_optimize_nodes_spec(el.children);
            lemma_ws_free_index(el.children);
            assert forall|i: int| 0 <= i < ch.len() implies ws_free_node(#[trigger] ch[i])
                && optimize_node_spec(ch[i]) == ch[i] by {
                assert(ch[i] == optimize_node_spec(el.children[i]));
                lemma_optimize_preserves_ws_free(el.children[i]);
                lemma_optimize_idempotent(el.children[i]);
            }
            assert forall|i: int| 0 <= i < ch.len() implies !is_ws_text(#[trigger] ch[i]) by {
                assert(ws_free_node(ch[i]));
            }
            lemma_prune_identity(ch);
            let comp = is_component_spec(el.starting_tag);
            let part = if comp && ch.len() > 0 {
                partition_children(ch)
            } else {
                ch
            };
            lemma_partition_membership(ch);
            lemma_partition_classes(ch);
            assert forall|j: int|
                0 <= j < part.len() implies ws_free_node(#[trigger] part[j])
                    && optimize_node_spec(part[j]) == part[j] by {
                if comp && ch.len() > 0 {
                    if j < defaults_of(ch).len() {
                        assert(part[j] == defaults_of(ch)[j]);
                        let i = choose|i: int| 0 <= i < ch.len() && defaults_of(ch)[j] == ch[i];
                        assert(ws_free_node(ch[i]) && optimize_node_spec(ch[i]) == ch[i]);
                    } else {
                        assert(part[j] == others_of(ch)[j - defaults_of(ch).len()]);
                        let i = choose|i: int|
                            0 <= i < ch.len() && others_of(ch)[j - defaults_of(ch).len()] == ch[i];
                        assert(ws_free_node(ch[i]) && optimize_node_spec(ch[i]) == ch[i]);
                    }
                }
            }
            let n1 = optimize_node_spec(n);
            assert(n1 matches NodeV::Element(e1) && e1.children == part
                && e1.starting_tag == el.starting_tag);
            // The second pass: the children are already normalized, pruned
            // and partitioned.
            let ch2 = optimize_nodes_spec(part);
            lemma_optimize_nodes_spec(part);
            assert(ch2 =~= part);
            assert forall|j: int| 0 <= j < ch2.len() implies !is_ws_text(#[trigger] ch2[j]) by {
                assert(ws_free_node(ch2[j]));
            }
            lemma_prune_identity(ch2);
            if comp && part.len() > 0 {
                lemma_partition_idempotent(ch);
                assert(partition_children(part) == part);
            }
            if comp && ch.len() > 0 {
                assert(part.len() == ch.len());
            }
            assert(optimize_node_spec(n1) == n1);
        },
        _ => {},
    }
}

/// All-element sequences pass the root filter unchanged.
proof fn lemma_elements_only_identity(s: Seq<NodeV>)
    requires
        forall|i: int| 0 <= i < s.len() ==> (#[trigger] s[i]) is Element,
    ensures
        elements_only(s) == s,
    decreases s,
{
    if s.len() > 0 {
        assert forall|i: int|
            0 <= i < s.drop_last().len() implies (#[trigger] s.drop_last()[i]) is Element by {
            assert(s.drop_last()[i] == s[i]);
        }
        lemma_elements_only_identity(s.drop_last());
        assert(elements_only(s) =~= s);
    } else {
        assert(elements_only(s) =~= s);
    }
}

/// Each member of the root filter is a member of the original roots.
proof fn lemma_elements_only_membership(s: Seq<NodeV>)
    ensures
        forall|j: int|
            0 <= j < elements_only(s).len() ==> exists|i: int|
                0 <= i < s.len() && #[trigger] elements_only(s)[j] == s[i],
        forall|j: int| 0 <= j < elements_only(s).len() ==> (#[trigger] elements_only(s)[j]) is Element,
    decreases s,
{
    if s.len() > 0 {
        lemma_elements_only_membership(s.drop_last());
        assert forall|j: int|
            0 <= j < elements_only(s).len() implies exists|i: int|
            0 <= i < s.len() && #[trigger] elements_only(s)[j] == s[i] by {
            if j < elements_only(s.drop_last()).len() {
                assert(elements_only(s)[j] == elements_only(s.drop_last())[j]);
                let i = choose|i: int|
                    0 <= i < s.drop_last().len() && elements_only(s.drop_last())[j]
                        == s.drop_last()[i];
                assert(s.drop_last()[i] == s[i]);
                assert(0 <= i < s.len() && elements_only(s)[j] == s[i]);
            } else {
                assert(elements_only(s)[j] == s.last());
                assert(0 <= s.len() - 1 < s.len() && elements_only(s)[j] == s[s.len() - 1]);
            }
        }
    }
}

/// Idempotence of the whole pass: normalizing the roots of a
/// whitespace-free template twice yields what one pass yields.
pub proof fn lemma_optimize_roots_idempotent(s: Seq<NodeV>)
    requires
        forall|i: int| 0 <= i < s.len() ==> ws_free_node(#[trigger] s[i]),
    ensures
        optimize_roots_spec(optimize_roots_spec(s)) == optimize_roots_spec(s),
{
    let e = elements_only(s);
    lemma_elements_only_membership(s);
    assert forall|j: int| 0 <= j < e.len() implies ws_free_node(#[trigger] e[j]) by {
        let i = choose|i: int| 0 <= i < s.len() && elements_only(s)[j] == s[i];
        assert(ws_free_node(s[i]));
    }
    let r1 = optimize_nodes_spec(e);
    lemma_optimize_nodes_spec(e);
    assert forall|j: int|
        0 <= j < r1.len() implies (#[trigger] r1[j]) is Element && optimize_node_spec(r1[j])
            == r1[j] by {
        assert(r1[j] == optimize_node_spec(e[j]));
        lemma_optimize_preserves_shape(e[j]);
        lemma_optimize_preserves_ws_free(e[j]);
        lemma_optimize_idempotent(e[j]);
    }
    lemma_elements_only_identity(r1);
    let r2 = optimize_nodes_spec(r1);
    lemma_optimize_nodes_spec(r1);
    assert(r2 =~= r1);
}


} // verus!
