//! The node tree produced by the parser and consumed by the optimizer and
//! the code emitters, together with its mathematical view types.

use vstd::prelude::*;

verus! {

/// A builtin wrapper component recognized by its tag name and mapped to a
/// fixed runtime helper rather than a user-defined component.
#[derive(Clone, Copy, PartialEq, Eq, Structural, Debug)]
pub enum BuiltinKind {
    Transition,
}

/// How an element's body is treated by the parser.
#[derive(Clone, Copy, PartialEq, Eq, Structural, Debug)]
pub enum ElementKind {
    Normal,
    /// No children and no end tag expected.
    Void,
    /// Children are opaque raw text, not parsed recursively.
    RawText,
    Builtin(BuiltinKind),
}

/// A slot directive summary: the slot name (`None` means the default slot)
/// and whether the slot name is a dynamic expression.
#[derive(PartialEq, Debug)]
pub struct VSlotSummary {
    pub slot_name: Option<String>,
    pub is_dynamic_slot: bool,
}

/// The parsed-directives summary a starting tag may carry.
#[derive(PartialEq, Debug)]
pub struct DirectivesSummary {
    pub v_slot: Option<VSlotSummary>,
}

/// One attribute of a starting tag: either a plain attribute or a directive.
#[derive(PartialEq, Debug)]
pub enum Attribute {
    Regular { name: String, value: String },
    Directive(VDirective),
}

/// A directive attribute: its name, an optional argument (the empty string
/// means no argument), modifier names, an optional bound value expression,
/// and, for slot directives, whether the slot name is dynamic.
#[derive(PartialEq, Debug)]
pub struct VDirective {
    pub name: String,
    pub argument: String,
    pub modifiers: Vec<String>,
    pub value: Option<String>,
    pub is_dynamic_slot: bool,
}

/// The opening tag of an element.
#[derive(PartialEq, Debug)]
pub struct StartingTag {
    pub tag_name: String,
    pub attributes: Vec<Attribute>,
    pub directives: Option<DirectivesSummary>,
    pub is_self_closing: bool,
    pub kind: ElementKind,
}

/// An element with its children.
#[derive(PartialEq, Debug)]
pub struct ElementNode {
    pub starting_tag: StartingTag,
    pub children: Vec<Node>,
    pub template_scope: u32,
}

/// One node of the template tree.
#[derive(PartialEq, Debug)]
pub enum Node {
    Element(ElementNode),
    Text(String),
    Comment(String),
    DynamicExpression { value: String, template_scope: u32 },
}

/// A top-level template block: the root nodes parsed from a template
/// section, with the block's language label.
#[derive(PartialEq, Debug)]
pub struct SfcTemplateBlock {
    pub lang: String,
    pub roots: Vec<Node>,
}

// --- Mathematical views -------------------------------------------------

pub struct VSlotSummaryV {
    pub slot_name: Option<Seq<char>>,
    pub is_dynamic_slot: bool,
}

pub struct DirectivesSummaryV {
    pub v_slot: Option<VSlotSummaryV>,
}

pub enum AttributeV {
    Regular { name: Seq<char>, value: Seq<char> },
    Directive(VDirectiveV),
}

pub struct VDirectiveV {
    pub name: Seq<char>,
    pub argument: Seq<char>,
    pub modifiers: Seq<Seq<char>>,
    pub value: Option<Seq<char>>,
    pub is_dynamic_slot: bool,
}

pub struct StartingTagV {
    pub tag_name: Seq<char>,
    pub attributes: Seq<AttributeV>,
    pub directives: Option<DirectivesSummaryV>,
    pub is_self_closing: bool,
    pub kind: ElementKind,
}

pub struct ElementNodeV {
    pub starting_tag: StartingTagV,
    pub children: Seq<NodeV>,
    pub template_scope: u32,
}

pub enum NodeV {
    Element(ElementNodeV),
    Text(Seq<char>),
    Comment(Seq<char>),
    DynamicExpression { value: Seq<char>, template_scope: u32 },
}

impl View for VSlotSummary {
    type V = VSlotSummaryV;

    open spec fn view(&self) -> VSlotSummaryV {
        VSlotSummaryV {
            slot_name: match self.slot_name {
                Some(ref s) => Some(s@),
                None => None,
            },
            is_dynamic_slot: self.is_dynamic_slot,
        }
    }
}

impl View for DirectivesSummary {
    type V = DirectivesSummaryV;

    open spec fn view(&self) -> DirectivesSummaryV {
        DirectivesSummaryV {
            v_slot: match self.v_slot {
                Some(ref v) => Some(v@),
                None => None,
            },
        }
    }
}

impl View for VDirective {
    type V = VDirectiveV;

    open spec fn view(&self) -> VDirectiveV {
        VDirectiveV {
            name: self.name@,
            argument: self.argument@,
            modifiers: self.modifiers@.map_values(|m: String| m@),
            value: match self.value {
                Some(ref v) => Some(v@),
                None => None,
            },
            is_dynamic_slot: self.is_dynamic_slot,
        }
    }
}

impl View for Attribute {
    type V = AttributeV;

    open spec fn view(&self) -> AttributeV {
        match self {
            Attribute::Regular { name, value } => AttributeV::Regular { name: name@, value: value@ },
            Attribute::Directive(d) => AttributeV::Directive(d@),
        }
    }
}

impl View for StartingTag {
    type V = StartingTagV;

    open spec fn view(&self) -> StartingTagV {
        StartingTagV {
            tag_name: self.tag_name@,
            attributes: self.attributes@.map_values(|a: Attribute| a@),
            directives: match self.directives {
                Some(ref d) => Some(d@),
                None => None,
            },
            is_self_closing: self.is_self_closing,
            kind: self.kind,
        }
    }
}

pub open spec fn node_view(n: Node) -> NodeV
    decreases n,
{
    match n {
        Node::Element(el) => NodeV::Element(ElementNodeV {
            starting_tag: el.starting_tag@,
            children: nodes_view(el.children@),
            template_scope: el.template_scope,
        }),
        Node::Text(t) => NodeV::Text(t@),
        Node::Comment(c) => NodeV::Comment(c@),
        Node::DynamicExpression { value, template_scope } => NodeV::DynamicExpression {
            value: value@,
            template_scope,
        },
    }
}

pub open spec fn nodes_view(s: Seq<Node>) -> Seq<NodeV>
    decreases s,
{
    if s.len() == 0 {
        Seq::empty()
    } else {
        nodes_view(s.drop_last()).push(node_view(s.last()))
    }
}

/// The view of a node sequence is the sequence of node views, index by index.
pub proof fn lemma_nodes_view(s: Seq<Node>)
    ensures
        nodes_view(s).len() == s.len(),
        forall|i: int| 0 <= i < s.len() ==> nodes_view(s)[i] == node_view(#[trigger] s[i]),
    decreases s,
{
    if s.len() > 0 {
        lemma_nodes_view(s.drop_last());
        assert forall|i: int| 0 <= i < s.len() implies nodes_view(s)[i] == node_view(#[trigger] s[i]) by {
            if i < s.len() - 1 {
                assert(s.drop_last()[i] == s[i]);
                assert(nodes_view(s)[i] == nodes_view(s.drop_last())[i]);
            } else {
                assert(s[i] == s.last());
            }
        }
    }
}

impl View for Node {
    type V = NodeV;

    open spec fn view(&self) -> NodeV {
        node_view(*self)
    }
}

impl View for ElementNode {
    type V = ElementNodeV;

    open spec fn view(&self) -> ElementNodeV {
        ElementNodeV {
            starting_tag: self.starting_tag@,
            children: nodes_view(self.children@),
            template_scope: self.template_scope,
        }
    }
}

} // verus!
