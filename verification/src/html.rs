//! The fixed table of recognized host-markup tag names and the element-kind
//! classification derived from it.

use vstd::prelude::*;
use crate::ast::{BuiltinKind, ElementKind};
use crate::strutil::str_eq;

verus! {

/// Whether `name` is a recognized host-markup tag. A tag outside this set is
/// treated as a component.
pub open spec fn is_html_tag_spec(name: Seq<char>) -> bool {
    ||| name == "a"@
    ||| name == "area"@
    ||| name == "article"@
    ||| name == "aside"@
    ||| name == "b"@
    ||| name == "base"@
    ||| name == "body"@
    ||| name == "br"@
    ||| name == "button"@
    ||| name == "canvas"@
    ||| name == "code"@
    ||| name == "col"@
    ||| name == "div"@
    ||| name == "em"@
    ||| name == "embed"@
    ||| name == "footer"@
    ||| name == "form"@
    ||| name == "h1"@
    ||| name == "h2"@
    ||| name == "h3"@
    ||| name == "h4"@
    ||| name == "h5"@
    ||| name == "h6"@
    ||| name == "head"@
    ||| name == "header"@
    ||| name == "hr"@
    ||| name == "html"@
    ||| name == "i"@
    ||| name == "iframe"@
    ||| name == "img"@
    ||| name == "input"@
    ||| name == "label"@
    ||| name == "li"@
    ||| name == "link"@
    ||| name == "main"@
    ||| name == "meta"@
    ||| name == "nav"@
    ||| name == "ol"@
    ||| name == "option"@
    ||| name == "p"@
    ||| name == "pre"@
    ||| name == "script"@
    ||| name == "section"@
    ||| name == "select"@
    ||| name == "small"@
    ||| name == "source"@
    ||| name == "span"@
    ||| name == "strong"@
    ||| name == "style"@
    ||| name == "table"@
    ||| name == "td"@
    ||| name == "template"@
    ||| name == "textarea"@
    ||| name == "th"@
    ||| name == "title"@
    ||| name == "tr"@
    ||| name == "track"@
    ||| name == "ul"@
    ||| name == "video"@
    ||| name == "wbr"@
}

/// Exec twin of [`is_html_tag_spec`].
pub fn is_html_tag(name: &str) -> (r: bool)
    ensures
        r == is_html_tag_spec(name@),
{
    str_eq(name, "a") || str_eq(name, "area") || str_eq(name, "article") || str_eq(name, "aside")
        || str_eq(name, "b") || str_eq(name, "base") || str_eq(name, "body") || str_eq(name, "br")
        || str_eq(name, "button") || str_eq(name, "canvas") || str_eq(name, "code") || str_eq(
        name,
        "col",
    ) || str_eq(name, "div") || str_eq(name, "em") || str_eq(name, "embed") || str_eq(
        name,
        "footer",
    ) || str_eq(name, "form") || str_eq(name, "h1") || str_eq(name, "h2") || str_eq(name, "h3")
        || str_eq(name, "h4") || str_eq(name, "h5") || str_eq(name, "h6") || str_eq(name, "head")
        || str_eq(name, "header") || str_eq(name, "hr") || str_eq(name, "html") || str_eq(name, "i")
        || str_eq(name, "iframe") || str_eq(name, "img") || str_eq(name, "input") || str_eq(
        name,
        "label",
    ) || str_eq(name, "li") || str_eq(name, "link") || str_eq(name, "main") || str_eq(name, "meta")
        || str_eq(name, "nav") || str_eq(name, "ol") || str_eq(name, "option") || str_eq(name, "p")
        || str_eq(name, "pre") || str_eq(name, "script") || str_eq(name, "section") || str_eq(
        name,
        "select",
    ) || str_eq(name, "small") || str_eq(name, "source") || str_eq(name, "span") || str_eq(
        name,
        "strong",
    ) || str_eq(name, "style") || str_eq(name, "table") || str_eq(name, "td") || str_eq(
        name,
        "template",
    ) || str_eq(name, "textarea") || str_eq(name, "th") || str_eq(name, "title") || str_eq(
        name,
        "tr",
    ) || str_eq(name, "track") || str_eq(name, "ul") || str_eq(name, "video") || str_eq(name, "wbr")
}

/// Void elements: no children and no end tag expected.
pub open spec fn is_void_tag_spec(name: Seq<char>) -> bool {
    ||| name == "area"@
    ||| name == "base"@
    ||| name == "br"@
    ||| name == "col"@
    ||| name == "embed"@
    ||| name == "hr"@
    ||| name == "img"@
    ||| name == "input"@
    ||| name == "link"@
    ||| name == "meta"@
    ||| name == "source"@
    ||| name == "track"@
    ||| name == "wbr"@
}

/// Exec twin of [`is_void_tag_spec`].
pub fn is_void_tag(name: &str) -> (r: bool)
    ensures
        r == is_void_tag_spec(name@),
{
    str_eq(name, "area") || str_eq(name, "base") || str_eq(name, "br") || str_eq(name, "col")
        || str_eq(name, "embed") || str_eq(name, "hr") || str_eq(name, "img") || str_eq(
        name,
        "input",
    ) || str_eq(name, "link") || str_eq(name, "meta") || str_eq(name, "source") || str_eq(
        name,
        "track",
    ) || str_eq(name, "wbr")
}

/// How a starting tag's body is treated, classified by tag name: builtin
/// wrapper components first, then void elements, then raw-text elements.
pub open spec fn classify_element_kind_spec(name: Seq<char>) -> ElementKind {
    if name == "transition"@ {
        ElementKind::Builtin(BuiltinKind::Transition)
    } else if is_void_tag_spec(name) {
        ElementKind::Void
    } else if name == "script"@ || name == "style"@ {
        ElementKind::RawText
    } else {
        ElementKind::Normal
    }
}

/// Exec twin of [`classify_element_kind_spec`].
pub fn classify_element_kind(name: &str) -> (r: ElementKind)
    ensures
        r == classify_element_kind_spec(name@),
{
    if str_eq(name, "transition") {
        ElementKind::Builtin(BuiltinKind::Transition)
    } else if is_void_tag(name) {
        ElementKind::Void
    } else if str_eq(name, "script") || str_eq(name, "style") {
        ElementKind::RawText
    } else {
        ElementKind::Normal
    }
}

} // verus!
