//! The markup parser: a recursive-descent reading of the template dialect,
//! producing untyped nodes. Positions index the character sequence of the
//! source; every textual payload is copied out of the source range that
//! produced it.

use vstd::prelude::*;
use crate::ast::{
    node_view, nodes_view, Attribute, AttributeV, DirectivesSummary, ElementNode, ElementNodeV,
    Node, NodeV, StartingTag, VDirective, VSlotSummary,
};
use crate::strutil::{copy_range, str_eq};

verus! {

use crate::optimizer::is_space_char;

/// A character allowed in a tag or attribute name.
pub open spec fn is_name_char(c: char) -> bool {
    ||| ('a' as u32) <= (c as u32) && (c as u32) <= ('z' as u32)
    ||| ('A' as u32) <= (c as u32) && (c as u32) <= ('Z' as u32)
    ||| ('0' as u32) <= (c as u32) && (c as u32) <= ('9' as u32)
    ||| c == '-'
    ||| c == '_'
}

/// Exec twin of [`is_name_char`].
pub fn name_char(c: char) -> (r: bool)
    ensures
        r == is_name_char(c),
{
    ('a' <= c && c <= 'z') || ('A' <= c && c <= 'Z') || ('0' <= c && c <= '9') || c == '-' || c
        == '_'
}

/// The end of the run of name characters starting at `i`.
pub open spec fn name_end(s: Seq<char>, i: int) -> int
    decreases s.len() - i,
    when 0 <= i
{
    if i >= s.len() {
        i
    } else if is_name_char(s[i]) {
        name_end(s, i + 1)
    } else {
        i
    }
}

/// The end of the run of whitespace starting at `i`.
pub open spec fn ws_end(s: Seq<char>, i: int) -> int
    decreases s.len() - i,
    when 0 <= i
{
    if i >= s.len() {
        i
    } else if is_space_char(s[i]) {
        ws_end(s, i + 1)
    } else {
        i
    }
}

/// Scans bound basic facts: a scan never moves backward nor past the end.
pub proof fn lemma_name_end_bounds(s: Seq<char>, i: int)
    requires
        0 <= i <= s.len(),
    ensures
        i <= name_end(s, i) <= s.len(),
    decreases s.len() - i,
{
    if i < s.len() && is_name_char(s[i]) {
        lemma_name_end_bounds(s, i + 1);
    }
}

pub proof fn lemma_ws_end_bounds(s: Seq<char>, i: int)
    requires
        0 <= i <= s.len(),
    ensures
        i <= ws_end(s, i) <= s.len(),
    decreases s.len() - i,
{
    if i < s.len() && is_space_char(s[i]) {
        lemma_ws_end_bounds(s, i + 1);
    }
}

/// Exec twin of [`name_end`].
pub fn scan_name_end(s: &str, i: usize) -> (r: usize)
    requires
        i <= s@.len(),
    ensures
        r == name_end(s@, i as int),
        i <= r <= s@.len(),
    decreases s@.len() - i,
{
    let n = s.unicode_len();
    if i >= n {
        i
    } else if name_char(s.get_char(i)) {
        scan_name_end(s, i + 1)
    } else {
        i
    }
}

/// Exec twin of [`ws_end`].
pub fn scan_ws_end(s: &str, i: usize) -> (r: usize)
    requires
        i <= s@.len(),
    ensures
        r == ws_end(s@, i as int),
        i <= r <= s@.len(),
    decreases s@.len() - i,
{
    let n = s.unicode_len();
    if i >= n {
        i
    } else if is_space(s.get_char(i)) {
        scan_ws_end(s, i + 1)
    } else {
        i
    }
}

/// Exec twin of [`is_space_char`].
pub fn is_space(c: char) -> (r: bool)
    ensures
        r == is_space_char(c),
{
    c == ' ' || c == '\n' || c == '\t' || c == '\r'
}

/// The first position `j >= i` where `c` occurs, if any.
pub open spec fn find1(s: Seq<char>, i: int, c: char) -> Option<int>
    decreases s.len() - i,
    when 0 <= i
{
    if i >= s.len() {
        None
    } else if s[i] == c {
        Some(i)
    } else {
        find1(s, i + 1, c)
    }
}

/// The first position `j >= i` where `c1 c2` occurs, if any.
pub open spec fn find2(s: Seq<char>, i: int, c1: char, c2: char) -> Option<int>
    decreases s.len() - i,
    when 0 <= i
{
    if i + 2 > s.len() {
        None
    } else if s[i] == c1 && s[i + 1] == c2 {
        Some(i)
    } else {
        find2(s, i + 1, c1, c2)
    }
}

/// The first position `j >= i` where `c1 c2 c3` occurs, if any.
pub open spec fn find3(s: Seq<char>, i: int, c1: char, c2: char, c3: char) -> Option<int>
    decreases s.len() - i,
    when 0 <= i
{
    if i + 3 > s.len() {
        None
    } else if s[i] == c1 && s[i + 1] == c2 && s[i + 2] == c3 {
        Some(i)
    } else {
        find3(s, i + 1, c1, c2, c3)
    }
}

pub proof fn lemma_find1_bounds(s: Seq<char>, i: int, c: char)
    requires
        0 <= i,
    ensures
        find1(s, i, c) matches Some(j) ==> i <= j && j < s.len(),
    decreases s.len() - i,
{
    if i < s.len() && s[i] != c {
        lemma_find1_bounds(s, i + 1, c);
    }
}

pub proof fn lemma_find2_bounds(s: Seq<char>, i: int, c1: char, c2: char)
    requires
        0 <= i,
    ensures
        find2(s, i, c1, c2) matches Some(j) ==> i <= j && j + 2 <= s.len(),
    decreases s.len() - i,
{
    if i + 2 <= s.len() && !(s[i] == c1 && s[i + 1] == c2) {
        lemma_find2_bounds(s, i + 1, c1, c2);
    }
}

pub proof fn lemma_find3_bounds(s: Seq<char>, i: int, c1: char, c2: char, c3: char)
    requires
        0 <= i,
    ensures
        find3(s, i, c1, c2, c3) matches Some(j) ==> i <= j && j + 3 <= s.len(),
    decreases s.len() - i,
{
    if i + 3 <= s.len() && !(s[i] == c1 && s[i + 1] == c2 && s[i + 2] == c3) {
        lemma_find3_bounds(s, i + 1, c1, c2, c3);
    }
}

/// Exec twin of [`find1`].
pub fn scan_find1(s: &str, i: usize, c: char) -> (r: Option<usize>)
    requires
        i <= s@.len(),
    ensures
        match r {
            Some(j) => find1(s@, i as int, c) == Some(j as int) && i <= j < s@.len(),
            None => find1(s@, i as int, c) is None,
        },
    decreases s@.len() - i,
{
    let n = s.unicode_len();
    if i >= n {
        None
    } else if s.get_char(i) == c {
        Some(i)
    } else {
        scan_find1(s, i + 1, c)
    }
}

/// Exec twin of [`find2`].
pub fn scan_find2(s: &str, i: usize, c1: char, c2: char) -> (r: Option<usize>)
    requires
        i <= s@.len(),
    ensures
        match r {
            Some(j) => find2(s@, i as int, c1, c2) == Some(j as int) && i <= j && j + 2 <= s@.len(),
            None => find2(s@, i as int, c1, c2) is None,
        },
    decreases s@.len() - i,
{
    let n = s.unicode_len();
    if n - i < 2 {
        None
    } else if s.get_char(i) == c1 && s.get_char(i + 1) == c2 {
        Some(i)
    } else {
        scan_find2(s, i + 1, c1, c2)
    }
}

/// Exec twin of [`find3`].
pub fn scan_find3(s: &str, i: usize, c1: char, c2: char, c3: char) -> (r: Option<usize>)
    requires
        i <= s@.len(),
    ensures
        match r {
            Some(j) => find3(s@, i as int, c1, c2, c3) == Some(j as int) && i <= j && j + 3
                <= s@.len(),
            None => find3(s@, i as int, c1, c2, c3) is None,
        },
    decreases s@.len() - i,
{
    let n = s.unicode_len();
    if n - i < 3 {
        None
    } else if s.get_char(i) == c1 && s.get_char(i + 1) == c2 && s.get_char(i + 2) == c3 {
        Some(i)
    } else {
        scan_find3(s, i + 1, c1, c2, c3)
    }
}

/// Where a text node starting at `i` ends: at the end of input, before `<`,
/// or before an interpolation opener `{{`.
pub open spec fn text_end(s: Seq<char>, i: int) -> int
    decreases s.len() - i,
    when 0 <= i
{
    if i >= s.len() {
        i
    } else if s[i] == '<' {
        i
    } else if s[i] == '{' && i + 1 < s.len() && s[i + 1] == '{' {
        i
    } else {
        text_end(s, i + 1)
    }
}

pub proof fn lemma_text_end_bounds(s: Seq<char>, i: int)
    requires
        0 <= i <= s.len(),
    ensures
        i <= text_end(s, i) <= s.len(),
    decreases s.len() - i,
{
    if i < s.len() && !(s[i] == '<') && !(s[i] == '{' && i + 1 < s.len() && s[i + 1] == '{') {
        lemma_text_end_bounds(s, i + 1);
    }
}

/// Exec twin of [`text_end`].
fn scan_text_end(s: &str, i: usize) -> (r: usize)
    requires
        i <= s@.len(),
    ensures
        r == text_end(s@, i as int),
        i <= r <= s@.len(),
    decreases s@.len() - i,
{
    let n = s.unicode_len();
    if i >= n {
        i
    } else if s.get_char(i) == '<' {
        i
    } else if s.get_char(i) == '{' && i + 1 < n && s.get_char(i + 1) == '{' {
        i
    } else {
        scan_text_end(s, i + 1)
    }
}

/// The trimmed form of `t`: without leading and trailing whitespace.
pub open spec fn trim_spec(t: Seq<char>) -> Seq<char> {
    let a = ws_end(t, 0);
    let b = rstrip(t, t.len() as int);
    if a < b {
        t.subrange(a, b)
    } else {
        Seq::empty()
    }
}

/// The end of `t` once trailing whitespace before position `i` is removed.
pub open spec fn rstrip(t: Seq<char>, i: int) -> int
    decreases i,
    when i <= t.len()
{
    if i <= 0 {
        0
    } else if is_space_char(t[i - 1]) {
        rstrip(t, i - 1)
    } else {
        i
    }
}

pub proof fn lemma_rstrip_bounds(t: Seq<char>, i: int)
    requires
        0 <= i <= t.len(),
    ensures
        0 <= rstrip(t, i) <= i,
    decreases i,
{
    if i > 0 && is_space_char(t[i - 1]) {
        lemma_rstrip_bounds(t, i - 1);
    }
}

/// Exec twin of [`rstrip`].
fn scan_rstrip(s: &str, i: usize) -> (r: usize)
    requires
        i <= s@.len(),
    ensures
        r == rstrip(s@, i as int),
        r <= i,
    decreases i,
{
    proof {
        lemma_rstrip_bounds(s@, i as int);
    }
    if i == 0 {
        0
    } else if is_space(s.get_char(i - 1)) {
        scan_rstrip(s, i - 1)
    } else {
        i
    }
}

/// Copies `s[from..to]` trimmed of surrounding whitespace.
fn copy_trimmed(s: &str, from: usize, to: usize) -> (r: String)
    requires
        from <= to <= s@.len(),
    ensures
        r@ == trim_spec(s@.subrange(from as int, to as int)),
{
    let ghost t = s@.subrange(from as int, to as int);
    // Find the trimmed bounds inside the window directly on `s`.
    let mut a: usize = from;
    while a < to && is_space(s.get_char(a))
        invariant
            from <= a <= to <= s@.len(),
            t == s@.subrange(from as int, to as int),
            t.len() == to - from,
            ws_end(t, 0) == ws_end(t, a - from),
        decreases to - a,
    {
        proof {
            assert(t[a - from] == s@[a as int]);
        }
        a = a + 1;
    }
    proof {
        if a < to {
            assert(t[a - from] == s@[a as int]);
        }
        assert(ws_end(t, a - from) == a - from);
        assert(ws_end(t, 0) == a - from);
    }
    let mut b: usize = to;
    while b > a && is_space(s.get_char(b - 1))
        invariant
            from <= a <= b <= to <= s@.len(),
            t == s@.subrange(from as int, to as int),
            t.len() == to - from,
            rstrip(t, to - from) == rstrip(t, b - from),
        decreases b,
    {
        proof {
            assert(t[b - from - 1] == s@[b - 1]);
        }
        b = b - 1;
    }
    proof {
        if b > a {
            assert(t[b - from - 1] == s@[b - 1]);
            assert(rstrip(t, b - from) == b - from);
            assert(rstrip(t, t.len() as int) == b - from);
        } else {
            lemma_rstrip_bounds(t, b - from);
            assert(rstrip(t, t.len() as int) <= b - from);
        }
    }
    let r = copy_range(s, a, b);
    proof {
        let a0 = ws_end(t, 0);
        let b0 = rstrip(t, t.len() as int);
        if a0 < b0 {
            assert(r@ =~= t.subrange(a0, b0));
        } else {
            assert(b == a);
            assert(r@ =~= Seq::<char>::empty());
        }
    }
    r
}

/// Consumes text up to the next `<` or `{{`; fails when no characters are
/// available.
fn parse_text_node(s: &str, pos: usize) -> (r: Option<(Node, usize)>)
    requires
        pos <= s@.len(),
    ensures
        match r {
            Some((n, end)) => {
                &&& pos < end <= s@.len()
                &&& end == text_end(s@, pos as int)
                &&& n@ == NodeV::Text(s@.subrange(pos as int, end as int))
            },
            None => text_end(s@, pos as int) == pos,
        },
{
    let end = scan_text_end(s, pos);
    if end == pos {
        return None;
    }
    let t = copy_range(s, pos, end);
    Some((Node::Text(t), end))
}

/// Parses `<!--` up to the first `-->`.
fn parse_comment_node(s: &str, pos: usize) -> (r: Option<(Node, usize)>)
    requires
        pos <= s@.len(),
    ensures
        match r {
            Some((n, end)) => {
                &&& comment_open_at(s@, pos as int)
                &&& find3(s@, pos as int + 4, '-', '-', '>') matches Some(j) && end == j + 3
                    && n@ == NodeV::Comment(s@.subrange(pos as int + 4, j))
                &&& pos < end <= s@.len()
            },
            None => !comment_open_at(s@, pos as int) || find3(s@, pos as int + 4, '-', '-', '>')
                is None,
        },
{
    let n = s.unicode_len();
    if !(n - pos >= 4 && s.get_char(pos) == '<' && s.get_char(pos + 1) == '!' && s.get_char(
        pos + 2,
    ) == '-' && s.get_char(pos + 3) == '-') {
        return None;
    }
    match scan_find3(s, pos + 4, '-', '-', '>') {
        None => None,
        Some(j) => {
            let c = copy_range(s, pos + 4, j);
            Some((Node::Comment(c), j + 3))
        },
    }
}

/// Whether a comment opener `<!--` sits at `i`.
pub open spec fn comment_open_at(s: Seq<char>, i: int) -> bool {
    &&& i + 4 <= s.len()
    &&& s[i] == '<'
    &&& s[i + 1] == '!'
    &&& s[i + 2] == '-'
    &&& s[i + 3] == '-'
}

/// Whether an interpolation opener `{{` sits at `i`.
pub open spec fn dexpr_open_at(s: Seq<char>, i: int) -> bool {
    &&& i + 2 <= s.len()
    &&& s[i] == '{'
    &&& s[i + 1] == '{'
}

/// Parses `{{ expression }}`: the enclosed text, trimmed, up to the first
/// following `}}`.
pub fn parse_dynamic_expression_node(s: &str, pos: usize) -> (r: Option<(Node, usize)>)
    requires
        pos <= s@.len(),
    ensures
        match r {
            Some((n, end)) => {
                &&& dexpr_open_at(s@, pos as int)
                &&& find2(s@, pos as int + 2, '}', '}') matches Some(j) && end == j + 2
                    && n@ == NodeV::DynamicExpression {
                    value: trim_spec(s@.subrange(pos as int + 2, j)),
                    template_scope: 0u32,
                } && j > pos as int + 2
                &&& pos < end <= s@.len()
            },
            None => !dexpr_open_at(s@, pos as int) || (find2(s@, pos as int + 2, '}', '}') matches
                Some(j) && j == pos as int + 2) || find2(s@, pos as int + 2, '}', '}') is None,
        },
{
    let n = s.unicode_len();
    if !(n - pos >= 2 && s.get_char(pos) == '{' && s.get_char(pos + 1) == '{') {
        return None;
    }
    match scan_find2(s, pos + 2, '}', '}') {
        None => None,
        Some(j) => {
            if j == pos + 2 {
                // The delimited content must be nonempty.
                return None;
            }
            let v = copy_trimmed(s, pos + 2, j);
            Some((Node::DynamicExpression { value: v, template_scope: 0 }, j + 2))
        },
    }
}

/// The end-tag grammar at `i`: `</`, a nonempty name, optional whitespace,
/// `>`. The name is returned with the position after `>`.
pub open spec fn etag_parse(s: Seq<char>, i: int) -> Option<(Seq<char>, int)> {
    if i + 2 > s.len() || s[i] != '<' || s[i + 1] != '/' {
        None
    } else {
        let ne = name_end(s, i + 2);
        if ne == i + 2 {
            None
        } else {
            let we = ws_end(s, ne);
            if we < s.len() && s[we] == '>' {
                Some((s.subrange(i + 2, ne), we + 1))
            } else {
                None
            }
        }
    }
}

/// Consumes an end tag, whatever its name: the caller compares the name
/// against the start tag and tolerates a mismatch.
pub fn parse_element_end_tag(s: &str, pos: usize) -> (r: Option<(String, usize)>)
    requires
        pos <= s@.len(),
    ensures
        match r {
            Some((name, end)) => etag_parse(s@, pos as int) matches Some(p) && p.0 == name@ && p.1
                == end as int && pos < end <= s@.len(),
            None => etag_parse(s@, pos as int) is None,
        },
{
    let n = s.unicode_len();
    if n - pos < 2 || s.get_char(pos) != '<' || s.get_char(pos + 1) != '/' {
        return None;
    }
    let ne = scan_name_end(s, pos + 2);
    if ne == pos + 2 {
        return None;
    }
    let we = scan_ws_end(s, ne);
    if we < n && s.get_char(we) == '>' {
        let name = copy_range(s, pos + 2, ne);
        Some((name, we + 1))
    } else {
        None
    }
}


/// A character allowed inside an attribute token: anything but whitespace,
/// `=`, `>`, `/`, `"` and `<`.
pub open spec fn is_attr_name_char(c: char) -> bool {
    !(is_space_char(c) || c == '=' || c == '>' || c == '/' || c == '"' || c == '<')
}

/// Exec twin of [`is_attr_name_char`].
fn attr_name_char(c: char) -> (r: bool)
    ensures
        r == is_attr_name_char(c),
{
    !(is_space(c) || c == '=' || c == '>' || c == '/' || c == '"' || c == '<')
}

/// The end of the run of attribute-token characters starting at `i`.
pub open spec fn attr_name_end(s: Seq<char>, i: int) -> int
    decreases s.len() - i,
    when 0 <= i
{
    if i >= s.len() {
        i
    } else if is_attr_name_char(s[i]) {
        attr_name_end(s, i + 1)
    } else {
        i
    }
}

pub proof fn lemma_attr_name_end_bounds(s: Seq<char>, i: int)
    requires
        0 <= i <= s.len(),
    ensures
        i <= attr_name_end(s, i) <= s.len(),
    decreases s.len() - i,
{
    if i < s.len() && is_attr_name_char(s[i]) {
        lemma_attr_name_end_bounds(s, i + 1);
    }
}

/// Exec twin of [`attr_name_end`].
fn scan_attr_name_end(s: &str, i: usize) -> (r: usize)
    requires
        i <= s@.len(),
    ensures
        r == attr_name_end(s@, i as int),
        i <= r <= s@.len(),
    decreases s@.len() - i,
{
    let n = s.unicode_len();
    if i >= n {
        i
    } else if attr_name_char(s.get_char(i)) {
        scan_attr_name_end(s, i + 1)
    } else {
        i
    }
}

/// The end of a directive-name or argument segment: the first `:` or `.`.
pub open spec fn seg_end(t: Seq<char>, i: int) -> int
    decreases t.len() - i,
    when 0 <= i
{
    if i >= t.len() {
        i
    } else if t[i] == ':' || t[i] == '.' {
        i
    } else {
        seg_end(t, i + 1)
    }
}

pub proof fn lemma_seg_end_bounds(t: Seq<char>, i: int)
    requires
        0 <= i <= t.len(),
    ensures
        i <= seg_end(t, i) <= t.len(),
    decreases t.len() - i,
{
    if i < t.len() && !(t[i] == ':' || t[i] == '.') {
        lemma_seg_end_bounds(t, i + 1);
    }
}

/// Exec twin of [`seg_end`].
fn scan_seg_end(t: &str, i: usize) -> (r: usize)
    requires
        i <= t@.len(),
    ensures
        r == seg_end(t@, i as int),
        i <= r <= t@.len(),
    decreases t@.len() - i,
{
    let n = t.unicode_len();
    if i >= n {
        i
    } else if t.get_char(i) == ':' || t.get_char(i) == '.' {
        i
    } else {
        scan_seg_end(t, i + 1)
    }
}

/// The modifier names from position `i` on, separated by `.`.
pub open spec fn split_mods(t: Seq<char>, i: int) -> Seq<Seq<char>>
    decreases t.len() - i,
    when 0 <= i <= t.len()
    via split_mods_dec
{
    if i >= t.len() {
        Seq::empty()
    } else {
        match find1(t, i, '.') {
            None => seq![t.subrange(i, t.len() as int)],
            Some(j) => seq![t.subrange(i, j)] + split_mods(t, j + 1),
        }
    }
}

#[via_fn]
proof fn split_mods_dec(t: Seq<char>, i: int) {
    lemma_find1_bounds(t, i, '.');
}

/// Exec twin of [`split_mods`].
fn scan_mods(t: &str, i: usize) -> (r: Vec<String>)
    requires
        i <= t@.len(),
    ensures
        r@.map_values(|m: String| m@) == split_mods(t@, i as int),
    decreases t@.len() - i,
{
    let n = t.unicode_len();
    if i >= n {
        let r: Vec<String> = Vec::new();
        proof {
            assert(r@.map_values(|m: String| m@) =~= split_mods(t@, i as int));
        }
        r
    } else {
        match scan_find1(t, i, '.') {
            None => {
                let mut r: Vec<String> = Vec::new();
                r.push(copy_range(t, i, n));
                proof {
                    assert(r@.map_values(|m: String| m@) =~= split_mods(t@, i as int));
                }
                r
            },
            Some(j) => {
                let mut r: Vec<String> = Vec::new();
                r.push(copy_range(t, i, j));
                let mut rest = scan_mods(t, j + 1);
                r.append(&mut rest);
                proof {
                    assert(r@.map_values(|m: String| m@) =~= split_mods(t@, i as int));
                }
                r
            },
        }
    }
}

/// An argument wrapped in `[` and `]` names a dynamic slot or argument.
pub open spec fn is_bracketed(t: Seq<char>) -> bool {
    t.len() >= 2 && t[0] == '[' && t[t.len() - 1] == ']'
}

pub open spec fn unbracket(t: Seq<char>) -> Seq<char> {
    if is_bracketed(t) {
        t.subrange(1, t.len() - 1)
    } else {
        t
    }
}

/// The directive built from a shorthand or explicit form: the directive
/// name, the raw argument-and-modifiers part of the token, and the value.
pub open spec fn directive_of(
    name: Seq<char>,
    rest: Seq<char>,
    value: Option<Seq<char>>,
) -> AttributeV {
    let ae = seg_end(rest, 0);
    let arg_raw = rest.subrange(0, ae);
    let mods = if ae < rest.len() && rest[ae] == '.' {
        split_mods(rest, ae + 1)
    } else {
        Seq::empty()
    };
    AttributeV::Directive(
        crate::ast::VDirectiveV {
            name: name,
            argument: unbracket(arg_raw),
            modifiers: mods,
            value: value,
            is_dynamic_slot: is_bracketed(arg_raw),
        },
    )
}

/// Classifies one attribute token: a binding, event, slot or explicit
/// directive form, or a plain attribute.
pub open spec fn classify_spec(token: Seq<char>, value: Option<Seq<char>>) -> AttributeV {
    if token.len() > 1 && token[0] == ':' {
        directive_of("bind"@, token.subrange(1, token.len() as int), value)
    } else if token.len() > 1 && token[0] == '@' {
        directive_of("on"@, token.subrange(1, token.len() as int), value)
    } else if token.len() > 1 && token[0] == '#' {
        directive_of("slot"@, token.subrange(1, token.len() as int), value)
    } else if token.len() > 2 && token[0] == 'v' && token[1] == '-' {
        let body = token.subrange(2, token.len() as int);
        let ne = seg_end(body, 0);
        let dname = body.subrange(0, ne);
        if ne < body.len() && body[ne] == ':' {
            directive_of(dname, body.subrange(ne + 1, body.len() as int), value)
        } else if ne < body.len() && body[ne] == '.' {
            directive_of(dname, body, value)
        } else {
            directive_of(dname, Seq::empty(), value)
        }
    } else {
        AttributeV::Regular {
            name: token,
            value: match value {
                Some(v) => v,
                None => Seq::empty(),
            },
        }
    }
}

/// Exec twin of [`directive_of`], building the owned attribute.
fn build_directive(name: String, rest: &str, value: Option<String>) -> (r: Attribute)
    ensures
        r@ == directive_of(
            name@,
            rest@,
            match value {
                Some(v) => Some(v@),
                None => None,
            },
        ),
{
    let ghost vv: Option<Seq<char>> = match value {
        Some(ref v) => Some(v@),
        None => None,
    };
    let rlen = rest.unicode_len();
    let ae = scan_seg_end(rest, 0);
    let mods: Vec<String> = if ae < rlen && rest.get_char(ae) == '.' {
        scan_mods(rest, ae + 1)
    } else {
        Vec::new()
    };
    let ghost arg_raw = rest@.subrange(0, ae as int);
    // Detect a bracketed (dynamic) argument.
    let dynamic = ae >= 2 && rest.get_char(0) == '[' && rest.get_char(ae - 1) == ']';
    proof {
        assert(arg_raw.len() == ae);
        if arg_raw.len() >= 2 {
            assert(arg_raw[0] == rest@[0]);
            assert(arg_raw[arg_raw.len() - 1] == rest@[ae - 1]);
        }
        assert(dynamic == is_bracketed(arg_raw));
    }
    let argument = if dynamic {
        copy_range(rest, 1, ae - 1)
    } else {
        copy_range(rest, 0, ae)
    };
    proof {
        assert(argument@ == unbracket(arg_raw));
        if mods@.len() == 0 {
            assert(mods@.map_values(|m: String| m@) =~= Seq::<Seq<char>>::empty());
        }
    }
    Attribute::Directive(
        VDirective {
            name,
            argument,
            modifiers: mods,
            value,
            is_dynamic_slot: dynamic,
        },
    )
}

/// Exec twin of [`classify_spec`].
fn classify_attribute(token: &str, value: Option<String>) -> (r: Attribute)
    ensures
        r@ == classify_spec(
            token@,
            match value {
                Some(v) => Some(v@),
                None => None,
            },
        ),
{
    let n = token.unicode_len();
    if n > 1 && token.get_char(0) == ':' {
        let rest = token.substring_char(1, n);
        build_directive(("bind").to_owned(), rest, value)
    } else if n > 1 && token.get_char(0) == '@' {
        let rest = token.substring_char(1, n);
        build_directive(("on").to_owned(), rest, value)
    } else if n > 1 && token.get_char(0) == '#' {
        let rest = token.substring_char(1, n);
        build_directive(("slot").to_owned(), rest, value)
    } else if n > 2 && token.get_char(0) == 'v' && token.get_char(1) == '-' {
        let body = token.substring_char(2, n);
        let blen = body.unicode_len();
        let ne = scan_seg_end(body, 0);
        let dname = copy_range(body, 0, ne);
        if ne < blen && body.get_char(ne) == ':' {
            let rest = body.substring_char(ne + 1, blen);
            build_directive(dname, rest, value)
        } else if ne < blen && body.get_char(ne) == '.' {
            build_directive(dname, body, value)
        } else {
            let r = build_directive(dname, "", value);
            proof {
                reveal_strlit("");
                assert(""@ =~= Seq::<char>::empty());
            }
            r
        }
    } else {
        let name = token.to_owned();
        match value {
            Some(v) => Attribute::Regular { name, value: v },
            None => Attribute::Regular { name, value: String::new() },
        }
    }
}

/// One attribute at position `i`: a token, optionally followed by
/// `="value"`. Fails on a malformed value.
pub open spec fn attr_parse(s: Seq<char>, i: int) -> Option<(AttributeV, int)> {
    let ne = attr_name_end(s, i);
    if ne == i {
        None
    } else if ne < s.len() && s[ne] == '=' {
        if ne + 1 < s.len() && s[ne + 1] == '"' {
            match find1(s, ne + 2, '"') {
                Some(q) => Some((classify_spec(s.subrange(i, ne), Some(s.subrange(ne + 2, q))), q + 1)),
                None => None,
            }
        } else {
            None
        }
    } else {
        Some((classify_spec(s.subrange(i, ne), None), ne))
    }
}

pub proof fn lemma_attr_parse_bounds(s: Seq<char>, i: int)
    requires
        0 <= i <= s.len(),
    ensures
        attr_parse(s, i) matches Some(p) ==> i < p.1 <= s.len(),
{
    lemma_attr_name_end_bounds(s, i);
    let ne = attr_name_end(s, i);
    if ne != i && ne < s.len() && s[ne] == '=' && ne + 1 < s.len() && s[ne + 1] == '"' {
        lemma_find1_bounds(s, ne + 2, '"');
    }
}

/// Exec twin of [`attr_parse`].
fn parse_one_attribute(s: &str, i: usize) -> (r: Option<(Attribute, usize)>)
    requires
        i <= s@.len(),
    ensures
        match r {
            Some((a, end)) => attr_parse(s@, i as int) matches Some(p) && p.0 == a@ && p.1
                == end as int && i < end <= s@.len(),
            None => attr_parse(s@, i as int) is None,
        },
{
    proof {
        lemma_attr_parse_bounds(s@, i as int);
    }
    let n = s.unicode_len();
    let ne = scan_attr_name_end(s, i);
    if ne == i {
        return None;
    }
    if ne < n && s.get_char(ne) == '=' {
        if ne + 1 < n && s.get_char(ne + 1) == '"' {
            match scan_find1(s, ne + 2, '"') {
                Some(q) => {
                    let token = copy_range(s, i, ne);
                    let value = copy_range(s, ne + 2, q);
                    let a = classify_attribute(token.as_str(), Some(value));
                    Some((a, q + 1))
                },
                None => None,
            }
        } else {
            None
        }
    } else {
        let token = copy_range(s, i, ne);
        let a = classify_attribute(token.as_str(), None);
        Some((a, ne))
    }
}

/// The attribute list at `i`: whitespace-separated attributes, stopping
/// before `>`, `/`, the end of input, or a token that is no attribute.
pub open spec fn attrs_parse(s: Seq<char>, i: int) -> (Seq<AttributeV>, int)
    decreases s.len() - i,
    when 0 <= i <= s.len()
    via attrs_parse_dec
{
    let w = ws_end(s, i);
    if w >= s.len() || s[w] == '>' || s[w] == '/' {
        (Seq::empty(), w)
    } else {
        match attr_parse(s, w) {
            None => (Seq::empty(), w),
            Some((a, j)) => {
                let rest = attrs_parse(s, j);
                (seq![a] + rest.0, rest.1)
            },
        }
    }
}

#[via_fn]
proof fn attrs_parse_dec(s: Seq<char>, i: int) {
    lemma_ws_end_bounds(s, i);
    lemma_attr_parse_bounds(s, ws_end(s, i));
}

pub proof fn lemma_attrs_parse_bounds(s: Seq<char>, i: int)
    requires
        0 <= i <= s.len(),
    ensures
        i <= attrs_parse(s, i).1 <= s.len(),
    decreases s.len() - i,
{
    lemma_ws_end_bounds(s, i);
    let w = ws_end(s, i);
    if !(w >= s.len() || s[w] == '>' || s[w] == '/') {
        lemma_attr_parse_bounds(s, w);
        match attr_parse(s, w) {
            None => {},
            Some((a, j)) => {
                lemma_attrs_parse_bounds(s, j);
            },
        }
    }
}

/// Exec twin of [`attrs_parse`].
fn parse_attributes(s: &str, i: usize) -> (r: (Vec<Attribute>, usize))
    requires
        i <= s@.len(),
    ensures
        r.0@.map_values(|a: Attribute| a@) == attrs_parse(s@, i as int).0,
        r.1 as int == attrs_parse(s@, i as int).1,
        i <= r.1 <= s@.len(),
    decreases s@.len() - i,
{
    proof {
        lemma_attrs_parse_bounds(s@, i as int);
    }
    let n = s.unicode_len();
    let w = scan_ws_end(s, i);
    if w >= n || s.get_char(w) == '>' || s.get_char(w) == '/' {
        let r: Vec<Attribute> = Vec::new();
        proof {
            assert(r@.map_values(|a: Attribute| a@) =~= attrs_parse(s@, i as int).0);
        }
        (r, w)
    } else {
        match parse_one_attribute(s, w) {
            None => {
                let r: Vec<Attribute> = Vec::new();
                proof {
                    assert(r@.map_values(|a: Attribute| a@) =~= attrs_parse(s@, i as int).0);
                }
                (r, w)
            },
            Some((a, j)) => {
                let (mut rest, end) = parse_attributes(s, j);
                let mut r: Vec<Attribute> = Vec::new();
                r.push(a);
                r.append(&mut rest);
                proof {
                    assert(r@.map_values(|x: Attribute| x@) =~= attrs_parse(s@, i as int).0);
                }
                (r, end)
            },
        }
    }
}

/// The first slot directive among the attributes, as a slot summary.
pub open spec fn vslot_of(attrs: Seq<AttributeV>) -> Option<crate::ast::VSlotSummaryV>
    decreases attrs,
{
    if attrs.len() == 0 {
        None
    } else {
        match attrs[0] {
            AttributeV::Directive(d) => if d.name == "slot"@ {
                Some(
                    crate::ast::VSlotSummaryV {
                        slot_name: if d.argument.len() == 0 {
                            None
                        } else {
                            Some(d.argument)
                        },
                        is_dynamic_slot: d.is_dynamic_slot,
                    },
                )
            } else {
                vslot_of(attrs.drop_first())
            },
            _ => vslot_of(attrs.drop_first()),
        }
    }
}

/// The parsed-directives summary derived from the attribute list.
pub open spec fn summary_of(attrs: Seq<AttributeV>) -> Option<crate::ast::DirectivesSummaryV> {
    match vslot_of(attrs) {
        None => None,
        Some(v) => Some(crate::ast::DirectivesSummaryV { v_slot: Some(v) }),
    }
}

/// Exec twin of [`vslot_of`] and [`summary_of`].
fn summarize_directives(attrs: &Vec<Attribute>) -> (r: Option<DirectivesSummary>)
    ensures
        match r {
            Some(ds) => summary_of(attrs@.map_values(|a: Attribute| a@)) == Some(ds@),
            None => summary_of(attrs@.map_values(|a: Attribute| a@)) is None,
        },
{
    let ghost av = attrs@.map_values(|a: Attribute| a@);
    let n = attrs.len();
    let mut k: usize = 0;
    proof {
        assert(av.skip(0) =~= av);
    }
    while k < n
        invariant
            0 <= k <= n == attrs@.len(),
            av == attrs@.map_values(|a: Attribute| a@),
            vslot_of(av) == vslot_of(av.skip(k as int)),
        decreases n - k,
    {
        proof {
            assert(av.skip(k as int)[0] == av[k as int]);
            assert(av.skip(k as int).drop_first() =~= av.skip(k as int + 1));
        }
        match &attrs[k] {
            Attribute::Directive(d) => {
                if str_eq(d.name.as_str(), "slot") {
                    let slot_name = if d.argument.as_str().is_empty() {
                        None
                    } else {
                        Some(d.argument.clone())
                    };
                    return Some(
                        DirectivesSummary {
                            v_slot: Some(
                                VSlotSummary { slot_name, is_dynamic_slot: d.is_dynamic_slot },
                            ),
                        },
                    );
                }
            },
            _ => {},
        }
        k = k + 1;
    }
    proof {
        assert(av.skip(n as int) =~= Seq::<AttributeV>::empty());
    }
    None
}

/// The starting-tag grammar at `pos`: `<`, a nonempty tag name, attributes,
/// then `>` or `/>`.
pub open spec fn stag_parse(s: Seq<char>, pos: int) -> Option<(crate::ast::StartingTagV, int)> {
    if pos >= s.len() || s[pos] != '<' {
        None
    } else {
        let ne = name_end(s, pos + 1);
        if ne == pos + 1 {
            None
        } else {
            let tag_name = s.subrange(pos + 1, ne);
            let ap = attrs_parse(s, ne);
            let p = ap.1;
            if p < s.len() && s[p] == '>' {
                Some((stag_value(tag_name, ap.0, false), p + 1))
            } else if p + 1 < s.len() && s[p] == '/' && s[p + 1] == '>' {
                Some((stag_value(tag_name, ap.0, true), p + 2))
            } else {
                None
            }
        }
    }
}

pub open spec fn stag_value(
    tag_name: Seq<char>,
    attrs: Seq<AttributeV>,
    self_closing: bool,
) -> crate::ast::StartingTagV {
    crate::ast::StartingTagV {
        tag_name: tag_name,
        attributes: attrs,
        directives: summary_of(attrs),
        is_self_closing: self_closing,
        kind: crate::html::classify_element_kind_spec(tag_name),
    }
}

pub proof fn lemma_stag_parse_bounds(s: Seq<char>, pos: int)
    requires
        0 <= pos <= s.len(),
    ensures
        stag_parse(s, pos) matches Some(p) ==> pos + 3 <= p.1 <= s.len(),
{
    if pos < s.len() && s[pos] == '<' {
        lemma_name_end_bounds(s, pos + 1);
        let ne = name_end(s, pos + 1);
        if ne != pos + 1 {
            lemma_attrs_parse_bounds(s, ne);
        }
    }
}

/// Parses a starting tag: `<`, a tag name, attributes, optional
/// whitespace, then `>` or `/>`.
pub fn parse_element_starting_tag(s: &str, pos: usize) -> (r: Option<(StartingTag, usize)>)
    requires
        pos <= s@.len(),
    ensures
        match r {
            Some((t, end)) => stag_parse(s@, pos as int) matches Some(p) && p.0 == t@ && p.1
                == end as int && pos < end <= s@.len(),
            None => stag_parse(s@, pos as int) is None,
        },
{
    proof {
        lemma_stag_parse_bounds(s@, pos as int);
    }
    let n = s.unicode_len();
    if pos >= n || s.get_char(pos) != '<' {
        return None;
    }
    let ne = scan_name_end(s, pos + 1);
    if ne == pos + 1 {
        return None;
    }
    let tag_name = copy_range(s, pos + 1, ne);
    let (attributes, p) = parse_attributes(s, ne);
    let self_closing: bool;
    let end: usize;
    if p < n && s.get_char(p) == '>' {
        self_closing = false;
        end = p + 1;
    } else if n - p >= 2 && s.get_char(p) == '/' && s.get_char(p + 1) == '>' {
        self_closing = true;
        end = p + 2;
    } else {
        return None;
    }
    let directives = summarize_directives(&attributes);
    let kind = crate::html::classify_element_kind(tag_name.as_str());
    let tag = StartingTag { tag_name, attributes, directives, is_self_closing: self_closing, kind };
    proof {
        assert(tag@ == stag_parse(s@, pos as int)->Some_0.0);
    }
    Some((tag, end))
}



/// A diagnostic recorded when an end tag does not match its start tag:
/// a non-fatal condition, parsing proceeds with the children collected.
#[derive(PartialEq, Debug)]
pub struct TagMismatch {
    pub expected: String,
    pub found: String,
}

pub struct TagMismatchV {
    pub expected: Seq<char>,
    pub found: Seq<char>,
}

impl View for TagMismatch {
    type V = TagMismatchV;

    open spec fn view(&self) -> TagMismatchV {
        TagMismatchV { expected: self.expected@, found: self.found@ }
    }
}

/// Where the node `n`, parsed at `pos`, ends. For an element this follows
/// the grammar through its starting tag, its children and its end tag.
pub open spec fn node_end(s: Seq<char>, pos: int, n: NodeV) -> int
    decreases n,
{
    match n {
        NodeV::Text(t) => pos + t.len(),
        NodeV::Comment(c) => pos + 4 + c.len() + 3,
        NodeV::DynamicExpression { value, template_scope } => match find2(s, pos + 2, '}', '}') {
            Some(j) => j + 2,
            None => pos,
        },
        NodeV::Element(el) => match stag_parse(s, pos) {
            None => pos,
            Some(p) => if p.0.is_self_closing || p.0.kind is Void {
                p.1
            } else {
                let pc = kids_end(s, p.1, el.children);
                match etag_parse(s, pc) {
                    Some(q) => q.1,
                    None => pc,
                }
            },
        },
    }
}

/// Where a chain of children starting at `p` ends.
pub open spec fn kids_end(s: Seq<char>, p: int, kids: Seq<NodeV>) -> int
    decreases kids,
{
    if kids.len() == 0 {
        p
    } else {
        kids_end(s, node_end(s, p, kids[0]), kids.drop_first())
    }
}

/// `n` is a faithful parse of `s[pos..end]` under the node grammar: leaves
/// are exact and maximal, an element's children tile the range between its
/// starting tag and its end tag, and the end tag's name is free (the
/// mismatch is tolerated and reported apart).
pub open spec fn node_parses(s: Seq<char>, pos: int, n: NodeV, end: int) -> bool
    decreases n,
{
    match n {
        NodeV::Text(t) => {
            &&& 0 <= pos < end
            &&& end == text_end(s, pos)
            &&& t == s.subrange(pos, end)
        },
        NodeV::Comment(c) => {
            &&& comment_open_at(s, pos)
            &&& match find3(s, pos + 4, '-', '-', '>') {
                Some(j) => c == s.subrange(pos + 4, j) && end == j + 3,
                None => false,
            }
        },
        NodeV::DynamicExpression { value, template_scope } => {
            &&& dexpr_open_at(s, pos)
            &&& match find2(s, pos + 2, '}', '}') {
                Some(j) => j > pos + 2 && value == trim_spec(s.subrange(pos + 2, j)) && end == j
                    + 2,
                None => false,
            }
            &&& template_scope == 0
        },
        NodeV::Element(el) => {
            &&& el.template_scope == 0
            &&& match stag_parse(s, pos) {
                None => false,
                Some(p) => {
                    &&& el.starting_tag == p.0
                    &&& if p.0.is_self_closing || p.0.kind is Void {
                        el.children.len() == 0 && end == p.1
                    } else {
                        &&& children_chain(s, p.1, el.children, kids_end(s, p.1, el.children))
                        &&& match etag_parse(s, kids_end(s, p.1, el.children)) {
                            Some(q) => end == q.1,
                            None => false,
                        }
                    }
                },
            }
        },
    }
}

/// The children tile `s[p..end]`: each child parses exactly where the
/// previous one ended.
pub open spec fn children_chain(s: Seq<char>, p: int, kids: Seq<NodeV>, end: int) -> bool
    decreases kids,
{
    if kids.len() == 0 {
        p == end
    } else {
        &&& node_parses(s, p, kids[0], node_end(s, p, kids[0]))
        &&& children_chain(s, node_end(s, p, kids[0]), kids.drop_first(), end)
    }
}

/// A chain determines where it ends.
pub proof fn lemma_chain_end(s: Seq<char>, p: int, kids: Seq<NodeV>, end: int)
    requires
        children_chain(s, p, kids, end),
    ensures
        kids_end(s, p, kids) == end,
    decreases kids,
{
    if kids.len() > 0 {
        lemma_chain_end(s, node_end(s, p, kids[0]), kids.drop_first(), end);
    }
}

/// Extending a chain by one child that parses at its end.
pub proof fn lemma_chain_snoc(s: Seq<char>, p: int, kids: Seq<NodeV>, mid: int, k: NodeV, end: int)
    requires
        children_chain(s, p, kids, mid),
        node_parses(s, mid, k, end),
        node_end(s, mid, k) == end,
    ensures
        children_chain(s, p, kids.push(k), end),
    decreases kids,
{
    if kids.len() == 0 {
        assert(kids.push(k)[0] == k);
        assert(kids.push(k).drop_first() =~= Seq::<NodeV>::empty());
        assert(node_parses(s, p, k, node_end(s, p, k)));
        assert(children_chain(s, node_end(s, p, k), kids.push(k).drop_first(), end));
        assert(children_chain(s, p, kids.push(k), end));
    } else {
        lemma_chain_snoc(s, node_end(s, p, kids[0]), kids.drop_first(), mid, k, end);
        assert(kids.push(k)[0] == kids[0]);
        assert(kids.push(k).drop_first() =~= kids.drop_first().push(k));
        assert(children_chain(s, node_end(s, p, kids[0]), kids.push(k).drop_first(), end));
        assert(children_chain(s, p, kids.push(k), end));
    }
}

/// No template node parses at `q`: the condition under which the children
/// loop stops.
pub open spec fn no_node_at(s: Seq<char>, q: int) -> bool {
    forall|n: NodeV, e: int| !node_parses(s, q, n, e)
}

/// A parsed node covers a nonempty range inside the input.
proof fn lemma_node_parses_bounds(s: Seq<char>, p: int, n: NodeV, e: int)
    requires
        0 <= p <= s.len(),
        node_parses(s, p, n, e),
    ensures
        p < e <= s.len(),
    decreases n,
{
    match n {
        NodeV::Text(t) => {
            lemma_text_end_bounds(s, p);
        },
        NodeV::Comment(c) => {
            lemma_find3_bounds(s, p + 4, '-', '-', '>');
        },
        NodeV::DynamicExpression { value, template_scope } => {
            lemma_find2_bounds(s, p + 2, '}', '}');
        },
        NodeV::Element(el) => {
            lemma_stag_parse_bounds(s, p);
            let st = stag_parse(s, p)->Some_0;
            if !(st.0.is_self_closing || st.0.kind is Void) {
                let pce = kids_end(s, st.1, el.children);
                lemma_chain_bounds(s, st.1, el.children, pce);
                lemma_name_end_bounds(s, pce + 2);
                lemma_ws_end_bounds(s, name_end(s, pce + 2));
            }
        },
    }
}

/// A chain of children never moves backward nor past the end.
proof fn lemma_chain_bounds(s: Seq<char>, p: int, kids: Seq<NodeV>, e: int)
    requires
        0 <= p <= s.len(),
        children_chain(s, p, kids, e),
    ensures
        p <= e <= s.len(),
    decreases kids,
{
    if kids.len() > 0 {
        lemma_node_parses_bounds(s, p, kids[0], node_end(s, p, kids[0]));
        lemma_chain_bounds(s, node_end(s, p, kids[0]), kids.drop_first(), e);
    }
}

/// Where an end tag stands, no child node parses: every node form is
/// excluded by the leading `</`.
pub proof fn lemma_etag_excludes_nodes(s: Seq<char>, q: int)
    requires
        0 <= q,
        etag_parse(s, q) is Some,
    ensures
        no_node_at(s, q),
{
    assert forall|n: NodeV, e: int| !node_parses(s, q, n, e) by {
        if node_parses(s, q, n, e) {
            assert(q + 2 <= s.len() && s[q] == '<' && s[q + 1] == '/');
            match n {
                NodeV::Text(t) => {
                    assert(text_end(s, q) == q);
                },
                NodeV::Comment(c) => {
                    assert(s[q + 1] == '!');
                },
                NodeV::DynamicExpression { value, template_scope } => {
                    assert(s[q] == '{');
                },
                NodeV::Element(el) => {
                    assert(stag_parse(s, q) is Some);
                    assert(!is_name_char('/'));
                    assert(name_end(s, q + 1) == q + 1);
                },
            }
            assert(false);
        }
    }
}

/// The leading-character facts each node form forces at its position.
proof fn lemma_kind_chars(s: Seq<char>, p: int, n: NodeV, e: int)
    requires
        0 <= p,
        node_parses(s, p, n, e),
    ensures
        n is Text ==> p < s.len() && s[p] != '<' && !(s[p] == '{' && p + 1 < s.len() && s[p + 1]
            == '{'),
        n is Comment ==> p + 2 <= s.len() && s[p] == '<' && s[p + 1] == '!',
        n is DynamicExpression ==> p + 2 <= s.len() && s[p] == '{' && s[p + 1] == '{',
        n is Element ==> p + 2 <= s.len() && s[p] == '<' && is_name_char(s[p + 1]),
{
    match n {
        NodeV::Text(t) => {
        },
        NodeV::Comment(c) => {
        },
        NodeV::DynamicExpression { value, template_scope } => {
        },
        NodeV::Element(el) => {
            assert(stag_parse(s, p) is Some);
            if p + 1 >= s.len() {
                assert(name_end(s, p + 1) == p + 1);
                assert(false);
            }
            if !is_name_char(s[p + 1]) {
                assert(name_end(s, p + 1) == p + 1);
                assert(false);
            }
        },
    }
}

/// Which node form parses at a position is decided by its leading
/// characters, so two parses at one position share their form.
proof fn lemma_kind_determined(s: Seq<char>, p: int, n1: NodeV, e1: int, n2: NodeV, e2: int)
    requires
        0 <= p,
        node_parses(s, p, n1, e1),
        node_parses(s, p, n2, e2),
    ensures
        n1 is Text ==> n2 is Text,
        n1 is Comment ==> n2 is Comment,
        n1 is DynamicExpression ==> n2 is DynamicExpression,
        n1 is Element ==> n2 is Element,
{
    lemma_kind_chars(s, p, n1, e1);
    lemma_kind_chars(s, p, n2, e2);
    assert(!is_name_char('!'));
}

/// The grammar is deterministic: at one position, at most one node parses,
/// and it determines where it ends.
pub proof fn lemma_node_parses_unique(s: Seq<char>, p: int, n1: NodeV, e1: int, n2: NodeV, e2: int)
    requires
        0 <= p <= s.len(),
        node_parses(s, p, n1, e1),
        node_parses(s, p, n2, e2),
    ensures
        n1 == n2,
        e1 == e2,
    decreases n1,
{
    lemma_kind_determined(s, p, n1, e1, n2, e2);
    match n1 {
        NodeV::Text(t1) => {
            match n2 {
                NodeV::Text(t2) => {
                    assert(t1 == t2 && e1 == e2);
                },
                _ => {
                    assert(false);
                },
            }
        },
        NodeV::Comment(c1) => {
            match n2 {
                NodeV::Comment(c2) => {
                    assert(c1 == c2 && e1 == e2);
                },
                _ => {
                    assert(false);
                },
            }
        },
        NodeV::DynamicExpression { value: v1, template_scope: ts1 } => {
            match n2 {
                NodeV::DynamicExpression { value: v2, template_scope: ts2 } => {
                    assert(v1 == v2 && ts1 == ts2 && e1 == e2);
                },
                _ => {
                    assert(false);
                },
            }
        },
        NodeV::Element(el1) => {
            match n2 {
                NodeV::Element(el2) => {
                    lemma_stag_parse_bounds(s, p);
                    let st = stag_parse(s, p)->Some_0;
                    if st.0.is_self_closing || st.0.kind is Void {
                        assert(el1.children =~= el2.children);
                        assert(el1 == el2);
                    } else {
                        let pce1 = kids_end(s, st.1, el1.children);
                        let pce2 = kids_end(s, st.1, el2.children);
                        lemma_chain_bounds(s, st.1, el1.children, pce1);
                        lemma_chain_bounds(s, st.1, el2.children, pce2);
                        lemma_etag_excludes_nodes(s, pce1);
                        lemma_etag_excludes_nodes(s, pce2);
                        lemma_chain_unique(s, st.1, el1.children, pce1, el2.children, pce2);
                        assert(el1 == el2);
                    }
                },
                _ => {
                    assert(false);
                },
            }
        },
    }
}

/// Two chains from one position that both stop where nothing parses are
/// the same chain.
pub proof fn lemma_chain_unique(
    s: Seq<char>,
    p: int,
    kids1: Seq<NodeV>,
    end1: int,
    kids2: Seq<NodeV>,
    end2: int,
)
    requires
        0 <= p <= s.len(),
        children_chain(s, p, kids1, end1),
        no_node_at(s, end1),
        children_chain(s, p, kids2, end2),
        no_node_at(s, end2),
    ensures
        kids1 == kids2,
        end1 == end2,
    decreases kids1,
{
    if kids1.len() == 0 {
        if kids2.len() > 0 {
            assert(node_parses(s, p, kids2[0], node_end(s, p, kids2[0])));
            assert(false);
        }
    } else if kids2.len() == 0 {
        assert(node_parses(s, p, kids1[0], node_end(s, p, kids1[0])));
        assert(false);
    } else {
        lemma_node_parses_unique(
            s,
            p,
            kids1[0],
            node_end(s, p, kids1[0]),
            kids2[0],
            node_end(s, p, kids2[0]),
        );
        lemma_node_parses_bounds(s, p, kids1[0], node_end(s, p, kids1[0]));
        lemma_chain_unique(
            s,
            node_end(s, p, kids1[0]),
            kids1.drop_first(),
            end1,
            kids2.drop_first(),
            end2,
        );
        assert forall|i: int| 0 <= i < kids1.len() implies kids1[i] == kids2[i] by {
            if i > 0 {
                assert(kids1.drop_first()[i - 1] == kids1[i]);
                assert(kids2.drop_first()[i - 1] == kids2[i]);
            }
        }
        assert(kids1 =~= kids2);
    }
}

/// The view of a diagnostics list.
pub open spec fn diags_view(v: Seq<TagMismatch>) -> Seq<TagMismatchV> {
    v.map_values(|d: TagMismatch| d@)
}

/// The mismatch diagnostics recorded for one parsed node, in traversal
/// order: the children's first, then the node's own record exactly when
/// its end-tag name differs from its tag name.
pub open spec fn node_mismatches(s: Seq<char>, pos: int, n: NodeV) -> Seq<TagMismatchV>
    decreases n,
{
    match n {
        NodeV::Element(el) => match stag_parse(s, pos) {
            None => Seq::empty(),
            Some(p) => if p.0.is_self_closing || p.0.kind is Void {
                Seq::empty()
            } else {
                chain_mismatches(s, p.1, el.children) + (match etag_parse(
                    s,
                    kids_end(s, p.1, el.children),
                ) {
                    Some(q) => if q.0 != p.0.tag_name {
                        seq![TagMismatchV { expected: p.0.tag_name, found: q.0 }]
                    } else {
                        Seq::empty()
                    },
                    None => Seq::empty(),
                })
            },
        },
        _ => Seq::empty(),
    }
}

/// The mismatch diagnostics of a chain of children, in order.
pub open spec fn chain_mismatches(s: Seq<char>, p: int, kids: Seq<NodeV>) -> Seq<TagMismatchV>
    decreases kids,
{
    if kids.len() == 0 {
        Seq::empty()
    } else {
        node_mismatches(s, p, kids[0]) + chain_mismatches(
            s,
            node_end(s, p, kids[0]),
            kids.drop_first(),
        )
    }
}

/// Extending a chain appends the new child's diagnostics at the end.
pub proof fn lemma_mismatches_snoc(s: Seq<char>, p: int, kids: Seq<NodeV>, mid: int, k: NodeV)
    requires
        children_chain(s, p, kids, mid),
    ensures
        chain_mismatches(s, p, kids.push(k)) == chain_mismatches(s, p, kids) + node_mismatches(
            s,
            mid,
            k,
        ),
    decreases kids,
{
    if kids.len() == 0 {
        assert(kids.push(k)[0] == k);
        assert(kids.push(k).drop_first() =~= Seq::<NodeV>::empty());
        assert(p == mid);
        assert(chain_mismatches(s, p, kids) =~= Seq::<TagMismatchV>::empty());
        assert(chain_mismatches(s, node_end(s, p, k), kids.push(k).drop_first())
            =~= Seq::<TagMismatchV>::empty());
        assert(chain_mismatches(s, p, kids.push(k)) =~= node_mismatches(s, p, k)
            + Seq::<TagMismatchV>::empty());
        assert(chain_mismatches(s, p, kids.push(k)) =~= chain_mismatches(s, p, kids)
            + node_mismatches(s, mid, k));
    } else {
        lemma_mismatches_snoc(s, node_end(s, p, kids[0]), kids.drop_first(), mid, k);
        assert(kids.push(k)[0] == kids[0]);
        assert(kids.push(k).drop_first() =~= kids.drop_first().push(k));
        assert(chain_mismatches(s, p, kids.push(k)) == node_mismatches(s, p, kids[0])
            + chain_mismatches(s, node_end(s, p, kids[0]), kids.drop_first().push(k)));
        assert(chain_mismatches(s, node_end(s, p, kids[0]), kids.drop_first().push(k))
            == chain_mismatches(s, node_end(s, p, kids[0]), kids.drop_first()) + node_mismatches(
            s,
            mid,
            k,
        ));
        assert(chain_mismatches(s, p, kids) == node_mismatches(s, p, kids[0])
            + chain_mismatches(s, node_end(s, p, kids[0]), kids.drop_first()));
        vstd::seq_lib::lemma_concat_associative(
            node_mismatches(s, p, kids[0]),
            chain_mismatches(s, node_end(s, p, kids[0]), kids.drop_first()),
            node_mismatches(s, mid, k),
        );
        assert(chain_mismatches(s, p, kids.push(k)) =~= chain_mismatches(s, p, kids)
            + node_mismatches(s, mid, k));
    }
}

/// Parses one element: a starting tag, then (unless void or self-closing)
/// children and an end tag. An end tag whose name differs from the start
/// tag is consumed and recorded as a diagnostic.
pub fn parse_element_node(s: &str, pos: usize, diags: &mut Vec<TagMismatch>) -> (r: Option<
    (Node, usize),
>)
    requires
        pos <= s@.len(),
    ensures
        final(diags)@.len() >= old(diags)@.len(),
        final(diags)@.subrange(0, old(diags)@.len() as int) == old(diags)@,
        match r {
            Some((n, end)) => {
                &&& node_parses(s@, pos as int, n@, end as int)
                &&& node_end(s@, pos as int, n@) == end
                &&& n@ is Element
                &&& pos < end <= s@.len()
                &&& diags_view(final(diags)@) == diags_view(old(diags)@) + node_mismatches(
                    s@,
                    pos as int,
                    n@,
                )
            },
            None => final(diags)@ == old(diags)@,
        },
        stag_parse(s@, pos as int) is None ==> r is None,
        (stag_parse(s@, pos as int) matches Some(p) && (p.0.is_self_closing || p.0.kind is Void))
            ==> r is Some,
        (exists|el: ElementNodeV, end: int|
            node_parses(s@, pos as int, NodeV::Element(el), end)) ==> r is Some,
    decreases s@.len() - pos, 0int,
{
    let ghost diags0 = diags@;
    let d0 = diags.len();
    let tag_end = match parse_element_starting_tag(s, pos) {
        None => {
            proof {
                assert(diags@.subrange(0, diags0.len() as int) =~= diags0);
                assert forall|el: ElementNodeV, end: int|
                    !node_parses(s@, pos as int, NodeV::Element(el), end) by {
                    if node_parses(s@, pos as int, NodeV::Element(el), end) {
                        assert(stag_parse(s@, pos as int) is Some);
                    }
                }
            }
            return None;
        },
        Some(te) => te,
    };
    let (starting_tag, p1) = tag_end;
    let is_void = match starting_tag.kind {
        crate::ast::ElementKind::Void => true,
        _ => false,
    };
    if is_void || starting_tag.is_self_closing {
        let empty_children: Vec<Node> = Vec::new();
        proof {
            assert(nodes_view(empty_children@) =~= Seq::<NodeV>::empty());
        }
        let node = Node::Element(
            ElementNode { starting_tag, children: empty_children, template_scope: 0 },
        );
        proof {
            assert(diags@.subrange(0, diags0.len() as int) =~= diags0);
            assert(node_parses(s@, pos as int, node@, p1 as int));
            assert(node_mismatches(s@, pos as int, node@) =~= Seq::<TagMismatchV>::empty());
            assert(diags_view(diags@) =~= diags_view(diags0) + node_mismatches(
                s@,
                pos as int,
                node@,
            ));
        }
        return Some((node, p1));
    }
    let (children, pc) = parse_node_children(s, p1, diags);
    let ghost kv = nodes_view(children@);
    let etag = match parse_element_end_tag(s, pc) {
        None => {
            proof {
                assert(diags@.subrange(0, diags0.len() as int) =~= diags0) by {
                    assert(forall|j: int|
                        0 <= j < diags0.len() ==> diags@[j] == diags0[j]);
                }
                // No element can parse here: any witness would share the
                // starting tag and its children chain, so the failing end
                // tag would have to parse after all.
                assert forall|el: ElementNodeV, end: int|
                    !node_parses(s@, pos as int, NodeV::Element(el), end) by {
                    if node_parses(s@, pos as int, NodeV::Element(el), end) {
                        let st = stag_parse(s@, pos as int)->Some_0;
                        let pce = kids_end(s@, st.1, el.children);
                        lemma_chain_bounds(s@, st.1, el.children, pce);
                        lemma_etag_excludes_nodes(s@, pce);
                        lemma_chain_unique(s@, st.1, el.children, pce, kv, pc as int);
                        assert(etag_parse(s@, pc as int) is Some);
                        assert(false);
                    }
                }
            }
            // Drop the diagnostics of this abandoned attempt: only parses
            // that yield a node report their mismatches.
            diags.truncate(d0);
            proof {
                assert(diags@ =~= diags0);
            }
            return None;
        },
        Some(e) => e,
    };
    let (end_name, e) = etag;
    let ghost en = end_name@;
    let ghost dmid = diags@;
    if !str_eq(end_name.as_str(), starting_tag.tag_name.as_str()) {
        let ghost dpre = diags@;
        diags.push(TagMismatch { expected: starting_tag.tag_name.clone(), found: end_name });
        proof {
            assert(diags@.subrange(0, diags0.len() as int) =~= diags0) by {
                assert(forall|j: int| 0 <= j < diags0.len() ==> diags@[j] == dpre[j]);
                assert(forall|j: int| 0 <= j < diags0.len() ==> dpre[j] == diags0[j]);
            }
            assert(diags_view(diags@) =~= diags_view(dmid).push(
                TagMismatchV { expected: starting_tag.tag_name@, found: en },
            ));
        }
    } else {
        proof {
            assert(diags@.subrange(0, diags0.len() as int) =~= diags0) by {
                assert(forall|j: int| 0 <= j < diags0.len() ==> diags@[j] == diags0[j]);
            }
        }
    }
    let node = Node::Element(ElementNode { starting_tag, children, template_scope: 0 });
    proof {
        lemma_chain_end(s@, p1 as int, kv, pc as int);
        assert(node_parses(s@, pos as int, node@, e as int));
        assert(node_end(s@, pos as int, node@) == e);
        assert(diags_view(diags@) =~= diags_view(diags0) + node_mismatches(s@, pos as int, node@));
    }
    Some((node, e))
}

/// Parses children by repeatedly attempting, in priority order: a dynamic
/// expression, a comment, an element, a text node. Stops, without error,
/// when none applies.
pub fn parse_node_children(s: &str, pos: usize, diags: &mut Vec<TagMismatch>) -> (r: (
    Vec<Node>,
    usize,
))
    requires
        pos <= s@.len(),
    ensures
        final(diags)@.len() >= old(diags)@.len(),
        final(diags)@.subrange(0, old(diags)@.len() as int) == old(diags)@,
        children_chain(s@, pos as int, nodes_view(r.0@), r.1 as int),
        kids_end(s@, pos as int, nodes_view(r.0@)) == r.1,
        no_node_at(s@, r.1 as int),
        diags_view(final(diags)@) == diags_view(old(diags)@) + chain_mismatches(
            s@,
            pos as int,
            nodes_view(r.0@),
        ),
        pos <= r.1 <= s@.len(),
    decreases s@.len() - pos, 1int,
{
    let ghost diags0 = diags@;
    let mut kids: Vec<Node> = Vec::new();
    let mut cur: usize = pos;
    proof {
        assert(nodes_view(kids@) =~= Seq::<NodeV>::empty());
        assert(chain_mismatches(s@, pos as int, nodes_view(kids@)) =~= Seq::<
            TagMismatchV,
        >::empty());
        assert(diags_view(diags@) =~= diags_view(diags0) + chain_mismatches(
            s@,
            pos as int,
            nodes_view(kids@),
        ));
    }
    loop
        invariant
            pos <= cur <= s@.len(),
            children_chain(s@, pos as int, nodes_view(kids@), cur as int),
            kids_end(s@, pos as int, nodes_view(kids@)) == cur,
            diags@.len() >= diags0.len(),
            diags@.subrange(0, diags0.len() as int) == diags0,
            diags_view(diags@) == diags_view(diags0) + chain_mismatches(
                s@,
                pos as int,
                nodes_view(kids@),
            ),
        ensures
            pos <= cur <= s@.len(),
            children_chain(s@, pos as int, nodes_view(kids@), cur as int),
            kids_end(s@, pos as int, nodes_view(kids@)) == cur,
            diags@.len() >= diags0.len(),
            diags@.subrange(0, diags0.len() as int) == diags0,
            no_node_at(s@, cur as int),
            diags_view(diags@) == diags_view(diags0) + chain_mismatches(
                s@,
                pos as int,
                nodes_view(kids@),
            ),
        decreases s@.len() - cur,
    {
        let ghost kv = nodes_view(kids@);
        let ghost dpre = diags@;
        let step: Option<(Node, usize)> = match parse_dynamic_expression_node(s, cur) {
            Some(ne) => Some(ne),
            None => match parse_comment_node(s, cur) {
                Some(ne) => Some(ne),
                None => match parse_element_node(s, cur, diags) {
                    Some(ne) => Some(ne),
                    None => parse_text_node(s, cur),
                },
            },
        };
        proof {
            assert(diags@.subrange(0, diags0.len() as int) =~= diags0) by {
                assert(forall|j: int| 0 <= j < dpre.len() ==> diags@[j] == dpre[j]);
                assert(forall|j: int| 0 <= j < diags0.len() ==> dpre[j] == diags0[j]);
            }
        }
        match step {
            None => {
                // All four alternatives failed: nothing parses here.
                proof {
                    assert forall|n: NodeV, e: int| !node_parses(s@, cur as int, n, e) by {
                        if node_parses(s@, cur as int, n, e) {
                            match n {
                                NodeV::Text(t) => {
                                    assert(text_end(s@, cur as int) == cur);
                                },
                                NodeV::Comment(c) => {
                                },
                                NodeV::DynamicExpression { value, template_scope } => {
                                },
                                NodeV::Element(el) => {
                                    assert(node_parses(
                                        s@,
                                        cur as int,
                                        NodeV::Element(el),
                                        e,
                                    ));
                                },
                            }
                            assert(false);
                        }
                    }
                }
                break ;
            },
            Some((n, end)) => {
                proof {
                    assert(node_parses(s@, cur as int, n@, end as int));
                    assert(node_end(s@, cur as int, n@) == end) by {
                        match n@ {
                            NodeV::Text(t) => {
                                assert(t.len() == end - cur);
                            },
                            NodeV::Comment(c) => {
                                lemma_find3_bounds(s@, cur as int + 4, '-', '-', '>');
                                match find3(s@, cur as int + 4, '-', '-', '>') {
                                    Some(j) => {
                                        assert(c.len() == j - (cur + 4));
                                    },
                                    None => {},
                                }
                            },
                            _ => {},
                        }
                    }
                    lemma_chain_snoc(s@, pos as int, kv, cur as int, n@, end as int);
                    assert(diags_view(diags@) =~= diags_view(dpre) + node_mismatches(
                        s@,
                        cur as int,
                        n@,
                    )) by {
                        if !(n@ is Element) {
                            assert(node_mismatches(s@, cur as int, n@) =~= Seq::<
                                TagMismatchV,
                            >::empty());
                            assert(diags@ == dpre);
                        }
                    }
                }
                let ghost kids_pre = kids@;
                kids.push(n);
                proof {
                    assert(nodes_view(kids@).drop_last() =~= nodes_view(kids@.drop_last()));
                    assert(kids@.drop_last() =~= kids_pre);
                    assert(nodes_view(kids@) =~= kv.push(node_view(kids@[kids@.len() - 1])));
                    lemma_chain_end(s@, pos as int, nodes_view(kids@), end as int);
                    lemma_mismatches_snoc(s@, pos as int, kv, cur as int, n@);
                    vstd::seq_lib::lemma_concat_associative(
                        diags_view(diags0),
                        chain_mismatches(s@, pos as int, kv),
                        node_mismatches(s@, cur as int, n@),
                    );
                    assert(diags_view(diags@) =~= diags_view(diags0) + chain_mismatches(
                        s@,
                        pos as int,
                        nodes_view(kids@),
                    ));
                }
                cur = end;
            },
        }
    }
    (kids, cur)
}

/// A root block parse: leading whitespace is skipped, then a starting tag,
/// children and an end tag are read; void and self-closing early exits do
/// not apply at the root level.
pub open spec fn root_parses(s: Seq<char>, pos: int, n: NodeV, end: int) -> bool {
    let w = ws_end(s, pos);
    match n {
        NodeV::Element(el) => {
            &&& el.template_scope == 0
            &&& match stag_parse(s, w) {
                None => false,
                Some(p) => {
                    &&& el.starting_tag == p.0
                    &&& children_chain(s, p.1, el.children, kids_end(s, p.1, el.children))
                    &&& match etag_parse(s, kids_end(s, p.1, el.children)) {
                        Some(q) => end == q.1,
                        None => false,
                    }
                },
            }
        },
        _ => false,
    }
}

/// Where a root block parsed at `pos` ends.
pub open spec fn root_end(s: Seq<char>, pos: int, n: NodeV) -> int {
    let w = ws_end(s, pos);
    match n {
        NodeV::Element(el) => match stag_parse(s, w) {
            None => pos,
            Some(p) => {
                let pc = kids_end(s, p.1, el.children);
                match etag_parse(s, pc) {
                    Some(q) => q.1,
                    None => pos,
                }
            },
        },
        _ => pos,
    }
}

/// Parses one top-level block: leading whitespace, a starting tag, the
/// block's children, and an end tag, tolerating an end-tag name mismatch.
pub fn parse_root_block(s: &str, pos: usize, diags: &mut Vec<TagMismatch>) -> (r: Option<
    (Node, usize),
>)
    requires
        pos <= s@.len(),
    ensures
        final(diags)@.len() >= old(diags)@.len(),
        final(diags)@.subrange(0, old(diags)@.len() as int) == old(diags)@,
        match r {
            Some((n, end)) => {
                &&& root_parses(s@, pos as int, n@, end as int)
                &&& root_end(s@, pos as int, n@) == end
                &&& pos < end <= s@.len()
                &&& diags_view(final(diags)@) == diags_view(old(diags)@) + root_mismatches(
                    s@,
                    pos as int,
                    n@,
                )
            },
            None => final(diags)@ == old(diags)@,
        },
        stag_parse(s@, ws_end(s@, pos as int)) is None ==> r is None,
        (exists|n: NodeV, end: int| root_parses(s@, pos as int, n, end)) ==> r is Some,
{
    let ghost diags0 = diags@;
    let d0 = diags.len();
    let w = scan_ws_end(s, pos);
    let tag_end = match parse_element_starting_tag(s, w) {
        None => {
            proof {
                assert(diags@.subrange(0, diags0.len() as int) =~= diags0);
                assert forall|n: NodeV, end: int| !root_parses(s@, pos as int, n, end) by {
                    if root_parses(s@, pos as int, n, end) {
                        match n {
                            NodeV::Element(el) => {
                                assert(stag_parse(s@, ws_end(s@, pos as int)) is Some);
                            },
                            _ => {},
                        }
                        assert(false);
                    }
                }
            }
            return None;
        },
        Some(te) => te,
    };
    let (starting_tag, p1) = tag_end;
    let (children, pc) = parse_node_children(s, p1, diags);
    let ghost kv = nodes_view(children@);
    let etag = match parse_element_end_tag(s, pc) {
        None => {
            proof {
                assert(diags@.subrange(0, diags0.len() as int) =~= diags0) by {
                    assert(forall|j: int| 0 <= j < diags0.len() ==> diags@[j] == diags0[j]);
                }
                // No root block can parse here: a witness would share the
                // starting tag and children chain, so this end tag would
                // have to parse.
                assert forall|n: NodeV, end: int| !root_parses(s@, pos as int, n, end) by {
                    if root_parses(s@, pos as int, n, end) {
                        match n {
                            NodeV::Element(el) => {
                                let st = stag_parse(s@, ws_end(s@, pos as int))->Some_0;
                                let pce = kids_end(s@, st.1, el.children);
                                lemma_chain_bounds(s@, st.1, el.children, pce);
                                lemma_etag_excludes_nodes(s@, pce);
                                lemma_chain_unique(s@, st.1, el.children, pce, kv, pc as int);
                                assert(etag_parse(s@, pc as int) is Some);
                            },
                            _ => {},
                        }
                        assert(false);
                    }
                }
            }
            // Drop the diagnostics of this abandoned attempt: only parses
            // that yield a node report their mismatches.
            diags.truncate(d0);
            proof {
                assert(diags@ =~= diags0);
            }
            return None;
        },
        Some(e) => e,
    };
    let (end_name, e) = etag;
    let ghost en = end_name@;
    let ghost dmid = diags@;
    if !str_eq(end_name.as_str(), starting_tag.tag_name.as_str()) {
        let ghost dpre = diags@;
        diags.push(TagMismatch { expected: starting_tag.tag_name.clone(), found: end_name });
        proof {
            assert(diags@.subrange(0, diags0.len() as int) =~= diags0) by {
                assert(forall|j: int| 0 <= j < diags0.len() ==> diags@[j] == dpre[j]);
                assert(forall|j: int| 0 <= j < diags0.len() ==> dpre[j] == diags0[j]);
            }
            assert(diags_view(diags@) =~= diags_view(dmid).push(
                TagMismatchV { expected: starting_tag.tag_name@, found: en },
            ));
        }
    } else {
        proof {
            assert(diags@.subrange(0, diags0.len() as int) =~= diags0) by {
                assert(forall|j: int| 0 <= j < diags0.len() ==> diags@[j] == diags0[j]);
            }
        }
    }
    let node = Node::Element(ElementNode { starting_tag, children, template_scope: 0 });
    proof {
        lemma_chain_end(s@, p1 as int, kv, pc as int);
        assert(root_parses(s@, pos as int, node@, e as int));
        assert(root_end(s@, pos as int, node@) == e);
        assert(diags_view(diags@) =~= diags_view(diags0) + root_mismatches(s@, pos as int, node@));
    }
    Some((node, e))
}

/// The root blocks tile `s[p..end]`.
pub open spec fn roots_chain(s: Seq<char>, p: int, roots: Seq<NodeV>, end: int) -> bool
    decreases roots,
{
    if roots.len() == 0 {
        p == end
    } else {
        &&& root_parses(s, p, roots[0], root_end(s, p, roots[0]))
        &&& roots_chain(s, root_end(s, p, roots[0]), roots.drop_first(), end)
    }
}

pub proof fn lemma_roots_snoc(
    s: Seq<char>,
    p: int,
    roots: Seq<NodeV>,
    mid: int,
    k: NodeV,
    end: int,
)
    requires
        roots_chain(s, p, roots, mid),
        root_parses(s, mid, k, end),
        root_end(s, mid, k) == end,
    ensures
        roots_chain(s, p, roots.push(k), end),
    decreases roots,
{
    if roots.len() == 0 {
        assert(roots.push(k)[0] == k);
        assert(roots.push(k).drop_first() =~= Seq::<NodeV>::empty());
        assert(root_parses(s, p, k, root_end(s, p, k)));
        assert(roots_chain(s, root_end(s, p, k), roots.push(k).drop_first(), end));
        assert(roots_chain(s, p, roots.push(k), end));
    } else {
        lemma_roots_snoc(s, root_end(s, p, roots[0]), roots.drop_first(), mid, k, end);
        assert(roots.push(k)[0] == roots[0]);
        assert(roots.push(k).drop_first() =~= roots.drop_first().push(k));
        assert(roots_chain(s, root_end(s, p, roots[0]), roots.push(k).drop_first(), end));
        assert(roots_chain(s, p, roots.push(k), end));
    }
}

/// The mismatch diagnostics of one root block: the children's, then the
/// block's own record exactly when its end-tag name differs.
pub open spec fn root_mismatches(s: Seq<char>, pos: int, n: NodeV) -> Seq<TagMismatchV> {
    match n {
        NodeV::Element(el) => match stag_parse(s, ws_end(s, pos)) {
            None => Seq::empty(),
            Some(p) => chain_mismatches(s, p.1, el.children) + (match etag_parse(
                s,
                kids_end(s, p.1, el.children),
            ) {
                Some(q) => if q.0 != p.0.tag_name {
                    seq![TagMismatchV { expected: p.0.tag_name, found: q.0 }]
                } else {
                    Seq::empty()
                },
                None => Seq::empty(),
            }),
        },
        _ => Seq::empty(),
    }
}

/// The mismatch diagnostics of a sequence of root blocks, in order.
pub open spec fn sfc_mismatches(s: Seq<char>, p: int, roots: Seq<NodeV>) -> Seq<TagMismatchV>
    decreases roots,
{
    if roots.len() == 0 {
        Seq::empty()
    } else {
        root_mismatches(s, p, roots[0]) + sfc_mismatches(
            s,
            root_end(s, p, roots[0]),
            roots.drop_first(),
        )
    }
}

pub proof fn lemma_sfc_mismatches_snoc(s: Seq<char>, p: int, roots: Seq<NodeV>, mid: int, k: NodeV)
    requires
        roots_chain(s, p, roots, mid),
    ensures
        sfc_mismatches(s, p, roots.push(k)) == sfc_mismatches(s, p, roots) + root_mismatches(
            s,
            mid,
            k,
        ),
    decreases roots,
{
    if roots.len() == 0 {
        assert(roots.push(k)[0] == k);
        assert(roots.push(k).drop_first() =~= Seq::<NodeV>::empty());
        assert(p == mid);
        assert(sfc_mismatches(s, p, roots) =~= Seq::<TagMismatchV>::empty());
        assert(sfc_mismatches(s, root_end(s, p, k), roots.push(k).drop_first())
            =~= Seq::<TagMismatchV>::empty());
        assert(sfc_mismatches(s, p, roots.push(k)) =~= root_mismatches(s, p, k)
            + Seq::<TagMismatchV>::empty());
        assert(sfc_mismatches(s, p, roots.push(k)) =~= sfc_mismatches(s, p, roots)
            + root_mismatches(s, mid, k));
    } else {
        lemma_sfc_mismatches_snoc(s, root_end(s, p, roots[0]), roots.drop_first(), mid, k);
        assert(roots.push(k)[0] == roots[0]);
        assert(roots.push(k).drop_first() =~= roots.drop_first().push(k));
        assert(sfc_mismatches(s, p, roots.push(k)) == root_mismatches(s, p, roots[0])
            + sfc_mismatches(s, root_end(s, p, roots[0]), roots.drop_first().push(k)));
        assert(sfc_mismatches(s, root_end(s, p, roots[0]), roots.drop_first().push(k))
            == sfc_mismatches(s, root_end(s, p, roots[0]), roots.drop_first()) + root_mismatches(
            s,
            mid,
            k,
        ));
        assert(sfc_mismatches(s, p, roots) == root_mismatches(s, p, roots[0])
            + sfc_mismatches(s, root_end(s, p, roots[0]), roots.drop_first()));
        vstd::seq_lib::lemma_concat_associative(
            root_mismatches(s, p, roots[0]),
            sfc_mismatches(s, root_end(s, p, roots[0]), roots.drop_first()),
            root_mismatches(s, mid, k),
        );
        assert(sfc_mismatches(s, p, roots.push(k)) =~= sfc_mismatches(s, p, roots)
            + root_mismatches(s, mid, k));
    }
}

/// Parses a whole single-file component: every top-level block in turn.
/// The blocks tile the input from the start up to the returned position;
/// on fully successful parses only trailing content remains. End-tag name
/// mismatches are tolerated and returned as diagnostics.
pub fn parse_sfc(s: &str) -> (r: (Vec<Node>, usize, Vec<TagMismatch>))
    ensures
        roots_chain(s@, 0, nodes_view(r.0@), r.1 as int),
        forall|n: NodeV, end: int| !root_parses(s@, r.1 as int, n, end),
        diags_view(r.2@) == sfc_mismatches(s@, 0, nodes_view(r.0@)),
        r.1 <= s@.len(),
{
    let mut diags: Vec<TagMismatch> = Vec::new();
    let mut roots: Vec<Node> = Vec::new();
    let mut cur: usize = 0;
    proof {
        assert(nodes_view(roots@) =~= Seq::<NodeV>::empty());
        assert(diags_view(diags@) =~= sfc_mismatches(s@, 0, nodes_view(roots@)));
    }
    loop
        invariant
            cur <= s@.len(),
            roots_chain(s@, 0, nodes_view(roots@), cur as int),
            diags_view(diags@) == sfc_mismatches(s@, 0, nodes_view(roots@)),
        ensures
            cur <= s@.len(),
            roots_chain(s@, 0, nodes_view(roots@), cur as int),
            forall|n: NodeV, end: int| !root_parses(s@, cur as int, n, end),
            diags_view(diags@) == sfc_mismatches(s@, 0, nodes_view(roots@)),
        decreases s@.len() - cur,
    {
        let ghost rv = nodes_view(roots@);
        let ghost dpre = diags@;
        match parse_root_block(s, cur, &mut diags) {
            None => {
                proof {
                    assert forall|n: NodeV, end: int| !root_parses(s@, cur as int, n, end) by {
                        if root_parses(s@, cur as int, n, end) {
                            assert(exists|n2: NodeV, e2: int| root_parses(s@, cur as int, n2, e2));
                            assert(false);
                        }
                    }
                }
                break ;
            },
            Some((n, end)) => {
                proof {
                    lemma_roots_snoc(s@, 0, rv, cur as int, n@, end as int);
                }
                let ghost roots_pre = roots@;
                roots.push(n);
                proof {
                    assert(nodes_view(roots@).drop_last() =~= nodes_view(roots@.drop_last()));
                    assert(roots@.drop_last() =~= roots_pre);
                    assert(nodes_view(roots@) =~= rv.push(node_view(roots@[roots@.len() - 1])));
                    lemma_sfc_mismatches_snoc(s@, 0, rv, cur as int, n@);
                    assert(diags_view(diags@) =~= sfc_mismatches(s@, 0, nodes_view(roots@)));
                }
                cur = end;
            },
        }
    }
    (roots, cur, diags)
}


} // verus!
