//! Compilation state shared by the code emitters: the deduplicating
//! runtime-helper import registry, the deduplicating custom-directive
//! resolver registry, the indentation cursor, and the expression scope
//! resolver table.

use vstd::prelude::*;
use crate::strutil::push_char;

verus! {

/// A runtime helper that generated code may import.
#[derive(Clone, Copy, PartialEq, Eq, Structural, Debug)]
pub enum VueImport {
    CreateTextVNode,
    CreateVNode,
    ResolveDirective,
    Transition,
    VModelCheckbox,
    VModelRadio,
    VModelSelect,
    VModelText,
    VShow,
    WithCtx,
}

/// The identifier under which a runtime helper is referenced in generated code.
pub open spec fn import_ident(i: VueImport) -> Seq<char> {
    match i {
        VueImport::CreateTextVNode => "_createTextVNode"@,
        VueImport::CreateVNode => "_createVNode"@,
        VueImport::ResolveDirective => "_resolveDirective"@,
        VueImport::Transition => "_Transition"@,
        VueImport::VModelCheckbox => "_vModelCheckbox"@,
        VueImport::VModelRadio => "_vModelRadio"@,
        VueImport::VModelSelect => "_vModelSelect"@,
        VueImport::VModelText => "_vModelText"@,
        VueImport::VShow => "_vShow"@,
        VueImport::WithCtx => "_withCtx"@,
    }
}

/// One entry of the custom-directive registry: the literal directive name
/// and the resolver identifier assigned to it.
pub struct DirectiveEntry {
    pub name: String,
    pub ident: String,
}

pub struct DirectiveEntryV {
    pub name: Seq<char>,
    pub ident: Seq<char>,
}

impl View for DirectiveEntry {
    type V = DirectiveEntryV;

    open spec fn view(&self) -> DirectiveEntryV {
        DirectiveEntryV { name: self.name@, ident: self.ident@ }
    }
}

/// One entry of the scope resolver table: an expression, the scope it was
/// resolved in, and the transformed code it resolves to.
pub struct ScopeResolverEntry {
    pub expression: String,
    pub scope: u32,
    pub resolved: String,
}

pub struct ScopeResolverEntryV {
    pub expression: Seq<char>,
    pub scope: u32,
    pub resolved: Seq<char>,
}

impl View for ScopeResolverEntry {
    type V = ScopeResolverEntryV;

    open spec fn view(&self) -> ScopeResolverEntryV {
        ScopeResolverEntryV { expression: self.expression@, scope: self.scope, resolved: self.resolved@ }
    }
}

/// The expression scope resolver, modeled as a lookup table from
/// (expression, scope) to transformed code. A miss means the expression
/// passes through unchanged.
pub struct ScopeResolver {
    pub entries: Vec<ScopeResolverEntry>,
}

impl View for ScopeResolver {
    type V = Seq<ScopeResolverEntryV>;

    open spec fn view(&self) -> Seq<ScopeResolverEntryV> {
        self.entries@.map_values(|e: ScopeResolverEntry| e@)
    }
}

/// The first matching resolution for `(expr, scope)`, if any.
pub open spec fn resolve_spec(rs: Seq<ScopeResolverEntryV>, expr: Seq<char>, scope: u32) -> Option<Seq<char>>
    decreases rs,
{
    if rs.len() == 0 {
        None
    } else if rs[0].expression == expr && rs[0].scope == scope {
        Some(rs[0].resolved)
    } else {
        resolve_spec(rs.drop_first(), expr, scope)
    }
}

/// The import registry after requesting helper `i`: unchanged when `i` is
/// already present, else extended at the end.
pub open spec fn add_import(imports: Seq<VueImport>, i: VueImport) -> Seq<VueImport> {
    if imports.contains(i) {
        imports
    } else {
        imports.push(i)
    }
}

/// Two spaces per indentation level.
pub open spec fn spaces(n: nat) -> Seq<char>
    decreases n,
{
    if n == 0 {
        Seq::empty()
    } else {
        spaces((n - 1) as nat) + "  "@
    }
}

/// A line break followed by the current indentation.
pub open spec fn newline_text(ind: nat) -> Seq<char> {
    seq!['\n'] + spaces(ind)
}

/// Mutable compilation state for one template.
pub struct CodegenContext {
    pub imports: Vec<VueImport>,
    pub directives: Vec<DirectiveEntry>,
    pub indent: usize,
    pub resolver: ScopeResolver,
}

/// One character of a directive name, escaped into identifier characters:
/// `-` becomes `_d`, `_` becomes `_u`, anything else stands for itself.
/// Every escape starts with `_` and none ends with `_`, so the encoding
/// decodes unambiguously: distinct names never share an identifier.
pub open spec fn escape_char(c: char) -> Seq<char> {
    if c == '-' {
        seq!['_', 'd']
    } else if c == '_' {
        seq!['_', 'u']
    } else {
        seq![c]
    }
}

/// The canonical identifier body for a custom directive name: its
/// characters escaped in order.
pub open spec fn normalized_name(name: Seq<char>) -> Seq<char>
    decreases name,
{
    if name.len() == 0 {
        Seq::empty()
    } else {
        normalized_name(name.drop_last()) + escape_char(name.last())
    }
}

/// An escaped name is nonempty for a nonempty name and never ends in `_`.
pub proof fn lemma_normalized_last(s: Seq<char>)
    requires
        s.len() > 0,
    ensures
        normalized_name(s).len() > 0,
        normalized_name(s).last() != '_',
{
}

/// Escaping is injective: equal escaped names come from equal names.
pub proof fn lemma_normalized_injective(a: Seq<char>, b: Seq<char>)
    requires
        normalized_name(a) == normalized_name(b),
    ensures
        a == b,
    decreases a.len(),
{
    if a.len() == 0 {
        if b.len() > 0 {
            lemma_normalized_last(b);
            assert(false);
        }
        assert(a =~= b);
    } else if b.len() == 0 {
        lemma_normalized_last(a);
        assert(false);
    } else {
        let na = normalized_name(a);
        let nb = normalized_name(b);
        let ta = normalized_name(a.drop_last());
        let tb = normalized_name(b.drop_last());
        let a_special = a.last() == '-' || a.last() == '_';
        let b_special = b.last() == '-' || b.last() == '_';
        if a_special && !b_special {
            // `a` ends in a two-character escape opened by `_`; `b` ends in
            // a literal whose predecessor is never `_`.
            assert(na[na.len() - 2] == '_');
            assert(nb.len() >= 2);
            if tb.len() == 0 {
                assert(nb.len() == 1);
                assert(false);
            }
            lemma_normalized_last(b.drop_last());
            assert(nb[nb.len() - 2] == tb.last());
            assert(false);
        } else if !a_special && b_special {
            assert(nb[nb.len() - 2] == '_');
            assert(na.len() >= 2);
            if ta.len() == 0 {
                assert(na.len() == 1);
                assert(false);
            }
            lemma_normalized_last(a.drop_last());
            assert(na[na.len() - 2] == ta.last());
            assert(false);
        } else if a_special && b_special {
            assert(na[na.len() - 1] == escape_char(a.last())[1]);
            assert(nb[nb.len() - 1] == escape_char(b.last())[1]);
            assert(a.last() == b.last());
            assert(ta =~= na.subrange(0, na.len() - 2));
            assert(tb =~= nb.subrange(0, nb.len() - 2));
            lemma_normalized_injective(a.drop_last(), b.drop_last());
            assert(a =~= b) by {
                assert(forall|i: int|
                    0 <= i < a.len() - 1 ==> #[trigger] a[i] == a.drop_last()[i]);
                assert(forall|i: int|
                    0 <= i < b.len() - 1 ==> #[trigger] b[i] == b.drop_last()[i]);
            }
        } else {
            assert(a.last() == na[na.len() - 1]);
            assert(b.last() == nb[nb.len() - 1]);
            assert(ta =~= na.subrange(0, na.len() - 1));
            assert(tb =~= nb.subrange(0, nb.len() - 1));
            lemma_normalized_injective(a.drop_last(), b.drop_last());
            assert(a =~= b) by {
                assert(forall|i: int|
                    0 <= i < a.len() - 1 ==> #[trigger] a[i] == a.drop_last()[i]);
                assert(forall|i: int|
                    0 <= i < b.len() - 1 ==> #[trigger] b[i] == b.drop_last()[i]);
            }
        }
    }
}

/// The canonical resolver identifier for a custom directive name: the
/// escaped name behind a fixed prefix that avoids user collisions.
pub open spec fn directive_ident(name: Seq<char>) -> Seq<char> {
    "_directive_"@ + normalized_name(name)
}

/// Whether the directive registry already holds `name`.
pub open spec fn has_directive(dirs: Seq<DirectiveEntryV>, name: Seq<char>) -> bool {
    exists|k: int| 0 <= k < dirs.len() && dirs[k].name == name
}

/// The directive registry after requesting `name`: unchanged when `name` is
/// already present, else extended with its canonical identifier.
pub open spec fn add_directive(dirs: Seq<DirectiveEntryV>, name: Seq<char>) -> Seq<DirectiveEntryV> {
    if has_directive(dirs, name) {
        dirs
    } else {
        dirs.push(DirectiveEntryV { name, ident: directive_ident(name) })
    }
}

/// Every registry entry carries the canonical identifier for its name, and
/// names are never registered twice.
pub open spec fn directives_wf(dirs: Seq<DirectiveEntryV>) -> bool {
    &&& forall|k: int| 0 <= k < dirs.len() ==> (#[trigger] dirs[k]).ident == directive_ident(dirs[k].name)
    &&& forall|j: int, k: int| 0 <= j < k < dirs.len() ==> (#[trigger] dirs[j]).name != (#[trigger] dirs[k]).name
}

impl CodegenContext {
    /// The context invariant: the import registry holds each helper at most
    /// once, and the directive registry is canonical and duplicate-free.
    pub open spec fn wf(&self) -> bool {
        &&& forall|j: int, k: int| 0 <= j < k < self.imports@.len() ==> (#[trigger] self.imports@[j]) != (#[trigger] self.imports@[k])
        &&& directives_wf(self.directives@.map_values(|e: DirectiveEntry| e@))
    }

    pub open spec fn dirs_view(&self) -> Seq<DirectiveEntryV> {
        self.directives@.map_values(|e: DirectiveEntry| e@)
    }

    /// A fresh context with the given scope resolver table.
    pub fn new(resolver: ScopeResolver) -> (r: CodegenContext)
        ensures
            r.imports@ == Seq::<VueImport>::empty(),
            r.dirs_view() == Seq::<DirectiveEntryV>::empty(),
            r.indent == 0,
            r.resolver@ == resolver@,
            r.wf(),
    {
        let r = CodegenContext { imports: Vec::new(), directives: Vec::new(), indent: 0, resolver };
        proof {
            assert(r.dirs_view() =~= Seq::<DirectiveEntryV>::empty());
        }
        r
    }

    /// Looks a runtime helper up in the import registry, registering it on
    /// first use, and returns its identifier.
    pub fn get_and_add_import_str(&mut self, i: VueImport) -> (r: String)
        ensures
            r@ == import_ident(i),
            final(self).imports@ == add_import(old(self).imports@, i),
            final(self).directives == old(self).directives,
            final(self).indent == old(self).indent,
            final(self).resolver == old(self).resolver,
            old(self).wf() ==> final(self).wf(),
    {
        let mut found = false;
        let mut k: usize = 0;
        while k < self.imports.len()
            invariant
                0 <= k <= self.imports@.len(),
                found == exists|j: int| 0 <= j < k && self.imports@[j] == i,
            decreases self.imports@.len() - k,
        {
            if self.imports[k] == i {
                found = true;
            }
            k = k + 1;
        }
        if !found {
            assert(!self.imports@.contains(i));
            self.imports.push(i);
        } else {
            assert(self.imports@.contains(i));
        }
        import_str(i)
    }

    /// Raises the indentation level by one.
    pub fn indent(&mut self)
        requires
            old(self).indent < usize::MAX,
        ensures
            final(self).indent == old(self).indent + 1,
            final(self).imports == old(self).imports,
            final(self).directives == old(self).directives,
            final(self).resolver == old(self).resolver,
    {
        self.indent = self.indent + 1;
    }

    /// Lowers the indentation level by one.
    pub fn unindent(&mut self)
        requires
            old(self).indent > 0,
        ensures
            final(self).indent == old(self).indent - 1,
            final(self).imports == old(self).imports,
            final(self).directives == old(self).directives,
            final(self).resolver == old(self).resolver,
    {
        self.indent = self.indent - 1;
    }

    /// Emits a line break followed by the current indentation.
    pub fn newline(&self, buf: &mut String)
        ensures
            final(buf)@ == old(buf)@ + newline_text(self.indent as nat),
    {
        push_char(buf, '\n');
        let mut k: usize = 0;
        while k < self.indent
            invariant
                0 <= k <= self.indent,
                buf@ == old(buf)@ + newline_text(k as nat),
            decreases self.indent - k,
        {
            buf.append("  ");
            k = k + 1;
            proof {
                assert(buf@ =~= old(buf)@ + newline_text(k as nat));
            }
        }
    }

    /// Emits a comma followed by a line break and indentation.
    pub fn comma_newline(&self, buf: &mut String)
        ensures
            final(buf)@ == old(buf)@ + seq![','] + newline_text(self.indent as nat),
    {
        push_char(buf, ',');
        self.newline(buf);
        proof {
            assert(buf@ =~= old(buf)@ + seq![','] + newline_text(self.indent as nat));
        }
    }
}

/// The identifier of a runtime helper, as an owned string.
pub fn import_str(i: VueImport) -> (r: String)
    ensures
        r@ == import_ident(i),
{
    match i {
        VueImport::CreateTextVNode => ("_createTextVNode").to_owned(),
        VueImport::CreateVNode => ("_createVNode").to_owned(),
        VueImport::ResolveDirective => ("_resolveDirective").to_owned(),
        VueImport::Transition => ("_Transition").to_owned(),
        VueImport::VModelCheckbox => ("_vModelCheckbox").to_owned(),
        VueImport::VModelRadio => ("_vModelRadio").to_owned(),
        VueImport::VModelSelect => ("_vModelSelect").to_owned(),
        VueImport::VModelText => ("_vModelText").to_owned(),
        VueImport::VShow => ("_vShow").to_owned(),
        VueImport::WithCtx => ("_withCtx").to_owned(),
    }
}

/// The text `"s"`: the string wrapped in double quotes.
pub open spec fn quoted_text(s: Seq<char>) -> Seq<char> {
    seq!['"'] + s + seq!['"']
}

/// Emits a double-quoted string.
pub fn emit_quoted(buf: &mut String, s: &str)
    ensures
        final(buf)@ == old(buf)@ + quoted_text(s@),
{
    push_char(buf, '"');
    buf.append(s);
    push_char(buf, '"');
    proof {
        assert(buf@ =~= old(buf)@ + quoted_text(s@));
    }
}

} // verus!
