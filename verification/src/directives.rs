//! Directive code generation: translating an element's directive attributes
//! into runtime-compatible descriptor arrays, and declaring the custom
//! directive resolvers collected during a compilation.

use vstd::prelude::*;
use crate::ast::{Attribute, AttributeV, StartingTag, StartingTagV, VDirectiveV};
use crate::context::{
    add_directive, add_import, directive_ident, has_directive, import_ident, newline_text, normalized_name,
    quoted_text, resolve_spec, CodegenContext, DirectiveEntry, DirectiveEntryV, ScopeResolver,
    ScopeResolverEntryV, VueImport,
};
use crate::strutil::{push_char, str_eq};

verus! {

/// A fatal code generation failure.
#[derive(Clone, Copy, PartialEq, Eq, Structural, Debug)]
pub enum CodegenError {
    /// A `model` directive sits on a native element that is none of
    /// `input`, `select` or `textarea`.
    UnsupportedModelTarget,
}

/// The fixed allow/deny policy for attaching a directive at runtime:
/// structural directives and plain binding/event forms are compiled away and
/// never attached, and `model` is attachable only on native elements.
pub open spec fn supports_with_directive_spec(name: Seq<char>, is_component: bool) -> bool {
    if name == "if"@ || name == "else-if"@ || name == "else"@ || name == "for"@ || name == "slot"@
        || name == "on"@ || name == "bind"@ {
        false
    } else if name == "model"@ {
        !is_component
    } else {
        true
    }
}

/// Exec twin of [`supports_with_directive_spec`].
pub fn supports_with_directive(name: &str, is_component: bool) -> (r: bool)
    ensures
        r == supports_with_directive_spec(name@, is_component),
{
    if str_eq(name, "if") || str_eq(name, "else-if") || str_eq(name, "else") || str_eq(name, "for")
        || str_eq(name, "slot") || str_eq(name, "on") || str_eq(name, "bind") {
        false
    } else if str_eq(name, "model") {
        !is_component
    } else {
        true
    }
}

/// The value of the first plain `type` attribute, defaulting to `text`.
pub open spec fn input_type_of(attrs: Seq<AttributeV>) -> Seq<char>
    decreases attrs,
{
    if attrs.len() == 0 {
        "text"@
    } else {
        match attrs[0] {
            AttributeV::Regular { name, value } => if name == "type"@ {
                value
            } else {
                input_type_of(attrs.drop_first())
            },
            _ => input_type_of(attrs.drop_first()),
        }
    }
}

/// The model-binding runtime helper for a native element, chosen by tag name
/// and, for `input`, by its `type` attribute. `None` marks an unsupported
/// model target.
pub open spec fn vmodel_import(tag: StartingTagV) -> Option<VueImport> {
    if tag.tag_name == "input"@ {
        if input_type_of(tag.attributes) == "checkbox"@ {
            Some(VueImport::VModelCheckbox)
        } else if input_type_of(tag.attributes) == "radio"@ {
            Some(VueImport::VModelRadio)
        } else {
            Some(VueImport::VModelText)
        }
    } else if tag.tag_name == "textarea"@ {
        Some(VueImport::VModelText)
    } else if tag.tag_name == "select"@ {
        Some(VueImport::VModelSelect)
    } else {
        None
    }
}

impl CodegenContext {
    /// Resolves the model-binding helper for a native element and registers
    /// its import; fails fast on an unsupported model target.
    pub fn get_vmodel_directive_name(&mut self, starting_tag: &StartingTag) -> (r: Result<
        String,
        CodegenError,
    >)
        ensures
            match vmodel_import(starting_tag@) {
                Some(i) => {
                    &&& r matches Ok(s) && s@ == import_ident(i)
                    &&& final(self).imports@ == add_import(old(self).imports@, i)
                    &&& final(self).directives == old(self).directives
                    &&& final(self).indent == old(self).indent
                    &&& final(self).resolver == old(self).resolver
                },
                None => {
                    &&& r matches Err(e) && e == CodegenError::UnsupportedModelTarget
                    &&& *final(self) == *old(self)
                },
            },
            old(self).wf() ==> final(self).wf(),
    {
        if str_eq(starting_tag.tag_name.as_str(), "input") {
            let t = input_type_attr(&starting_tag.attributes);
            proof {
                assert(starting_tag@.attributes == starting_tag.attributes@.map_values(
                    |a: Attribute| a@,
                ));
            }
            if str_eq(t.as_str(), "checkbox") {
                Ok(self.get_and_add_import_str(VueImport::VModelCheckbox))
            } else if str_eq(t.as_str(), "radio") {
                Ok(self.get_and_add_import_str(VueImport::VModelRadio))
            } else {
                Ok(self.get_and_add_import_str(VueImport::VModelText))
            }
        } else if str_eq(starting_tag.tag_name.as_str(), "textarea") {
            Ok(self.get_and_add_import_str(VueImport::VModelText))
        } else if str_eq(starting_tag.tag_name.as_str(), "select") {
            Ok(self.get_and_add_import_str(VueImport::VModelSelect))
        } else {
            Err(CodegenError::UnsupportedModelTarget)
        }
    }

    /// Looks a custom directive up in the resolver registry, registering it
    /// with its canonical identifier on first use, and writes the identifier.
    pub fn add_to_directives_and_write(&mut self, buf: &mut String, directive_name: &str)
        requires
            old(self).wf(),
        ensures
            final(buf)@ == old(buf)@ + directive_ident(directive_name@),
            final(self).dirs_view() == add_directive(old(self).dirs_view(), directive_name@),
            final(self).imports == old(self).imports,
            final(self).indent == old(self).indent,
            final(self).resolver == old(self).resolver,
            final(self).wf(),
    {
        let ghost dirs0 = self.dirs_view();
        let n = self.directives.len();
        let mut k: usize = 0;
        while k < n
            invariant
                0 <= k <= n == self.directives@.len(),
                forall|j: int| 0 <= j < k ==> (#[trigger] self.dirs_view()[j]).name != directive_name@,
                self.wf(),
                self == old(self),
                buf@ == old(buf)@,
            decreases n - k,
        {
            if str_eq(self.directives[k].name.as_str(), directive_name) {
                let id = self.directives[k].ident.clone();
                buf.append(id.as_str());
                proof {
                    assert(self.dirs_view()[k as int] == self.directives@[k as int]@);
                    assert(self.dirs_view()[k as int].name == directive_name@);
                    assert(self.dirs_view()[k as int].ident == directive_ident(
                        self.dirs_view()[k as int].name,
                    ));
                    assert(has_directive(self.dirs_view(), directive_name@));
                    assert(buf@ =~= old(buf)@ + directive_ident(directive_name@));
                }
                return ;
            }
            k = k + 1;
        }
        assert(!has_directive(dirs0, directive_name@));
        // Build the canonical identifier: the prefix plus the name with
        // each character escaped.
        let mut ident = ("_directive_").to_owned();
        let len = directive_name.unicode_len();
        let mut i: usize = 0;
        while i < len
            invariant
                0 <= i <= len == directive_name@.len(),
                ident@ == "_directive_"@ + crate::context::normalized_name(
                    directive_name@.subrange(0, i as int),
                ),
            decreases len - i,
        {
            let c = directive_name.get_char(i);
            if c == '-' {
                push_char(&mut ident, '_');
                push_char(&mut ident, 'd');
            } else if c == '_' {
                push_char(&mut ident, '_');
                push_char(&mut ident, 'u');
            } else {
                push_char(&mut ident, c);
            }
            i = i + 1;
            proof {
                assert(directive_name@.subrange(0, i as int).drop_last() =~= directive_name@.subrange(
                    0,
                    i as int - 1,
                ));
                assert(directive_name@.subrange(0, i as int).last() == directive_name@[i as int
                    - 1]);
                assert(ident@ =~= "_directive_"@ + crate::context::normalized_name(
                    directive_name@.subrange(0, i as int),
                ));
            }
        }
        proof {
            assert(directive_name@.subrange(0, directive_name@.len() as int) =~= directive_name@);
            assert(ident@ == directive_ident(directive_name@));
        }
        buf.append(ident.as_str());
        let entry = DirectiveEntry { name: directive_name.to_owned(), ident };
        self.directives.push(entry);
        proof {
            assert(self.dirs_view() =~= add_directive(dirs0, directive_name@));
            assert(buf@ =~= old(buf)@ + directive_ident(directive_name@));
            assert forall|j: int, k2: int|
                0 <= j < k2 < self.dirs_view().len() implies (#[trigger] self.dirs_view()[j]).name
                != (#[trigger] self.dirs_view()[k2]).name by {
                if k2 == self.dirs_view().len() - 1 {
                    assert(!has_directive(dirs0, directive_name@));
                    assert(dirs0[j].name != directive_name@);
                }
            }
        }
    }
}

/// The value of the first plain `type` attribute, defaulting to `text`.
fn input_type_attr(attrs: &Vec<Attribute>) -> (r: String)
    ensures
        r@ == input_type_of(attrs@.map_values(|a: Attribute| a@)),
{
    let ghost av = attrs@.map_values(|a: Attribute| a@);
    let n = attrs.len();
    let mut k: usize = 0;
    proof {
        assert(av.skip(0) =~= av);
    }
    while k < n
        invariant
            0 <= k <= n == attrs@.len(),
            av == attrs@.map_values(|a: Attribute| a@),
            input_type_of(av) == input_type_of(av.skip(k as int)),
        decreases n - k,
    {
        proof {
            assert(av.skip(k as int)[0] == av[k as int]);
            assert(av.skip(k as int).drop_first() =~= av.skip(k as int + 1));
        }
        match &attrs[k] {
            Attribute::Regular { name, value } => {
                if str_eq(name.as_str(), "type") {
                    return value.clone();
                }
            },
            _ => {},
        }
        k = k + 1;
    }
    proof {
        assert(av.skip(n as int) =~= Seq::<AttributeV>::empty());
    }
    ("text").to_owned()
}


/// An attribute that is a `model` directive on a native element with an
/// unsupported model target: the one fatal code generation condition.
pub open spec fn attr_invalid_model(a: AttributeV, tag: StartingTagV, is_component: bool) -> bool {
    &&& a matches AttributeV::Directive(d) && d.name == "model"@
    &&& !is_component
    &&& vmodel_import(tag) is None
}

pub open spec fn has_invalid_model(attrs: Seq<AttributeV>, tag: StartingTagV, is_component: bool) -> bool {
    exists|k: int| 0 <= k < attrs.len() && attr_invalid_model(#[trigger] attrs[k], tag, is_component)
}

/// The identifier written for one applicable directive: the model-binding
/// helper, the show helper, or the custom directive resolver identifier.
#[verifier::opaque]
pub open spec fn directive_ident_text(d: VDirectiveV, tag: StartingTagV, is_component: bool) -> Seq<char> {
    if d.name == "model"@ && !is_component {
        import_ident(vmodel_import(tag)->Some_0)
    } else if d.name == "show"@ {
        import_ident(VueImport::VShow)
    } else {
        directive_ident(d.name)
    }
}

/// A directive's bound expression after scope resolution: the transformed
/// code when the resolver has an entry, else the expression unchanged.
pub open spec fn directive_value_text(v: Seq<char>, scope: u32, rs: Seq<ScopeResolverEntryV>) -> Seq<char> {
    match resolve_spec(rs, v, scope) {
        Some(t) => t,
        None => v,
    }
}

/// The entries of a modifiers object, `name: true` joined by `, `.
pub open spec fn mods_obj_entries(mods: Seq<Seq<char>>) -> Seq<char>
    decreases mods,
{
    if mods.len() == 0 {
        Seq::empty()
    } else if mods.len() == 1 {
        mods[0] + ": true"@
    } else {
        mods_obj_entries(mods.drop_last()) + ", "@ + mods.last() + ": true"@
    }
}

/// The object literal mapping each modifier name to `true`.
pub open spec fn mods_obj_text(mods: Seq<Seq<char>>) -> Seq<char> {
    "{ "@ + mods_obj_entries(mods) + " }"@
}

/// The leading line break and opening bracket of one descriptor.
#[verifier::opaque]
pub open spec fn item_head_text(ham: bool, ind: nat) -> Seq<char> {
    newline_text(ind + 1) + seq!['['] + (if ham {
        newline_text(ind + 2)
    } else {
        Seq::empty()
    })
}

/// The value slot of one descriptor: the resolved expression, a `void 0`
/// placeholder when an argument or modifiers follow, or nothing at all.
#[verifier::opaque]
pub open spec fn item_value_text(
    d: VDirectiveV,
    ham: bool,
    scope: u32,
    rs: Seq<ScopeResolverEntryV>,
    ind: nat,
) -> Seq<char> {
    match d.value {
        Some(v) => (if ham {
            seq![','] + newline_text(ind + 2)
        } else {
            ", "@
        }) + directive_value_text(v, scope, rs),
        None => if ham {
            seq![','] + newline_text(ind + 2) + "void 0"@
        } else {
            Seq::empty()
        },
    }
}

/// The argument slot of one descriptor: the quoted argument or a `void 0`
/// placeholder, present only when an argument or modifiers exist.
#[verifier::opaque]
pub open spec fn item_arg_text(d: VDirectiveV, ham: bool, ind: nat) -> Seq<char> {
    if ham {
        seq![','] + newline_text(ind + 2) + (if d.argument.len() > 0 {
            quoted_text(d.argument)
        } else {
            "void 0"@
        })
    } else {
        Seq::empty()
    }
}

/// The modifiers object, the closing line break, and the closing bracket.
#[verifier::opaque]
pub open spec fn item_tail_text(d: VDirectiveV, ham: bool, ind: nat) -> Seq<char> {
    (if d.modifiers.len() > 0 {
        seq![','] + newline_text(ind + 2) + mods_obj_text(d.modifiers)
    } else {
        Seq::empty()
    }) + (if ham {
        newline_text(ind + 1)
    } else {
        Seq::empty()
    }) + seq![']']
}

/// The text emitted for one applicable directive, at base indentation `ind`:
/// a positional array `[identifier, value?, argument?, modifiers?]` with
/// trailing-slot elision.
pub open spec fn directive_item_text(
    d: VDirectiveV,
    tag: StartingTagV,
    is_component: bool,
    scope: u32,
    rs: Seq<ScopeResolverEntryV>,
    ind: nat,
) -> Seq<char> {
    let ham = d.argument.len() > 0 || d.modifiers.len() > 0;
    item_head_text(ham, ind) + directive_ident_text(d, tag, is_component) + item_value_text(
        d,
        ham,
        scope,
        rs,
        ind,
    ) + item_arg_text(d, ham, ind) + item_tail_text(d, ham, ind)
}

/// What one attribute contributes to the directives array body.
pub open spec fn attr_contrib(
    a: AttributeV,
    tag: StartingTagV,
    is_component: bool,
    scope: u32,
    rs: Seq<ScopeResolverEntryV>,
    ind: nat,
) -> Seq<char> {
    match a {
        AttributeV::Directive(d) => if supports_with_directive_spec(d.name, is_component) {
            directive_item_text(d, tag, is_component, scope, rs, ind)
        } else {
            Seq::empty()
        },
        _ => Seq::empty(),
    }
}

/// The body of the directives array: the contributions of all applicable
/// directive attributes, in order.
pub open spec fn directives_body_text(
    attrs: Seq<AttributeV>,
    tag: StartingTagV,
    is_component: bool,
    scope: u32,
    rs: Seq<ScopeResolverEntryV>,
    ind: nat,
) -> Seq<char>
    decreases attrs,
{
    if attrs.len() == 0 {
        Seq::empty()
    } else {
        directives_body_text(attrs.drop_last(), tag, is_component, scope, rs, ind) + attr_contrib(
            attrs.last(),
            tag,
            is_component,
            scope,
            rs,
            ind,
        )
    }
}

/// The complete directives array text at base indentation `ind`.
pub open spec fn directives_array_text(
    attrs: Seq<AttributeV>,
    tag: StartingTagV,
    is_component: bool,
    scope: u32,
    rs: Seq<ScopeResolverEntryV>,
    ind: nat,
) -> Seq<char> {
    seq!['['] + directives_body_text(attrs, tag, is_component, scope, rs, ind) + newline_text(ind)
        + seq![']']
}

/// How one attribute advances the two registries.
pub open spec fn regs_step(
    imports: Seq<VueImport>,
    dirs: Seq<DirectiveEntryV>,
    a: AttributeV,
    tag: StartingTagV,
    is_component: bool,
) -> (Seq<VueImport>, Seq<DirectiveEntryV>) {
    match a {
        AttributeV::Directive(d) => if supports_with_directive_spec(d.name, is_component) {
            if d.name == "model"@ && !is_component {
                (add_import(imports, vmodel_import(tag)->Some_0), dirs)
            } else if d.name == "show"@ {
                (add_import(imports, VueImport::VShow), dirs)
            } else {
                (imports, add_directive(dirs, d.name))
            }
        } else {
            (imports, dirs)
        },
        _ => (imports, dirs),
    }
}

/// The registries after generating descriptors for all attributes, in order.
pub open spec fn regs_after(
    imports: Seq<VueImport>,
    dirs: Seq<DirectiveEntryV>,
    attrs: Seq<AttributeV>,
    tag: StartingTagV,
    is_component: bool,
) -> (Seq<VueImport>, Seq<DirectiveEntryV>)
    decreases attrs,
{
    if attrs.len() == 0 {
        (imports, dirs)
    } else {
        let prev = regs_after(imports, dirs, attrs.drop_last(), tag, is_component);
        regs_step(prev.0, prev.1, attrs.last(), tag, is_component)
    }
}

/// The first matching resolution for `(expr, scope)` in the resolver table.
fn resolve_lookup(r: &ScopeResolver, expr: &str, scope: u32) -> (res: Option<String>)
    ensures
        match resolve_spec(r@, expr@, scope) {
            Some(t) => res matches Some(s) && s@ == t,
            None => res is None,
        },
{
    let ghost rv = r@;
    let n = r.entries.len();
    let mut k: usize = 0;
    proof {
        assert(rv.skip(0) =~= rv);
    }
    while k < n
        invariant
            0 <= k <= n == r.entries@.len(),
            rv == r@,
            resolve_spec(rv, expr@, scope) == resolve_spec(rv.skip(k as int), expr@, scope),
        decreases n - k,
    {
        proof {
            assert(rv.skip(k as int)[0] == rv[k as int]);
            assert(rv.skip(k as int).drop_first() =~= rv.skip(k as int + 1));
        }
        if str_eq(r.entries[k].expression.as_str(), expr) && r.entries[k].scope == scope {
            return Some(r.entries[k].resolved.clone());
        }
        k = k + 1;
    }
    proof {
        assert(rv.skip(n as int) =~= Seq::<ScopeResolverEntryV>::empty());
    }
    None
}

/// Emits the object literal mapping each modifier name to `true`.
fn emit_mods_obj(buf: &mut String, mods: &Vec<String>)
    ensures
        final(buf)@ == old(buf)@ + mods_obj_text(mods@.map_values(|m: String| m@)),
{
    let ghost mv = mods@.map_values(|m: String| m@);
    buf.append("{ ");
    let n = mods.len();
    let mut k: usize = 0;
    while k < n
        invariant
            0 <= k <= n == mods@.len(),
            mv == mods@.map_values(|m: String| m@),
            buf@ == old(buf)@ + "{ "@ + mods_obj_entries(mv.take(k as int)),
        decreases n - k,
    {
        proof {
            assert(mv.take(k as int + 1).drop_last() =~= mv.take(k as int));
            assert(mv.take(k as int + 1).last() == mv[k as int]);
            assert(mv[k as int] == mods@[k as int]@);
        }
        if k > 0 {
            buf.append(", ");
        }
        buf.append(mods[k].as_str());
        buf.append(": true");
        k = k + 1;
        proof {
            assert(buf@ =~= old(buf)@ + "{ "@ + mods_obj_entries(mv.take(k as int)));
        }
    }
    buf.append(" }");
    proof {
        assert(mv.take(n as int) =~= mv);
        assert(buf@ =~= old(buf)@ + mods_obj_text(mv));
    }
}

impl CodegenContext {
    /// Emits the value, argument and modifiers slots of one descriptor and
    /// closes it, restoring the base indentation.
    #[verifier::rlimit(100)]
    fn emit_directive_item_rest(
        &mut self,
        buf: &mut String,
        d: &crate::ast::VDirective,
        ham: bool,
        scope_to_use: u32,
    )
        requires
            old(self).wf(),
            ham ==> old(self).indent >= 2,
            !ham ==> old(self).indent >= 1,
            ham == (d@.argument.len() > 0 || d@.modifiers.len() > 0),
        ensures
            final(self).wf(),
            *final(self) == (CodegenContext {
                indent: final(self).indent,
                ..*old(self)
            }),
            final(self).indent == (if ham {
                old(self).indent - 2
            } else {
                old(self).indent - 1
            }),
            final(buf)@ == old(buf)@ + item_value_text(
                d@,
                ham,
                scope_to_use,
                old(self).resolver@,
                (if ham {
                    old(self).indent - 2
                } else {
                    old(self).indent - 1
                }) as nat,
            ) + item_arg_text(
                d@,
                ham,
                (if ham {
                    old(self).indent - 2
                } else {
                    old(self).indent - 1
                }) as nat,
            ) + item_tail_text(
                d@,
                ham,
                (if ham {
                    old(self).indent - 2
                } else {
                    old(self).indent - 1
                }) as nat,
            ),
    {
        let ghost b2 = buf@;
        let ghost rs = self.resolver@;
        let ghost ind0 = (if ham {
            old(self).indent - 2
        } else {
            old(self).indent - 1
        }) as nat;
        let has_argument = !d.argument.as_str().is_empty();
        let has_modifiers = d.modifiers.len() > 0;
        match &d.value {
            Some(v) => {
                if ham {
                    self.comma_newline(buf);
                } else {
                    buf.append(", ");
                }
                match resolve_lookup(&self.resolver, v.as_str(), scope_to_use) {
                    Some(t) => buf.append(t.as_str()),
                    None => buf.append(v.as_str()),
                }
            },
            None => {
                if ham {
                    self.comma_newline(buf);
                    buf.append("void 0");
                }
            },
        }
        let ghost b3 = buf@;
        proof {
            assert(b3 =~= b2 + item_value_text(d@, ham, scope_to_use, rs, ind0)) by {
                reveal(item_value_text);
            }
        }
        if ham {
            self.comma_newline(buf);
            if has_argument {
                crate::context::emit_quoted(buf, d.argument.as_str());
            } else {
                buf.append("void 0");
            }
        }
        let ghost b4 = buf@;
        proof {
            assert(b4 =~= b3 + item_arg_text(d@, ham, ind0)) by {
                reveal(item_arg_text);
            }
        }
        if has_modifiers {
            self.comma_newline(buf);
            emit_mods_obj(buf, &d.modifiers);
        }
        if ham {
            self.unindent();
            self.newline(buf);
        }
        push_char(buf, ']');
        self.unindent();
        proof {
            assert(buf@ =~= b4 + item_tail_text(d@, ham, ind0)) by {
                reveal(item_tail_text);
            }
            assert(buf@ =~= b2 + item_value_text(d@, ham, scope_to_use, rs, ind0) + item_arg_text(
                d@,
                ham,
                ind0,
            ) + item_tail_text(d@, ham, ind0));
        }
    }
}

impl CodegenContext {
    /// Emits one directive descriptor array, with its leading line break,
    /// and applies its registry effects.
    #[verifier::rlimit(100)]
    fn emit_directive_item(
        &mut self,
        buf: &mut String,
        d: &crate::ast::VDirective,
        starting_tag: &StartingTag,
        is_component: bool,
        scope_to_use: u32,
    ) -> (r: Result<(), CodegenError>)
        requires
            old(self).wf(),
            old(self).indent <= usize::MAX - 2,
            supports_with_directive_spec(d@.name, is_component),
            d@.name == "model"@ && !is_component ==> vmodel_import(starting_tag@) is Some,
        ensures
            r is Ok,
            final(self).wf(),
            final(self).indent == old(self).indent,
            final(self).resolver == old(self).resolver,
            final(buf)@ == old(buf)@ + directive_item_text(
                d@,
                starting_tag@,
                is_component,
                scope_to_use,
                old(self).resolver@,
                old(self).indent as nat,
            ),
            d@.name == "model"@ && !is_component ==> final(self).imports@ == add_import(
                old(self).imports@,
                vmodel_import(starting_tag@)->Some_0,
            ) && final(self).dirs_view() == old(self).dirs_view(),
            d@.name == "show"@ ==> final(self).imports@ == add_import(
                old(self).imports@,
                VueImport::VShow,
            ) && final(self).dirs_view() == old(self).dirs_view(),
            !(d@.name == "model"@ && !is_component) && d@.name != "show"@ ==> final(self).imports@
                == old(self).imports@ && final(self).dirs_view() == add_directive(
                old(self).dirs_view(),
                d@.name,
            ),
    {
        proof {
            reveal_strlit("model");
            reveal_strlit("show");
        }
        let ghost tagv = starting_tag@;
        let ghost rs = self.resolver@;
        let ghost ind0 = self.indent as nat;
        let ghost bk = buf@;
        self.indent();
        self.newline(buf);
        push_char(buf, '[');
        let has_argument = !d.argument.as_str().is_empty();
        let has_modifiers = d.modifiers.len() > 0;
        let ham = has_argument || has_modifiers;
        if ham {
            self.indent();
            self.newline(buf);
        }
        let ghost b1 = buf@;
        proof {
            assert(b1 =~= bk + item_head_text(ham, ind0)) by {
                reveal(item_head_text);
            }
        }
        if str_eq(d.name.as_str(), "model") && !is_component {
            let vm = match self.get_vmodel_directive_name(starting_tag) {
                Ok(s) => s,
                Err(e) => {
                    proof {
                        assert(false);
                    }
                    return Err(e);
                },
            };
            buf.append(vm.as_str());
        } else if str_eq(d.name.as_str(), "show") {
            let s = self.get_and_add_import_str(VueImport::VShow);
            buf.append(s.as_str());
        } else {
            self.add_to_directives_and_write(buf, d.name.as_str());
        }
        let ghost b2 = buf@;
        proof {
            assert(b2 =~= b1 + directive_ident_text(d@, tagv, is_component)) by {
                reveal(directive_ident_text);
            }
        }
        self.emit_directive_item_rest(buf, d, ham, scope_to_use);
        proof {
            assert(buf@ =~= bk + directive_item_text(
                d@,
                tagv,
                is_component,
                scope_to_use,
                rs,
                ind0,
            ));
        }
        Ok(())
    }
}

impl CodegenContext {
    /// Emits the runtime directives array for one element: one positional
    /// descriptor per applicable directive attribute, registering helper
    /// imports and custom directive resolvers along the way. Fails fast,
    /// with nothing emitted, when a `model` directive sits on an unsupported
    /// native element.
    #[verifier::rlimit(100)]
    pub fn generate_directives(
        &mut self,
        buf: &mut String,
        starting_tag: &StartingTag,
        is_component: bool,
        scope_to_use: u32,
    ) -> (r: Result<(), CodegenError>)
        requires
            old(self).wf(),
            old(self).indent <= usize::MAX - 2,
        ensures
            final(self).indent == old(self).indent,
            final(self).resolver == old(self).resolver,
            final(self).wf(),
            has_invalid_model(starting_tag@.attributes, starting_tag@, is_component) ==> {
                &&& r matches Err(e) && e == CodegenError::UnsupportedModelTarget
                &&& *final(self) == *old(self)
                &&& final(buf)@ == old(buf)@
            },
            !has_invalid_model(starting_tag@.attributes, starting_tag@, is_component) ==> {
                &&& r is Ok
                &&& final(buf)@ == old(buf)@ + directives_array_text(
                    starting_tag@.attributes,
                    starting_tag@,
                    is_component,
                    scope_to_use,
                    old(self).resolver@,
                    old(self).indent as nat,
                )
                &&& final(self).imports@ == regs_after(
                    old(self).imports@,
                    old(self).dirs_view(),
                    starting_tag@.attributes,
                    starting_tag@,
                    is_component,
                ).0
                &&& final(self).dirs_view() == regs_after(
                    old(self).imports@,
                    old(self).dirs_view(),
                    starting_tag@.attributes,
                    starting_tag@,
                    is_component,
                ).1
            },
    {
        let ghost av = starting_tag@.attributes;
        let ghost tagv = starting_tag@;
        let n = starting_tag.attributes.len();
        proof {
            assert(av == starting_tag.attributes@.map_values(|a: Attribute| a@));
        }
        // Validate first, so that a fatal model target fails before anything
        // is emitted or registered.
        let mut k: usize = 0;
        while k < n
            invariant
                0 <= k <= n == starting_tag.attributes@.len(),
                av == starting_tag.attributes@.map_values(|a: Attribute| a@),
                tagv == starting_tag@,
                self == old(self),
                self.wf(),
                buf@ == old(buf)@,
                forall|j: int|
                    0 <= j < k ==> !attr_invalid_model(#[trigger] av[j], tagv, is_component),
            decreases n - k,
        {
            proof {
                assert(av[k as int] == starting_tag.attributes@[k as int]@);
            }
            let invalid = match &starting_tag.attributes[k] {
                Attribute::Directive(d) => {
                    if str_eq(d.name.as_str(), "model") && !is_component {
                        !(str_eq(starting_tag.tag_name.as_str(), "input") || str_eq(
                            starting_tag.tag_name.as_str(),
                            "textarea",
                        ) || str_eq(starting_tag.tag_name.as_str(), "select"))
                    } else {
                        false
                    }
                },
                _ => false,
            };
            if invalid {
                proof {
                    assert(attr_invalid_model(av[k as int], tagv, is_component));
                    assert(has_invalid_model(av, tagv, is_component));
                }
                return Err(CodegenError::UnsupportedModelTarget);
            }
            k = k + 1;
        }
        proof {
            assert(!has_invalid_model(av, tagv, is_component)) by {
                if has_invalid_model(av, tagv, is_component) {
                    let j = choose|j: int|
                        0 <= j < av.len() && attr_invalid_model(
                            #[trigger] av[j],
                            tagv,
                            is_component,
                        );
                    assert(!attr_invalid_model(av[j], tagv, is_component));
                }
            }
        }
        // Emit the array.
        let ghost oi = self.imports@;
        let ghost od = self.dirs_view();
        let ghost rs = self.resolver@;
        let ghost ind0 = self.indent as nat;
        push_char(buf, '[');
        proof {
            assert(av.take(0) =~= Seq::<AttributeV>::empty());
            assert(buf@ =~= old(buf)@ + seq!['['] + directives_body_text(
                av.take(0),
                tagv,
                is_component,
                scope_to_use,
                rs,
                ind0,
            ));
        }
        let mut k: usize = 0;
        while k < n
            invariant
                0 <= k <= n == starting_tag.attributes@.len(),
                av == starting_tag.attributes@.map_values(|a: Attribute| a@),
                tagv == starting_tag@,
                !has_invalid_model(av, tagv, is_component),
                self.wf(),
                self.indent == old(self).indent,
                ind0 == old(self).indent as nat,
                old(self).indent <= usize::MAX - 2,
                self.resolver == old(self).resolver,
                rs == old(self).resolver@,
                oi == old(self).imports@,
                od == old(self).dirs_view(),
                buf@ == old(buf)@ + seq!['['] + directives_body_text(
                    av.take(k as int),
                    tagv,
                    is_component,
                    scope_to_use,
                    rs,
                    ind0,
                ),
                self.imports@ == regs_after(oi, od, av.take(k as int), tagv, is_component).0,
                self.dirs_view() == regs_after(oi, od, av.take(k as int), tagv, is_component).1,
            decreases n - k,
        {
            let ghost bk = buf@;
            let ghost imk = self.imports@;
            let ghost dik = self.dirs_view();
            proof {
                assert(av.take(k as int + 1).drop_last() =~= av.take(k as int));
                assert(av.take(k as int + 1).last() == av[k as int]);
                assert(av[k as int] == starting_tag.attributes@[k as int]@);
            }
            match &starting_tag.attributes[k] {
                Attribute::Directive(d) => {
                    if supports_with_directive(d.name.as_str(), is_component) {
                        proof {
                            assert(av[k as int] matches AttributeV::Directive(dv) && dv == d@);
                            assert(!attr_invalid_model(av[k as int], tagv, is_component));
                        }
                        let res = self.emit_directive_item(
                            buf,
                            d,
                            starting_tag,
                            is_component,
                            scope_to_use,
                        );
                        match res {
                            Ok(_) => {},
                            Err(e) => {
                                proof {
                                    assert(false);
                                }
                                return Err(e);
                            },
                        }
                        proof {
                            assert(buf@ == bk + directive_item_text(
                                d@,
                                tagv,
                                is_component,
                                scope_to_use,
                                rs,
                                ind0,
                            ));
                            assert(self.imports@ == regs_step(imk, dik, av[k as int], tagv, is_component).0);
                            assert(self.dirs_view() == regs_step(imk, dik, av[k as int], tagv, is_component).1);
                        }
                    }
                },
                _ => {},
            }
            proof {
                assert(buf@ =~= old(buf)@ + seq!['['] + directives_body_text(
                    av.take(k as int + 1),
                    tagv,
                    is_component,
                    scope_to_use,
                    rs,
                    ind0,
                ));
                assert(self.imports@ == regs_after(
                    oi,
                    od,
                    av.take(k as int + 1),
                    tagv,
                    is_component,
                ).0);
                assert(self.dirs_view() == regs_after(
                    oi,
                    od,
                    av.take(k as int + 1),
                    tagv,
                    is_component,
                ).1);
            }
            k = k + 1;
        }
        proof {
            assert(av.take(n as int) =~= av);
        }
        self.newline(buf);
        push_char(buf, ']');
        proof {
            assert(buf@ =~= old(buf)@ + directives_array_text(
                av,
                tagv,
                is_component,
                scope_to_use,
                rs,
                ind0,
            ));
        }
        Ok(())
    }
}




/// Lexicographic comparison of character sequences from position `i` on,
/// by code point.
pub open spec fn lex_le_from(a: Seq<char>, b: Seq<char>, i: nat) -> bool
    decreases a.len() - i,
    when i <= a.len()
{
    if i >= a.len() {
        true
    } else if i >= b.len() {
        false
    } else if a[i as int] != b[i as int] {
        (a[i as int] as u32) < (b[i as int] as u32)
    } else {
        lex_le_from(a, b, i + 1)
    }
}

pub open spec fn lex_le(a: Seq<char>, b: Seq<char>) -> bool {
    lex_le_from(a, b, 0)
}

/// Exec twin of [`lex_le_from`].
fn str_le_from(a: &str, b: &str, i: usize) -> (r: bool)
    requires
        i <= a@.len(),
    ensures
        r == lex_le_from(a@, b@, i as nat),
    decreases a@.len() - i,
{
    let na = a.unicode_len();
    let nb = b.unicode_len();
    if i >= na {
        true
    } else if i >= nb {
        false
    } else {
        let ca = a.get_char(i);
        let cb = b.get_char(i);
        if ca != cb {
            (ca as u32) < (cb as u32)
        } else {
            str_le_from(a, b, i + 1)
        }
    }
}

/// Exec twin of [`lex_le`].
pub fn str_le(a: &str, b: &str) -> (r: bool)
    ensures
        r == lex_le(a@, b@),
{
    str_le_from(a, b, 0)
}

/// Insertion into a sequence sorted by identifier.
pub open spec fn insert_sorted(e: DirectiveEntryV, s: Seq<DirectiveEntryV>) -> Seq<DirectiveEntryV>
    decreases s,
{
    if s.len() == 0 {
        seq![e]
    } else if lex_le(e.ident, s[0].ident) {
        seq![e] + s
    } else {
        seq![s[0]] + insert_sorted(e, s.drop_first())
    }
}

/// The registry entries sorted by identifier, by insertion sort.
pub open spec fn sort_entries(s: Seq<DirectiveEntryV>) -> Seq<DirectiveEntryV>
    decreases s,
{
    if s.len() == 0 {
        Seq::empty()
    } else {
        insert_sorted(s.last(), sort_entries(s.drop_last()))
    }
}

/// One resolver declaration line:
/// `const <identifier> = <resolveHelper>("<literal-name>")`.
pub open spec fn resolver_decl_text(e: DirectiveEntryV) -> Seq<char> {
    "const "@ + e.ident + " = "@ + import_ident(VueImport::ResolveDirective) + "("@ + quoted_text(
        e.name,
    ) + ")"@
}

/// The resolver declarations for all entries, separated by line breaks at
/// indentation `ind`.
pub open spec fn resolver_decls_text(s: Seq<DirectiveEntryV>, ind: nat) -> Seq<char>
    decreases s,
{
    if s.len() == 0 {
        Seq::empty()
    } else if s.len() == 1 {
        resolver_decl_text(s[0])
    } else {
        resolver_decls_text(s.drop_last(), ind) + newline_text(ind) + resolver_decl_text(s.last())
    }
}

/// Inserts an entry into a vector sorted by identifier.
fn sorted_insert(e: DirectiveEntry, v: Vec<DirectiveEntry>) -> (r: Vec<DirectiveEntry>)
    ensures
        r@.map_values(|x: DirectiveEntry| x@) == insert_sorted(
            e@,
            v@.map_values(|x: DirectiveEntry| x@),
        ),
    decreases v@.len(),
{
    let ghost vv = v@.map_values(|x: DirectiveEntry| x@);
    let mut v = v;
    if v.len() == 0 {
        v.push(e);
        proof {
            assert(v@.map_values(|x: DirectiveEntry| x@) =~= seq![e@]);
        }
        v
    } else if str_le(e.ident.as_str(), v[0].ident.as_str()) {
        v.insert(0, e);
        proof {
            assert(v@.map_values(|x: DirectiveEntry| x@) =~= seq![e@] + vv);
        }
        v
    } else {
        let first = v.remove(0);
        proof {
            assert(v@.map_values(|x: DirectiveEntry| x@) =~= vv.drop_first());
        }
        let mut rest = sorted_insert(e, v);
        rest.insert(0, first);
        proof {
            assert(rest@.map_values(|x: DirectiveEntry| x@) =~= seq![vv[0]] + insert_sorted(
                e@,
                vv.drop_first(),
            ));
        }
        rest
    }
}

impl CodegenContext {
    /// Declares every custom directive resolver collected so far, one line
    /// per registry entry, sorted by resolver identifier for stable output.
    /// Does nothing when the registry is empty.
    pub fn generate_directive_resolves(&mut self, buf: &mut String)
        requires
            old(self).wf(),
        ensures
            final(self).wf(),
            old(self).directives@.len() == 0 ==> *final(self) == *old(self) && final(buf)@ == old(
                buf,
            )@,
            old(self).directives@.len() > 0 ==> {
                &&& final(self).imports@ == add_import(
                    old(self).imports@,
                    VueImport::ResolveDirective,
                )
                &&& final(self).directives == old(self).directives
                &&& final(self).indent == old(self).indent
                &&& final(self).resolver == old(self).resolver
                &&& final(buf)@ == old(buf)@ + resolver_decls_text(
                    sort_entries(old(self).dirs_view()),
                    old(self).indent as nat,
                )
            },
    {
        if self.directives.len() == 0 {
            return ;
        }
        let resolve_fn = self.get_and_add_import_str(VueImport::ResolveDirective);
        // Sort a copy of the registry by identifier for stable output.
        let ghost dv = self.dirs_view();
        let mut sorted: Vec<DirectiveEntry> = Vec::new();
        let n = self.directives.len();
        let mut k: usize = 0;
        proof {
            assert(dv.take(0) =~= Seq::<DirectiveEntryV>::empty());
            assert(sorted@.map_values(|x: DirectiveEntry| x@) =~= sort_entries(dv.take(0)));
        }
        while k < n
            invariant
                0 <= k <= n == self.directives@.len(),
                dv == self.dirs_view(),
                sorted@.map_values(|x: DirectiveEntry| x@) == sort_entries(dv.take(k as int)),
            decreases n - k,
        {
            proof {
                assert(dv.take(k as int + 1).drop_last() =~= dv.take(k as int));
                assert(dv.take(k as int + 1).last() == dv[k as int]);
                assert(dv[k as int] == self.directives@[k as int]@);
            }
            let e = DirectiveEntry {
                name: self.directives[k].name.clone(),
                ident: self.directives[k].ident.clone(),
            };
            sorted = sorted_insert(e, sorted);
            k = k + 1;
        }
        proof {
            assert(dv.take(n as int) =~= dv);
        }
        // Emit one declaration per entry, separated by line breaks.
        let ghost sv = sorted@.map_values(|x: DirectiveEntry| x@);
        let m = sorted.len();
        let mut idx: usize = 0;
        proof {
            assert(sv.take(0) =~= Seq::<DirectiveEntryV>::empty());
        }
        while idx < m
            invariant
                0 <= idx <= m == sorted@.len(),
                sv == sorted@.map_values(|x: DirectiveEntry| x@),
                resolve_fn@ == import_ident(VueImport::ResolveDirective),
                self.wf(),
                self.indent == old(self).indent,
                buf@ == old(buf)@ + resolver_decls_text(sv.take(idx as int), self.indent as nat),
            decreases m - idx,
        {
            let ghost bk = buf@;
            proof {
                assert(sv.take(idx as int + 1).drop_last() =~= sv.take(idx as int));
                assert(sv.take(idx as int + 1).last() == sv[idx as int]);
                assert(sv[idx as int] == sorted@[idx as int]@);
            }
            if idx > 0 {
                self.newline(buf);
            }
            buf.append("const ");
            buf.append(sorted[idx].ident.as_str());
            buf.append(" = ");
            buf.append(resolve_fn.as_str());
            buf.append("(");
            crate::context::emit_quoted(buf, sorted[idx].name.as_str());
            buf.append(")");
            proof {
                if idx > 0 {
                    assert(buf@ =~= bk + newline_text(self.indent as nat) + resolver_decl_text(
                        sv[idx as int],
                    ));
                } else {
                    assert(buf@ =~= bk + resolver_decl_text(sv[idx as int]));
                }
                assert(buf@ =~= old(buf)@ + resolver_decls_text(
                    sv.take(idx as int + 1),
                    self.indent as nat,
                ));
            }
            idx = idx + 1;
        }
        proof {
            assert(sv.take(m as int) =~= sv);
        }
    }
}

/// Requesting the custom-directive registry with one name a second time
/// leaves the registry unchanged: the name keeps its first identifier.
pub proof fn lemma_directive_registry_idempotent(dirs: Seq<DirectiveEntryV>, name: Seq<char>)
    ensures
        add_directive(add_directive(dirs, name), name) == add_directive(dirs, name),
{
    if !has_directive(dirs, name) {
        let pushed = dirs.push(DirectiveEntryV { name, ident: directive_ident(name) });
        assert(pushed[dirs.len() as int].name == name);
        assert(has_directive(pushed, name));
    }
}

/// Two distinct directive names are never assigned the same resolver
/// identifier: the character escaping behind the fixed prefix is injective.
pub proof fn lemma_directive_ident_injective(a: Seq<char>, b: Seq<char>)
    requires
        a != b,
    ensures
        directive_ident(a) != directive_ident(b),
{
    let p = "_directive_"@;
    let na = normalized_name(a);
    let nb = normalized_name(b);
    if directive_ident(a) == directive_ident(b) {
        assert((p + na).len() == (p + nb).len());
        assert(na =~= nb) by {
            assert(forall|i: int|
                0 <= i < na.len() ==> (p + na)[p.len() + i] == #[trigger] na[i]);
            assert(forall|i: int|
                0 <= i < nb.len() ==> (p + nb)[p.len() + i] == #[trigger] nb[i]);
        }
        crate::context::lemma_normalized_injective(a, b);
        assert(false);
    }
}

/// A well-formed registry assigns pairwise-distinct resolver identifiers,
/// so the declarations it emits never bind one identifier twice.
pub proof fn lemma_registry_idents_distinct(dirs: Seq<DirectiveEntryV>)
    requires
        crate::context::directives_wf(dirs),
    ensures
        forall|j: int, k: int|
            0 <= j < k < dirs.len() ==> (#[trigger] dirs[j]).ident != (#[trigger] dirs[k]).ident,
{
    assert forall|j: int, k: int|
        0 <= j < k < dirs.len() implies (#[trigger] dirs[j]).ident != (#[trigger] dirs[k]).ident by {
        lemma_directive_ident_injective(dirs[j].name, dirs[k].name);
    }
}

/// Trailing-slot elision of directive descriptors: no value, argument or
/// modifiers emits `[identifier]` alone; only a value emits
/// `[identifier, value]`; value, argument and modifiers together emit all
/// four positions, each on its own line.
pub proof fn lemma_directive_array_elision(
    d: VDirectiveV,
    tag: StartingTagV,
    is_component: bool,
    scope: u32,
    rs: Seq<ScopeResolverEntryV>,
    ind: nat,
)
    ensures
        d.argument.len() == 0 && d.modifiers.len() == 0 && d.value is None
            ==> directive_item_text(d, tag, is_component, scope, rs, ind) == newline_text(ind + 1)
            + seq!['['] + directive_ident_text(d, tag, is_component) + seq![']'],
        (d.argument.len() == 0 && d.modifiers.len() == 0 && d.value is Some)
            ==> directive_item_text(d, tag, is_component, scope, rs, ind) == newline_text(ind + 1)
            + seq!['['] + directive_ident_text(d, tag, is_component) + ", "@
            + directive_value_text(d.value->Some_0, scope, rs) + seq![']'],
        (d.argument.len() > 0 && d.modifiers.len() > 0 && d.value is Some)
            ==> directive_item_text(d, tag, is_component, scope, rs, ind) == newline_text(ind + 1)
            + seq!['['] + newline_text(ind + 2) + directive_ident_text(d, tag, is_component)
            + seq![','] + newline_text(ind + 2) + directive_value_text(d.value->Some_0, scope, rs) + seq![',']
            + newline_text(ind + 2) + quoted_text(d.argument) + seq![','] + newline_text(ind + 2)
            + mods_obj_text(d.modifiers) + newline_text(ind + 1) + seq![']'],
{
    reveal(item_head_text);
    reveal(item_value_text);
    reveal(item_arg_text);
    reveal(item_tail_text);
    if d.argument.len() == 0 && d.modifiers.len() == 0 {
        match d.value {
            None => {
                assert(directive_item_text(d, tag, is_component, scope, rs, ind) =~= newline_text(
                    ind + 1,
                ) + seq!['['] + directive_ident_text(d, tag, is_component) + seq![']']);
            },
            Some(v) => {
                assert(directive_item_text(d, tag, is_component, scope, rs, ind) =~= newline_text(
                    ind + 1,
                ) + seq!['['] + directive_ident_text(d, tag, is_component) + ", "@
                    + directive_value_text(v, scope, rs) + seq![']']);
            },
        }
    }
    if d.argument.len() > 0 && d.modifiers.len() > 0 && d.value is Some {
        let v = d.value->Some_0;
        assert(directive_item_text(d, tag, is_component, scope, rs, ind) =~= newline_text(ind + 1)
            + seq!['['] + newline_text(ind + 2) + directive_ident_text(d, tag, is_component)
            + seq![','] + newline_text(ind + 2) + directive_value_text(v, scope, rs) + seq![',']
            + newline_text(ind + 2) + quoted_text(d.argument) + seq![','] + newline_text(ind + 2)
            + mods_obj_text(d.modifiers) + newline_text(ind + 1) + seq![']']);
    }
}


} // verus!
