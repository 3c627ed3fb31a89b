//! Laws of the analysis, stated over the ghost model and proved once and for
//! all. Together with the exact contracts of [`crate::analyser`], they carry
//! over to the executable analyser.

use vstd::prelude::*;

use crate::analyser::{
    assign_model, call_model, find_def, lemma_find_def_spec, lemma_resolve_scope_spec,
    observe_model, reference_model, resolve_scope, sweep, sweep_children, unused_errors,
    unused_one, wf_ctx, wf_state, ContextModel, DefModel, ErrorModel, StateModel,
};
use crate::ast::{ExprModel, NodeModel, Span};

verus! {

/// The definition a name resolves to, in the nearest enclosing scope that
/// binds it, if any.
pub open spec fn resolved_def(m: StateModel, name: Seq<char>) -> Option<DefModel> {
    match resolve_scope(m.contexts, m.current, name) {
        Some(s) => match find_def(m.contexts[s].defs, name) {
            Some(j) => Some(m.contexts[s].defs[j]),
            None => None,
        },
        None => None,
    }
}

/// A reference to `name` is offending when no enclosing scope binds it as a
/// variable that already has a value.
pub open spec fn offending_reference(m: StateModel, name: Seq<char>) -> bool {
    !(resolved_def(m, name) matches Some(DefModel::Var { defined: true, .. }))
}

/// Law: a reference emits `UsingUndefinedVariable` exactly once when it is
/// offending — undeclared, declared but not yet bound to a value, or bound
/// to a function — and emits nothing otherwise.
pub proof fn lemma_reference_diagnostic(m: StateModel, span: Span, name: Seq<char>)
    requires
        wf_state(m),
    ensures
        ({
            let m2 = observe_model(m, span, ExprModel::Reference(name));
            &&& offending_reference(m, name) ==> m2.errors == m.errors.push(
                ErrorModel::UsingUndefinedVariable { name, span },
            )
            &&& !offending_reference(m, name) ==> m2.errors == m.errors
        }),
{
    lemma_resolve_scope_spec(m.contexts, m.current, name);
    match resolve_scope(m.contexts, m.current, name) {
        Some(s) => {
            lemma_find_def_spec(m.contexts[s].defs, name);
        },
        None => {},
    }
}

/// Law: a call whose target is a function of arity `a` emits
/// `WrongNumberOfArguments` exactly once when the argument count differs
/// from `a` and nothing when it matches; a call whose target is a callable
/// variable never emits it, whatever the argument count; any other call
/// emits `CallingUndefinedFunction` exactly once.
pub proof fn lemma_call_diagnostic(m: StateModel, span: Span, name: Seq<char>, nargs: nat)
    requires
        wf_state(m),
    ensures
        ({
            let m2 = call_model(m, span, name, nargs);
            match resolved_def(m, name) {
                Some(DefModel::Func { arity, .. }) => if nargs != arity {
                    m2.errors == m.errors.push(ErrorModel::WrongNumberOfArguments { name, span })
                } else {
                    m2.errors == m.errors
                },
                Some(DefModel::Var { callable, .. }) => if callable {
                    m2.errors == m.errors
                } else {
                    m2.errors == m.errors.push(
                        ErrorModel::CallingUndefinedFunction { name, span },
                    )
                },
                None => m2.errors == m.errors.push(
                    ErrorModel::CallingUndefinedFunction { name, span },
                ),
            }
        }),
{
    lemma_resolve_scope_spec(m.contexts, m.current, name);
    match resolve_scope(m.contexts, m.current, name) {
        Some(s) => {
            lemma_find_def_spec(m.contexts[s].defs, name);
        },
        None => {},
    }
}

/// Law: an assignment to a bare name that no enclosing scope binds emits
/// `UsingUndefinedVariable` exactly once; an assignment to a bound name, or
/// to any other target shape, emits nothing.
pub proof fn lemma_assign_diagnostic(m: StateModel, span: Span, lhs: NodeModel)
    requires
        wf_state(m),
    ensures
        ({
            let m2 = assign_model(m, span, lhs);
            match lhs.expr {
                ExprModel::Reference(name) => {
                    &&& resolve_scope(m.contexts, m.current, name) is None ==> m2.errors
                        == m.errors.push(ErrorModel::UsingUndefinedVariable { name, span })
                    &&& resolve_scope(m.contexts, m.current, name) is Some ==> m2.errors
                        == m.errors
                },
                _ => m2.errors == m.errors,
            }
        }),
{
    match lhs.expr {
        ExprModel::Reference(name) => {
            lemma_resolve_scope_spec(m.contexts, m.current, name);
            match resolve_scope(m.contexts, m.current, name) {
                Some(s) => {
                    lemma_find_def_spec(m.contexts[s].defs, name);
                },
                None => {},
            }
        },
        _ => {},
    }
}

/// Law (shadowing, lookup): a name bound in the current scope resolves
/// there, hiding any same-named binding of an enclosing scope.
pub proof fn lemma_shadowing_lookup(ctxs: Seq<ContextModel>, cur: int, name: Seq<char>)
    requires
        0 <= cur < ctxs.len(),
        find_def(ctxs[cur].defs, name) is Some,
    ensures
        resolve_scope(ctxs, cur, name) == Some(cur),
{
}

/// Law (shadowing, mutation): a reference mutates only the scope its name
/// resolves to; every other scope — in particular one holding a shadowed
/// same-named binding — is untouched.
pub proof fn lemma_reference_mutation_local(m: StateModel, span: Span, name: Seq<char>, i: int)
    requires
        wf_state(m),
        0 <= i < m.contexts.len(),
        resolve_scope(m.contexts, m.current, name) != Some(i),
    ensures
        reference_model(m, span, name).contexts[i] == m.contexts[i],
{
    lemma_resolve_scope_spec(m.contexts, m.current, name);
    match resolve_scope(m.contexts, m.current, name) {
        Some(s) => {
            lemma_find_def_spec(m.contexts[s].defs, name);
        },
        None => {},
    }
}

/// Law (shadowing, mutation): the same locality for a call's used-flag
/// mutation.
pub proof fn lemma_call_mutation_local(
    m: StateModel,
    span: Span,
    name: Seq<char>,
    nargs: nat,
    i: int,
)
    requires
        wf_state(m),
        0 <= i < m.contexts.len(),
        resolve_scope(m.contexts, m.current, name) != Some(i),
    ensures
        call_model(m, span, name, nargs).contexts[i] == m.contexts[i],
{
    lemma_resolve_scope_spec(m.contexts, m.current, name);
    match resolve_scope(m.contexts, m.current, name) {
        Some(s) => {
            lemma_find_def_spec(m.contexts[s].defs, name);
        },
        None => {},
    }
}

/// Law (shadowing, mutation): the same locality for an assignment's
/// defined-flag mutation.
pub proof fn lemma_assign_mutation_local(m: StateModel, span: Span, lhs: NodeModel, i: int)
    requires
        wf_state(m),
        0 <= i < m.contexts.len(),
        match lhs.expr {
            ExprModel::Reference(name) => resolve_scope(m.contexts, m.current, name) != Some(i),
            _ => true,
        },
    ensures
        assign_model(m, span, lhs).contexts[i] == m.contexts[i],
{
    match lhs.expr {
        ExprModel::Reference(name) => {
            lemma_resolve_scope_spec(m.contexts, m.current, name);
            match resolve_scope(m.contexts, m.current, name) {
                Some(s) => {
                    lemma_find_def_spec(m.contexts[s].defs, name);
                },
                None => {},
            }
        },
        _ => {},
    }
}

/// Law (idempotence): the diagnostics are a function of the tree's model
/// alone, so two structurally identical trees — whatever distinct strings
/// and vectors they are built from — analyse to identical diagnostic lists.
pub proof fn lemma_analysis_deterministic(a: crate::ast::AstNode, b: crate::ast::AstNode)
    requires
        crate::ast::node_view(a) == crate::ast::node_view(b),
    ensures
        crate::analyser::analysis_model(crate::ast::node_view(a))
            == crate::analyser::analysis_model(crate::ast::node_view(b)),
{
}

/// Scope `r` is `s` itself or an ancestor of `s` reached by the parent
/// chain.
pub open spec fn in_subtree(ctxs: Seq<ContextModel>, r: int, s: int) -> bool
    decreases s,
{
    if s == r {
        true
    } else if 0 < s < ctxs.len() {
        match ctxs[s].parent {
            Some(p) => 0 <= p < s && in_subtree(ctxs, r, p),
            None => false,
        }
    } else {
        false
    }
}

/// The scope-tree part of the analyser's invariant.
pub open spec fn wf_tree(ctxs: Seq<ContextModel>) -> bool {
    &&& 1 <= ctxs.len()
    &&& forall|i: int| 0 <= i < ctxs.len() ==> #[trigger] wf_ctx(ctxs, i)
}

/// One scope's sweep reports each of its never-used variables.
proof fn lemma_unused_errors_contains(defs: Seq<DefModel>, j: int)
    requires
        0 <= j < defs.len(),
        defs[j] matches DefModel::Var { used: false, .. },
    ensures
        unused_errors(defs).contains(unused_one(defs[j])[0]),
    decreases defs.len(),
{
    if j == 0 {
        assert(unused_errors(defs)[0] == unused_one(defs[0])[0]);
    } else {
        lemma_unused_errors_contains(defs.drop_first(), j - 1);
        let x = unused_one(defs[j])[0];
        let k = choose|k: int|
            0 <= k < unused_errors(defs.drop_first()).len() && unused_errors(defs.drop_first())[k]
                == x;
        assert(unused_errors(defs)[unused_one(defs[0]).len() + k] == x);
    }
}

/// Whatever a child subtree's sweep reports, the sweep over the child list
/// reports too.
proof fn lemma_sweep_children_contains(
    ctxs: Seq<ContextModel>,
    cs: Seq<int>,
    i: int,
    c: int,
    x: ErrorModel,
)
    requires
        cs.contains(c),
        i < c < ctxs.len(),
        sweep(ctxs, c).contains(x),
    ensures
        sweep_children(ctxs, cs, i).contains(x),
    decreases cs.len(),
{
    let head = if i < cs[0] < ctxs.len() {
        sweep(ctxs, cs[0])
    } else {
        Seq::<ErrorModel>::empty()
    };
    if cs[0] == c {
        let k = choose|k: int| 0 <= k < sweep(ctxs, c).len() && sweep(ctxs, c)[k] == x;
        assert(sweep_children(ctxs, cs, i)[k] == x);
    } else {
        let w = choose|w: int| 0 <= w < cs.len() && cs[w] == c;
        assert(cs.drop_first()[w - 1] == c);
        assert(cs.drop_first().contains(c));
        lemma_sweep_children_contains(ctxs, cs.drop_first(), i, c, x);
        let k = choose|k: int|
            0 <= k < sweep_children(ctxs, cs.drop_first(), i).len() && sweep_children(
                ctxs,
                cs.drop_first(),
                i,
            )[k] == x;
        assert(sweep_children(ctxs, cs, i)[head.len() + k] == x);
    }
}

/// What a scope's sweep reports, every ancestor's sweep reports too.
proof fn lemma_sweep_ancestor_contains(ctxs: Seq<ContextModel>, r: int, s: int, x: ErrorModel)
    requires
        wf_tree(ctxs),
        0 <= s < ctxs.len(),
        in_subtree(ctxs, r, s),
        sweep(ctxs, s).contains(x),
    ensures
        sweep(ctxs, r).contains(x),
    decreases s,
{
    if s != r {
        assert(wf_ctx(ctxs, s));
        let p = ctxs[s].parent->0;
        assert(ctxs[p].children.contains(s));
        assert(wf_ctx(ctxs, p));
        lemma_sweep_children_contains(ctxs, ctxs[p].children, p, s, x);
        let k = choose|k: int|
            0 <= k < sweep_children(ctxs, ctxs[p].children, p).len() && sweep_children(
                ctxs,
                ctxs[p].children,
                p,
            )[k] == x;
        assert(sweep(ctxs, p)[unused_errors(ctxs[p].defs).len() + k] == x);
        lemma_sweep_ancestor_contains(ctxs, r, p, x);
    }
}

/// Law: every never-used variable of every scope reachable from the root —
/// however deeply nested — is reported by the whole-tree sweep.
pub proof fn lemma_unused_variable_reported(ctxs: Seq<ContextModel>, s: int, j: int)
    requires
        wf_tree(ctxs),
        0 <= s < ctxs.len(),
        in_subtree(ctxs, 0, s),
        0 <= j < ctxs[s].defs.len(),
        ctxs[s].defs[j] matches DefModel::Var { used: false, .. },
    ensures
        sweep(ctxs, 0).contains(unused_one(ctxs[s].defs[j])[0]),
{
    lemma_unused_errors_contains(ctxs[s].defs, j);
    let x = unused_one(ctxs[s].defs[j])[0];
    let k = choose|k: int|
        0 <= k < unused_errors(ctxs[s].defs).len() && unused_errors(ctxs[s].defs)[k] == x;
    assert(sweep(ctxs, s)[k] == x);
    assert(sweep(ctxs, s).contains(x));
    lemma_sweep_ancestor_contains(ctxs, 0, s, x);
}

/// Law: the sweep reports nothing but never-used variables — each of its
/// diagnostics is an `UnusedVariable`.
pub proof fn lemma_sweep_only_unused(ctxs: Seq<ContextModel>, i: int)
    ensures
        forall|k: int|
            0 <= k < sweep(ctxs, i).len() ==> #[trigger] sweep(ctxs, i)[k] is UnusedVariable,
    decreases ctxs.len() - i, ctxs[i].children.len() + 1,
{
    if 0 <= i < ctxs.len() {
        lemma_unused_errors_only_unused(ctxs[i].defs);
        lemma_sweep_children_only_unused(ctxs, ctxs[i].children, i);
    }
}

/// One scope's sweep reports nothing but `UnusedVariable` diagnostics.
proof fn lemma_unused_errors_only_unused(defs: Seq<DefModel>)
    ensures
        forall|k: int|
            0 <= k < unused_errors(defs).len() ==> #[trigger] unused_errors(defs)[k]
                is UnusedVariable,
    decreases defs.len(),
{
    if defs.len() > 0 {
        lemma_unused_errors_only_unused(defs.drop_first());
    }
}

/// A child list's sweep reports nothing but `UnusedVariable` diagnostics.
proof fn lemma_sweep_children_only_unused(ctxs: Seq<ContextModel>, cs: Seq<int>, i: int)
    ensures
        forall|k: int|
            0 <= k < sweep_children(ctxs, cs, i).len() ==> #[trigger] sweep_children(
                ctxs,
                cs,
                i,
            )[k] is UnusedVariable,
    decreases ctxs.len() - i, cs.len(),
{
    if cs.len() > 0 {
        if i < cs[0] < ctxs.len() {
            lemma_sweep_only_unused(ctxs, cs[0]);
        }
        lemma_sweep_children_only_unused(ctxs, cs.drop_first(), i);
    }
}

} // verus!
