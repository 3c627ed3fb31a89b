//! The scope-resolution and diagnostic engine.

use vstd::prelude::*;

use crate::ast::{
    expr_view, lemma_nodes_view, node_view, nodes_view, opt_node_view, strings_view, Ast, AstNode, BinOp,
    ExprModel, NodeModel, Span,
};

verus! {

/// A diagnostic reported by the analysis. Each carries the offending name and
/// the span of the node that triggered it.
#[derive(Clone, PartialEq, Debug)]
pub enum Error {
    WrongNumberOfArguments { name: String, span: Span },
    UsingUndefinedVariable { name: String, span: Span },
    CallingUndefinedFunction { name: String, span: Span },
    UnusedVariable { name: String, span: Span },
}

/// A bound name: either a variable with its analysis flags, or a function
/// with its fixed parameter count.
#[derive(Clone, Debug)]
pub enum Def {
    Var { span: Span, name: String, defined: bool, used: bool, callable: bool },
    Fn { span: Span, name: String, args: usize },
}

/// Ghost mirror of [`Error`].
#[verifier::ext_equal]
pub enum ErrorModel {
    WrongNumberOfArguments { name: Seq<char>, span: Span },
    UsingUndefinedVariable { name: Seq<char>, span: Span },
    CallingUndefinedFunction { name: Seq<char>, span: Span },
    UnusedVariable { name: Seq<char>, span: Span },
}

/// Ghost mirror of [`Def`].
#[verifier::ext_equal]
pub enum DefModel {
    Var { span: Span, name: Seq<char>, defined: bool, used: bool, callable: bool },
    Func { span: Span, name: Seq<char>, arity: nat },
}

impl View for Error {
    type V = ErrorModel;

    open spec fn view(&self) -> ErrorModel {
        match self {
            Error::WrongNumberOfArguments { name, span } => ErrorModel::WrongNumberOfArguments {
                name: name@,
                span: *span,
            },
            Error::UsingUndefinedVariable { name, span } => ErrorModel::UsingUndefinedVariable {
                name: name@,
                span: *span,
            },
            Error::CallingUndefinedFunction { name, span } => ErrorModel::CallingUndefinedFunction {
                name: name@,
                span: *span,
            },
            Error::UnusedVariable { name, span } => ErrorModel::UnusedVariable {
                name: name@,
                span: *span,
            },
        }
    }
}

impl View for Def {
    type V = DefModel;

    open spec fn view(&self) -> DefModel {
        match self {
            Def::Var { span, name, defined, used, callable } => DefModel::Var {
                span: *span,
                name: name@,
                defined: *defined,
                used: *used,
                callable: *callable,
            },
            Def::Fn { span, name, args } => DefModel::Func {
                span: *span,
                name: name@,
                arity: *args as nat,
            },
        }
    }
}

/// The name a definition binds.
pub open spec fn def_name(d: DefModel) -> Seq<char> {
    match d {
        DefModel::Var { name, .. } => name,
        DefModel::Func { name, .. } => name,
    }
}

/// Ghost mirror of one lexical scope: its label, its place in the tree, and
/// its bindings in insertion order.
#[verifier::ext_equal]
pub struct ContextModel {
    pub name: Seq<char>,
    pub parent: Option<int>,
    pub children: Seq<int>,
    pub defs: Seq<DefModel>,
}

/// Ghost mirror of the whole analyser: the scope arena, the current scope,
/// and the diagnostics emitted so far.
#[verifier::ext_equal]
pub struct StateModel {
    pub contexts: Seq<ContextModel>,
    pub current: int,
    pub errors: Seq<ErrorModel>,
}

/// Within one scope each name binds at most one definition.
pub open spec fn defs_unique(defs: Seq<DefModel>) -> bool {
    forall|j: int, k: int|
        0 <= j < k < defs.len() ==> def_name(#[trigger] defs[j]) != def_name(#[trigger] defs[k])
}

/// Scope `i` is sound in the arena `ctxs`: the root has no parent, every
/// other scope's parent precedes it, children point back to it, child lists
/// are strictly increasing, a non-root scope is listed by its parent, and its
/// bindings have unique names.
pub open spec fn wf_ctx(ctxs: Seq<ContextModel>, i: int) -> bool {
    let cs = ctxs[i].children;
    &&& if i == 0 {
        ctxs[0].parent is None
    } else {
        match ctxs[i].parent {
            Some(p) => 0 <= p < i && ctxs[p].children.contains(i),
            None => false,
        }
    }
    &&& forall|k: int|
        0 <= k < cs.len() ==> i < #[trigger] cs[k] < ctxs.len() && ctxs[cs[k]].parent == Some(i)
    &&& forall|k1: int, k2: int| 0 <= k1 < k2 < cs.len() ==> cs[k1] < cs[k2]
    &&& defs_unique(ctxs[i].defs)
}

/// The analyser's invariant: a rooted, acyclic arena with a valid current
/// scope.
pub open spec fn wf_state(m: StateModel) -> bool {
    &&& 1 <= m.contexts.len()
    &&& 0 <= m.current < m.contexts.len()
    &&& forall|i: int| 0 <= i < m.contexts.len() ==> #[trigger] wf_ctx(m.contexts, i)
}

/// The index of the definition bound to `name` in one scope, if any.
pub open spec fn find_def(defs: Seq<DefModel>, name: Seq<char>) -> Option<int>
    decreases defs.len(),
{
    if defs.len() == 0 {
        None
    } else if def_name(defs[0]) == name {
        Some(0int)
    } else {
        match find_def(defs.drop_first(), name) {
            Some(j) => Some(j + 1),
            None => None,
        }
    }
}

/// Insert a definition into one scope: an existing binding of the same name
/// is overwritten, otherwise the definition is appended.
pub open spec fn insert_def(defs: Seq<DefModel>, d: DefModel) -> Seq<DefModel> {
    match find_def(defs, def_name(d)) {
        Some(j) => defs.update(j, d),
        None => defs.push(d),
    }
}

/// The nearest enclosing scope that binds `name`, walking the parent chain
/// from `cur`; `None` when the chain is exhausted.
pub open spec fn resolve_scope(ctxs: Seq<ContextModel>, cur: int, name: Seq<char>) -> Option<int>
    decreases cur,
{
    if !(0 <= cur < ctxs.len()) {
        None
    } else if find_def(ctxs[cur].defs, name) is Some {
        Some(cur)
    } else {
        match ctxs[cur].parent {
            Some(p) => if 0 <= p < cur {
                resolve_scope(ctxs, p, name)
            } else {
                None
            },
            None => None,
        }
    }
}

/// Pre-bind one variable definition per parameter: already defined, not yet
/// used, and callable, since the call site binds the argument values.
pub open spec fn param_defs(defs: Seq<DefModel>, span: Span, params: Seq<Seq<char>>) -> Seq<
    DefModel,
>
    decreases params.len(),
{
    if params.len() == 0 {
        defs
    } else {
        param_defs(
            insert_def(
                defs,
                DefModel::Var {
                    span,
                    name: params[0],
                    defined: true,
                    used: false,
                    callable: true,
                },
            ),
            span,
            params.drop_first(),
        )
    }
}

/// The state with definition `j` of scope `s` replaced by `d`.
pub open spec fn update_def(m: StateModel, s: int, j: int, d: DefModel) -> StateModel {
    StateModel {
        contexts: m.contexts.update(
            s,
            ContextModel { defs: m.contexts[s].defs.update(j, d), ..m.contexts[s] },
        ),
        ..m
    }
}

/// The state with one more diagnostic.
pub open spec fn push_error(m: StateModel, e: ErrorModel) -> StateModel {
    StateModel { errors: m.errors.push(e), ..m }
}

/// A reference to `name`: the nearest matching variable is marked used, and
/// `UsingUndefinedVariable` is emitted unless that variable already has a
/// value. A match that is a function, or no match at all, also emits it.
pub open spec fn reference_model(m: StateModel, span: Span, name: Seq<char>) -> StateModel {
    match resolve_scope(m.contexts, m.current, name) {
        Some(s) => match find_def(m.contexts[s].defs, name) {
            Some(j) => match m.contexts[s].defs[j] {
                DefModel::Var { span: dspan, name: dname, defined, used, callable } => {
                    let m1 = update_def(
                        m,
                        s,
                        j,
                        DefModel::Var { span: dspan, name: dname, defined, used: true, callable },
                    );
                    if !defined {
                        push_error(m1, ErrorModel::UsingUndefinedVariable { name, span })
                    } else {
                        m1
                    }
                },
                DefModel::Func { .. } => push_error(
                    m,
                    ErrorModel::UsingUndefinedVariable { name, span },
                ),
            },
            None => m,  // unreachable when the resolved scope is well formed
        },
        None => push_error(m, ErrorModel::UsingUndefinedVariable { name, span }),
    }
}

/// A call of `name` with `nargs` arguments: a function target must match its
/// arity exactly; a callable variable accepts any argument count and is
/// marked used; anything else is `CallingUndefinedFunction`.
pub open spec fn call_model(m: StateModel, span: Span, name: Seq<char>, nargs: nat) -> StateModel {
    match resolve_scope(m.contexts, m.current, name) {
        Some(s) => match find_def(m.contexts[s].defs, name) {
            Some(j) => match m.contexts[s].defs[j] {
                DefModel::Func { arity, .. } => if nargs != arity {
                    push_error(m, ErrorModel::WrongNumberOfArguments { name, span })
                } else {
                    m
                },
                DefModel::Var { span: dspan, name: dname, defined, used, callable } => {
                    if callable {
                        update_def(
                            m,
                            s,
                            j,
                            DefModel::Var {
                                span: dspan,
                                name: dname,
                                defined,
                                used: true,
                                callable,
                            },
                        )
                    } else {
                        push_error(m, ErrorModel::CallingUndefinedFunction { name, span })
                    }
                },
            },
            None => m,  // unreachable when the resolved scope is well formed
        },
        None => push_error(m, ErrorModel::CallingUndefinedFunction { name, span }),
    }
}

/// An assignment: a bare-reference target is marked defined (a function
/// target is left alone); an unresolved target emits
/// `UsingUndefinedVariable`; any other target shape resolves nothing.
pub open spec fn assign_model(m: StateModel, span: Span, lhs: NodeModel) -> StateModel {
    match lhs.expr {
        ExprModel::Reference(name) => match resolve_scope(m.contexts, m.current, name) {
            Some(s) => match find_def(m.contexts[s].defs, name) {
                Some(j) => match m.contexts[s].defs[j] {
                    DefModel::Var { span: dspan, name: dname, defined, used, callable } => {
                        update_def(
                            m,
                            s,
                            j,
                            DefModel::Var {
                                span: dspan,
                                name: dname,
                                defined: true,
                                used,
                                callable,
                            },
                        )
                    },
                    DefModel::Func { .. } => m,
                },
                None => m,  // unreachable when the resolved scope is well formed
            },
            None => push_error(m, ErrorModel::UsingUndefinedVariable { name, span }),
        },
        _ => m,
    }
}

/// The state with `d` bound in the current scope.
pub open spec fn define_model(m: StateModel, d: DefModel) -> StateModel {
    StateModel {
        contexts: m.contexts.update(
            m.current,
            ContextModel {
                defs: insert_def(m.contexts[m.current].defs, d),
                ..m.contexts[m.current]
            },
        ),
        ..m
    }
}

/// A variable declaration: bound in the current scope; defined iff it has an
/// initializer, callable iff that initializer is a function expression.
pub open spec fn var_def_model(
    m: StateModel,
    span: Span,
    name: Seq<char>,
    value: Option<Box<NodeModel>>,
) -> StateModel {
    define_model(
        m,
        DefModel::Var {
            span,
            name,
            defined: value is Some,
            used: false,
            callable: match value {
                Some(v) => v.expr is Function,
                None => false,
            },
        },
    )
}

/// A function expression: its definition is bound in the enclosing scope (so
/// siblings see it regardless of order), then a child scope pre-bound with
/// the parameters is opened and becomes current.
pub open spec fn fn_def_model(
    m: StateModel,
    span: Span,
    name: Seq<char>,
    params: Seq<Seq<char>>,
) -> StateModel {
    let cur = m.current;
    let fresh = m.contexts.len() as int;
    let child = ContextModel {
        name,
        parent: Some(cur),
        children: Seq::empty(),
        defs: param_defs(Seq::empty(), span, params),
    };
    let enclosing = ContextModel {
        defs: insert_def(
            m.contexts[cur].defs,
            DefModel::Func { span, name, arity: params.len() },
        ),
        children: m.contexts[cur].children.push(fresh),
        ..m.contexts[cur]
    };
    StateModel { contexts: m.contexts.update(cur, enclosing).push(child), current: fresh, ..m }
}

/// One *observe* event of the traversal protocol.
pub open spec fn observe_model(m: StateModel, span: Span, e: ExprModel) -> StateModel {
    match e {
        ExprModel::VariableDef { name, value } => var_def_model(m, span, name, value),
        ExprModel::Reference(name) => reference_model(m, span, name),
        ExprModel::Function { name, params, .. } => fn_def_model(m, span, name, params),
        ExprModel::Call { name, args } => call_model(m, span, name, args.len()),
        ExprModel::BinOp { op: BinOp::Assign, lhs, .. } => assign_model(m, span, *lhs),
        _ => m,
    }
}

/// One *backtrack* event: leaving a finished function body moves the current
/// scope back to its parent; every other node shares the enclosing scope.
pub open spec fn backtrack_model(m: StateModel, from: ExprModel) -> StateModel {
    if from is Function {
        if 0 <= m.current < m.contexts.len() {
            match m.contexts[m.current].parent {
                Some(p) => StateModel { current: p, ..m },
                None => m,
            }
        } else {
            m
        }
    } else {
        m
    }
}

/// The diagnostic a single binding contributes to the unused-variable sweep:
/// one `UnusedVariable` for a never-used variable, nothing otherwise.
pub open spec fn unused_one(d: DefModel) -> Seq<ErrorModel> {
    match d {
        DefModel::Var { span, name, used: false, .. } => seq![
            ErrorModel::UnusedVariable { name, span },
        ],
        _ => Seq::empty(),
    }
}

/// One `UnusedVariable` diagnostic per never-used variable of one scope, in
/// binding order.
pub open spec fn unused_errors(defs: Seq<DefModel>) -> Seq<ErrorModel>
    decreases defs.len(),
{
    if defs.len() == 0 {
        Seq::empty()
    } else {
        unused_one(defs[0]) + unused_errors(defs.drop_first())
    }
}

/// The unused-variable diagnostics of the subtree rooted at scope `i`,
/// depth first: this scope's own, then each child subtree in order.
pub open spec fn sweep(ctxs: Seq<ContextModel>, i: int) -> Seq<ErrorModel>
    decreases ctxs.len() - i, ctxs[i].children.len() + 1,
{
    if 0 <= i < ctxs.len() {
        unused_errors(ctxs[i].defs) + sweep_children(ctxs, ctxs[i].children, i)
    } else {
        Seq::empty()
    }
}

/// The concatenated sweeps of the child subtrees `cs` of scope `i`.
pub open spec fn sweep_children(ctxs: Seq<ContextModel>, cs: Seq<int>, i: int) -> Seq<ErrorModel>
    decreases ctxs.len() - i, cs.len(),
{
    if cs.len() == 0 {
        Seq::empty()
    } else {
        (if i < cs[0] < ctxs.len() {
            sweep(ctxs, cs[0])
        } else {
            Seq::empty()
        }) + sweep_children(ctxs, cs.drop_first(), i)
    }
}

/// The pre-order traversal of one node: observe it, then walk the child
/// subtrees the protocol walks, with a backtrack event after each child edge.
pub open spec fn trav_node(m: StateModel, n: NodeModel) -> StateModel
    decreases n,
{
    let m1 = observe_model(m, n.span, n.expr);
    match n.expr {
        ExprModel::Call { args, .. } => trav_seq(m1, args),
        ExprModel::Function { body, .. } => trav_seq(m1, body),
        ExprModel::VariableDef { value: Some(v), .. } => backtrack_model(
            trav_node(m1, *v),
            v.expr,
        ),
        ExprModel::VariableDef { value: None, .. } => m1,
        ExprModel::Block(exprs) => trav_seq(m1, exprs),
        ExprModel::BinOp { lhs, rhs, .. } => {
            let m2 = backtrack_model(trav_node(m1, *lhs), lhs.expr);
            backtrack_model(trav_node(m2, *rhs), rhs.expr)
        },
        _ => m1,
    }
}

/// Traverse a list of sibling subtrees in order.
pub open spec fn trav_seq(m: StateModel, nodes: Seq<NodeModel>) -> StateModel
    decreases nodes,
{
    if nodes.len() == 0 {
        m
    } else {
        trav_seq(
            backtrack_model(trav_node(m, nodes[0]), nodes[0].expr),
            nodes.drop_first(),
        )
    }
}

/// The root scope, before anything is observed. Its label is a marker, never
/// read by the analysis.
pub open spec fn root_context() -> ContextModel {
    ContextModel { name: ":root"@, parent: None, children: Seq::empty(), defs: Seq::empty() }
}

/// A fresh analyser: one root scope, current, with no diagnostics.
pub open spec fn init_state() -> StateModel {
    StateModel { contexts: seq![root_context()], current: 0, errors: Seq::empty() }
}

/// The terminal *done* event: the unused-variable sweep of the whole tree is
/// appended after all declaration-order diagnostics.
pub open spec fn done_model(m: StateModel) -> StateModel {
    StateModel { errors: m.errors + sweep(m.contexts, 0), ..m }
}

/// Every diagnostic of one whole analysis of the tree rooted at `n`, in
/// order. This is the specification the executable analyser is proved
/// against, and it is a function of the tree's model alone.
pub open spec fn analysis_model(n: NodeModel) -> Seq<ErrorModel> {
    done_model(trav_node(init_state(), n)).errors
}

/// The models of a scope's bindings, in order.
pub open spec fn defs_view(s: Seq<Def>) -> Seq<DefModel> {
    s.map_values(|d: Def| d@)
}

/// The models of the emitted diagnostics, in order.
pub open spec fn errors_view(s: Seq<Error>) -> Seq<ErrorModel> {
    s.map_values(|e: Error| e@)
}

/// One lexical scope held in the arena: its diagnostic label, its parent and
/// children by arena index, and its bindings.
struct Context {
    name: String,
    parent: Option<usize>,
    children: Vec<usize>,
    defs: Vec<Def>,
}

impl View for Context {
    type V = ContextModel;

    closed spec fn view(&self) -> ContextModel {
        ContextModel {
            name: self.name@,
            parent: match self.parent {
                Some(p) => Some(p as int),
                None => None,
            },
            children: self.children@.map_values(|c: usize| c as int),
            defs: defs_view(self.defs@),
        }
    }
}

/// The analyser: a scope arena rooted at index 0, the current scope, and the
/// diagnostics emitted so far, in order.
pub struct StaticAnalyser {
    errors: Vec<Error>,
    contexts: Vec<Context>,
    current: usize,
}

impl View for StaticAnalyser {
    type V = StateModel;

    closed spec fn view(&self) -> StateModel {
        StateModel {
            contexts: self.contexts@.map_values(|c: Context| c@),
            current: self.current as int,
            errors: errors_view(self.errors@),
        }
    }
}

/// `find_def` returns the first binding of the name, and `None` only when no
/// binding carries it.
pub proof fn lemma_find_def_spec(defs: Seq<DefModel>, name: Seq<char>)
    ensures
        match find_def(defs, name) {
            Some(j) => 0 <= j < defs.len() && def_name(defs[j]) == name && (forall|k: int|
                0 <= k < j ==> def_name(#[trigger] defs[k]) != name),
            None => forall|k: int| 0 <= k < defs.len() ==> def_name(#[trigger] defs[k]) != name,
        },
    decreases defs.len(),
{
    if defs.len() > 0 && def_name(defs[0]) != name {
        lemma_find_def_spec(defs.drop_first(), name);
        assert forall|k: int| 1 <= k < defs.len() implies defs.drop_first()[k - 1] == defs[k] by {}
    }
}

/// `find_def` is determined by where the first matching name sits.
proof fn lemma_find_def_at(defs: Seq<DefModel>, name: Seq<char>, j: int)
    requires
        0 <= j < defs.len(),
        def_name(defs[j]) == name,
        forall|k: int| 0 <= k < j ==> def_name(#[trigger] defs[k]) != name,
    ensures
        find_def(defs, name) == Some(j),
{
    lemma_find_def_spec(defs, name);
    match find_def(defs, name) {
        Some(j2) => {
            if j2 < j {
                assert(def_name(defs[j2]) != name);
            }
            if j < j2 {
                assert(def_name(defs[j]) != name);
            }
        },
        None => {
            assert(def_name(defs[j]) != name);
        },
    }
}

/// Inserting keeps the names of a scope's bindings unique.
proof fn lemma_insert_def_unique(defs: Seq<DefModel>, d: DefModel)
    requires
        defs_unique(defs),
    ensures
        defs_unique(insert_def(defs, d)),
{
    lemma_find_def_spec(defs, def_name(d));
    match find_def(defs, def_name(d)) {
        Some(j) => {
            assert forall|a: int, b: int|
                0 <= a < b < insert_def(defs, d).len() implies def_name(
                insert_def(defs, d)[a],
            ) != def_name(insert_def(defs, d)[b]) by {
                assert(def_name(defs[j]) == def_name(d));
            }
        },
        None => {
            assert forall|a: int, b: int|
                0 <= a < b < insert_def(defs, d).len() implies def_name(
                insert_def(defs, d)[a],
            ) != def_name(insert_def(defs, d)[b]) by {
                if b == defs.len() {
                    assert(def_name(defs[a]) != def_name(d));
                }
            }
        },
    }
}

/// A resolved scope is in range and holds a binding of the name.
pub proof fn lemma_resolve_scope_spec(ctxs: Seq<ContextModel>, cur: int, name: Seq<char>)
    ensures
        match resolve_scope(ctxs, cur, name) {
            Some(s) => 0 <= s < ctxs.len() && find_def(ctxs[s].defs, name) is Some,
            None => true,
        },
    decreases cur,
{
    if 0 <= cur < ctxs.len() && find_def(ctxs[cur].defs, name) is None {
        match ctxs[cur].parent {
            Some(p) => {
                if 0 <= p < cur {
                    lemma_resolve_scope_spec(ctxs, p, name);
                }
            },
            None => {},
        }
    }
}

/// Replacing a binding with one of the same name keeps the state well
/// formed.
proof fn lemma_update_def_wf(m: StateModel, s: int, j: int, d: DefModel)
    requires
        wf_state(m),
        0 <= s < m.contexts.len(),
        0 <= j < m.contexts[s].defs.len(),
        def_name(d) == def_name(m.contexts[s].defs[j]),
    ensures
        wf_state(update_def(m, s, j, d)),
{
    let m2 = update_def(m, s, j, d);
    assert forall|i: int| 0 <= i < m2.contexts.len() implies #[trigger] wf_ctx(m2.contexts, i) by {
        assert(wf_ctx(m.contexts, i));
        assert(m2.contexts[i].parent == m.contexts[i].parent);
        assert(m2.contexts[i].children == m.contexts[i].children);
        if i == s {
            let old_defs = m.contexts[s].defs;
            let new_defs = m2.contexts[s].defs;
            assert forall|a: int, b: int| 0 <= a < b < new_defs.len() implies def_name(
                #[trigger] new_defs[a],
            ) != def_name(#[trigger] new_defs[b]) by {
                assert(def_name(new_defs[a]) == def_name(old_defs[a]));
                assert(def_name(new_defs[b]) == def_name(old_defs[b]));
            }
        } else {
            assert(m2.contexts[i].defs == m.contexts[i].defs);
        }
        if i > 0 {
            let p = m.contexts[i].parent->0;
            assert(m2.contexts[p].children == m.contexts[p].children);
        }
    }
}

impl StaticAnalyser {
    /// The analyser's invariant holds.
    pub open spec fn wf(&self) -> bool {
        wf_state(self@)
    }

    /// A fresh analyser: a single root scope, no diagnostics.
    pub fn new() -> (s: Self)
        ensures
            s.wf(),
            s@ == init_state(),
    {
        let root = Context {
            name: ":root".to_string(),
            parent: None,
            children: Vec::new(),
            defs: Vec::new(),
        };
        let mut contexts: Vec<Context> = Vec::new();
        contexts.push(root);
        let s = StaticAnalyser { errors: Vec::new(), contexts, current: 0 };
        proof {
            assert(s@.contexts[0] =~= root_context());
            assert(s@ =~= init_state());
            assert forall|i: int| 0 <= i < s@.contexts.len() implies #[trigger] wf_ctx(
                s@.contexts,
                i,
            ) by {}
        }
        s
    }

    /// The diagnostics emitted so far, in order.
    pub fn errors(&self) -> (r: &Vec<Error>)
        ensures
            errors_view(r@) == self@.errors,
    {
        &self.errors
    }

    /// The index of the nearest enclosing scope binding `name`, walking the
    /// parent chain from the current scope.
    fn resolve(&self, name: &String) -> (r: Option<usize>)
        requires
            self.wf(),
        ensures
            match r {
                Some(s) => s < self@.contexts.len() && resolve_scope(
                    self@.contexts,
                    self@.current,
                    name@,
                ) == Some(s as int),
                None => resolve_scope(self@.contexts, self@.current, name@) is None,
            },
    {
        let mut cur = self.current;
        loop
            invariant
                self.wf(),
                cur < self.contexts.len(),
                resolve_scope(self@.contexts, self@.current, name@) == resolve_scope(
                    self@.contexts,
                    cur as int,
                    name@,
                ),
            decreases cur,
        {
            let found = find_in_defs(&self.contexts[cur].defs, name);
            if found.is_some() {
                return Some(cur);
            }
            proof {
                assert(wf_ctx(self@.contexts, cur as int));
            }
            match self.contexts[cur].parent {
                Some(p) => {
                    cur = p;
                },
                None => {
                    return None;
                },
            }
        }
    }
}

/// Parameter pre-binding keeps a scope's binding names unique.
proof fn lemma_param_defs_unique(defs: Seq<DefModel>, span: Span, params: Seq<Seq<char>>)
    requires
        defs_unique(defs),
    ensures
        defs_unique(param_defs(defs, span, params)),
    decreases params.len(),
{
    if params.len() > 0 {
        let d = DefModel::Var {
            span,
            name: params[0],
            defined: true,
            used: false,
            callable: true,
        };
        lemma_insert_def_unique(defs, d);
        lemma_param_defs_unique(insert_def(defs, d), span, params.drop_first());
    }
}

/// Binding a definition in the current scope keeps the state well formed.
proof fn lemma_define_wf(m: StateModel, d: DefModel)
    requires
        wf_state(m),
    ensures
        wf_state(define_model(m, d)),
{
    let m2 = define_model(m, d);
    assert(wf_ctx(m.contexts, m.current));
    lemma_insert_def_unique(m.contexts[m.current].defs, d);
    assert forall|i: int| 0 <= i < m2.contexts.len() implies #[trigger] wf_ctx(m2.contexts, i) by {
        assert(wf_ctx(m.contexts, i));
        assert(m2.contexts[i].parent == m.contexts[i].parent);
        assert(m2.contexts[i].children == m.contexts[i].children);
        if i != m.current {
            assert(m2.contexts[i].defs == m.contexts[i].defs);
        }
        if i > 0 {
            let p = m.contexts[i].parent->0;
            assert(m2.contexts[p].children == m.contexts[p].children);
        }
    }
}

/// Opening a function's child scope keeps the state well formed.
proof fn lemma_fn_def_wf(m: StateModel, span: Span, name: Seq<char>, params: Seq<Seq<char>>)
    requires
        wf_state(m),
    ensures
        wf_state(fn_def_model(m, span, name, params)),
{
    let m2 = fn_def_model(m, span, name, params);
    let cur = m.current;
    let fresh = m.contexts.len() as int;
    assert(wf_ctx(m.contexts, cur));
    lemma_insert_def_unique(m.contexts[cur].defs, DefModel::Func { span, name, arity: params.len() });
    assert(defs_unique(Seq::<DefModel>::empty()));
    lemma_param_defs_unique(Seq::empty(), span, params);
    assert forall|i: int| 0 <= i < m2.contexts.len() implies #[trigger] wf_ctx(m2.contexts, i) by {
        if i < fresh {
            assert(wf_ctx(m.contexts, i));
            assert(m2.contexts[i].parent == m.contexts[i].parent);
            if i != cur {
                assert(m2.contexts[i].defs == m.contexts[i].defs);
                assert(m2.contexts[i].children == m.contexts[i].children);
            }
            // children still point at scopes whose parent is i
            assert forall|k: int|
                0 <= k < m2.contexts[i].children.len() implies i < #[trigger] m2.contexts[i].children[k]
                < m2.contexts.len() && m2.contexts[m2.contexts[i].children[k]].parent == Some(i) by {
                if i == cur && k == m.contexts[cur].children.len() {
                    assert(m2.contexts[i].children[k] == fresh);
                    assert(m2.contexts[fresh].parent == Some(cur));
                } else {
                    let c = m.contexts[i].children[k];
                    assert(i < c < m.contexts.len());
                    assert(m2.contexts[c].parent == m.contexts[c].parent);
                }
            }
            // a non-root scope is still listed by its parent
            if i > 0 {
                let p = m.contexts[i].parent->0;
                let k = choose|k: int|
                    0 <= k < m.contexts[p].children.len() && m.contexts[p].children[k] == i;
                assert(m2.contexts[p].children[k] == i);
                assert(m2.contexts[p].children.contains(i));
            }
        } else {
            // the fresh child scope
            assert(m2.contexts[i] == fn_def_child(m, span, name, params));
            assert(m2.contexts[cur].children[m.contexts[cur].children.len() as int] == fresh);
            assert(m2.contexts[cur].children.contains(fresh));
        }
    }
}

/// The child scope that `fn_def_model` opens.
spec fn fn_def_child(
    m: StateModel,
    span: Span,
    name: Seq<char>,
    params: Seq<Seq<char>>,
) -> ContextModel {
    ContextModel {
        name,
        parent: Some(m.current),
        children: Seq::empty(),
        defs: param_defs(Seq::empty(), span, params),
    }
}

impl StaticAnalyser {
    /// Replace definition `j` of scope `s`.
    fn set_def(&mut self, s: usize, j: usize, d: Def)
        requires
            s < old(self)@.contexts.len(),
            j < old(self)@.contexts[s as int].defs.len(),
        ensures
            final(self)@ == update_def(old(self)@, s as int, j as int, d@),
    {
        let ctx = &mut self.contexts[s];
        ctx.defs[j] = d;
        proof {
            let mv = update_def(old(self)@, s as int, j as int, d@);
            assert(self@.contexts[s as int].defs =~= mv.contexts[s as int].defs);
            assert(self@.contexts[s as int] =~= mv.contexts[s as int]);
            assert(self@.contexts =~= mv.contexts);
            assert(self@ =~= mv);
        }
    }

    /// Record `c` as the next child of scope `s`.
    fn push_child(&mut self, s: usize, c: usize)
        requires
            s < old(self)@.contexts.len(),
        ensures
            final(self)@ == (StateModel {
                contexts: old(self)@.contexts.update(
                    s as int,
                    ContextModel {
                        children: old(self)@.contexts[s as int].children.push(c as int),
                        ..old(self)@.contexts[s as int]
                    },
                ),
                ..old(self)@
            }),
    {
        let ctx = &mut self.contexts[s];
        ctx.children.push(c);
        proof {
            let mv = StateModel {
                contexts: old(self)@.contexts.update(
                    s as int,
                    ContextModel {
                        children: old(self)@.contexts[s as int].children.push(c as int),
                        ..old(self)@.contexts[s as int]
                    },
                ),
                ..old(self)@
            };
            assert(self@.contexts[s as int].children =~= mv.contexts[s as int].children);
            assert(self@.contexts[s as int] =~= mv.contexts[s as int]);
            assert(self@.contexts =~= mv.contexts);
            assert(self@ =~= mv);
        }
    }

    /// Append a scope to the arena.
    fn push_context(&mut self, c: Context)
        ensures
            final(self)@ == (StateModel {
                contexts: old(self)@.contexts.push(c@),
                ..old(self)@
            }),
    {
        self.contexts.push(c);
        proof {
            let mv = StateModel { contexts: old(self)@.contexts.push(c@), ..old(self)@ };
            assert(self@.contexts =~= mv.contexts);
            assert(self@ =~= mv);
        }
    }

    /// Append one diagnostic.
    fn push_err(&mut self, e: Error)
        ensures
            final(self)@ == push_error(old(self)@, e@),
    {
        self.errors.push(e);
        proof {
            let mv = push_error(old(self)@, e@);
            assert(self@.errors =~= mv.errors);
            assert(self@ =~= mv);
        }
    }

    /// Bind `d` in the current scope, overwriting a same-named binding.
    fn define(&mut self, d: Def)
        requires
            old(self).wf(),
        ensures
            final(self).wf(),
            final(self)@ == define_model(old(self)@, d@),
    {
        let cur = self.current;
        let ctx = &mut self.contexts[cur];
        insert_def_vec(&mut ctx.defs, d);
        proof {
            let mv = define_model(old(self)@, d@);
            assert(self@.contexts[cur as int] =~= mv.contexts[cur as int]);
            assert(self@.contexts =~= mv.contexts);
            assert(self@ =~= mv);
            lemma_define_wf(old(self)@, d@);
        }
    }

    /// Handle a variable declaration.
    fn observe_var_def(&mut self, span: &Span, name: &String, value: &Option<AstNode>)
        requires
            old(self).wf(),
        ensures
            final(self).wf(),
            final(self)@ == var_def_model(old(self)@, *span, name@, opt_node_view(*value)),
    {
        let defined = value.is_some();
        let callable = match value {
            Some(v) => matches!(&*v.expr, Ast::FunctionExpr { .. }),
            None => false,
        };
        proof {
            match value {
                Some(v) => {
                    assert(opt_node_view(*value) matches Some(b) && b.expr == expr_view(*v.expr));
                },
                None => {},
            }
        }
        let d = Def::Var { span: *span, name: name.clone(), defined, used: false, callable };
        self.define(d);
    }

    /// Handle a reference to a name used as a value.
    fn observe_reference(&mut self, span: &Span, name: &String)
        requires
            old(self).wf(),
        ensures
            final(self).wf(),
            final(self)@ == reference_model(old(self)@, *span, name@),
    {
        match self.resolve(name) {
            Some(s) => {
                proof {
                    lemma_resolve_scope_spec(self@.contexts, self@.current, name@);
                }
                let j = find_in_defs(&self.contexts[s].defs, name).unwrap();
                proof {
                    assert(self@.contexts[s as int].defs[j as int] == self.contexts@[s as int].defs@[j as int]@);
                }
                let nd: Option<(Def, bool)> = match &self.contexts[s].defs[j] {
                    Def::Var { span: dspan, name: dname, defined, used: _, callable } => Some(
                        (
                            Def::Var {
                                span: *dspan,
                                name: dname.clone(),
                                defined: *defined,
                                used: true,
                                callable: *callable,
                            },
                            *defined,
                        ),
                    ),
                    Def::Fn { .. } => None,
                };
                match nd {
                    Some((nd, defined)) => {
                        proof {
                            lemma_update_def_wf(self@, s as int, j as int, nd@);
                        }
                        self.set_def(s, j, nd);
                        if !defined {
                            self.push_err(
                                Error::UsingUndefinedVariable { name: name.clone(), span: *span },
                            );
                        }
                    },
                    None => {
                        self.push_err(
                            Error::UsingUndefinedVariable { name: name.clone(), span: *span },
                        );
                    },
                }
            },
            None => {
                self.push_err(Error::UsingUndefinedVariable { name: name.clone(), span: *span });
            },
        }
    }

    /// Handle a call of a named target with `nargs` arguments.
    fn observe_call(&mut self, span: &Span, name: &String, nargs: usize)
        requires
            old(self).wf(),
        ensures
            final(self).wf(),
            final(self)@ == call_model(old(self)@, *span, name@, nargs as nat),
    {
        match self.resolve(name) {
            Some(s) => {
                proof {
                    lemma_resolve_scope_spec(self@.contexts, self@.current, name@);
                }
                let j = find_in_defs(&self.contexts[s].defs, name).unwrap();
                proof {
                    assert(self@.contexts[s as int].defs[j as int] == self.contexts@[s as int].defs@[j as int]@);
                }
                let outcome = match &self.contexts[s].defs[j] {
                    Def::Fn { args, .. } => CallOutcome::Arity(*args),
                    Def::Var { span: dspan, name: dname, defined, used: _, callable } => {
                        if *callable {
                            CallOutcome::MarkUsed(
                                Def::Var {
                                    span: *dspan,
                                    name: dname.clone(),
                                    defined: *defined,
                                    used: true,
                                    callable: true,
                                },
                            )
                        } else {
                            CallOutcome::NotCallable
                        }
                    },
                };
                match outcome {
                    CallOutcome::Arity(a) => {
                        if nargs != a {
                            self.push_err(
                                Error::WrongNumberOfArguments { name: name.clone(), span: *span },
                            );
                        }
                    },
                    CallOutcome::MarkUsed(nd) => {
                        proof {
                            lemma_update_def_wf(self@, s as int, j as int, nd@);
                        }
                        self.set_def(s, j, nd);
                    },
                    CallOutcome::NotCallable => {
                        self.push_err(
                            Error::CallingUndefinedFunction { name: name.clone(), span: *span },
                        );
                    },
                }
            },
            None => {
                self.push_err(Error::CallingUndefinedFunction { name: name.clone(), span: *span });
            },
        }
    }

    /// Handle an assignment node.
    fn observe_assign(&mut self, span: &Span, lhs: &AstNode)
        requires
            old(self).wf(),
        ensures
            final(self).wf(),
            final(self)@ == assign_model(old(self)@, *span, node_view(*lhs)),
    {
        match &*lhs.expr {
            Ast::ReferenceExpr(name) => {
                match self.resolve(name) {
                    Some(s) => {
                        proof {
                            lemma_resolve_scope_spec(self@.contexts, self@.current, name@);
                        }
                        let j = find_in_defs(&self.contexts[s].defs, name).unwrap();
                        proof {
                            assert(self@.contexts[s as int].defs[j as int] == self.contexts@[s as int].defs@[j as int]@);
                        }
                        let nd: Option<Def> = match &self.contexts[s].defs[j] {
                            Def::Var { span: dspan, name: dname, defined: _, used, callable } => Some(
                                Def::Var {
                                    span: *dspan,
                                    name: dname.clone(),
                                    defined: true,
                                    used: *used,
                                    callable: *callable,
                                },
                            ),
                            Def::Fn { .. } => None,
                        };
                        match nd {
                            Some(nd) => {
                                proof {
                                    lemma_update_def_wf(self@, s as int, j as int, nd@);
                                }
                                self.set_def(s, j, nd);
                            },
                            None => {},
                        }
                    },
                    None => {
                        self.push_err(
                            Error::UsingUndefinedVariable { name: name.clone(), span: *span },
                        );
                    },
                }
            },
            _ => {},
        }
    }

    /// Handle a function expression: bind it in the enclosing scope, then
    /// open its body's scope, pre-bound with the parameters.
    fn observe_fn_expr(&mut self, span: &Span, name: &String, params: &Vec<String>)
        requires
            old(self).wf(),
        ensures
            final(self).wf(),
            final(self)@ == fn_def_model(old(self)@, *span, name@, strings_view(params@)),
    {
        let ghost pv = strings_view(params@);
        let mut cdefs: Vec<Def> = Vec::new();
        proof {
            assert(defs_view(cdefs@) =~= Seq::<DefModel>::empty());
            assert(pv.skip(0) =~= pv);
        }
        let mut k: usize = 0;
        while k < params.len()
            invariant
                k <= params@.len(),
                pv == strings_view(params@),
                param_defs(defs_view(cdefs@), *span, pv.skip(k as int)) == param_defs(
                    Seq::empty(),
                    *span,
                    pv,
                ),
            decreases params@.len() - k,
        {
            let d = Def::Var {
                span: *span,
                name: params[k].clone(),
                defined: true,
                used: false,
                callable: true,
            };
            proof {
                assert(pv.skip(k as int)[0] == params@[k as int]@);
                assert(pv.skip(k as int).drop_first() =~= pv.skip(k as int + 1));
            }
            insert_def_vec(&mut cdefs, d);
            k += 1;
        }
        proof {
            assert(pv.skip(params@.len() as int) =~= Seq::<Seq<char>>::empty());
            assert(defs_view(cdefs@) == param_defs(Seq::empty(), *span, pv));
        }
        let cur = self.current;
        let fresh = self.contexts.len();
        proof {
            lemma_fn_def_wf(self@, *span, name@, pv);
        }
        self.define(Def::Fn { span: *span, name: name.clone(), args: params.len() });
        let child = Context {
            name: name.clone(),
            parent: Some(cur),
            children: Vec::new(),
            defs: cdefs,
        };
        self.push_child(cur, fresh);
        self.push_context(child);
        self.current = fresh;
        proof {
            let mv = fn_def_model(old(self)@, *span, name@, pv);
            assert(self@.contexts[cur as int].defs =~= mv.contexts[cur as int].defs);
            assert(self@.contexts[cur as int].children =~= mv.contexts[cur as int].children);
            assert(self@.contexts[cur as int] =~= mv.contexts[cur as int]);
            assert(self@.contexts[fresh as int] =~= mv.contexts[fresh as int]);
            assert(self@.contexts =~= mv.contexts);
            assert(self@ =~= mv);
        }
    }

    /// One *backtrack* event: a finished function body hands the current
    /// scope back to its parent; every other finished child changes nothing.
    /// Leaving a scope with no parent is a protocol violation of the
    /// traversal driver and is ruled out by the precondition.
    pub fn backtrack(&mut self, from: &Ast, _to: &Ast)
        requires
            old(self).wf(),
            expr_view(*from) is Function ==> old(self)@.contexts[old(self)@.current].parent
                is Some,
        ensures
            final(self).wf(),
            final(self)@ == backtrack_model(old(self)@, expr_view(*from)),
    {
        match from {
            Ast::FunctionExpr { .. } => {
                let cur = self.current;
                proof {
                    assert(self@.contexts[cur as int] == self.contexts@[cur as int]@);
                    assert(wf_ctx(self@.contexts, cur as int));
                }
                match self.contexts[cur].parent {
                    Some(p) => {
                        self.current = p;
                        proof {
                            assert(self@ =~= backtrack_model(old(self)@, expr_view(*from)));
                        }
                    },
                    None => {
                        proof {
                            assert(false);
                        }
                    },
                }
            },
            _ => {},
        }
    }

    /// Collect the unused-variable diagnostics of the subtree rooted at
    /// scope `i`, depth first.
    fn all_unused(&self, i: usize) -> (r: Vec<Error>)
        requires
            self.wf(),
            i < self@.contexts.len(),
        ensures
            errors_view(r@) == sweep(self@.contexts, i as int),
        decreases self@.contexts.len() - i,
    {
        proof {
            assert(wf_ctx(self@.contexts, i as int));
            assert(self@.contexts[i as int] == self.contexts@[i as int]@);
        }
        let mut r: Vec<Error> = Vec::new();
        proof {
            assert(errors_view(r@) =~= Seq::<ErrorModel>::empty());
        }
        let ghost dv = self@.contexts[i as int].defs;
        let n = self.contexts[i].defs.len();
        let mut k: usize = 0;
        proof {
            assert(dv.take(0) =~= Seq::<DefModel>::empty());
        }
        while k < n
            invariant
                k <= n,
                n == self.contexts@[i as int].defs@.len(),
                i < self.contexts@.len(),
                dv == defs_view(self.contexts@[i as int].defs@),
                errors_view(r@) == unused_errors(dv.take(k as int)),
            decreases n - k,
        {
            proof {
                assert(dv.take(k as int + 1) =~= dv.take(k as int).push(dv[k as int]));
                lemma_unused_errors_push(dv.take(k as int), dv[k as int]);
                assert(dv[k as int] == self.contexts@[i as int].defs@[k as int]@);
            }
            let ghost r0 = r@;
            match &self.contexts[i].defs[k] {
                Def::Var { span, name, used: false, .. } => {
                    r.push(Error::UnusedVariable { name: name.clone(), span: *span });
                    proof {
                        assert(errors_view(r@) =~= errors_view(r0) + unused_one(dv[k as int]));
                    }
                },
                _ => {
                    proof {
                        assert(errors_view(r@) =~= errors_view(r0) + unused_one(dv[k as int]));
                    }
                },
            }
            k += 1;
        }
        proof {
            assert(dv.take(n as int) =~= dv);
        }
        let ghost cv = self@.contexts[i as int].children;
        let nc = self.contexts[i].children.len();
        let mut k2: usize = 0;
        proof {
            assert(cv.take(0) =~= Seq::<int>::empty());
        }
        while k2 < nc
            invariant
                self.wf(),
                k2 <= nc,
                i < self.contexts@.len(),
                nc == self.contexts@[i as int].children@.len(),
                dv == defs_view(self.contexts@[i as int].defs@),
                cv == self@.contexts[i as int].children,
                errors_view(r@) == unused_errors(dv) + sweep_children(
                    self@.contexts,
                    cv.take(k2 as int),
                    i as int,
                ),
            decreases nc - k2,
        {
            proof {
                assert(wf_ctx(self@.contexts, i as int));
                assert(cv.take(k2 as int + 1) =~= cv.take(k2 as int).push(cv[k2 as int]));
                lemma_sweep_children_push(self@.contexts, cv.take(k2 as int), i as int, cv[k2 as int]);
            }
            let c = self.contexts[i].children[k2];
            proof {
                assert(cv[k2 as int] == c as int);
            }
            let ghost r0 = r@;
            let mut sub = self.all_unused(c);
            let ghost s0 = sub@;
            r.append(&mut sub);
            proof {
                assert(errors_view(r@) =~= errors_view(r0) + errors_view(s0));
            }
            k2 += 1;
        }
        proof {
            assert(cv.take(nc as int) =~= cv);
        }
        r
    }

    /// The terminal *done* event: append one `UnusedVariable` diagnostic per
    /// never-used variable anywhere in the scope tree, depth first.
    pub fn done(&mut self)
        requires
            old(self).wf(),
        ensures
            final(self).wf(),
            final(self)@ == done_model(old(self)@),
    {
        let mut unused = self.all_unused(0);
        let ghost u0 = unused@;
        let ghost e0 = self@.errors;
        self.errors.append(&mut unused);
        proof {
            assert(errors_view(self.errors@) =~= e0 + errors_view(u0));
            assert(self@ =~= done_model(old(self)@));
        }
    }

    /// One *observe* event: dispatch on the node's contents. The current
    /// scope changes only for a function expression, which opens its body's
    /// scope.
    pub fn observe(&mut self, span: &Span, ast: &Ast)
        requires
            old(self).wf(),
        ensures
            final(self).wf(),
            final(self)@ == observe_model(old(self)@, *span, expr_view(*ast)),
    {
        match ast {
            Ast::VariableDef { name, value } => self.observe_var_def(span, name, value),
            Ast::ReferenceExpr(name) => self.observe_reference(span, name),
            Ast::FunctionExpr { name, params, .. } => self.observe_fn_expr(span, name, params),
            Ast::FunctionCall { name, args } => {
                proof {
                    lemma_nodes_view(args@);
                }
                self.observe_call(span, name, args.len());
            },
            Ast::BinOp { op: BinOp::Assign, lhs, .. } => self.observe_assign(span, lhs),
            _ => {},
        }
    }
}

/// The sweep of one scope grows by one binding's contribution at a time.
proof fn lemma_unused_errors_push(s: Seq<DefModel>, x: DefModel)
    ensures
        unused_errors(s.push(x)) == unused_errors(s) + unused_one(x),
    decreases s.len(),
{
    if s.len() == 0 {
        assert(s.push(x).drop_first() =~= Seq::<DefModel>::empty());
        assert(s.push(x)[0] == x);
        assert(unused_errors(s.push(x)) == unused_one(x) + unused_errors(
            Seq::<DefModel>::empty(),
        ));
        assert(unused_one(x) + Seq::<ErrorModel>::empty() =~= unused_one(x));
        assert(unused_errors(s) + unused_one(x) =~= unused_one(x));
    } else {
        assert(s.push(x).drop_first() =~= s.drop_first().push(x));
        lemma_unused_errors_push(s.drop_first(), x);
        assert(unused_one(s[0]) + (unused_errors(s.drop_first()) + unused_one(x)) =~= (unused_one(
            s[0],
        ) + unused_errors(s.drop_first())) + unused_one(x));
    }
}

/// The sweep of a scope's children grows by one child subtree at a time.
proof fn lemma_sweep_children_push(ctxs: Seq<ContextModel>, cs: Seq<int>, i: int, c: int)
    ensures
        sweep_children(ctxs, cs.push(c), i) == sweep_children(ctxs, cs, i) + (if i < c
            < ctxs.len() {
            sweep(ctxs, c)
        } else {
            Seq::empty()
        }),
    decreases cs.len(),
{
    let tail = if i < c < ctxs.len() {
        sweep(ctxs, c)
    } else {
        Seq::<ErrorModel>::empty()
    };
    if cs.len() == 0 {
        assert(cs.push(c).drop_first() =~= Seq::<int>::empty());
        assert(cs.push(c)[0] == c);
        assert(sweep_children(ctxs, cs.push(c), i) == tail + sweep_children(
            ctxs,
            Seq::<int>::empty(),
            i,
        ));
        assert(tail + Seq::<ErrorModel>::empty() =~= tail);
        assert(sweep_children(ctxs, cs, i) + tail =~= tail);
    } else {
        assert(cs.push(c).drop_first() =~= cs.drop_first().push(c));
        lemma_sweep_children_push(ctxs, cs.drop_first(), i, c);
        let head = if i < cs[0] < ctxs.len() {
            sweep(ctxs, cs[0])
        } else {
            Seq::<ErrorModel>::empty()
        };
        assert(head + (sweep_children(ctxs, cs.drop_first(), i) + tail) =~= (head + sweep_children(
            ctxs,
            cs.drop_first(),
            i,
        )) + tail);
    }
}

/// Appending one diagnostic leaves the scope tree untouched.
proof fn lemma_push_error_frame(m: StateModel, e: ErrorModel)
    requires
        wf_state(m),
    ensures
        wf_state(push_error(m, e)),
        push_error(m, e).contexts == m.contexts,
        push_error(m, e).current == m.current,
{
}

/// Replacing a binding in place touches nothing but that binding.
proof fn lemma_update_def_frame(m: StateModel, s: int, j: int, d: DefModel)
    requires
        wf_state(m),
        0 <= s < m.contexts.len(),
        0 <= j < m.contexts[s].defs.len(),
        def_name(d) == def_name(m.contexts[s].defs[j]),
    ensures
        wf_state(update_def(m, s, j, d)),
        update_def(m, s, j, d).contexts.len() == m.contexts.len(),
        update_def(m, s, j, d).current == m.current,
        forall|i: int|
            0 <= i < m.contexts.len() ==> (#[trigger] update_def(m, s, j, d).contexts[i]).parent
                == m.contexts[i].parent,
{
    lemma_update_def_wf(m, s, j, d);
}

/// Binding a definition in the current scope touches nothing else.
proof fn lemma_define_frame(m: StateModel, d: DefModel)
    requires
        wf_state(m),
    ensures
        wf_state(define_model(m, d)),
        define_model(m, d).contexts.len() == m.contexts.len(),
        define_model(m, d).current == m.current,
        forall|i: int|
            0 <= i < m.contexts.len() ==> (#[trigger] define_model(m, d).contexts[i]).parent
                == m.contexts[i].parent,
{
    lemma_define_wf(m, d);
}

/// Opening a function's child scope only appends that scope, registers it
/// with its parent, and moves `current` into it.
proof fn lemma_fn_def_frame(m: StateModel, span: Span, name: Seq<char>, params: Seq<Seq<char>>)
    requires
        wf_state(m),
    ensures
        wf_state(fn_def_model(m, span, name, params)),
        fn_def_model(m, span, name, params).contexts.len() == m.contexts.len() + 1,
        fn_def_model(m, span, name, params).current == m.contexts.len(),
        fn_def_model(m, span, name, params).contexts[m.contexts.len() as int].parent == Some(
            m.current,
        ),
        forall|i: int|
            0 <= i < m.contexts.len() ==> (#[trigger] fn_def_model(
                m,
                span,
                name,
                params,
            ).contexts[i]).parent == m.contexts[i].parent,
{
    lemma_fn_def_wf(m, span, name, params);
}

/// One *observe* event keeps the state well formed; only a function
/// expression moves the current scope, into a fresh child of it.
proof fn lemma_observe_frame(m: StateModel, span: Span, e: ExprModel)
    requires
        wf_state(m),
    ensures
        ({
            let m2 = observe_model(m, span, e);
            &&& wf_state(m2)
            &&& m.contexts.len() <= m2.contexts.len()
            &&& forall|i: int|
                0 <= i < m.contexts.len() ==> (#[trigger] m2.contexts[i]).parent
                    == m.contexts[i].parent
            &&& (e is Function ==> m2.current == m.contexts.len() && m2.contexts[m2.current].parent
                == Some(m.current))
            &&& (!(e is Function) ==> m2.current == m.current)
        }),
{
    let m2 = observe_model(m, span, e);
    match e {
        ExprModel::VariableDef { name, value } => {
            let d = DefModel::Var {
                span,
                name,
                defined: value is Some,
                used: false,
                callable: match value {
                    Some(v) => v.expr is Function,
                    None => false,
                },
            };
            lemma_define_frame(m, d);
        },
        ExprModel::Reference(name) => {
            lemma_resolve_scope_spec(m.contexts, m.current, name);
            match resolve_scope(m.contexts, m.current, name) {
                Some(s) => {
                    lemma_find_def_spec(m.contexts[s].defs, name);
                    match find_def(m.contexts[s].defs, name) {
                        Some(j) => match m.contexts[s].defs[j] {
                            DefModel::Var { span: dspan, name: dname, defined, used, callable } => {
                                let nd = DefModel::Var {
                                    span: dspan,
                                    name: dname,
                                    defined,
                                    used: true,
                                    callable,
                                };
                                lemma_update_def_frame(m, s, j, nd);
                                if !defined {
                                    lemma_push_error_frame(
                                        update_def(m, s, j, nd),
                                        ErrorModel::UsingUndefinedVariable { name, span },
                                    );
                                }
                            },
                            DefModel::Func { .. } => {
                                lemma_push_error_frame(
                                    m,
                                    ErrorModel::UsingUndefinedVariable { name, span },
                                );
                            },
                        },
                        None => {},
                    }
                },
                None => {
                    lemma_push_error_frame(m, ErrorModel::UsingUndefinedVariable { name, span });
                },
            }
        },
        ExprModel::Function { name, params, .. } => {
            lemma_fn_def_frame(m, span, name, params);
        },
        ExprModel::Call { name, args } => {
            lemma_resolve_scope_spec(m.contexts, m.current, name);
            match resolve_scope(m.contexts, m.current, name) {
                Some(s) => {
                    lemma_find_def_spec(m.contexts[s].defs, name);
                    match find_def(m.contexts[s].defs, name) {
                        Some(j) => match m.contexts[s].defs[j] {
                            DefModel::Func { .. } => {
                                if m2 != m {
                                    lemma_push_error_frame(
                                        m,
                                        ErrorModel::WrongNumberOfArguments { name, span },
                                    );
                                }
                            },
                            DefModel::Var { span: dspan, name: dname, defined, used, callable } => {
                                if callable {
                                    let nd = DefModel::Var {
                                        span: dspan,
                                        name: dname,
                                        defined,
                                        used: true,
                                        callable,
                                    };
                                    lemma_update_def_frame(m, s, j, nd);
                                } else {
                                    lemma_push_error_frame(
                                        m,
                                        ErrorModel::CallingUndefinedFunction { name, span },
                                    );
                                }
                            },
                        },
                        None => {},
                    }
                },
                None => {
                    lemma_push_error_frame(m, ErrorModel::CallingUndefinedFunction { name, span });
                },
            }
        },
        ExprModel::BinOp { op: BinOp::Assign, lhs, .. } => {
            match lhs.expr {
                ExprModel::Reference(name) => {
                    lemma_resolve_scope_spec(m.contexts, m.current, name);
                    match resolve_scope(m.contexts, m.current, name) {
                        Some(s) => {
                            lemma_find_def_spec(m.contexts[s].defs, name);
                            match find_def(m.contexts[s].defs, name) {
                                Some(j) => match m.contexts[s].defs[j] {
                                    DefModel::Var {
                                        span: dspan,
                                        name: dname,
                                        defined,
                                        used,
                                        callable,
                                    } => {
                                        let nd = DefModel::Var {
                                            span: dspan,
                                            name: dname,
                                            defined: true,
                                            used,
                                            callable,
                                        };
                                        lemma_update_def_frame(m, s, j, nd);
                                    },
                                    DefModel::Func { .. } => {},
                                },
                                None => {},
                            }
                        },
                        None => {
                            lemma_push_error_frame(
                                m,
                                ErrorModel::UsingUndefinedVariable { name, span },
                            );
                        },
                    }
                },
                _ => {},
            }
        },
        _ => {},
    }
}

/// One *backtrack* event keeps the state well formed and never changes the
/// scope tree itself.
proof fn lemma_backtrack_frame(m: StateModel, from: ExprModel)
    requires
        wf_state(m),
    ensures
        wf_state(backtrack_model(m, from)),
        backtrack_model(m, from).contexts == m.contexts,
{
    if from is Function {
        match m.contexts[m.current].parent {
            Some(p) => {
                assert(wf_ctx(m.contexts, m.current));
            },
            None => {},
        }
    }
}

/// A whole-subtree traversal keeps the state well formed, only grows the
/// arena, never reparents a scope, and ends with the current scope where the
/// protocol says: inside the fresh child for a function expression, unmoved
/// for everything else.
proof fn lemma_trav_node_frame(m: StateModel, n: NodeModel)
    requires
        wf_state(m),
    ensures
        ({
            let m2 = trav_node(m, n);
            &&& wf_state(m2)
            &&& m.contexts.len() <= m2.contexts.len()
            &&& forall|i: int|
                0 <= i < m.contexts.len() ==> (#[trigger] m2.contexts[i]).parent
                    == m.contexts[i].parent
            &&& (n.expr is Function ==> 0 <= m2.current < m2.contexts.len()
                && m2.contexts[m2.current].parent == Some(m.current))
            &&& (!(n.expr is Function) ==> m2.current == m.current)
        }),
    decreases n,
{
    let m1 = observe_model(m, n.span, n.expr);
    lemma_observe_frame(m, n.span, n.expr);
    match n.expr {
        ExprModel::Call { args, .. } => {
            lemma_trav_seq_frame(m1, args);
        },
        ExprModel::Function { body, .. } => {
            lemma_trav_seq_frame(m1, body);
        },
        ExprModel::VariableDef { value: Some(v), .. } => {
            lemma_trav_node_frame(m1, *v);
            lemma_backtrack_frame(trav_node(m1, *v), v.expr);
        },
        ExprModel::VariableDef { value: None, .. } => {},
        ExprModel::Block(exprs) => {
            lemma_trav_seq_frame(m1, exprs);
        },
        ExprModel::BinOp { lhs, rhs, .. } => {
            lemma_trav_node_frame(m1, *lhs);
            let ma = backtrack_model(trav_node(m1, *lhs), lhs.expr);
            lemma_backtrack_frame(trav_node(m1, *lhs), lhs.expr);
            lemma_trav_node_frame(ma, *rhs);
            lemma_backtrack_frame(trav_node(ma, *rhs), rhs.expr);
        },
        _ => {},
    }
}

/// Traversing a list of sibling subtrees keeps the state well formed and
/// brings the current scope back to where it started.
proof fn lemma_trav_seq_frame(m: StateModel, nodes: Seq<NodeModel>)
    requires
        wf_state(m),
    ensures
        ({
            let m2 = trav_seq(m, nodes);
            &&& wf_state(m2)
            &&& m.contexts.len() <= m2.contexts.len()
            &&& forall|i: int|
                0 <= i < m.contexts.len() ==> (#[trigger] m2.contexts[i]).parent
                    == m.contexts[i].parent
            &&& m2.current == m.current
        }),
    decreases nodes,
{
    if nodes.len() > 0 {
        lemma_trav_node_frame(m, nodes[0]);
        let ma = trav_node(m, nodes[0]);
        lemma_backtrack_frame(ma, nodes[0].expr);
        let mb = backtrack_model(ma, nodes[0].expr);
        lemma_trav_seq_frame(mb, nodes.drop_first());
    }
}

/// A sibling list is traversed one subtree at a time.
proof fn lemma_trav_seq_push(m: StateModel, s: Seq<NodeModel>, x: NodeModel)
    ensures
        trav_seq(m, s.push(x)) == backtrack_model(trav_node(trav_seq(m, s), x), x.expr),
    decreases s.len(),
{
    reveal_with_fuel(trav_seq, 3);
    if s.len() == 0 {
        assert(s.push(x)[0] == x);
        assert(s.push(x).drop_first() =~= Seq::<NodeModel>::empty());
    } else {
        assert(s.push(x)[0] == s[0]);
        assert(s.push(x).drop_first() =~= s.drop_first().push(x));
        lemma_trav_seq_push(backtrack_model(trav_node(m, s[0]), s[0].expr), s.drop_first(), x);
    }
}

/// What a call's resolved target means for the caller.
enum CallOutcome {
    /// The target is a function of this arity.
    Arity(usize),
    /// The target is a callable variable; rebind it as used.
    MarkUsed(Def),
    /// The target is a variable that cannot be called.
    NotCallable,
}

impl AstNode {
    /// Drive the whole traversal protocol over this tree: a pre-order pass
    /// of *observe* events with a *backtrack* event per finished child edge,
    /// then the terminal *done* event.
    pub fn traverse(&self, visitor: &mut StaticAnalyser)
        requires
            old(visitor).wf(),
        ensures
            final(visitor).wf(),
            final(visitor)@ == done_model(trav_node(old(visitor)@, node_view(*self))),
    {
        self.internal_traverse(visitor);
        visitor.done();
    }

    /// Traverse this subtree: observe the node, then walk each child subtree
    /// the protocol walks, backtracking after each.
    fn internal_traverse(&self, visitor: &mut StaticAnalyser)
        requires
            old(visitor).wf(),
        ensures
            final(visitor).wf(),
            final(visitor)@ == trav_node(old(visitor)@, node_view(*self)),
        decreases *self,
    {
        visitor.observe(&self.span, &self.expr);
        match &*self.expr {
            Ast::FunctionCall { args, .. } => {
                traverse_nodes(args, &self.expr, visitor);
            },
            Ast::FunctionExpr { body, .. } => {
                traverse_nodes(&body.0, &self.expr, visitor);
            },
            Ast::VariableDef { value, .. } => {
                match value {
                    Some(v) => {
                        let ghost m1 = visitor@;
                        v.internal_traverse(visitor);
                        proof {
                            lemma_trav_node_frame(m1, node_view(*v));
                        }
                        visitor.backtrack(&v.expr, &self.expr);
                    },
                    None => {},
                }
            },
            Ast::Block(b) => {
                traverse_nodes(&b.0, &self.expr, visitor);
            },
            Ast::BinOp { lhs, rhs, .. } => {
                let ghost m1 = visitor@;
                lhs.internal_traverse(visitor);
                proof {
                    lemma_trav_node_frame(m1, node_view(*lhs));
                }
                visitor.backtrack(&lhs.expr, &self.expr);
                let ghost m2 = visitor@;
                rhs.internal_traverse(visitor);
                proof {
                    lemma_trav_node_frame(m2, node_view(*rhs));
                }
                visitor.backtrack(&rhs.expr, &self.expr);
            },
            _ => {},
        }
    }
}

/// Traverse a list of sibling subtrees in order, backtracking to `parent`
/// after each.
fn traverse_nodes(nodes: &Vec<AstNode>, parent: &Ast, visitor: &mut StaticAnalyser)
    requires
        old(visitor).wf(),
    ensures
        final(visitor).wf(),
        final(visitor)@ == trav_seq(old(visitor)@, nodes_view(nodes@)),
    decreases *nodes,
{
    let ghost m0 = visitor@;
    let ghost nv = nodes_view(nodes@);
    proof {
        lemma_nodes_view(nodes@);
        assert(nv.take(0) =~= Seq::<NodeModel>::empty());
    }
    let mut k: usize = 0;
    while k < nodes.len()
        invariant
            old(visitor).wf(),
            visitor.wf(),
            k <= nodes@.len(),
            nv == nodes_view(nodes@),
            nv.len() == nodes@.len(),
            forall|i: int| 0 <= i < nodes@.len() ==> nv[i] == node_view(#[trigger] nodes@[i]),
            visitor@ == trav_seq(m0, nv.take(k as int)),
        decreases nodes@.len() - k,
    {
        let ghost mk = visitor@;
        let child = &nodes[k];
        child.internal_traverse(visitor);
        proof {
            lemma_trav_node_frame(mk, node_view(*child));
        }
        visitor.backtrack(&child.expr, parent);
        proof {
            lemma_trav_seq_push(m0, nv.take(k as int), nv[k as int]);
            assert(nv.take(k as int + 1) =~= nv.take(k as int).push(nv[k as int]));
        }
        k += 1;
    }
    proof {
        assert(nv.take(nodes@.len() as int) =~= nv);
    }
}

/// Analyse a whole tree: run the traversal protocol over a fresh analyser
/// and return every diagnostic it emits, in order. The result is exactly
/// [`analysis_model`] of the tree's model.
pub fn analyse(node: &AstNode) -> (errors: Vec<Error>)
    ensures
        errors_view(errors@) == analysis_model(node_view(*node)),
{
    let mut analyser = StaticAnalyser::new();
    node.traverse(&mut analyser);
    analyser.errors
}

/// Insert `d` into one scope's binding list: overwrite the binding of the
/// same name, or append.
fn insert_def_vec(defs: &mut Vec<Def>, d: Def)
    ensures
        defs_view(final(defs)@) == insert_def(defs_view(old(defs)@), d@),
{
    let n = match &d {
        Def::Var { name, .. } => name,
        Def::Fn { name, .. } => name,
    };
    let found = find_in_defs(defs, n);
    proof {
        assert(def_name(d@) == n@);
    }
    match found {
        Some(j) => {
            defs[j] = d;
            proof {
                assert(defs_view(defs@) =~= insert_def(defs_view(old(defs)@), d@));
            }
        },
        None => {
            defs.push(d);
            proof {
                assert(defs_view(defs@) =~= insert_def(defs_view(old(defs)@), d@));
            }
        },
    }
}

/// The index of the first binding of `name` in one scope's list.
fn find_in_defs(defs: &Vec<Def>, name: &String) -> (r: Option<usize>)
    ensures
        match r {
            Some(j) => j < defs@.len() && find_def(defs_view(defs@), name@) == Some(j as int),
            None => find_def(defs_view(defs@), name@) is None,
        },
{
    let ghost dv = defs_view(defs@);
    let mut i: usize = 0;
    while i < defs.len()
        invariant
            i <= defs@.len(),
            dv == defs_view(defs@),
            forall|k: int| 0 <= k < i ==> def_name(#[trigger] dv[k]) != name@,
        decreases defs@.len() - i,
    {
        proof {
            assert(dv[i as int] == defs@[i as int]@);
        }
        let hit = match &defs[i] {
            Def::Var { name: n, .. } => *n == *name,
            Def::Fn { name: n, .. } => *n == *name,
        };
        if hit {
            proof {
                lemma_find_def_at(dv, name@, i as int);
            }
            return Some(i);
        }
        i += 1;
    }
    proof {
        lemma_find_def_spec(dv, name@);
        if find_def(dv, name@) is Some {
            let j = find_def(dv, name@)->Some_0;
            assert(def_name(dv[j]) != name@);
        }
    }
    None
}

} // verus!
