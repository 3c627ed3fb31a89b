//! End-to-end tests of the scope analysis over hand-built trees.

use static_analyser::analyser::{analyse, Error, StaticAnalyser};
use static_analyser::ast::{Ast, AstNode, BinOp, Block, Span};

fn sp(n: usize) -> Span {
    Span::new(n, n + 1, 0)
}

fn node(n: usize, e: Ast) -> AstNode {
    AstNode::new(sp(n), e)
}

fn var_def(n: usize, name: &str, value: Option<AstNode>) -> AstNode {
    node(n, Ast::VariableDef { name: name.to_string(), value })
}

fn reference(n: usize, name: &str) -> AstNode {
    node(n, Ast::ReferenceExpr(name.to_string()))
}

fn call(n: usize, name: &str, args: Vec<AstNode>) -> AstNode {
    node(n, Ast::FunctionCall { name: name.to_string(), args })
}

fn function(n: usize, name: &str, params: &[&str], body: Vec<AstNode>) -> AstNode {
    node(
        n,
        Ast::FunctionExpr {
            name: name.to_string(),
            params: params.iter().map(|p| p.to_string()).collect(),
            body: Block(body),
        },
    )
}

fn number(n: usize) -> AstNode {
    node(n, Ast::Number(1u64))
}

fn program(body: Vec<AstNode>) -> AstNode {
    node(0, Ast::Block(Block(body)))
}

fn run(prog: &AstNode) -> Vec<Error> {
    analyse(prog)
}

#[test]
fn defined_and_referenced_variable_is_clean() {
    // var a = 1; a
    let prog = program(vec![var_def(1, "a", Some(number(2))), reference(3, "a")]);
    assert_eq!(run(&prog), vec![]);
}

#[test]
fn reference_to_unassigned_variable_is_undefined() {
    // var a; a
    let prog = program(vec![var_def(1, "a", None), reference(3, "a")]);
    assert_eq!(
        run(&prog),
        vec![Error::UsingUndefinedVariable { name: "a".to_string(), span: sp(3) }]
    );
}

#[test]
fn call_with_wrong_arity_is_reported_once() {
    // function f(x){ x } f(1,2)
    let prog = program(vec![
        function(1, "f", &["x"], vec![reference(2, "x")]),
        call(3, "f", vec![number(4), number(5)]),
    ]);
    assert_eq!(
        run(&prog),
        vec![Error::WrongNumberOfArguments { name: "f".to_string(), span: sp(3) }]
    );
}

#[test]
fn call_with_matching_arity_is_clean() {
    let prog = program(vec![
        function(1, "f", &["x"], vec![reference(2, "x")]),
        call(3, "f", vec![number(4)]),
    ]);
    assert_eq!(run(&prog), vec![]);
}

#[test]
fn never_referenced_variable_is_unused() {
    // var a = 1;
    let prog = program(vec![var_def(1, "a", Some(number(2)))]);
    assert_eq!(
        run(&prog),
        vec![Error::UnusedVariable { name: "a".to_string(), span: sp(1) }]
    );
}

#[test]
fn call_of_undeclared_name_is_undefined_function() {
    // h()
    let prog = program(vec![call(1, "h", vec![])]);
    assert_eq!(
        run(&prog),
        vec![Error::CallingUndefinedFunction { name: "h".to_string(), span: sp(1) }]
    );
}

#[test]
fn callable_variable_call_skips_arity_check() {
    // var c = function(){}; c()  -- any argument count is accepted
    let prog = program(vec![
        var_def(1, "c", Some(function(2, "", &[], vec![]))),
        call(3, "c", vec![number(4), number(5), number(6)]),
    ]);
    assert_eq!(run(&prog), vec![]);
}

#[test]
fn non_callable_variable_call_is_undefined_function() {
    // var v = 1; v()  -- the failed call does not count as a use
    let prog = program(vec![var_def(1, "v", Some(number(2))), call(3, "v", vec![])]);
    assert_eq!(
        run(&prog),
        vec![
            Error::CallingUndefinedFunction { name: "v".to_string(), span: sp(3) },
            Error::UnusedVariable { name: "v".to_string(), span: sp(1) },
        ]
    );
}

#[test]
fn shadowing_mutates_only_the_inner_binding() {
    // var a; function g(b){ var a = 1; a b } g(1); a
    // The inner `a` is defined and used; the outer `a` stays undefined, so
    // its reference is still reported, and only once.
    let prog = program(vec![
        var_def(1, "a", None),
        function(
            2,
            "g",
            &["b"],
            vec![var_def(3, "a", Some(number(4))), reference(5, "a"), reference(6, "b")],
        ),
        call(7, "g", vec![number(8)]),
        reference(9, "a"),
    ]);
    assert_eq!(
        run(&prog),
        vec![Error::UsingUndefinedVariable { name: "a".to_string(), span: sp(9) }]
    );
}

#[test]
fn assignment_defines_and_its_target_counts_as_a_use() {
    // var a; a = 1  -- the bare-reference target is resolved twice: the
    // assignment marks it defined, the reference marks it used.
    let prog = program(vec![
        var_def(1, "a", None),
        node(2, Ast::BinOp { op: BinOp::Assign, lhs: reference(3, "a"), rhs: number(4) }),
    ]);
    assert_eq!(run(&prog), vec![]);
}

#[test]
fn assignment_to_undeclared_name_reports_target_and_reference() {
    // x = 1  -- both the assignment handling and the reference handling of
    // the bare target fail to resolve the name.
    let prog = program(vec![node(
        1,
        Ast::BinOp { op: BinOp::Assign, lhs: reference(2, "x"), rhs: number(3) },
    )]);
    assert_eq!(
        run(&prog),
        vec![
            Error::UsingUndefinedVariable { name: "x".to_string(), span: sp(1) },
            Error::UsingUndefinedVariable { name: "x".to_string(), span: sp(2) },
        ]
    );
}

#[test]
fn assignment_to_non_reference_target_is_ignored() {
    // 1 = 2  -- no resolution is performed on such a target
    let prog = program(vec![node(
        1,
        Ast::BinOp { op: BinOp::Assign, lhs: number(2), rhs: number(3) },
    )]);
    assert_eq!(run(&prog), vec![]);
}

#[test]
fn recursive_call_resolves_to_the_enclosing_binding() {
    // function f(x){ f(x) }  -- f is bound in the enclosing scope before its
    // body is walked, so the recursive call sees it.
    let prog = program(vec![function(
        1,
        "f",
        &["x"],
        vec![call(2, "f", vec![reference(3, "x")])],
    )]);
    assert_eq!(run(&prog), vec![]);
}

#[test]
fn unused_variables_are_found_at_every_depth() {
    // var a = 1; function f(p){ var b = 2; function g(){ var c = 3; } g() } f(1)
    let prog = program(vec![
        var_def(1, "a", Some(number(2))),
        function(
            3,
            "f",
            &["p"],
            vec![
                var_def(4, "b", Some(number(5))),
                function(6, "g", &[], vec![var_def(7, "c", Some(number(8)))]),
                call(9, "g", vec![]),
            ],
        ),
        call(10, "f", vec![number(11)]),
    ]);
    assert_eq!(
        run(&prog),
        vec![
            Error::UnusedVariable { name: "a".to_string(), span: sp(1) },
            Error::UnusedVariable { name: "p".to_string(), span: sp(3) },
            Error::UnusedVariable { name: "b".to_string(), span: sp(4) },
            Error::UnusedVariable { name: "c".to_string(), span: sp(7) },
        ]
    );
}

#[test]
fn reference_to_a_function_name_is_not_a_variable() {
    // function g(){} g
    let prog = program(vec![function(1, "g", &[], vec![]), reference(2, "g")]);
    assert_eq!(
        run(&prog),
        vec![Error::UsingUndefinedVariable { name: "g".to_string(), span: sp(2) }]
    );
}

#[test]
fn declaration_order_diagnostics_precede_unused_sweep() {
    // var a = 1; h()
    let prog = program(vec![var_def(1, "a", Some(number(2))), call(3, "h", vec![])]);
    assert_eq!(
        run(&prog),
        vec![
            Error::CallingUndefinedFunction { name: "h".to_string(), span: sp(3) },
            Error::UnusedVariable { name: "a".to_string(), span: sp(1) },
        ]
    );
}

#[test]
fn structurally_identical_trees_analyse_identically() {
    let build = || {
        program(vec![
            var_def(1, "a", None),
            reference(2, "a"),
            function(3, "f", &["x"], vec![]),
            call(4, "f", vec![number(5), number(6)]),
        ])
    };
    let first = run(&build());
    let second = run(&build());
    assert_eq!(first, second);
    assert_eq!(first.len(), 3);
}

#[test]
fn redeclaration_overwrites_the_scope_local_binding() {
    // var a; var a = 1; a  -- the second declaration replaces the first
    let prog = program(vec![
        var_def(1, "a", None),
        var_def(2, "a", Some(number(3))),
        reference(4, "a"),
    ]);
    assert_eq!(run(&prog), vec![]);
}

#[test]
fn analyser_is_driven_through_the_visitor_protocol() {
    // The same analysis through the explicit event methods.
    let prog = program(vec![var_def(1, "a", Some(number(2)))]);
    let mut analyser = StaticAnalyser::new();
    prog.traverse(&mut analyser);
    assert_eq!(
        analyser.errors(),
        &vec![Error::UnusedVariable { name: "a".to_string(), span: sp(1) }]
    );
}

#[test]
fn span_extend_widens_the_end_only() {
    let s = Span::new(3, 5, 2).extend(11);
    assert_eq!(s, Span::new(3, 11, 2));
}

#[test]
fn spans_are_carried_into_diagnostics() {
    let prog = program(vec![call(42, "missing", vec![])]);
    match &run(&prog)[..] {
        [Error::CallingUndefinedFunction { name, span }] => {
            assert_eq!(name, "missing");
            assert_eq!(span.lo, 42);
            assert_eq!(span.hi, 43);
            assert_eq!(span.line, 0);
        }
        other => panic!("unexpected diagnostics: {:?}", other),
    }
}
