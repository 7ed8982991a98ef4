use ksh_analyzer::analyzer::analyze_uniforms;
use ksh_analyzer::ast::{
    Condition, Expr, ExternalDecl, ForInit, FunctionDef, Qualifier, SelectionRest, Stmt,
    TranslationUnit, VarDecl,
};
use ksh_analyzer::errors::KshError;
use ksh_analyzer::reconcile::{merge_uniforms, resolve_indices};
use ksh_analyzer::types::VariableType;

fn uniform(name: &str, ty_name: &str, array_size: Option<u32>) -> ExternalDecl {
    ExternalDecl::Variable(VarDecl {
        qualifiers: vec![Qualifier::Uniform],
        name: Some(name.to_string()),
        ty_name: ty_name.to_string(),
        array_size,
    })
}

fn var_expr(name: &str) -> Expr {
    Expr::Variable(name.to_string())
}

/// A body statement that mentions each of the given identifiers once.
fn body_using(names: &[&str]) -> Vec<Stmt> {
    names
        .iter()
        .map(|n| Stmt::Expression(Some(var_expr(n))))
        .collect()
}

fn tu(decls: Vec<ExternalDecl>) -> TranslationUnit {
    TranslationUnit { decls }
}

/// The worked example: vertex uses MVP through an assignment and a call,
/// pixel samples Tex; the merged table is [MVP, Tex] with refs [0] / [1].
#[test]
fn worked_example_merged_table_and_refs() {
    let vs = tu(vec![
        uniform("MVP", "mat4", None),
        ExternalDecl::Function(FunctionDef {
            body: vec![Stmt::Expression(Some(Expr::Assignment(
                Box::new(var_expr("gl_Position")),
                Box::new(Expr::Binary(
                    Box::new(var_expr("MVP")),
                    Box::new(Expr::FunCall(vec![Expr::Other])),
                )),
            )))],
        }),
    ]);
    let ps = tu(vec![
        uniform("Tex", "sampler2D", None),
        ExternalDecl::Function(FunctionDef {
            body: vec![Stmt::Expression(Some(Expr::Assignment(
                Box::new(var_expr("gl_FragColor")),
                Box::new(Expr::FunCall(vec![
                    var_expr("Tex"),
                    Expr::FunCall(vec![Expr::Other]),
                ])),
            )))],
        }),
    ]);
    let vs_live = analyze_uniforms(&vs).unwrap();
    let ps_live = analyze_uniforms(&ps).unwrap();
    assert_eq!(vs_live.len(), 1);
    assert_eq!(vs_live[0].name, "MVP");
    assert_eq!(vs_live[0].ty, VariableType::Mat4);
    assert_eq!(vs_live[0].array_length, None);
    assert_eq!(ps_live.len(), 1);
    assert_eq!(ps_live[0].name, "Tex");
    assert_eq!(ps_live[0].ty, VariableType::Sampler2D);
    assert_eq!(ps_live[0].array_length, None);

    let merged = merge_uniforms(&vs_live, &ps_live);
    assert_eq!(merged.len(), 2);
    assert_eq!(merged[0].name, "MVP");
    assert_eq!(merged[1].name, "Tex");

    let vs_refs = resolve_indices(&vs_live, &merged).unwrap();
    let ps_refs = resolve_indices(&ps_live, &merged).unwrap();
    assert_eq!(vs_refs, vec![0]);
    assert_eq!(ps_refs, vec![1]);
}

/// Analyzing identical text twice yields an identical sequence and order.
#[test]
fn analysis_is_idempotent() {
    let make = || {
        tu(vec![
            uniform("A", "vec2", None),
            uniform("B", "float", Some(3)),
            ExternalDecl::Function(FunctionDef {
                body: body_using(&["B", "A"]),
            }),
        ])
    };
    let first = analyze_uniforms(&make()).unwrap();
    let second = analyze_uniforms(&make()).unwrap();
    assert_eq!(first, second);
    // declaration order, not use order
    assert_eq!(first[0].name, "A");
    assert_eq!(first[1].name, "B");
}

/// Vertex declares `uniform mat4 M;`, pixel declares `uniform mat4 M[4];`:
/// the merged table holds exactly one `M`, with the vertex's scalar shape.
#[test]
fn dedup_keeps_vertex_variant() {
    let vs = tu(vec![
        uniform("M", "mat4", None),
        ExternalDecl::Function(FunctionDef {
            body: body_using(&["M"]),
        }),
    ]);
    let ps = tu(vec![
        uniform("M", "mat4", Some(4)),
        ExternalDecl::Function(FunctionDef {
            body: body_using(&["M"]),
        }),
    ]);
    let vs_live = analyze_uniforms(&vs).unwrap();
    let ps_live = analyze_uniforms(&ps).unwrap();
    let merged = merge_uniforms(&vs_live, &ps_live);
    assert_eq!(merged.len(), 1);
    assert_eq!(merged[0].name, "M");
    assert_eq!(merged[0].array_length, None);
    let ps_refs = resolve_indices(&ps_live, &merged).unwrap();
    assert_eq!(ps_refs, vec![0]);
}

/// A declared but unused uniform is dropped from its stage's live list; one
/// unused in both stages is absent from the merged table.
#[test]
fn liveness_filter_drops_unused() {
    let vs = tu(vec![
        uniform("Used", "vec4", None),
        uniform("Dead", "vec3", None),
        ExternalDecl::Function(FunctionDef {
            body: body_using(&["Used"]),
        }),
    ]);
    let ps = tu(vec![
        uniform("Dead", "vec3", None),
        ExternalDecl::Function(FunctionDef {
            body: body_using(&["Used"]),
        }),
    ]);
    let vs_live = analyze_uniforms(&vs).unwrap();
    let ps_live = analyze_uniforms(&ps).unwrap();
    assert_eq!(vs_live.len(), 1);
    assert_eq!(vs_live[0].name, "Used");
    assert!(ps_live.is_empty());
    let merged = merge_uniforms(&vs_live, &ps_live);
    assert_eq!(merged.len(), 1);
    assert_eq!(merged[0].name, "Used");
}

/// Usage is found in every reachable position: initializers, branches,
/// switch bodies and case labels, loop headers and bodies, and returns.
#[test]
fn usage_found_in_deep_positions() {
    let body = vec![
        Stmt::Declaration(vec![ksh_analyzer::ast::Initializer::Simple(var_expr("A"))]),
        Stmt::Selection(
            var_expr("B"),
            SelectionRest::Else(
                Box::new(Stmt::Compound(body_using(&["C"]))),
                Box::new(Stmt::Jump(Some(var_expr("D")))),
            ),
        ),
        Stmt::Switch(
            var_expr("E"),
            vec![
                Stmt::CaseLabel(Some(var_expr("F"))),
                Stmt::Expression(Some(var_expr("G"))),
            ],
        ),
        Stmt::While(
            Condition::Expr(var_expr("H")),
            Box::new(Stmt::DoWhile(
                Box::new(Stmt::Expression(None)),
                var_expr("I"),
            )),
        ),
        Stmt::For(
            ForInit::Expression(Some(var_expr("J"))),
            Some(Condition::Expr(var_expr("K"))),
            Some(Expr::PostInc(Box::new(var_expr("L")))),
            Box::new(Stmt::Expression(Some(Expr::Comma(
                Box::new(Expr::Ternary(
                    Box::new(var_expr("M")),
                    Box::new(Expr::Dot(Box::new(var_expr("N")))),
                    Box::new(Expr::Bracket(
                        Box::new(var_expr("O")),
                        Box::new(Expr::Unary(Box::new(var_expr("P")))),
                    )),
                )),
                Box::new(Expr::PostDec(Box::new(var_expr("Q")))),
            )))),
        ),
    ];
    let names = [
        "A", "B", "C", "D", "E", "F", "G", "H", "I", "J", "K", "L", "M", "N", "O", "P", "Q",
    ];
    let mut decls: Vec<ExternalDecl> = names
        .iter()
        .map(|n| uniform(n, "float", None))
        .collect();
    decls.push(ExternalDecl::Function(FunctionDef { body }));
    let live = analyze_uniforms(&tu(decls)).unwrap();
    let live_names: Vec<&str> = live.iter().map(|v| v.name.as_str()).collect();
    assert_eq!(live_names, names.to_vec());
}

/// A declaration inside a `for` header is not walked: a uniform mentioned
/// only there stays dead.
#[test]
fn for_declaration_init_is_not_walked() {
    let vs = tu(vec![
        uniform("OnlyInDecl", "float", None),
        ExternalDecl::Function(FunctionDef {
            body: vec![Stmt::For(
                ForInit::Declaration,
                None,
                None,
                Box::new(Stmt::Expression(None)),
            )],
        }),
    ]);
    let live = analyze_uniforms(&vs).unwrap();
    assert!(live.is_empty());
}

/// An assignment used as a loop condition is unsupported and fails fast.
#[test]
fn assignment_condition_fails_fast() {
    let vs = tu(vec![ExternalDecl::Function(FunctionDef {
        body: vec![Stmt::While(
            Condition::Assignment,
            Box::new(Stmt::Expression(None)),
        )],
    })]);
    assert_eq!(analyze_uniforms(&vs), Err(KshError::UnsupportedType));
}

/// A uniform with a type outside the six supported kinds is fatal, even
/// when the uniform is never used.
#[test]
fn unsupported_type_is_fatal() {
    let vs = tu(vec![uniform("Bad", "mat3", None)]);
    assert_eq!(analyze_uniforms(&vs), Err(KshError::UnsupportedType));
}

/// A uniform declaration without a name is malformed.
#[test]
fn nameless_uniform_is_parse_error() {
    let vs = tu(vec![ExternalDecl::Variable(VarDecl {
        qualifiers: vec![Qualifier::Uniform],
        name: None,
        ty_name: "vec4".to_string(),
        array_size: None,
    })]);
    assert_eq!(analyze_uniforms(&vs), Err(KshError::ParseError));
}

/// A declaration whose first qualifier is not `uniform` is skipped, name
/// and type unchecked.
#[test]
fn non_uniform_declarations_are_skipped() {
    let vs = tu(vec![
        ExternalDecl::Variable(VarDecl {
            qualifiers: vec![Qualifier::Other],
            name: None,
            ty_name: "mat3".to_string(),
            array_size: None,
        }),
        ExternalDecl::Variable(VarDecl {
            qualifiers: vec![],
            name: Some("plain".to_string()),
            ty_name: "weird".to_string(),
            array_size: None,
        }),
        ExternalDecl::Other,
    ]);
    assert!(analyze_uniforms(&vs).unwrap().is_empty());
}

/// A live name absent from the merged table is an internal inconsistency.
#[test]
fn missing_merged_name_is_internal_inconsistency() {
    let vs = tu(vec![
        uniform("A", "float", None),
        ExternalDecl::Function(FunctionDef {
            body: body_using(&["A"]),
        }),
    ]);
    let live = analyze_uniforms(&vs).unwrap();
    let empty_table = Vec::new();
    assert_eq!(
        resolve_indices(&live, &empty_table),
        Err(KshError::InternalInconsistency)
    );
}

/// A name declared twice within one stage keeps both records in the table;
/// references resolve to the first.
#[test]
fn duplicate_name_within_one_stage() {
    let vs = tu(vec![
        uniform("M", "mat4", None),
        uniform("M", "vec2", None),
        ExternalDecl::Function(FunctionDef {
            body: body_using(&["M"]),
        }),
    ]);
    let vs_live = analyze_uniforms(&vs).unwrap();
    assert_eq!(vs_live.len(), 2);
    let ps_live = Vec::new();
    let merged = merge_uniforms(&vs_live, &ps_live);
    assert_eq!(merged.len(), 2);
    assert_eq!(merged[0].ty, VariableType::Mat4);
    assert_eq!(merged[1].ty, VariableType::Vec2);
    let refs = resolve_indices(&vs_live, &merged).unwrap();
    assert_eq!(refs, vec![0, 0]);
}

/// A pixel-stage duplicate already appended from the pixel list is not
/// appended again.
#[test]
fn duplicate_name_within_pixel_stage_appended_once() {
    let vs_live = Vec::new();
    let ps = tu(vec![
        uniform("T", "float", None),
        uniform("T", "vec3", None),
        ExternalDecl::Function(FunctionDef {
            body: body_using(&["T"]),
        }),
    ]);
    let ps_live = analyze_uniforms(&ps).unwrap();
    assert_eq!(ps_live.len(), 2);
    let merged = merge_uniforms(&vs_live, &ps_live);
    assert_eq!(merged.len(), 1);
    assert_eq!(merged[0].ty, VariableType::Float);
}
