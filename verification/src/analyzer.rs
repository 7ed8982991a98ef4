//! Uniform declaration extraction and liveness analysis of one GLSL stage.

use vstd::assert_by_contradiction;
use vstd::prelude::*;

use crate::ast::{
    Condition, Expr, ExternalDecl, ForInit, Initializer, Qualifier, SelectionRest, Stmt,
    TranslationUnit, VarDecl,
};
use crate::errors::KshError;
use crate::types::{Variable, VariableScope, VariableType, VarView, views_of};

verus! {

/// The identifiers an expression mentions.
pub open spec fn expr_uses(e: Expr) -> Set<Seq<char>>
    decreases e,
{
    match e {
        Expr::Variable(n) => Set::empty().insert(n@),
        Expr::Unary(a) => expr_uses(*a),
        Expr::Binary(a, b) => expr_uses(*a) + expr_uses(*b),
        Expr::Ternary(a, b, c) => expr_uses(*a) + expr_uses(*b) + expr_uses(*c),
        Expr::Assignment(a, b) => expr_uses(*a) + expr_uses(*b),
        Expr::Bracket(a, b) => expr_uses(*a) + expr_uses(*b),
        Expr::FunCall(args) => exprs_uses(args@),
        Expr::Dot(a) => expr_uses(*a),
        Expr::PostInc(a) => expr_uses(*a),
        Expr::PostDec(a) => expr_uses(*a),
        Expr::Comma(a, b) => expr_uses(*a) + expr_uses(*b),
        Expr::Other => Set::empty(),
    }
}

/// The identifiers a sequence of expressions mentions.
pub open spec fn exprs_uses(s: Seq<Expr>) -> Set<Seq<char>>
    decreases s,
{
    if s.len() == 0 {
        Set::empty()
    } else {
        exprs_uses(s.drop_last()) + expr_uses(s.last())
    }
}

/// The identifiers an initializer mentions.
pub open spec fn init_uses(ini: Initializer) -> Set<Seq<char>>
    decreases ini,
{
    match ini {
        Initializer::Simple(e) => expr_uses(e),
        Initializer::List(items) => inits_uses(items@),
    }
}

/// The identifiers a sequence of initializers mentions.
pub open spec fn inits_uses(s: Seq<Initializer>) -> Set<Seq<char>>
    decreases s,
{
    if s.len() == 0 {
        Set::empty()
    } else {
        inits_uses(s.drop_last()) + init_uses(s.last())
    }
}

/// The identifiers a loop condition mentions.  An assignment condition is
/// unsupported and contributes nothing; the walk fails on it instead.
pub open spec fn cond_uses(c: Condition) -> Set<Seq<char>> {
    match c {
        Condition::Expr(e) => expr_uses(e),
        Condition::Assignment => Set::empty(),
    }
}

/// The identifiers a statement mentions in the positions the analysis
/// reaches: initializers, expression statements, branch conditions and
/// bodies, switch heads, case labels, loop headers and bodies, and return
/// expressions.
pub open spec fn stmt_uses(s: Stmt) -> Set<Seq<char>>
    decreases s,
{
    match s {
        Stmt::Declaration(inits) => inits_uses(inits@),
        Stmt::Expression(oe) => opt_expr_uses(oe),
        Stmt::Selection(cond, rest) => expr_uses(cond) + match rest {
            SelectionRest::Statement(t) => stmt_uses(*t),
            SelectionRest::Else(t, f) => stmt_uses(*t) + stmt_uses(*f),
        },
        Stmt::Switch(head, body) => expr_uses(head) + stmts_uses(body@),
        Stmt::CaseLabel(oe) => opt_expr_uses(oe),
        Stmt::While(c, body) => cond_uses(c) + stmt_uses(*body),
        Stmt::DoWhile(body, e) => stmt_uses(*body) + expr_uses(e),
        Stmt::For(ini, oc, oe, body) => for_init_uses(ini) + match oc {
            Some(c) => cond_uses(c),
            None => Set::empty(),
        } + opt_expr_uses(oe) + stmt_uses(*body),
        Stmt::Jump(oe) => opt_expr_uses(oe),
        Stmt::Compound(body) => stmts_uses(body@),
    }
}

/// The identifiers an optional expression mentions.
pub open spec fn opt_expr_uses(oe: Option<Expr>) -> Set<Seq<char>>
    decreases oe,
{
    match oe {
        Some(e) => expr_uses(e),
        None => Set::empty(),
    }
}

/// The identifiers the first part of a `for` header mentions.  A
/// declaration there is not walked.
pub open spec fn for_init_uses(ini: ForInit) -> Set<Seq<char>>
    decreases ini,
{
    match ini {
        ForInit::Expression(oe) => opt_expr_uses(oe),
        ForInit::Declaration => Set::empty(),
    }
}

/// The identifiers a sequence of statements mentions.
pub open spec fn stmts_uses(s: Seq<Stmt>) -> Set<Seq<char>>
    decreases s,
{
    if s.len() == 0 {
        Set::empty()
    } else {
        stmts_uses(s.drop_last()) + stmt_uses(s.last())
    }
}

/// The identifiers mentioned inside the function bodies of a source file.
pub open spec fn decls_uses(s: Seq<ExternalDecl>) -> Set<Seq<char>>
    decreases s,
{
    if s.len() == 0 {
        Set::empty()
    } else {
        decls_uses(s.drop_last()) + (match s.last() {
            ExternalDecl::Function(f) => stmts_uses(f.body@),
            _ => Set::empty(),
        })
    }
}

/// The used-name set of a whole source file.
pub open spec fn tu_uses(tu: TranslationUnit) -> Set<Seq<char>> {
    decls_uses(tu.decls@)
}

/// True when a condition is a plain expression.  An assignment used as a
/// condition is unsupported; the walk fails fast on it.
pub open spec fn cond_ok(c: Condition) -> bool {
    c is Expr
}

/// True when no assignment-as-condition occurs anywhere in the statement.
pub open spec fn stmt_ok(s: Stmt) -> bool
    decreases s,
{
    match s {
        Stmt::Selection(_, rest) => match rest {
            SelectionRest::Statement(t) => stmt_ok(*t),
            SelectionRest::Else(t, f) => stmt_ok(*t) && stmt_ok(*f),
        },
        Stmt::Switch(_, body) => stmts_ok(body@),
        Stmt::While(c, body) => cond_ok(c) && stmt_ok(*body),
        Stmt::DoWhile(body, _) => stmt_ok(*body),
        Stmt::For(_, oc, _, body) => (match oc {
            Some(c) => cond_ok(c),
            None => true,
        }) && stmt_ok(*body),
        Stmt::Compound(body) => stmts_ok(body@),
        _ => true,
    }
}

/// True when every statement of the sequence is supported.
pub open spec fn stmts_ok(s: Seq<Stmt>) -> bool
    decreases s,
{
    s.len() == 0 || (stmts_ok(s.drop_last()) && stmt_ok(s.last()))
}

/// True when every function body of the source file is supported.
pub open spec fn decls_ok(s: Seq<ExternalDecl>) -> bool
    decreases s,
{
    s.len() == 0 || (decls_ok(s.drop_last()) && (match s.last() {
        ExternalDecl::Function(f) => stmts_ok(f.body@),
        _ => true,
    }))
}

/// True when the usage walk succeeds on the whole source file.
pub open spec fn tu_ok(tu: TranslationUnit) -> bool {
    decls_ok(tu.decls@)
}

/// The set of names a list of strings holds.
pub open spec fn names_set(s: Seq<String>) -> Set<Seq<char>>
    decreases s,
{
    if s.len() == 0 {
        Set::empty()
    } else {
        names_set(s.drop_last()).insert(s.last()@)
    }
}

/// Appending a string adds exactly its characters to the name set.
proof fn lemma_names_set_push(s: Seq<String>, x: String)
    ensures
        names_set(s.push(x)) == names_set(s).insert(x@),
{
    assert(s.push(x).drop_last() =~= s);
    assert(s.push(x).last() == x);
}

/// Every statement of a supported sequence is supported.
proof fn lemma_stmts_ok_index(s: Seq<Stmt>, i: int)
    requires
        0 <= i < s.len(),
        stmts_ok(s),
    ensures
        stmt_ok(s[i]),
    decreases s.len(),
{
    if i < s.len() - 1 {
        lemma_stmts_ok_index(s.drop_last(), i);
    }
}

/// Every function body of a supported file is supported.
proof fn lemma_decls_ok_index(s: Seq<ExternalDecl>, i: int)
    requires
        0 <= i < s.len(),
        decls_ok(s),
    ensures
        s[i] matches ExternalDecl::Function(f) ==> stmts_ok(f.body@),
    decreases s.len(),
{
    if i < s.len() - 1 {
        lemma_decls_ok_index(s.drop_last(), i);
    }
}

/// Records every identifier the expression mentions.
pub fn walk_expr(e: &Expr, vars: &mut Vec<String>)
    ensures
        names_set(final(vars)@) == names_set(old(vars)@) + expr_uses(*e),
    decreases *e,
{
    let ghost v0 = vars@;
    match e {
        Expr::Variable(n) => {
            vars.push(n.clone());
            proof {
                lemma_names_set_push(v0, vars@.last());
            }
        },
        Expr::Unary(a) => {
            walk_expr(a, vars);
        },
        Expr::Binary(a, b) => {
            walk_expr(a, vars);
            walk_expr(b, vars);
        },
        Expr::Ternary(a, b, c) => {
            walk_expr(a, vars);
            walk_expr(b, vars);
            walk_expr(c, vars);
        },
        Expr::Assignment(a, b) => {
            walk_expr(a, vars);
            walk_expr(b, vars);
        },
        Expr::Bracket(a, b) => {
            walk_expr(a, vars);
            walk_expr(b, vars);
        },
        Expr::FunCall(args) => {
            let n = args.len();
            let mut i: usize = 0;
            while i < n
                invariant
                    n == args@.len(),
                    i <= n,
                    names_set(vars@) == names_set(v0) + exprs_uses(args@.subrange(0, i as int)),
                decreases n - i,
            {
                walk_expr(&args[i], vars);
                proof {
                    let pre = args@.subrange(0, i as int);
                    let post = args@.subrange(0, i + 1);
                    assert(post.drop_last() =~= pre);
                    assert(post.last() == args@[i as int]);
                    assert(names_set(vars@) =~= names_set(v0) + exprs_uses(post));
                }
                i = i + 1;
            }
            proof {
                assert(args@.subrange(0, n as int) =~= args@);
            }
        },
        Expr::Dot(a) => {
            walk_expr(a, vars);
        },
        Expr::PostInc(a) => {
            walk_expr(a, vars);
        },
        Expr::PostDec(a) => {
            walk_expr(a, vars);
        },
        Expr::Comma(a, b) => {
            walk_expr(a, vars);
            walk_expr(b, vars);
        },
        Expr::Other => {},
    }
    proof {
        assert(names_set(vars@) =~= names_set(v0) + expr_uses(*e));
    }
}

/// Records every identifier the initializer mentions.
pub fn walk_initializer(ini: &Initializer, vars: &mut Vec<String>)
    ensures
        names_set(final(vars)@) == names_set(old(vars)@) + init_uses(*ini),
    decreases *ini,
{
    let ghost v0 = vars@;
    match ini {
        Initializer::Simple(e) => {
            walk_expr(e, vars);
        },
        Initializer::List(items) => {
            let n = items.len();
            let mut i: usize = 0;
            while i < n
                invariant
                    n == items@.len(),
                    i <= n,
                    names_set(vars@) == names_set(v0) + inits_uses(items@.subrange(0, i as int)),
                decreases n - i,
            {
                walk_initializer(&items[i], vars);
                proof {
                    let pre = items@.subrange(0, i as int);
                    let post = items@.subrange(0, i + 1);
                    assert(post.drop_last() =~= pre);
                    assert(post.last() == items@[i as int]);
                    assert(names_set(vars@) =~= names_set(v0) + inits_uses(post));
                }
                i = i + 1;
            }
            proof {
                assert(items@.subrange(0, n as int) =~= items@);
            }
        },
    }
    proof {
        assert(names_set(vars@) =~= names_set(v0) + init_uses(*ini));
    }
}

/// Records every identifier a loop condition mentions; fails fast on an
/// assignment used as a condition.
pub fn walk_condition(c: &Condition, vars: &mut Vec<String>) -> (r: Result<(), KshError>)
    ensures
        r is Ok <==> cond_ok(*c),
        r is Ok ==> names_set(final(vars)@) == names_set(old(vars)@) + cond_uses(*c),
        r matches Err(e) ==> e == KshError::UnsupportedType,
{
    match c {
        Condition::Expr(e) => {
            walk_expr(e, vars);
            Ok(())
        },
        Condition::Assignment => Err(KshError::UnsupportedType),
    }
}

/// Records every identifier the statement mentions in a reachable position;
/// fails fast on an assignment used as a condition anywhere inside it.
pub fn walk_statement(s: &Stmt, vars: &mut Vec<String>) -> (r: Result<(), KshError>)
    ensures
        r is Ok <==> stmt_ok(*s),
        r is Ok ==> names_set(final(vars)@) == names_set(old(vars)@) + stmt_uses(*s),
        r matches Err(e) ==> e == KshError::UnsupportedType,
    decreases *s,
{
    let ghost v0 = vars@;
    match s {
        Stmt::Declaration(inits) => {
            let n = inits.len();
            let mut i: usize = 0;
            while i < n
                invariant
                    n == inits@.len(),
                    i <= n,
                    names_set(vars@) == names_set(v0) + inits_uses(inits@.subrange(0, i as int)),
                decreases n - i,
            {
                walk_initializer(&inits[i], vars);
                proof {
                    let pre = inits@.subrange(0, i as int);
                    let post = inits@.subrange(0, i + 1);
                    assert(post.drop_last() =~= pre);
                    assert(post.last() == inits@[i as int]);
                    assert(names_set(vars@) =~= names_set(v0) + inits_uses(post));
                }
                i = i + 1;
            }
            proof {
                assert(inits@.subrange(0, n as int) =~= inits@);
                assert(names_set(vars@) =~= names_set(v0) + stmt_uses(*s));
            }
            Ok(())
        },
        Stmt::Expression(oe) => {
            if let Some(e) = oe {
                walk_expr(e, vars);
            }
            proof {
                assert(names_set(vars@) =~= names_set(v0) + stmt_uses(*s));
            }
            Ok(())
        },
        Stmt::Selection(cond, rest) => {
            walk_expr(cond, vars);
            let r = match rest {
                SelectionRest::Statement(t) => walk_statement(t, vars),
                SelectionRest::Else(t, f) => {
                    match walk_statement(t, vars) {
                        Ok(()) => walk_statement(f, vars),
                        Err(e) => Err(e),
                    }
                },
            };
            proof {
                if r is Ok {
                    assert(names_set(vars@) =~= names_set(v0) + stmt_uses(*s));
                }
            }
            r
        },
        Stmt::Switch(head, body) => {
            walk_expr(head, vars);
            let ghost v1 = vars@;
            let n = body.len();
            let mut i: usize = 0;
            while i < n
                invariant
                    n == body@.len(),
                    i <= n,
                    stmts_ok(body@.subrange(0, i as int)),
                    names_set(vars@) == names_set(v1) + stmts_uses(body@.subrange(0, i as int)),
                decreases n - i,
            {
                match walk_statement(&body[i], vars) {
                    Ok(()) => {},
                    Err(e) => {
                        proof {
                            assert_by_contradiction!(!stmts_ok(body@), {
                                lemma_stmts_ok_index(body@, i as int);
                            });
                        }
                        return Err(e);
                    },
                }
                proof {
                    let pre = body@.subrange(0, i as int);
                    let post = body@.subrange(0, i + 1);
                    assert(post.drop_last() =~= pre);
                    assert(post.last() == body@[i as int]);
                    assert(names_set(vars@) =~= names_set(v1) + stmts_uses(post));
                }
                i = i + 1;
            }
            proof {
                assert(body@.subrange(0, n as int) =~= body@);
                assert(names_set(vars@) =~= names_set(v0) + stmt_uses(*s));
            }
            Ok(())
        },
        Stmt::CaseLabel(oe) => {
            if let Some(e) = oe {
                walk_expr(e, vars);
            }
            proof {
                assert(names_set(vars@) =~= names_set(v0) + stmt_uses(*s));
            }
            Ok(())
        },
        Stmt::While(c, body) => {
            match walk_condition(c, vars) {
                Ok(()) => {},
                Err(e) => {
                    return Err(e);
                },
            }
            let r = walk_statement(body, vars);
            proof {
                if r is Ok {
                    assert(names_set(vars@) =~= names_set(v0) + stmt_uses(*s));
                }
            }
            r
        },
        Stmt::DoWhile(body, e) => {
            match walk_statement(body, vars) {
                Ok(()) => {},
                Err(er) => {
                    return Err(er);
                },
            }
            walk_expr(e, vars);
            proof {
                assert(names_set(vars@) =~= names_set(v0) + stmt_uses(*s));
            }
            Ok(())
        },
        Stmt::For(ini, oc, oe, body) => {
            if let ForInit::Expression(Some(e)) = ini {
                walk_expr(e, vars);
            }
            if let Some(c) = oc {
                match walk_condition(c, vars) {
                    Ok(()) => {},
                    Err(e) => {
                        return Err(e);
                    },
                }
            }
            if let Some(e) = oe {
                walk_expr(e, vars);
            }
            let r = walk_statement(body, vars);
            proof {
                if r is Ok {
                    assert(names_set(vars@) =~= names_set(v0) + stmt_uses(*s));
                }
            }
            r
        },
        Stmt::Jump(oe) => {
            if let Some(e) = oe {
                walk_expr(e, vars);
            }
            proof {
                assert(names_set(vars@) =~= names_set(v0) + stmt_uses(*s));
            }
            Ok(())
        },
        Stmt::Compound(body) => {
            let n = body.len();
            let mut i: usize = 0;
            while i < n
                invariant
                    n == body@.len(),
                    i <= n,
                    stmts_ok(body@.subrange(0, i as int)),
                    names_set(vars@) == names_set(v0) + stmts_uses(body@.subrange(0, i as int)),
                decreases n - i,
            {
                match walk_statement(&body[i], vars) {
                    Ok(()) => {},
                    Err(e) => {
                        proof {
                            assert_by_contradiction!(!stmts_ok(body@), {
                                lemma_stmts_ok_index(body@, i as int);
                            });
                        }
                        return Err(e);
                    },
                }
                proof {
                    let pre = body@.subrange(0, i as int);
                    let post = body@.subrange(0, i + 1);
                    assert(post.drop_last() =~= pre);
                    assert(post.last() == body@[i as int]);
                    assert(names_set(vars@) =~= names_set(v0) + stmts_uses(post));
                }
                i = i + 1;
            }
            proof {
                assert(body@.subrange(0, n as int) =~= body@);
                assert(names_set(vars@) =~= names_set(v0) + stmt_uses(*s));
            }
            Ok(())
        },
    }
}

/// Walks every function body of the file and collects the names mentioned
/// anywhere in a reachable position.
pub fn collect_used_variables(tu: &TranslationUnit) -> (r: Result<Vec<String>, KshError>)
    ensures
        r is Ok <==> tu_ok(*tu),
        r matches Ok(v) ==> names_set(v@) == tu_uses(*tu),
        r matches Err(e) ==> e == KshError::UnsupportedType,
{
    let mut vars: Vec<String> = Vec::new();
    let decls = &tu.decls;
    let n = decls.len();
    let mut i: usize = 0;
    while i < n
        invariant
            n == decls@.len(),
            i <= n,
            decls@ == tu.decls@,
            decls_ok(decls@.subrange(0, i as int)),
            names_set(vars@) == decls_uses(decls@.subrange(0, i as int)),
        decreases n - i,
    {
        match &decls[i] {
            ExternalDecl::Function(f) => {
                let ghost v1 = vars@;
                let body = &f.body;
                let m = body.len();
                let mut j: usize = 0;
                while j < m
                    invariant
                        m == body@.len(),
                        j <= m,
                        stmts_ok(body@.subrange(0, j as int)),
                        names_set(vars@) == names_set(v1) + stmts_uses(body@.subrange(0, j as int)),
                    decreases m - j,
                {
                    match walk_statement(&body[j], &mut vars) {
                        Ok(()) => {},
                        Err(e) => {
                            proof {
                                assert_by_contradiction!(!stmts_ok(body@), {
                                    lemma_stmts_ok_index(body@, j as int);
                                });
                                assert_by_contradiction!(!tu_ok(*tu), {
                                    lemma_decls_ok_index(decls@, i as int);
                                });
                            }
                            return Err(e);
                        },
                    }
                    proof {
                        let pre = body@.subrange(0, j as int);
                        let post = body@.subrange(0, j + 1);
                        assert(post.drop_last() =~= pre);
                        assert(post.last() == body@[j as int]);
                        assert(names_set(vars@) =~= names_set(v1) + stmts_uses(post));
                    }
                    j = j + 1;
                }
                proof {
                    assert(body@.subrange(0, m as int) =~= body@);
                }
            },
            _ => {},
        }
        proof {
            let pre = decls@.subrange(0, i as int);
            let post = decls@.subrange(0, i + 1);
            assert(post.drop_last() =~= pre);
            assert(post.last() == decls@[i as int]);
            assert(names_set(vars@) =~= decls_uses(post));
        }
        i = i + 1;
    }
    proof {
        assert(decls@.subrange(0, n as int) =~= decls@);
    }
    Ok(vars)
}

/// True when the declaration declares a variable whose first qualifier is
/// the storage qualifier `uniform`.
pub open spec fn is_uniform_decl(d: ExternalDecl) -> bool {
    &&& d is Variable
    &&& d->Variable_0.qualifiers@.len() > 0
    &&& d->Variable_0.qualifiers@[0] is Uniform
}

/// True when extracting a record from the declaration cannot fail: a
/// non-uniform declaration is skipped, a uniform one must carry a name and
/// one of the six supported types.
pub open spec fn decl_ok(d: ExternalDecl) -> bool {
    is_uniform_decl(d) ==> {
        &&& d->Variable_0.name is Some
        &&& VariableType::spec_from_name(d->Variable_0.ty_name@) is Some
    }
}

/// The error a failing uniform declaration raises: a nameless declaration
/// is malformed, one with a type outside the six kinds is unsupported.
pub open spec fn decl_err(d: ExternalDecl) -> KshError {
    if d->Variable_0.name is None {
        KshError::ParseError
    } else {
        KshError::UnsupportedType
    }
}

/// True when every declaration of the file extracts cleanly.
pub open spec fn extraction_ok(s: Seq<ExternalDecl>) -> bool {
    forall|i: int| 0 <= i < s.len() ==> decl_ok(#[trigger] s[i])
}

/// The error of the first declaration that fails to extract.
pub open spec fn extraction_err(s: Seq<ExternalDecl>) -> KshError
    decreases s,
{
    if s.len() == 0 {
        KshError::ParseError
    } else if !decl_ok(s[0]) {
        decl_err(s[0])
    } else {
        extraction_err(s.drop_first())
    }
}

/// With a clean prefix, the first failing declaration decides the error.
proof fn lemma_extraction_err_at(s: Seq<ExternalDecl>, i: int)
    requires
        0 <= i < s.len(),
        forall|j: int| 0 <= j < i ==> decl_ok(#[trigger] s[j]),
        !decl_ok(s[i]),
    ensures
        extraction_err(s) == decl_err(s[i]),
    decreases i,
{
    if i > 0 {
        let t = s.drop_first();
        assert(forall|j: int| 0 <= j < i - 1 ==> decl_ok(#[trigger] t[j]));
        lemma_extraction_err_at(t, i - 1);
    }
}

/// The record a clean uniform declaration yields: its name, its type, an
/// empty default block, uniform scope, and its declared array dimension.
pub open spec fn decl_view(vd: VarDecl) -> VarView {
    VarView {
        name: vd.name->Some_0@,
        ty: VariableType::spec_from_name(vd.ty_name@)->Some_0,
        default_data: Seq::empty(),
        scope: VariableScope::UNIFORM,
        array_length: vd.array_size,
    }
}

/// The records of all uniform declarations of the file, in declaration
/// order.
pub open spec fn uniform_views(s: Seq<ExternalDecl>) -> Seq<VarView>
    decreases s,
{
    if s.len() == 0 {
        Seq::empty()
    } else {
        uniform_views(s.drop_last()) + (if is_uniform_decl(s.last()) {
            seq![decl_view(s.last()->Variable_0)]
        } else {
            Seq::empty()
        })
    }
}

/// Scans the top-level declarations and keeps those qualified `uniform`,
/// recording name, type and explicit constant array dimension.  Fails on a
/// nameless uniform and on a type outside the six supported kinds.
pub fn collect_uniform_declarations(tu: &TranslationUnit) -> (r: Result<Vec<Variable>, KshError>)
    ensures
        r is Ok <==> extraction_ok(tu.decls@),
        r matches Ok(v) ==> views_of(v@) == uniform_views(tu.decls@),
        r matches Err(e) ==> e == extraction_err(tu.decls@),
{
    let mut out: Vec<Variable> = Vec::new();
    let decls = &tu.decls;
    let n = decls.len();
    let mut i: usize = 0;
    while i < n
        invariant
            i <= n,
            forall|j: int| 0 <= j < i ==> decl_ok(#[trigger] decls@[j]),
            views_of(out@) == uniform_views(decls@.subrange(0, i as int)),
        decreases n - i,
    {
        let ghost prev = out@;
        match &decls[i] {
            ExternalDecl::Variable(vd) => {
                let is_u = vd.qualifiers.len() > 0 && vd.qualifiers[0] == Qualifier::Uniform;
                if is_u {
                    let nm = match &vd.name {
                        Some(nm) => nm,
                        None => {
                            proof {
                                lemma_extraction_err_at(decls@, i as int);
                            }
                            return Err(KshError::ParseError);
                        },
                    };
                    let ty = match VariableType::from_name(vd.ty_name.as_str()) {
                        Ok(t) => t,
                        Err(_) => {
                            proof {
                                lemma_extraction_err_at(decls@, i as int);
                            }
                            return Err(KshError::UnsupportedType);
                        },
                    };
                    out.push(Variable {
                        name: nm.clone(),
                        ty,
                        default_data: Vec::new(),
                        scope: VariableScope::UNIFORM,
                        array_length: vd.array_size,
                    });
                    proof {
                        assert(views_of(out@) =~= views_of(prev).push(out@.last()@));
                    }
                }
            },
            _ => {},
        }
        proof {
            let pre = decls@.subrange(0, i as int);
            let post = decls@.subrange(0, i + 1);
            assert(post.drop_last() =~= pre);
            assert(post.last() == decls@[i as int]);
            assert(views_of(out@) =~= uniform_views(post));
        }
        i = i + 1;
    }
    proof {
        assert(decls@.subrange(0, n as int) =~= decls@);
    }
    Ok(out)
}

/// A name is in the set of a list exactly when some entry holds it.
proof fn lemma_names_set_contains(s: Seq<String>, n: Seq<char>)
    ensures
        names_set(s).contains(n) <==> exists|i: int| 0 <= i < s.len() && s[i]@ == n,
    decreases s,
{
    if s.len() > 0 {
        lemma_names_set_contains(s.drop_last(), n);
        if s.last()@ == n {
            assert(s[s.len() - 1]@ == n);
        } else if names_set(s).contains(n) {
            let i = choose|i: int| 0 <= i < s.drop_last().len() && s.drop_last()[i]@ == n;
            assert(s[i]@ == n);
        } else if exists|i: int| 0 <= i < s.len() && s[i]@ == n {
            let i = choose|i: int| 0 <= i < s.len() && s[i]@ == n;
            assert(s.drop_last()[i]@ == n);
        }
    }
}

/// True when some entry of the list holds exactly the given name.
pub fn contains_name(used: &Vec<String>, name: &String) -> (r: bool)
    ensures
        r == names_set(used@).contains(name@),
{
    proof {
        lemma_names_set_contains(used@, name@);
    }
    let n = used.len();
    let mut i: usize = 0;
    while i < n
        invariant
            i <= n,
            forall|j: int| 0 <= j < i ==> used@[j]@ != name@,
        decreases n - i,
    {
        if crate::strutil::string_eq(&used[i], name) {
            return true;
        }
        i = i + 1;
    }
    false
}

/// A filtered sequence only holds elements of the original.
pub proof fn lemma_filter_subset<A>(s: Seq<A>, pred: spec_fn(A) -> bool, i: int)
    requires
        0 <= i < s.filter(pred).len(),
    ensures
        s.contains(s.filter(pred)[i]),
    decreases s.len(),
{
    reveal(Seq::filter);
    if s.len() > 0 {
        let sub = s.drop_last().filter(pred);
        if i < sub.len() {
            lemma_filter_subset(s.drop_last(), pred, i);
            let j = choose|j: int| 0 <= j < s.drop_last().len() && s.drop_last()[j] == sub[i];
            assert(s[j] == s.filter(pred)[i]);
        } else {
            assert(s[s.len() - 1] == s.filter(pred)[i]);
        }
    }
}

/// There are no more uniform records than top-level declarations.
pub proof fn lemma_uniform_views_len(s: Seq<ExternalDecl>)
    ensures
        uniform_views(s).len() <= s.len(),
    decreases s,
{
    if s.len() > 0 {
        lemma_uniform_views_len(s.drop_last());
    }
}

/// The live uniforms of a source file: its declared uniforms, in
/// declaration order, restricted to those whose name is mentioned inside
/// some function body.
pub open spec fn live_views(tu: TranslationUnit) -> Seq<VarView> {
    uniform_views(tu.decls@).filter(|v: VarView| tu_uses(tu).contains(v.name))
}

/// True when the whole analysis of the file succeeds.
pub open spec fn analysis_ok(tu: TranslationUnit) -> bool {
    extraction_ok(tu.decls@) && tu_ok(tu)
}

/// The error the analysis reports: declaration extraction is tried first,
/// then the usage walk.
pub open spec fn analysis_err(tu: TranslationUnit) -> KshError {
    if !extraction_ok(tu.decls@) {
        extraction_err(tu.decls@)
    } else {
        KshError::UnsupportedType
    }
}

/// Analyzes one GLSL stage: extracts its declared uniforms and keeps only
/// those mentioned inside a function body, in declaration order.
pub fn analyze_uniforms(tu: &TranslationUnit) -> (r: Result<Vec<Variable>, KshError>)
    ensures
        r is Ok <==> analysis_ok(*tu),
        r matches Ok(v) ==> views_of(v@) == live_views(*tu),
        r matches Err(e) ==> e == analysis_err(*tu),
{
    let uniforms = match collect_uniform_declarations(tu) {
        Ok(v) => v,
        Err(e) => {
            return Err(e);
        },
    };
    let used = match collect_used_variables(tu) {
        Ok(v) => v,
        Err(e) => {
            return Err(e);
        },
    };
    let ghost pred = |v: VarView| tu_uses(*tu).contains(v.name);
    let ghost uv = views_of(uniforms@);
    let mut out: Vec<Variable> = Vec::new();
    let n = uniforms.len();
    let mut i: usize = 0;
    while i < n
        invariant
            i <= n,
            views_of(out@) == uv.subrange(0, i as int).filter(pred),
        decreases n - i,
    {
        let ghost prev = views_of(out@);
        if contains_name(&used, &uniforms[i].name) {
            out.push(uniforms[i].duplicate());
            proof {
                assert(views_of(out@) =~= prev.push(uniforms@[i as int]@));
            }
        }
        proof {
            let pre = uv.subrange(0, i as int);
            let post = uv.subrange(0, i + 1);
            assert(post.drop_last() =~= pre);
            assert(post.last() == uv[i as int]);
            reveal_with_fuel(Seq::filter, 2);
            assert(views_of(out@) =~= post.filter(pred));
        }
        i = i + 1;
    }
    proof {
        assert(uv.subrange(0, n as int) =~= uv);
    }
    Ok(out)
}

/// Law: the analysis is deterministic.  Its contract pins the result to
/// `live_views` of the syntax tree alone, so analyzing identical text
/// twice yields an identical live-uniform sequence and order.
pub proof fn lemma_analysis_deterministic(tu: TranslationUnit, r1: Seq<VarView>, r2: Seq<VarView>)
    requires
        r1 == live_views(tu),
        r2 == live_views(tu),
    ensures
        r1 == r2,
{
}

/// Law: a uniform declared but never mentioned inside any function body of
/// its stage is absent from the stage's live-uniform list.
pub proof fn lemma_unused_uniform_not_live(tu: TranslationUnit, n: Seq<char>)
    requires
        !tu_uses(tu).contains(n),
    ensures
        forall|k: int| 0 <= k < live_views(tu).len() ==> (#[trigger] live_views(tu)[k]).name != n,
{
    let uv = uniform_views(tu.decls@);
    let pred = |v: VarView| tu_uses(tu).contains(v.name);
    assert forall|k: int|
        0 <= k < live_views(tu).len() implies (#[trigger] live_views(tu)[k]).name != n by {
        uv.lemma_filter_pred(pred, k);
    }
}

} // verus!
