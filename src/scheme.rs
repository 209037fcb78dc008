//! Syntax analysis: node trees to typed expressions.
use vstd::prelude::*;
use crate::lexer::{Literal, LiteralV};
use crate::parser::{lemma_nodes_view, node_view, nodes_view, Node, NodeV};

verus! {

/// Literal, unevaluated data.
#[derive(Debug, PartialEq)]
pub enum Quotation {
    Literal(Literal),
    Symbol(String),
    Nil,
    Cons(Box<Quotation>, Box<Quotation>),
}

/// One clause of a `cond` form other than the last.
#[derive(Debug, PartialEq)]
pub enum CondClause {
    Simple(Expression, Expression),
    Binding(Expression, Expression),
    Inconsequential(Expression),
}

/// A typed expression.
#[derive(Debug, PartialEq)]
pub enum Expression {
    Literal(Literal),
    Variable(String),
    Quote(Quotation),
    Time(Box<Expression>),
    If(Box<Expression>, Box<Expression>, Box<Expression>),
    And(Vec<Expression>),
    Or(Vec<Expression>),
    Begin(Vec<Expression>),
    Unless(Box<Expression>, Box<Expression>),
    Cond(Vec<CondClause>, Box<Expression>),
}

/// Why a node tree is not a valid expression.
#[derive(Debug, PartialEq, Eq, Clone)]
pub enum SchemeError {
    /// The empty list `()`.
    UnexpectedNil,
    /// A list headed by an identifier that names no special form.
    UnhandledKeyword(String),
    /// A list headed by a literal or a list: procedure application.
    ApplicationNotImplemented,
    /// A special form with the wrong number of arguments.
    ArityMismatch { expected: usize, got: usize },
    /// A `cond` clause of the wrong shape.
    MalformedCondClause,
    /// A literal that cannot stand in an expression; every literal the lexer
    /// produces is accepted, so the analyzer does not report it.
    InvalidLiteral,
}

/// The mathematical value of a `Quotation`.
pub enum QuotationV {
    Literal(LiteralV),
    Symbol(Seq<char>),
    Nil,
    Cons(Box<QuotationV>, Box<QuotationV>),
}

/// The mathematical value of a `CondClause`.
pub enum ClauseV {
    Simple(ExprV, ExprV),
    Binding(ExprV, ExprV),
    Inconsequential(ExprV),
}

/// The mathematical value of an `Expression`.
pub enum ExprV {
    Literal(LiteralV),
    Variable(Seq<char>),
    Quote(QuotationV),
    Time(Box<ExprV>),
    If(Box<ExprV>, Box<ExprV>, Box<ExprV>),
    And(Seq<ExprV>),
    Or(Seq<ExprV>),
    Begin(Seq<ExprV>),
    Unless(Box<ExprV>, Box<ExprV>),
    Cond(Seq<ClauseV>, Box<ExprV>),
}

/// The mathematical value of a `SchemeError`.
pub enum SchemeErrorV {
    UnexpectedNil,
    UnhandledKeyword(Seq<char>),
    ApplicationNotImplemented,
    ArityMismatch { expected: usize, got: usize },
    MalformedCondClause,
    InvalidLiteral,
}

pub open spec fn quote_view(q: Quotation) -> QuotationV
    decreases q,
{
    match q {
        Quotation::Literal(l) => QuotationV::Literal(l@),
        Quotation::Symbol(s) => QuotationV::Symbol(s@),
        Quotation::Nil => QuotationV::Nil,
        Quotation::Cons(a, b) => QuotationV::Cons(Box::new(quote_view(*a)), Box::new(quote_view(*b))),
    }
}

pub open spec fn expr_view(e: Expression) -> ExprV
    decreases e,
{
    match e {
        Expression::Literal(l) => ExprV::Literal(l@),
        Expression::Variable(s) => ExprV::Variable(s@),
        Expression::Quote(q) => ExprV::Quote(quote_view(q)),
        Expression::Time(a) => ExprV::Time(Box::new(expr_view(*a))),
        Expression::If(a, b, c) => ExprV::If(
            Box::new(expr_view(*a)),
            Box::new(expr_view(*b)),
            Box::new(expr_view(*c)),
        ),
        Expression::And(v) => ExprV::And(exprs_view(v@)),
        Expression::Or(v) => ExprV::Or(exprs_view(v@)),
        Expression::Begin(v) => ExprV::Begin(exprs_view(v@)),
        Expression::Unless(a, b) => ExprV::Unless(Box::new(expr_view(*a)), Box::new(expr_view(*b))),
        Expression::Cond(v, b) => ExprV::Cond(clauses_view(v@), Box::new(expr_view(*b))),
    }
}

pub open spec fn exprs_view(s: Seq<Expression>) -> Seq<ExprV>
    decreases s,
{
    if s.len() == 0 {
        Seq::empty()
    } else {
        exprs_view(s.subrange(0, s.len() - 1)).push(expr_view(s[s.len() - 1]))
    }
}

pub open spec fn clause_view(c: CondClause) -> ClauseV
    decreases c,
{
    match c {
        CondClause::Simple(a, b) => ClauseV::Simple(expr_view(a), expr_view(b)),
        CondClause::Binding(a, b) => ClauseV::Binding(expr_view(a), expr_view(b)),
        CondClause::Inconsequential(a) => ClauseV::Inconsequential(expr_view(a)),
    }
}

pub open spec fn clauses_view(s: Seq<CondClause>) -> Seq<ClauseV>
    decreases s,
{
    if s.len() == 0 {
        Seq::empty()
    } else {
        clauses_view(s.subrange(0, s.len() - 1)).push(clause_view(s[s.len() - 1]))
    }
}

impl View for Expression {
    type V = ExprV;

    open spec fn view(&self) -> ExprV {
        expr_view(*self)
    }
}

impl View for Quotation {
    type V = QuotationV;

    open spec fn view(&self) -> QuotationV {
        quote_view(*self)
    }
}

impl View for CondClause {
    type V = ClauseV;

    open spec fn view(&self) -> ClauseV {
        clause_view(*self)
    }
}

impl View for SchemeError {
    type V = SchemeErrorV;

    open spec fn view(&self) -> SchemeErrorV {
        match self {
            SchemeError::UnexpectedNil => SchemeErrorV::UnexpectedNil,
            SchemeError::UnhandledKeyword(s) => SchemeErrorV::UnhandledKeyword(s@),
            SchemeError::ApplicationNotImplemented => SchemeErrorV::ApplicationNotImplemented,
            SchemeError::ArityMismatch { expected, got } => SchemeErrorV::ArityMismatch {
                expected: *expected,
                got: *got,
            },
            SchemeError::MalformedCondClause => SchemeErrorV::MalformedCondClause,
            SchemeError::InvalidLiteral => SchemeErrorV::InvalidLiteral,
        }
    }
}

pub open spec fn result_view<T: View>(r: Result<T, SchemeError>) -> Result<T::V, SchemeErrorV> {
    match r {
        Ok(x) => Ok(x@),
        Err(e) => Err(e@),
    }
}

pub open spec fn arity(expected: nat, got: nat) -> SchemeErrorV {
    SchemeErrorV::ArityMismatch { expected: expected as usize, got: got as usize }
}

/// The quotation of a node: identifiers become symbols, lists become chains
/// of pairs ending in `Nil`. `(quote x)` quotes `x`; `quote` with any other
/// number of arguments quotes the list of them.
pub open spec fn quote_of(n: NodeV) -> QuotationV
    decreases n,
{
    match n {
        NodeV::Identifier(s) => QuotationV::Symbol(s),
        NodeV::Literal(l) => QuotationV::Literal(l),
        NodeV::List(s) => quote_list(s),
    }
}

pub open spec fn quote_list(s: Seq<NodeV>) -> QuotationV
    decreases s,
{
    if s.len() == 0 {
        QuotationV::Nil
    } else {
        QuotationV::Cons(Box::new(quote_of(s[0])), Box::new(quote_list(s.subrange(1, s.len() as int))))
    }
}

/// The expression that a node tree stands for.
pub open spec fn analyze(n: NodeV) -> Result<ExprV, SchemeErrorV>
    decreases n,
{
    match n {
        NodeV::Literal(l) => Ok(ExprV::Literal(l)),
        NodeV::Identifier(s) => Ok(ExprV::Variable(s)),
        NodeV::List(s) => if s.len() == 0 {
            Err(SchemeErrorV::UnexpectedNil)
        } else {
            analyze_form(s)
        },
    }
}

/// Each node analyzed in order; the first error wins.
pub open spec fn analyze_all(t: Seq<NodeV>) -> Result<Seq<ExprV>, SchemeErrorV>
    decreases t,
{
    if t.len() == 0 {
        Ok(Seq::empty())
    } else {
        match analyze_all(t.subrange(0, t.len() - 1)) {
            Err(e) => Err(e),
            Ok(v) => match analyze(t[t.len() - 1]) {
                Ok(x) => Ok(v.push(x)),
                Err(e) => Err(e),
            },
        }
    }
}

/// The expression of a non-empty list `s`, which must be a special form.
pub open spec fn analyze_form(s: Seq<NodeV>) -> Result<ExprV, SchemeErrorV>
    decreases s,
{
    if s.len() == 0 {
        Err(SchemeErrorV::UnexpectedNil)
    } else {
        let tl = s.subrange(1, s.len() as int);
        match s[0] {
            NodeV::Identifier(k) => if k == "quote"@ {
                if tl.len() == 1 {
                    Ok(ExprV::Quote(quote_of(tl[0])))
                } else {
                    Ok(ExprV::Quote(quote_list(tl)))
                }
            } else if k == "time"@ {
                if tl.len() != 1 {
                    Err(arity(1, tl.len()))
                } else {
                    match analyze_all(tl) {
                        Ok(v) => Ok(ExprV::Time(Box::new(v[0]))),
                        Err(e) => Err(e),
                    }
                }
            } else if k == "if"@ {
                if tl.len() != 3 {
                    Err(arity(3, tl.len()))
                } else {
                    match analyze_all(tl) {
                        Ok(v) => Ok(ExprV::If(Box::new(v[0]), Box::new(v[1]), Box::new(v[2]))),
                        Err(e) => Err(e),
                    }
                }
            } else if k == "and"@ {
                match analyze_all(tl) {
                    Ok(v) => Ok(ExprV::And(v)),
                    Err(e) => Err(e),
                }
            } else if k == "or"@ {
                match analyze_all(tl) {
                    Ok(v) => Ok(ExprV::Or(v)),
                    Err(e) => Err(e),
                }
            } else if k == "begin"@ {
                if tl.len() == 0 {
                    Err(arity(1, 0))
                } else {
                    match analyze_all(tl) {
                        Ok(v) => Ok(ExprV::Begin(v)),
                        Err(e) => Err(e),
                    }
                }
            } else if k == "unless"@ {
                if tl.len() != 2 {
                    Err(arity(2, tl.len()))
                } else {
                    match analyze_all(tl) {
                        Ok(v) => Ok(ExprV::Unless(Box::new(v[0]), Box::new(v[1]))),
                        Err(e) => Err(e),
                    }
                }
            } else if k == "cond"@ {
                analyze_cond(tl)
            } else {
                Err(SchemeErrorV::UnhandledKeyword(k))
            },
            _ => Err(SchemeErrorV::ApplicationNotImplemented),
        }
    }
}

/// A clause of a `cond` other than the last: `(test)`, `(test consequent)`
/// or `(test => receiver)`.
pub open spec fn analyze_clause(n: NodeV) -> Result<ClauseV, SchemeErrorV>
    decreases n,
{
    match n {
        NodeV::List(s) => if s.len() == 1 {
            match analyze(s[0]) {
                Ok(a) => Ok(ClauseV::Inconsequential(a)),
                Err(e) => Err(e),
            }
        } else if s.len() == 2 {
            match analyze(s[0]) {
                Err(e) => Err(e),
                Ok(a) => match analyze(s[1]) {
                    Ok(b) => Ok(ClauseV::Simple(a, b)),
                    Err(e) => Err(e),
                },
            }
        } else if s.len() == 3 {
            if s[1] != NodeV::Identifier("=>"@) {
                Err(SchemeErrorV::MalformedCondClause)
            } else {
                match analyze(s[0]) {
                    Err(e) => Err(e),
                    Ok(a) => match analyze(s[2]) {
                        Ok(b) => Ok(ClauseV::Binding(a, b)),
                        Err(e) => Err(e),
                    },
                }
            }
        } else {
            Err(SchemeErrorV::MalformedCondClause)
        },
        _ => Err(SchemeErrorV::MalformedCondClause),
    }
}

pub open spec fn analyze_clauses(t: Seq<NodeV>) -> Result<Seq<ClauseV>, SchemeErrorV>
    decreases t,
{
    if t.len() == 0 {
        Ok(Seq::empty())
    } else {
        match analyze_clauses(t.subrange(0, t.len() - 1)) {
            Err(e) => Err(e),
            Ok(v) => match analyze_clause(t[t.len() - 1]) {
                Ok(x) => Ok(v.push(x)),
                Err(e) => Err(e),
            },
        }
    }
}

/// The body of an else clause `(else body)`.
pub open spec fn else_body(n: NodeV) -> Option<NodeV> {
    match n {
        NodeV::List(s) => if s.len() == 2 && s[0] == NodeV::Identifier("else"@) {
            Some(s[1])
        } else {
            None
        },
        _ => None,
    }
}

/// A `cond` form's clauses: the last is the else clause, the others are
/// ordinary clauses.
pub open spec fn analyze_cond(c: Seq<NodeV>) -> Result<ExprV, SchemeErrorV>
    decreases c,
{
    if c.len() == 0 {
        Err(arity(1, 0))
    } else {
        match analyze_clauses(c.subrange(0, c.len() - 1)) {
            Err(e) => Err(e),
            Ok(cl) => match c[c.len() - 1] {
                NodeV::List(s) => if s.len() == 2 && s[0] == NodeV::Identifier("else"@) {
                    match analyze(s[1]) {
                        Ok(b) => Ok(ExprV::Cond(cl, Box::new(b))),
                        Err(e) => Err(e),
                    }
                } else {
                    Err(SchemeErrorV::MalformedCondClause)
                },
                _ => Err(SchemeErrorV::MalformedCondClause),
            },
        }
    }
}

pub proof fn lemma_exprs_view(s: Seq<Expression>)
    ensures
        exprs_view(s).len() == s.len(),
        forall|i: int| 0 <= i < s.len() ==> #[trigger] exprs_view(s)[i] == expr_view(s[i]),
    decreases s.len(),
{
    if s.len() > 0 {
        lemma_exprs_view(s.subrange(0, s.len() - 1));
    }
}

proof fn lemma_analyze_all_len(t: Seq<NodeV>)
    ensures
        analyze_all(t) matches Ok(v) ==> v.len() == t.len(),
    decreases t.len(),
{
    if t.len() > 0 {
        lemma_analyze_all_len(t.subrange(0, t.len() - 1));
    }
}

/// Once a prefix of the arguments fails, the whole list fails the same way.
proof fn lemma_analyze_all_err(t: Seq<NodeV>, k: int)
    requires
        0 <= k <= t.len(),
        analyze_all(t.subrange(0, k)) is Err,
    ensures
        analyze_all(t) == analyze_all(t.subrange(0, k)),
    decreases t.len(),
{
    if k == t.len() {
        assert(t.subrange(0, k) =~= t);
    } else {
        let d = t.subrange(0, t.len() - 1);
        assert(d.subrange(0, k) =~= t.subrange(0, k));
        lemma_analyze_all_err(d, k);
    }
}

proof fn lemma_analyze_clauses_err(t: Seq<NodeV>, k: int)
    requires
        0 <= k <= t.len(),
        analyze_clauses(t.subrange(0, k)) is Err,
    ensures
        analyze_clauses(t) == analyze_clauses(t.subrange(0, k)),
    decreases t.len(),
{
    if k == t.len() {
        assert(t.subrange(0, k) =~= t);
    } else {
        let d = t.subrange(0, t.len() - 1);
        assert(d.subrange(0, k) =~= t.subrange(0, k));
        lemma_analyze_clauses_err(d, k);
    }
}

fn is_named(s: &String, kw: &str) -> (r: bool)
    ensures
        r == (s@ == kw@),
{
    let k = kw.to_string();
    *s == k
}

fn parse_quotation(e: Node) -> (r: Quotation)
    ensures
        r@ == quote_of(e@),
    decreases e@,
{
    match e {
        Node::Identifier(s) => Quotation::Symbol(s),
        Node::Literal(l) => Quotation::Literal(l),
        Node::List(s) => parse_quotation_list(s),
    }
}

fn parse_quotation_list(e: Vec<Node>) -> (r: Quotation)
    ensures
        r@ == quote_list(nodes_view(e@)),
    decreases nodes_view(e@),
{
    if e.len() == 0 {
        return Quotation::Nil;
    }
    let ghost s = nodes_view(e@);
    proof {
        lemma_nodes_view(e@);
    }
    let mut e = e;
    let hd = e.remove(0);
    proof {
        lemma_nodes_view(e@);
        assert(nodes_view(e@) =~= s.subrange(1, s.len() as int));
        assert(hd@ == s[0]);
    }
    Quotation::Cons(Box::new(parse_quotation(hd)), Box::new(parse_quotation_list(e)))
}

fn zero_or_more_op(tl: Vec<Node>) -> (r: Result<Vec<Expression>, SchemeError>)
    ensures
        match analyze_all(nodes_view(tl@)) {
            Ok(v) => r matches Ok(x) && exprs_view(x@) == v,
            Err(e) => r matches Err(x) && x@ == e,
        },
    decreases nodes_view(tl@), 0nat,
{
    let ghost t = nodes_view(tl@);
    let mut rest = tl;
    let mut args: Vec<Expression> = Vec::new();
    let ghost mut i: int = 0;
    proof {
        lemma_nodes_view(rest@);
        assert(t.subrange(0, 0) =~= Seq::<NodeV>::empty());
        assert(t.subrange(0, t.len() as int) =~= t);
        assert(exprs_view(args@) =~= Seq::<ExprV>::empty());
    }
    while rest.len() > 0
        invariant
            t == nodes_view(tl@),
            0 <= i <= t.len(),
            nodes_view(rest@) == t.subrange(i, t.len() as int),
            analyze_all(t.subrange(0, i)) == Ok::<Seq<ExprV>, SchemeErrorV>(exprs_view(args@)),
        decreases rest@.len(),
    {
        proof {
            lemma_nodes_view(rest@);
        }
        let ghost r0 = rest@;
        let n = rest.remove(0);
        proof {
            lemma_nodes_view(rest@);
            assert(nodes_view(r0).len() == r0.len());
            assert forall|k: int| 0 <= k < rest@.len() implies #[trigger] nodes_view(rest@)[k]
                == nodes_view(r0)[k + 1] by {
                assert(rest@[k] == r0[k + 1]);
            }
            assert(nodes_view(rest@) =~= t.subrange(i + 1, t.len() as int));
            assert(nodes_view(r0)[0] == n@);
            assert(n@ == t[i]);
            assert(t.subrange(0, i + 1).subrange(0, i) =~= t.subrange(0, i));
        }
        match parse_expression(n) {
            Ok(x) => {
                let ghost a0 = args@;
                args.push(x);
                proof {
                    assert(args@.subrange(0, args@.len() - 1) =~= a0);
                    i = i + 1;
                }
            },
            Err(e) => {
                proof {
                    lemma_analyze_all_err(t, i + 1);
                }
                return Err(e);
            },
        }
    }
    proof {
        lemma_nodes_view(rest@);
        assert(t.subrange(0, i) =~= t);
    }
    Ok(args)
}

fn one_or_more_op(tl: Vec<Node>) -> (r: Result<Vec<Expression>, SchemeError>)
    ensures
        tl@.len() == 0 ==> (r matches Err(x) && x@ == arity(1, 0)),
        tl@.len() > 0 ==> match analyze_all(nodes_view(tl@)) {
            Ok(v) => r matches Ok(x) && exprs_view(x@) == v,
            Err(e) => r matches Err(x) && x@ == e,
        },
    decreases nodes_view(tl@), 1nat,
{
    if tl.len() == 0 {
        return Err(SchemeError::ArityMismatch { expected: 1, got: 0 });
    }
    zero_or_more_op(tl)
}

fn unary_op(tl: Vec<Node>) -> (r: Result<Box<Expression>, SchemeError>)
    ensures
        tl@.len() != 1 ==> (r matches Err(x) && x@ == arity(1, tl@.len())),
        tl@.len() == 1 ==> match analyze_all(nodes_view(tl@)) {
            Ok(v) => r matches Ok(a) && a@ == v[0],
            Err(e) => r matches Err(x) && x@ == e,
        },
    decreases nodes_view(tl@), 1nat,
{
    if tl.len() != 1 {
        return Err(SchemeError::ArityMismatch { expected: 1, got: tl.len() });
    }
    proof {
        lemma_nodes_view(tl@);
        lemma_analyze_all_len(nodes_view(tl@));
    }
    match zero_or_more_op(tl) {
        Ok(v) => {
            let mut v = v;
            proof {
                lemma_exprs_view(v@);
            }
            let a = v.remove(0);
            Ok(Box::new(a))
        },
        Err(e) => Err(e),
    }
}

fn binary_op(tl: Vec<Node>) -> (r: Result<(Box<Expression>, Box<Expression>), SchemeError>)
    ensures
        tl@.len() != 2 ==> (r matches Err(x) && x@ == arity(2, tl@.len())),
        tl@.len() == 2 ==> match analyze_all(nodes_view(tl@)) {
            Ok(v) => r matches Ok((a, b)) && a@ == v[0] && b@ == v[1],
            Err(e) => r matches Err(x) && x@ == e,
        },
    decreases nodes_view(tl@), 1nat,
{
    if tl.len() != 2 {
        return Err(SchemeError::ArityMismatch { expected: 2, got: tl.len() });
    }
    proof {
        lemma_nodes_view(tl@);
        lemma_analyze_all_len(nodes_view(tl@));
    }
    match zero_or_more_op(tl) {
        Ok(v) => {
            let mut v = v;
            proof {
                lemma_exprs_view(v@);
            }
            let a = v.remove(0);
            let b = v.remove(0);
            Ok((Box::new(a), Box::new(b)))
        },
        Err(e) => Err(e),
    }
}

fn ternary_op(tl: Vec<Node>) -> (r: Result<(Box<Expression>, Box<Expression>, Box<Expression>), SchemeError>)
    ensures
        tl@.len() != 3 ==> (r matches Err(x) && x@ == arity(3, tl@.len())),
        tl@.len() == 3 ==> match analyze_all(nodes_view(tl@)) {
            Ok(v) => r matches Ok((a, b, c)) && a@ == v[0] && b@ == v[1] && c@ == v[2],
            Err(e) => r matches Err(x) && x@ == e,
        },
    decreases nodes_view(tl@), 1nat,
{
    if tl.len() != 3 {
        return Err(SchemeError::ArityMismatch { expected: 3, got: tl.len() });
    }
    proof {
        lemma_nodes_view(tl@);
        lemma_analyze_all_len(nodes_view(tl@));
    }
    match zero_or_more_op(tl) {
        Ok(v) => {
            let mut v = v;
            proof {
                lemma_exprs_view(v@);
            }
            let a = v.remove(0);
            let b = v.remove(0);
            let c = v.remove(0);
            Ok((Box::new(a), Box::new(b), Box::new(c)))
        },
        Err(e) => Err(e),
    }
}

fn parse_cond_clause_inconsequential(test: Node) -> (r: Result<CondClause, SchemeError>)
    ensures
        result_view(r) == match analyze(test@) {
            Ok(a) => Ok(ClauseV::Inconsequential(a)),
            Err(e) => Err(e),
        },
    decreases seq![test@], 0nat,
{
    proof {
        assert(decreases_to!(seq![test@] => seq![test@][0]));
    }
    match parse_expression(test) {
        Ok(a) => Ok(CondClause::Inconsequential(a)),
        Err(e) => Err(e),
    }
}

fn parse_cond_clause_simple(test: Node, consequent: Node) -> (r: Result<CondClause, SchemeError>)
    ensures
        result_view(r) == match analyze(test@) {
            Err(e) => Err(e),
            Ok(a) => match analyze(consequent@) {
                Ok(b) => Ok(ClauseV::Simple(a, b)),
                Err(e) => Err(e),
            },
        },
    decreases seq![test@, consequent@], 0nat,
{
    proof {
        assert(decreases_to!(seq![test@, consequent@] => seq![test@, consequent@][0]));
        assert(decreases_to!(seq![test@, consequent@] => seq![test@, consequent@][1]));
    }
    let a = match parse_expression(test) {
        Ok(a) => a,
        Err(e) => return Err(e),
    };
    match parse_expression(consequent) {
        Ok(b) => Ok(CondClause::Simple(a, b)),
        Err(e) => Err(e),
    }
}

fn parse_cond_clause_binding(test: Node, arrow: Node, consequent: Node) -> (r: Result<
    CondClause,
    SchemeError,
>)
    ensures
        result_view(r) == if arrow@ != NodeV::Identifier("=>"@) {
            Err(SchemeErrorV::MalformedCondClause)
        } else {
            match analyze(test@) {
                Err(e) => Err(e),
                Ok(a) => match analyze(consequent@) {
                    Ok(b) => Ok(ClauseV::Binding(a, b)),
                    Err(e) => Err(e),
                },
            }
        },
    decreases seq![test@, arrow@, consequent@], 0nat,
{
    let is_arrow = match &arrow {
        Node::Identifier(a) => is_named(a, "=>"),
        _ => false,
    };
    if !is_arrow {
        return Err(SchemeError::MalformedCondClause);
    }
    proof {
        let q = seq![test@, arrow@, consequent@];
        assert(decreases_to!(q => q[0]));
        assert(decreases_to!(q => q[2]));
    }
    let a = match parse_expression(test) {
        Ok(a) => a,
        Err(e) => return Err(e),
    };
    match parse_expression(consequent) {
        Ok(b) => Ok(CondClause::Binding(a, b)),
        Err(e) => Err(e),
    }
}

fn parse_cond_clause(clause: Node) -> (r: Result<CondClause, SchemeError>)
    ensures
        result_view(r) == analyze_clause(clause@),
    decreases clause@, 0nat,
{
    match clause {
        Node::List(l) => {
            let ghost s = nodes_view(l@);
            proof {
                lemma_nodes_view(l@);
            }
            let mut l = l;
            if l.len() == 1 {
                let a1 = l.remove(0);
                proof {
                    assert(s =~= seq![a1@]);
                }
                parse_cond_clause_inconsequential(a1)
            } else if l.len() == 2 {
                let a1 = l.remove(0);
                let a2 = l.remove(0);
                proof {
                    assert(s =~= seq![a1@, a2@]);
                }
                parse_cond_clause_simple(a1, a2)
            } else if l.len() == 3 {
                let a1 = l.remove(0);
                let a2 = l.remove(0);
                let a3 = l.remove(0);
                proof {
                    assert(s =~= seq![a1@, a2@, a3@]);
                }
                parse_cond_clause_binding(a1, a2, a3)
            } else {
                Err(SchemeError::MalformedCondClause)
            }
        },
        _ => Err(SchemeError::MalformedCondClause),
    }
}

/// The body of an else clause `(else body)`.
fn get_cond_else(else_clause: Node) -> (r: Result<Node, SchemeError>)
    ensures
        match else_body(else_clause@) {
            Some(b) => r matches Ok(x) && x@ == b,
            None => r matches Err(e) && e@ == SchemeErrorV::MalformedCondClause,
        },
{
    match else_clause {
        Node::List(l) => {
            proof {
                lemma_nodes_view(l@);
            }
            if l.len() != 2 {
                return Err(SchemeError::MalformedCondClause);
            }
            let mut l = l;
            let a1 = l.remove(0);
            let a2 = l.remove(0);
            match a1 {
                Node::Identifier(id) => {
                    if is_named(&id, "else") {
                        Ok(a2)
                    } else {
                        Err(SchemeError::MalformedCondClause)
                    }
                },
                _ => Err(SchemeError::MalformedCondClause),
            }
        },
        _ => Err(SchemeError::MalformedCondClause),
    }
}

fn parse_cond(clauses: Vec<Node>) -> (r: Result<Expression, SchemeError>)
    ensures
        result_view(r) == analyze_cond(nodes_view(clauses@)),
    decreases nodes_view(clauses@), 0nat,
{
    let n = clauses.len();
    if n == 0 {
        return Err(SchemeError::ArityMismatch { expected: 1, got: 0 });
    }
    let ghost t = nodes_view(clauses@);
    let ghost c = t.subrange(0, n - 1);
    proof {
        lemma_nodes_view(clauses@);
    }
    let mut rest = clauses;
    let else_clause = rest.remove(n - 1);
    let mut res: Vec<CondClause> = Vec::new();
    let ghost mut i: int = 0;
    proof {
        lemma_nodes_view(rest@);
        assert(nodes_view(rest@) =~= c);
        assert(c.subrange(0, 0) =~= Seq::<NodeV>::empty());
        assert(clauses_view(res@) =~= Seq::<ClauseV>::empty());
    }
    while rest.len() > 0
        invariant
            t == nodes_view(clauses@),
            c == t.subrange(0, n - 1),
            n == t.len(),
            n > 0,
            else_clause@ == t[n - 1],
            0 <= i <= c.len(),
            nodes_view(rest@) == c.subrange(i, c.len() as int),
            analyze_clauses(c.subrange(0, i)) == Ok::<Seq<ClauseV>, SchemeErrorV>(
                clauses_view(res@),
            ),
        decreases rest@.len(),
    {
        proof {
            lemma_nodes_view(rest@);
        }
        let ghost r0 = rest@;
        let cl = rest.remove(0);
        proof {
            lemma_nodes_view(rest@);
            assert(nodes_view(r0).len() == r0.len());
            assert forall|k: int| 0 <= k < rest@.len() implies #[trigger] nodes_view(rest@)[k]
                == nodes_view(r0)[k + 1] by {
                assert(rest@[k] == r0[k + 1]);
            }
            assert(nodes_view(rest@) =~= c.subrange(i + 1, c.len() as int));
            assert(nodes_view(r0)[0] == cl@);
            assert(cl@ == c[i]);
            assert(cl@ == t[i]);
            assert(decreases_to!(t => t[i]));
            assert(c.subrange(0, i + 1).subrange(0, i) =~= c.subrange(0, i));
        }
        match parse_cond_clause(cl) {
            Ok(x) => {
                let ghost a0 = res@;
                res.push(x);
                proof {
                    assert(res@.subrange(0, res@.len() - 1) =~= a0);
                    i = i + 1;
                }
            },
            Err(e) => {
                proof {
                    lemma_analyze_clauses_err(c, i + 1);
                }
                return Err(e);
            },
        }
    }
    proof {
        lemma_nodes_view(rest@);
        assert(c.subrange(0, i) =~= c);
    }
    let body = match get_cond_else(else_clause) {
        Ok(b) => b,
        Err(e) => return Err(e),
    };
    proof {
        let last = t[n - 1];
        assert(decreases_to!(t => last));
        if let NodeV::List(s) = last {
            assert(decreases_to!(last => s));
            assert(decreases_to!(s => s[1]));
        }
    }
    match parse_expression(body) {
        Ok(b) => Ok(Expression::Cond(res, Box::new(b))),
        Err(e) => Err(e),
    }
}

fn parse_expression_from_list(hd: Node, tl: Vec<Node>) -> (r: Result<Expression, SchemeError>)
    ensures
        result_view(r) == analyze_form(seq![hd@] + nodes_view(tl@)),
    decreases seq![hd@] + nodes_view(tl@), 0nat,
{
    let ghost s = seq![hd@] + nodes_view(tl@);
    proof {
        lemma_nodes_view(tl@);
        assert(s.subrange(1, s.len() as int) =~= nodes_view(tl@));
        assert(decreases_to!(s => s.subrange(1, s.len() as int)));
    }
    match hd {
        Node::Identifier(keyword) => {
            if is_named(&keyword, "quote") {
                if tl.len() == 1 {
                    let mut tl = tl;
                    let datum = tl.remove(0);
                    Ok(Expression::Quote(parse_quotation(datum)))
                } else {
                    Ok(Expression::Quote(parse_quotation_list(tl)))
                }
            } else if is_named(&keyword, "time") {
                match unary_op(tl) {
                    Ok(a) => Ok(Expression::Time(a)),
                    Err(e) => Err(e),
                }
            } else if is_named(&keyword, "if") {
                match ternary_op(tl) {
                    Ok((a, b, c)) => Ok(Expression::If(a, b, c)),
                    Err(e) => Err(e),
                }
            } else if is_named(&keyword, "and") {
                match zero_or_more_op(tl) {
                    Ok(v) => Ok(Expression::And(v)),
                    Err(e) => Err(e),
                }
            } else if is_named(&keyword, "or") {
                match zero_or_more_op(tl) {
                    Ok(v) => Ok(Expression::Or(v)),
                    Err(e) => Err(e),
                }
            } else if is_named(&keyword, "begin") {
                match one_or_more_op(tl) {
                    Ok(v) => Ok(Expression::Begin(v)),
                    Err(e) => Err(e),
                }
            } else if is_named(&keyword, "unless") {
                match binary_op(tl) {
                    Ok((a, b)) => Ok(Expression::Unless(a, b)),
                    Err(e) => Err(e),
                }
            } else if is_named(&keyword, "cond") {
                parse_cond(tl)
            } else {
                Err(SchemeError::UnhandledKeyword(keyword))
            }
        },
        Node::Literal(_) => Err(SchemeError::ApplicationNotImplemented),
        Node::List(_) => Err(SchemeError::ApplicationNotImplemented),
    }
}

/// Analyzes one node tree into an expression, as `analyze` says.
pub fn parse_expression(n: Node) -> (r: Result<Expression, SchemeError>)
    ensures
        result_view(r) == analyze(n@),
    decreases n@, 0nat,
{
    match n {
        Node::Literal(l) => Ok(Expression::Literal(l)),
        Node::Identifier(s) => Ok(Expression::Variable(s)),
        Node::List(v) => {
            if v.len() == 0 {
                return Err(SchemeError::UnexpectedNil);
            }
            let ghost s = nodes_view(v@);
            proof {
                lemma_nodes_view(v@);
            }
            let mut v = v;
            let hd = v.remove(0);
            proof {
                lemma_nodes_view(v@);
                assert(seq![hd@] + nodes_view(v@) =~= s);
            }
            parse_expression_from_list(hd, v)
        },
    }
}

/// Analysis depends on the tree alone: two trees with the same value, analyzed
/// one after the other, give results with the same value.
pub proof fn lemma_analysis_repeatable(a: Node, b: Node)
    requires
        a@ == b@,
    ensures
        analyze(a@) == analyze(b@),
{
}

} // verus!
