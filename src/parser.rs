//! Structural parsing: tokens to untyped node trees, one top-level form at a time.
use vstd::prelude::*;
use crate::lexer::{token_result_view, LexError, Lexer, Literal, LiteralV, Token, TokenV};

verus! {

/// An untyped syntax tree.
#[derive(Debug, PartialEq)]
pub enum Node {
    Identifier(String),
    Literal(Literal),
    List(Vec<Node>),
}

/// The mathematical value of a `Node`.
pub enum NodeV {
    Identifier(Seq<char>),
    Literal(LiteralV),
    List(Seq<NodeV>),
}

pub open spec fn node_view(n: Node) -> NodeV
    decreases n,
{
    match n {
        Node::Identifier(s) => NodeV::Identifier(s@),
        Node::Literal(l) => NodeV::Literal(l@),
        Node::List(v) => NodeV::List(nodes_view(v@)),
    }
}

pub open spec fn nodes_view(s: Seq<Node>) -> Seq<NodeV>
    decreases s,
{
    if s.len() == 0 {
        Seq::empty()
    } else {
        nodes_view(s.subrange(0, s.len() - 1)).push(node_view(s[s.len() - 1]))
    }
}

impl View for Node {
    type V = NodeV;

    open spec fn view(&self) -> NodeV {
        node_view(*self)
    }
}

pub proof fn lemma_nodes_view(s: Seq<Node>)
    ensures
        nodes_view(s).len() == s.len(),
        forall|i: int| 0 <= i < s.len() ==> #[trigger] nodes_view(s)[i] == node_view(s[i]),
    decreases s.len(),
{
    if s.len() > 0 {
        lemma_nodes_view(s.subrange(0, s.len() - 1));
    }
}

/// Why a top-level form could not be read.
#[derive(Debug, PartialEq, Eq, Clone, Copy)]
pub enum ParseError {
    /// A `)` with no open form.
    UnmatchedRightParen,
    /// The input ended inside an open form.
    UnexpectedEof,
    /// The lexer failed.
    LexError(LexError),
}

/// The parser's state after some tokens: the open forms, innermost last, or
/// the finished result.
pub enum Progress {
    Open(Seq<Seq<NodeV>>),
    Done(Result<NodeV, ParseError>),
}

/// Puts a finished node into the innermost open form, or completes it as a
/// top-level form where no form is open.
pub open spec fn place(stack: Seq<Seq<NodeV>>, n: NodeV) -> Progress {
    if stack.len() == 0 {
        Progress::Done(Ok(n))
    } else {
        Progress::Open(stack.drop_last().push(stack.last().push(n)))
    }
}

/// The effect of one token on the open forms.
pub open spec fn feed(stack: Seq<Seq<NodeV>>, t: Result<TokenV, LexError>) -> Progress {
    match t {
        Err(e) => Progress::Done(Err(ParseError::LexError(e))),
        Ok(TokenV::LParen) => Progress::Open(stack.push(Seq::empty())),
        Ok(TokenV::RParen) => if stack.len() == 0 {
            Progress::Done(Err(ParseError::UnmatchedRightParen))
        } else {
            place(stack.drop_last(), NodeV::List(stack.last()))
        },
        Ok(TokenV::Identifier(s)) => place(stack, NodeV::Identifier(s)),
        Ok(TokenV::Literal(l)) => place(stack, NodeV::Literal(l)),
    }
}

/// The state after feeding `toks`, in order, to a parser whose open forms are `stack`.
pub open spec fn run_from(stack: Seq<Seq<NodeV>>, toks: Seq<Result<TokenV, LexError>>) -> Progress
    decreases toks.len(),
{
    if toks.len() == 0 {
        Progress::Open(stack)
    } else {
        match run_from(stack, toks.drop_last()) {
            Progress::Open(st) => feed(st, toks.last()),
            Progress::Done(r) => Progress::Done(r),
        }
    }
}

/// The state after feeding `toks`, in order, to a parser with no open form.
pub open spec fn run(toks: Seq<Result<TokenV, LexError>>) -> Progress {
    run_from(Seq::empty(), toks)
}

/// What one call of the parser returns after reading `toks`: the finished
/// form, or, where the input ran out, nothing or `UnexpectedEof`.
pub open spec fn outcome(toks: Seq<Result<TokenV, LexError>>) -> Option<Result<NodeV, ParseError>> {
    match run(toks) {
        Progress::Done(r) => Some(r),
        Progress::Open(st) => if st.len() == 0 {
            None
        } else {
            Some(Err(ParseError::UnexpectedEof))
        },
    }
}

pub open spec fn parse_result_view(r: Option<Result<Node, ParseError>>) -> Option<Result<NodeV, ParseError>> {
    match r {
        None => None,
        Some(Ok(n)) => Some(Ok(n@)),
        Some(Err(e)) => Some(Err(e)),
    }
}

pub open spec fn stack_view(st: Seq<Vec<Node>>) -> Seq<Seq<NodeV>> {
    Seq::new(st.len(), |i: int| nodes_view(st[i]@))
}

/// How many of the tokens `u` one call of the parser reads, looking from
/// position `i`: up to the first token at which a form is finished, or all of
/// them.
pub open spec fn form_end(u: Seq<Result<TokenV, LexError>>, i: int) -> int
    decreases u.len() - i,
{
    if i < 0 || i >= u.len() {
        u.len() as int
    } else if run(u.subrange(0, i + 1)) is Done {
        i + 1
    } else {
        form_end(u, i + 1)
    }
}

/// Places `n` as `place` says: into the innermost open form, or hands it back.
fn place_node(stack: &mut Vec<Vec<Node>>, n: Node) -> (r: Option<Node>)
    ensures
        match place(stack_view(old(stack)@), n@) {
            Progress::Done(x) => r matches Some(m) && x == Ok::<NodeV, ParseError>(m@)
                && final(stack)@ == old(stack)@,
            Progress::Open(st) => r is None && stack_view(final(stack)@) == st,
        },
{
    match stack.pop() {
        None => Some(n),
        Some(mut top) => {
            let ghost t0 = top@;
            top.push(n);
            proof {
                assert(top@.subrange(0, top@.len() - 1) =~= t0);
            }
            stack.push(top);
            proof {
                assert(stack_view(final(stack)@) =~= stack_view(old(stack)@).drop_last().push(
                    stack_view(old(stack)@).last().push(n@),
                ));
            }
            None
        },
    }
}

/// Reads tokens until one top-level form is complete, and returns it; `None`
/// where the input ends with no form open.
pub fn parse_next<L: Lexer>(lexer: &mut L) -> (r: Option<Result<Node, ParseError>>)
    requires
        old(lexer).inv(),
    ensures
        final(lexer).inv(),
        final(lexer).upcoming() == old(lexer).upcoming().subrange(
            form_end(old(lexer).upcoming(), 0),
            old(lexer).upcoming().len() as int,
        ),
        parse_result_view(r) == outcome(
            old(lexer).upcoming().subrange(0, form_end(old(lexer).upcoming(), 0)),
        ),
        r is None <==> old(lexer).upcoming().len() == 0,
{
    let ghost u = lexer.upcoming();
    let mut stack: Vec<Vec<Node>> = Vec::new();
    let ghost mut i: int = 0;
    proof {
        assert(u.subrange(0, 0) =~= Seq::<Result<TokenV, LexError>>::empty());
        assert(u.subrange(0, u.len() as int) =~= u);
        assert(stack_view(stack@) =~= Seq::<Seq<NodeV>>::empty());
    }
    loop
        invariant
            lexer.inv(),
            u == old(lexer).upcoming(),
            0 <= i <= u.len(),
            lexer.upcoming() == u.subrange(i, u.len() as int),
            run(u.subrange(0, i)) == Progress::Open(stack_view(stack@)),
            form_end(u, 0) == form_end(u, i),
        decreases lexer.upcoming().len(),
    {
        let tr = lexer.next_token();
        match tr {
            None => {
                proof {
                    assert(i == u.len());
                    assert(u.subrange(0, i) =~= u);
                    assert(u.subrange(i, u.len() as int) =~= Seq::<Result<TokenV, LexError>>::empty());
                    lemma_balance(u);
                }
                if stack.len() == 0 {
                    return None;
                } else {
                    return Some(Err(ParseError::UnexpectedEof));
                }
            },
            Some(t) => {
                let ghost s0 = stack@;
                proof {
                    assert(token_result_view(t) == u[i]);
                    assert(u.subrange(0, i + 1).drop_last() =~= u.subrange(0, i));
                    assert(u.subrange(0, i + 1).last() == u[i]);
                    assert(lexer.upcoming() =~= u.subrange(i + 1, u.len() as int));
                    i = i + 1;
                }
                match t {
                    Err(e) => {
                        return Some(Err(ParseError::LexError(e)));
                    },
                    Ok(Token::LParen) => {
                        stack.push(Vec::new());
                        proof {
                            assert(nodes_view(Seq::<Node>::empty()) =~= Seq::<NodeV>::empty());
                            assert(stack_view(stack@) =~= stack_view(s0).push(Seq::empty()));
                        }
                    },
                    Ok(Token::RParen) => {
                        match stack.pop() {
                            None => {
                                return Some(Err(ParseError::UnmatchedRightParen));
                            },
                            Some(c) => {
                                proof {
                                    assert(stack_view(stack@) =~= stack_view(s0).drop_last());
                                    assert(nodes_view(c@) == stack_view(s0).last());
                                }
                                if let Some(m) = place_node(&mut stack, Node::List(c)) {
                                    return Some(Ok(m));
                                }
                            },
                        }
                    },
                    Ok(Token::Identifier(s)) => {
                        if let Some(m) = place_node(&mut stack, Node::Identifier(s)) {
                            return Some(Ok(m));
                        }
                    },
                    Ok(Token::Literal(l)) => {
                        if let Some(m) = place_node(&mut stack, Node::Literal(l)) {
                            return Some(Ok(m));
                        }
                    },
                }
            },
        }
    }
}

/// A stream of top-level forms read from a lexer.
pub struct Parser<L: Lexer> {
    lexer: L,
}

impl<L: Lexer> Parser<L> {
    /// The lexer that the forms are read from.
    pub closed spec fn source(&self) -> L {
        self.lexer
    }

    pub fn new(lexer: L) -> (r: Self)
        ensures
            r.source() == lexer,
    {
        Parser { lexer }
    }

    /// The next top-level form, as `parse_next` reads it.
    pub fn next(&mut self) -> (r: Option<Result<Node, ParseError>>)
        requires
            old(self).source().inv(),
        ensures
            final(self).source().inv(),
            final(self).source().upcoming() == old(self).source().upcoming().subrange(
                form_end(old(self).source().upcoming(), 0),
                old(self).source().upcoming().len() as int,
            ),
            parse_result_view(r) == outcome(
                old(self).source().upcoming().subrange(0, form_end(old(self).source().upcoming(), 0)),
            ),
            r is None <==> old(self).source().upcoming().len() == 0,
    {
        parse_next(&mut self.lexer)
    }
}

/// The tokens that spell a node: an atom is one token, a list is its
/// elements' tokens between `(` and `)`.
pub open spec fn tokens_of(n: NodeV) -> Seq<Result<TokenV, LexError>>
    decreases n,
{
    match n {
        NodeV::Identifier(s) => seq![Ok(TokenV::Identifier(s))],
        NodeV::Literal(l) => seq![Ok(TokenV::Literal(l))],
        NodeV::List(s) => seq![Ok(TokenV::LParen)] + tokens_of_all(s) + seq![Ok(TokenV::RParen)],
    }
}

pub open spec fn tokens_of_all(s: Seq<NodeV>) -> Seq<Result<TokenV, LexError>>
    decreases s,
{
    if s.len() == 0 {
        Seq::empty()
    } else {
        tokens_of_all(s.subrange(0, s.len() - 1)) + tokens_of(s[s.len() - 1])
    }
}

/// The number of `(` minus the number of `)` among `toks`.
pub open spec fn depth(toks: Seq<Result<TokenV, LexError>>) -> int
    decreases toks.len(),
{
    if toks.len() == 0 {
        0
    } else {
        depth(toks.drop_last()) + match toks.last() {
            Ok(TokenV::LParen) => 1int,
            Ok(TokenV::RParen) => -1int,
            _ => 0int,
        }
    }
}

proof fn lemma_run_concat(
    st: Seq<Seq<NodeV>>,
    a: Seq<Result<TokenV, LexError>>,
    b: Seq<Result<TokenV, LexError>>,
)
    ensures
        run_from(st, a + b) == match run_from(st, a) {
            Progress::Open(s2) => run_from(s2, b),
            Progress::Done(r) => Progress::Done(r),
        },
    decreases b.len(),
{
    if b.len() == 0 {
        assert(a + b =~= a);
    } else {
        lemma_run_concat(st, a, b.drop_last());
        assert((a + b).drop_last() =~= a + b.drop_last());
        assert((a + b).last() == b.last());
    }
}

proof fn lemma_run_single(st: Seq<Seq<NodeV>>, t: Result<TokenV, LexError>)
    ensures
        run_from(st, seq![t]) == feed(st, t),
{
    assert(seq![t].drop_last() =~= Seq::<Result<TokenV, LexError>>::empty());
    assert(run_from(st, Seq::<Result<TokenV, LexError>>::empty()) == Progress::Open(st));
    assert(seq![t].last() == t);
}

proof fn lemma_run_node(st: Seq<Seq<NodeV>>, n: NodeV)
    ensures
        run_from(st, tokens_of(n)) == place(st, n),
    decreases n,
{
    match n {
        NodeV::Identifier(s) => {
            lemma_run_single(st, Ok(TokenV::Identifier(s)));
        },
        NodeV::Literal(l) => {
            lemma_run_single(st, Ok(TokenV::Literal(l)));
        },
        NodeV::List(s) => {
            let open = seq![Ok::<TokenV, LexError>(TokenV::LParen)];
            let close = seq![Ok::<TokenV, LexError>(TokenV::RParen)];
            let body = tokens_of_all(s);
            lemma_run_concat(st, open + body, close);
            lemma_run_concat(st, open, body);
            lemma_run_single(st, Ok(TokenV::LParen));
            lemma_run_list(st, Seq::empty(), s);
            assert(Seq::<NodeV>::empty() + s =~= s);
            lemma_run_single(st.push(s), Ok(TokenV::RParen));
            assert(st.push(s).drop_last() =~= st);
        },
    }
}

proof fn lemma_run_list(st: Seq<Seq<NodeV>>, p: Seq<NodeV>, s: Seq<NodeV>)
    ensures
        run_from(st.push(p), tokens_of_all(s)) == Progress::Open(st.push(p + s)),
    decreases s,
{
    if s.len() == 0 {
        assert(p + s =~= p);
    } else {
        let d = s.subrange(0, s.len() - 1);
        let x = s[s.len() - 1];
        lemma_run_list(st, p, d);
        lemma_run_concat(st.push(p), tokens_of_all(d), tokens_of(x));
        lemma_run_node(st.push(p + d), x);
        assert(st.push(p + d).drop_last() =~= st);
        assert((p + d).push(x) =~= p + s);
    }
}

/// Parsing the tokens that spell a tree gives back exactly that tree, and the
/// form is complete only at its last token: the parser keeps the nesting of
/// its input.
pub proof fn lemma_round_trip(n: NodeV)
    ensures
        outcome(tokens_of(n)) == Some(Ok::<NodeV, ParseError>(n)),
        tokens_of(n).len() > 0,
        run(tokens_of(n).drop_last()) is Open,
{
    lemma_run_node(Seq::empty(), n);
    match n {
        NodeV::List(s) => {
            let open = seq![Ok::<TokenV, LexError>(TokenV::LParen)];
            let body = tokens_of_all(s);
            assert(tokens_of(n).drop_last() =~= open + body);
            lemma_run_concat(Seq::empty(), open, body);
            lemma_run_single(Seq::empty(), Ok(TokenV::LParen));
            lemma_run_list(Seq::empty(), Seq::empty(), s);
        },
        _ => {
            assert(tokens_of(n).drop_last() =~= Seq::<Result<TokenV, LexError>>::empty());
        },
    }
}

/// While a form is open, the forms open are exactly the `(` not yet closed,
/// and at least one; a `)` is refused as unmatched exactly when it is the
/// first token of the form.
pub proof fn lemma_balance(toks: Seq<Result<TokenV, LexError>>)
    ensures
        run(toks) matches Progress::Open(st) ==> st.len() == depth(toks) && (toks.len() > 0
            ==> st.len() >= 1),
        run(toks) == Progress::Done(Err::<NodeV, ParseError>(ParseError::UnmatchedRightParen)) <==> (
        toks.len() > 0 && toks[0] == Ok::<TokenV, LexError>(TokenV::RParen)),
    decreases toks.len(),
{
    if toks.len() > 0 {
        let d = toks.drop_last();
        let t = toks.last();
        lemma_balance(d);
        if d.len() > 0 {
            assert(toks[0] == d[0]);
        }
        match run(d) {
            Progress::Done(r) => {},
            Progress::Open(st) => {
                if st.len() > 0 {
                    assert(st.drop_last().len() == st.len() - 1);
                }
            },
        }
    }
}

/// Once a form is finished, more tokens do not change the result.
proof fn lemma_done_sticks(toks: Seq<Result<TokenV, LexError>>, j: int)
    requires
        0 <= j <= toks.len(),
        run(toks.subrange(0, j)) is Done,
    ensures
        run(toks) == run(toks.subrange(0, j)),
    decreases toks.len(),
{
    if j == toks.len() {
        assert(toks.subrange(0, j) =~= toks);
    } else {
        let d = toks.drop_last();
        assert(d.subrange(0, j) =~= toks.subrange(0, j));
        lemma_done_sticks(d, j);
    }
}

proof fn lemma_form_end_at(u: Seq<Result<TokenV, LexError>>, i: int, m: int)
    requires
        0 <= i < m <= u.len(),
        run(u.subrange(0, m)) is Done,
        forall|j: int| i < j < m ==> !(#[trigger] run(u.subrange(0, j)) is Done),
    ensures
        form_end(u, i) == m,
    decreases m - i,
{
    if i + 1 < m {
        lemma_form_end_at(u, i + 1, m);
    }
}

/// A lexer whose upcoming tokens start with the tokens that spell a tree
/// gives the parser exactly that tree, and keeps the tokens after it.
pub proof fn lemma_round_trip_stream(n: NodeV, rest: Seq<Result<TokenV, LexError>>)
    ensures
        form_end(tokens_of(n) + rest, 0) == tokens_of(n).len(),
        (tokens_of(n) + rest).subrange(0, tokens_of(n).len() as int) == tokens_of(n),
        (tokens_of(n) + rest).subrange(tokens_of(n).len() as int, (tokens_of(n) + rest).len() as int)
            == rest,
        outcome(tokens_of(n)) == Some(Ok::<NodeV, ParseError>(n)),
{
    let w = tokens_of(n);
    let u = w + rest;
    let m = w.len() as int;
    lemma_round_trip(n);
    assert(u.subrange(0, m) =~= w);
    assert(u.subrange(m, u.len() as int) =~= rest);
    assert forall|j: int| 0 < j < m implies !(#[trigger] run(u.subrange(0, j)) is Done) by {
        let d = w.drop_last();
        assert(u.subrange(0, j) =~= d.subrange(0, j));
        if run(d.subrange(0, j)) is Done {
            lemma_done_sticks(d, j);
        }
    }
    lemma_form_end_at(u, 0, m);
}

} // verus!
