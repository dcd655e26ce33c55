use vstd::prelude::*;
use crate::lexer::{Lexeme, Lexer, Token, TokenKind, tokens_from, tokens_of, lemma_token_advances};
use crate::text::utf8_size;

verus! {

broadcast use vstd::std_specs::vec::axiom_vec_index_decreases;

/// Every token of `expr`, the last one `Eof`.
pub fn lex_all(expr: &str) -> (out: Vec<Token>)
    requires
        utf8_size(expr@) <= usize::MAX,
    ensures
        out@.map_values(|t: Token| t@) == tokens_of(expr@),
{
    let mut lx = Lexer::new(expr);
    let mut out: Vec<Token> = Vec::new();
    let mut done = false;
    while !done
        invariant
            lx.wf(),
            lx.src() == expr@,
            0 <= lx.at() <= expr@.len(),
            !done ==> out@.map_values(|t: Token| t@) + tokens_from(expr@, lx.at()) == tokens_of(
                expr@,
            ),
            done ==> out@.map_values(|t: Token| t@) == tokens_of(expr@),
        decreases expr@.len() - lx.at() + (if done { 0int } else { 1int }),
    {
        let ghost p = lx.at();
        proof {
            lemma_token_advances(expr@, p);
        }
        let tok = lx.next_token();
        let is_eof = matches!(tok.kind, TokenKind::Eof);
        let ghost before = out@.map_values(|t: Token| t@);
        out.push(tok);
        proof {
            assert(out@.map_values(|t: Token| t@) =~= before.push(tok@));
            let rest = tokens_from(expr@, p);
            if is_eof {
                assert(rest =~= seq![tok@]);
                assert(before + rest =~= before.push(tok@));
            } else {
                assert(rest =~= seq![tok@] + tokens_from(expr@, lx.at()));
                assert(before + rest =~= before.push(tok@) + tokens_from(expr@, lx.at()));
            }
        }
        if is_eof {
            done = true;
        }
    }
    out
}

#[derive(Debug, Clone, Copy, PartialEq, Eq, Structural)]
pub enum UnaryOp {
    Neg,
    Not,
}

#[derive(Debug, Clone, Copy, PartialEq, Eq, Structural)]
pub enum BinaryOp {
    Add,
    Sub,
    Mul,
    Div,
    Gt,
    Ge,
    Lt,
    Le,
    Eq,
    Ne,
    And,
    Or,
}

/// An expression tree; a number keeps the digits it was written with.
#[derive(Debug, PartialEq)]
pub enum Expr {
    Number(String),
    Ident(String),
    Call { name: String, args: Vec<Expr> },
    Unary { op: UnaryOp, rhs: Box<Expr> },
    Binary { op: BinaryOp, lhs: Box<Expr>, rhs: Box<Expr> },
}

/// An expression tree as a mathematical value.
pub enum Tree {
    Number(Seq<char>),
    Ident(Seq<char>),
    Call(Seq<char>, Seq<Tree>),
    Unary(UnaryOp, Box<Tree>),
    Binary(BinaryOp, Box<Tree>, Box<Tree>),
}

impl Expr {
    pub open spec fn tree(&self) -> Tree
        decreases self,
    {
        match self {
            Expr::Number(s) => Tree::Number(s@),
            Expr::Ident(s) => Tree::Ident(s@),
            Expr::Call { name, args } => Tree::Call(
                name@,
                Seq::new(
                    args.len() as nat,
                    |i: int|
                        if 0 <= i < args.len() {
                            args[i].tree()
                        } else {
                            Tree::Number(Seq::empty())
                        },
                ),
            ),
            Expr::Unary { op, rhs } => Tree::Unary(*op, Box::new(rhs.tree())),
            Expr::Binary { op, lhs, rhs } => Tree::Binary(
                *op,
                Box::new(lhs.tree()),
                Box::new(rhs.tree()),
            ),
        }
    }
}

/// A parse failure: what went wrong, and the index of the token where it was found.
#[derive(Debug, Clone)]
pub struct ParseErr {
    pub msg: String,
    pub idx: usize,
}

/// A statement: an expression, or `name := expression`.
#[derive(Debug, PartialEq)]
pub enum Stmt {
    Expr(Expr),
    Assign { name: String, value: Expr },
}

/// A statement as a mathematical value.
pub enum StmtTree {
    Expr(Tree),
    Assign(Seq<char>, Tree),
}

impl Stmt {
    pub open spec fn tree(&self) -> StmtTree {
        match self {
            Stmt::Expr(e) => StmtTree::Expr(e.tree()),
            Stmt::Assign { name, value } => StmtTree::Assign(name@, value.tree()),
        }
    }
}

/// A program: its statements in order.
#[derive(Debug)]
pub struct Stmts {
    pub item: Vec<Stmt>,
}

/// The trees of `args`, in order.
pub open spec fn arg_trees(args: Seq<Expr>) -> Seq<Tree> {
    Seq::new(args.len(), |i: int| args[i].tree())
}

/// The trees of `items`, in order.
pub open spec fn stmt_trees(items: Seq<Stmt>) -> Seq<StmtTree> {
    Seq::new(items.len(), |i: int| items[i].tree())
}

proof fn lemma_call_tree(e: Expr)
    ensures
        e matches Expr::Call { name, args } ==> e.tree() == Tree::Call(name@, arg_trees(args@)),
{
    if let Expr::Call { name, args } = e {
        let inner = match e.tree() {
            Tree::Call(_, s) => s,
            _ => Seq::empty(),
        };
        assert(inner =~= arg_trees(args@));
    }
}

/// The kind of token `i`; past the end every token is `Eof`.
pub open spec fn kind_at(t: Seq<Lexeme>, i: int) -> Lexeme {
    if 0 <= i < t.len() {
        t[i]
    } else {
        Lexeme::Eof
    }
}

/// Binding powers (left, right) and operator of an infix token.
pub open spec fn infix(k: Lexeme) -> Option<(int, int, BinaryOp)> {
    match k {
        Lexeme::Ge => Some((30, 31, BinaryOp::Ge)),
        Lexeme::Gt => Some((30, 31, BinaryOp::Gt)),
        Lexeme::Le => Some((30, 31, BinaryOp::Le)),
        Lexeme::Lt => Some((30, 31, BinaryOp::Lt)),
        Lexeme::Eq => Some((30, 31, BinaryOp::Eq)),
        Lexeme::Ne => Some((30, 31, BinaryOp::Ne)),
        Lexeme::Plus => Some((40, 41, BinaryOp::Add)),
        Lexeme::Minus => Some((40, 41, BinaryOp::Sub)),
        Lexeme::Star => Some((50, 51, BinaryOp::Mul)),
        Lexeme::Slash => Some((50, 51, BinaryOp::Div)),
        Lexeme::And => Some((20, 21, BinaryOp::And)),
        Lexeme::Or => Some((10, 11, BinaryOp::Or)),
        _ => None,
    }
}

/// The expression that starts at token `i`, with every infix operator whose
/// left binding power is at least `min_bp`, and the index after it; or the
/// index of the token where parsing fails.
pub open spec fn expr_at(t: Seq<Lexeme>, i: int, min_bp: int) -> Result<(Tree, int), int>
    decreases t.len() - i, 1nat,
{
    if i < 0 || i >= t.len() {
        Err(i)
    } else {
        match primary_at(t, i) {
            Err(e) => Err(e),
            Ok((lhs, j)) => if i < j <= t.len() {
                climb(t, j, lhs, min_bp)
            } else {
                Err(j)
            },
        }
    }
}

/// Folds infix operators onto `lhs` from token `j` on, left to right, while
/// their left binding power is at least `min_bp`.
pub open spec fn climb(t: Seq<Lexeme>, j: int, lhs: Tree, min_bp: int) -> Result<(Tree, int), int>
    decreases t.len() - j, 0nat,
{
    if j < 0 || j >= t.len() {
        Ok((lhs, j))
    } else {
        match infix(t[j]) {
            None => Ok((lhs, j)),
            Some((l, r, op)) => if l < min_bp {
                Ok((lhs, j))
            } else {
                match expr_at(t, j + 1, r) {
                    Err(e) => Err(e),
                    Ok((rhs, k)) => if j < k <= t.len() {
                        climb(t, k, Tree::Binary(op, Box::new(lhs), Box::new(rhs)), min_bp)
                    } else {
                        Err(k)
                    },
                }
            },
        }
    }
}

/// A primary expression at token `i`: a number, a name, a call, a
/// parenthesised expression, or `-` / `NOT` before a primary.
pub open spec fn primary_at(t: Seq<Lexeme>, i: int) -> Result<(Tree, int), int>
    decreases t.len() - i, 0nat,
{
    if i < 0 || i >= t.len() {
        Err(i)
    } else {
        match t[i] {
            Lexeme::Ident(name) => if kind_at(t, i + 1) is LParen {
                if kind_at(t, i + 2) is RParen {
                    Ok((Tree::Call(name, Seq::empty()), i + 3))
                } else {
                    args_at(t, i + 2, name, Seq::empty())
                }
            } else {
                Ok((Tree::Ident(name), i + 1))
            },
            Lexeme::Number(s) => Ok((Tree::Number(s), i + 1)),
            Lexeme::LParen => match expr_at(t, i + 1, 0) {
                Err(e) => Err(e),
                Ok((e, j)) => if kind_at(t, j) is RParen {
                    Ok((e, j + 1))
                } else if j < t.len() {
                    Err(j + 1)
                } else {
                    Err(j)
                },
            },
            Lexeme::Minus => match primary_at(t, i + 1) {
                Err(e) => Err(e),
                Ok((e, j)) => Ok((Tree::Unary(UnaryOp::Neg, Box::new(e)), j)),
            },
            Lexeme::Not => match primary_at(t, i + 1) {
                Err(e) => Err(e),
                Ok((e, j)) => Ok((Tree::Unary(UnaryOp::Not, Box::new(e)), j)),
            },
            _ => Err(i),
        }
    }
}

/// The arguments of a call from token `k` on, after the ones in `acc`, up to
/// and including the closing parenthesis.
pub open spec fn args_at(t: Seq<Lexeme>, k: int, name: Seq<char>, acc: Seq<Tree>) -> Result<(Tree, int), int>
    decreases t.len() - k, 2nat,
{
    if k < 0 || k >= t.len() {
        Err(k)
    } else {
        match expr_at(t, k, 0) {
            Err(e) => Err(e),
            Ok((a, j)) => if !(k < j < t.len()) {
                Err(j)
            } else if t[j] is Comma {
                args_at(t, j + 1, name, acc.push(a))
            } else if t[j] is RParen {
                Ok((Tree::Call(name, acc.push(a)), j + 1))
            } else {
                Err(j)
            },
        }
    }
}

/// A statement at token `i`: `name := expr`, or an expression.
pub open spec fn stmt_at(t: Seq<Lexeme>, i: int) -> Result<(StmtTree, int), int> {
    if kind_at(t, i) is Ident && kind_at(t, i + 1) is ColonEq {
        match expr_at(t, i + 2, 0) {
            Err(e) => Err(e),
            Ok((v, j)) => Ok((StmtTree::Assign(kind_at(t, i)->Ident_0, v), j)),
        }
    } else {
        match expr_at(t, i, 0) {
            Err(e) => Err(e),
            Ok((v, j)) => Ok((StmtTree::Expr(v), j)),
        }
    }
}

/// The statements from token `i` on, after the ones in `acc`: separated by
/// `;`, with an optional `;` before `Eof`, and no empty statement.
pub open spec fn program_at(t: Seq<Lexeme>, i: int, acc: Seq<StmtTree>) -> Result<Seq<StmtTree>, int>
    decreases t.len() - i,
{
    if i < 0 || i >= t.len() || t[i] is Eof {
        Ok(acc)
    } else if t[i] is Semi {
        Err(i)
    } else {
        match stmt_at(t, i) {
            Err(e) => Err(e),
            Ok((s, j)) => if !(i < j <= t.len()) {
                Err(j)
            } else if kind_at(t, j) is Eof {
                Ok(acc.push(s))
            } else if t[j] is Semi {
                program_at(t, j + 1, acc.push(s))
            } else {
                Err(j)
            },
        }
    }
}

/// The kinds of a token sequence.
pub open spec fn kinds(toks: Seq<Token>) -> Seq<Lexeme> {
    toks.map_values(|tok: Token| tok.kind@)
}

/// The program that a token sequence holds, or the index where it fails.
pub open spec fn program_of(toks: Seq<Token>) -> Result<Seq<StmtTree>, int> {
    program_at(kinds(toks), 0, Seq::empty())
}

/// An executable parse result agrees with the one the grammar gives.
pub open spec fn agrees(r: Result<(Expr, usize), ParseErr>, s: Result<(Tree, int), int>) -> bool {
    match r {
        Ok((e, j)) => s == Ok::<(Tree, int), int>((e.tree(), j as int)),
        Err(err) => s == Err::<(Tree, int), int>(err.idx as int),
    }
}

pub fn infix_bp(kind: &TokenKind) -> (r: Option<(u8, u8, BinaryOp)>)
    ensures
        r matches Some((l, rr, op)) ==> infix(kind@) == Some((l as int, rr as int, op)),
        r is None ==> infix(kind@) is None,
{
    match kind {
        TokenKind::Ge => Some((30, 31, BinaryOp::Ge)),
        TokenKind::Gt => Some((30, 31, BinaryOp::Gt)),
        TokenKind::Le => Some((30, 31, BinaryOp::Le)),
        TokenKind::Lt => Some((30, 31, BinaryOp::Lt)),
        TokenKind::Eq => Some((30, 31, BinaryOp::Eq)),
        TokenKind::Ne => Some((30, 31, BinaryOp::Ne)),
        TokenKind::Plus => Some((40, 41, BinaryOp::Add)),
        TokenKind::Minus => Some((40, 41, BinaryOp::Sub)),
        TokenKind::Star => Some((50, 51, BinaryOp::Mul)),
        TokenKind::Slash => Some((50, 51, BinaryOp::Div)),
        TokenKind::And => Some((20, 21, BinaryOp::And)),
        TokenKind::Or => Some((10, 11, BinaryOp::Or)),
        _ => None,
    }
}

fn fail(msg: &str, idx: usize) -> (r: ParseErr)
    ensures
        r.idx == idx,
{
    ParseErr { msg: msg.to_owned(), idx }
}

/// Parses a token sequence into statements.
#[derive(Debug)]
pub struct Parser {
    token: Vec<Token>,
    idx: usize,
}

impl Parser {
    /// The kinds of the tokens being parsed.
    pub closed spec fn toks(&self) -> Seq<Lexeme> {
        kinds(self.token@)
    }

    /// Index of the next token to read.
    pub closed spec fn at(&self) -> int {
        self.idx as int
    }

    pub fn new(input: Vec<Token>) -> (r: Self)
        ensures
            r.toks() == kinds(input@),
            r.at() == 0,
    {
        Parser { token: input, idx: 0 }
    }

    fn peek_kind(&self, i: usize) -> (r: Option<&TokenKind>)
        ensures
            i < self.token@.len() ==> r == Some(&self.token@[i as int].kind),
            i >= self.token@.len() ==> r is None,
            r matches Some(k) ==> k@ == kind_at(self.toks(), i as int),
            r is None ==> kind_at(self.toks(), i as int) is Eof,
    {
        if i < self.token.len() {
            Some(&self.token[i].kind)
        } else {
            None
        }
    }

    fn parse_expr(&self, i: usize, min_bp: u8) -> (r: Result<(Expr, usize), ParseErr>)
        ensures
            agrees(r, expr_at(self.toks(), i as int, min_bp as int)),
            r matches Ok((_, j)) ==> i < j <= self.token@.len(),
        decreases self.token@.len() - i, 1nat,
    {
        if i >= self.token.len() {
            return Err(fail("unexpected end of input", i));
        }
        let (mut lhs, mut j) = match self.parse_primary(i) {
            Err(e) => {
                return Err(e);
            },
            Ok(p) => p,
        };
        let ghost t = self.toks();
        loop
            invariant
                t == self.toks(),
                i < j <= self.token@.len(),
                i < self.token@.len(),
                expr_at(t, i as int, min_bp as int) == climb(t, j as int, lhs.tree(), min_bp as int),
            ensures
                i < j <= self.token@.len(),
                expr_at(t, i as int, min_bp as int) == Ok::<(Tree, int), int>((lhs.tree(), j as int)),
            decreases self.token@.len() - j,
        {
            if j >= self.token.len() {
                break;
            }
            let (l_bp, r_bp, op) = match infix_bp(&self.token[j].kind) {
                None => {
                    break;
                },
                Some(x) => x,
            };
            if l_bp < min_bp {
                break;
            }
            let (rhs, k) = match self.parse_expr(j + 1, r_bp) {
                Err(e) => {
                    return Err(e);
                },
                Ok(p) => p,
            };
            lhs = Expr::Binary { op, lhs: Box::new(lhs), rhs: Box::new(rhs) };
            j = k;
        }
        Ok((lhs, j))
    }

    fn parse_primary(&self, i: usize) -> (r: Result<(Expr, usize), ParseErr>)
        ensures
            agrees(r, primary_at(self.toks(), i as int)),
            r matches Ok((_, j)) ==> i < j <= self.token@.len(),
        decreases self.token@.len() - i, 0nat,
    {
        if i >= self.token.len() {
            return Err(fail("unexpected end of input", i));
        }
        match &self.token[i].kind {
            TokenKind::Ident(name) => {
                match self.peek_kind(i + 1) {
                    Some(TokenKind::LParen) => {},
                    _ => {
                        return Ok((Expr::Ident(name.clone()), i + 1));
                    },
                }
                match self.peek_kind(i + 2) {
                    Some(TokenKind::RParen) => {
                        let e = Expr::Call { name: name.clone(), args: Vec::new() };
                        proof {
                            lemma_call_tree(e);
                            assert(arg_trees(Seq::<Expr>::empty()) =~= Seq::<Tree>::empty());
                        }
                        return Ok((e, i + 3));
                    },
                    _ => {},
                }
                self.parse_args(i + 2, name)
            },
            TokenKind::Number(s) => Ok((Expr::Number(s.clone()), i + 1)),
            TokenKind::LParen => {
                let (inner, j) = match self.parse_expr(i + 1, 0) {
                    Err(e) => {
                        return Err(e);
                    },
                    Ok(p) => p,
                };
                match self.peek_kind(j) {
                    Some(TokenKind::RParen) => Ok((inner, j + 1)),
                    Some(_) => Err(fail("missing closing parenthesis", j + 1)),
                    None => Err(fail("missing closing parenthesis", j)),
                }
            },
            TokenKind::Minus => {
                let (rhs, j) = match self.parse_primary(i + 1) {
                    Err(e) => {
                        return Err(e);
                    },
                    Ok(p) => p,
                };
                Ok((Expr::Unary { op: UnaryOp::Neg, rhs: Box::new(rhs) }, j))
            },
            TokenKind::Not => {
                let (rhs, j) = match self.parse_primary(i + 1) {
                    Err(e) => {
                        return Err(e);
                    },
                    Ok(p) => p,
                };
                Ok((Expr::Unary { op: UnaryOp::Not, rhs: Box::new(rhs) }, j))
            },
            _ => Err(fail("unexpected token", i)),
        }
    }

    fn parse_args(&self, k0: usize, name: &String) -> (r: Result<(Expr, usize), ParseErr>)
        requires
            k0 >= 2,
        ensures
            agrees(r, args_at(self.toks(), k0 as int, name@, Seq::empty())),
            r matches Ok((_, j)) ==> k0 < j <= self.token@.len(),
        decreases self.token@.len() - k0, 2nat,
    {
        let ghost t = self.toks();
        let mut args: Vec<Expr> = Vec::new();
        let mut k = k0;
        proof {
            assert(arg_trees(args@) =~= Seq::<Tree>::empty());
        }
        loop
            invariant
                t == self.toks(),
                k0 <= k,
                args_at(t, k0 as int, name@, Seq::empty()) == args_at(t, k as int, name@, arg_trees(args@)),
            decreases self.token@.len() - k,
        {
            if k >= self.token.len() {
                return Err(fail("unexpected end of input", k));
            }
            let (a, j) = match self.parse_expr(k, 0) {
                Err(e) => {
                    return Err(e);
                },
                Ok(p) => p,
            };
            let ghost before = arg_trees(args@);
            args.push(a);
            proof {
                assert(arg_trees(args@) =~= before.push(a.tree()));
            }
            if j >= self.token.len() {
                return Err(fail("missing comma or closing parenthesis", j));
            }
            match &self.token[j].kind {
                TokenKind::Comma => {
                    k = j + 1;
                },
                TokenKind::RParen => {
                    let e = Expr::Call { name: name.clone(), args };
                    proof {
                        lemma_call_tree(e);
                    }
                    return Ok((e, j + 1));
                },
                _ => {
                    return Err(fail("missing comma or closing parenthesis", j));
                },
            }
        }
    }

    fn parse_stmt(&self, i: usize) -> (r: Result<(Stmt, usize), ParseErr>)
        ensures
            match r {
                Ok((st, j)) => stmt_at(self.toks(), i as int) == Ok::<(StmtTree, int), int>((st.tree(), j as int))
                    && i < j <= self.token@.len(),
                Err(err) => stmt_at(self.toks(), i as int) == Err::<(StmtTree, int), int>(err.idx as int),
            },
    {
        if i < self.token.len() {
            match &self.token[i].kind {
                TokenKind::Ident(name) => {
                    match self.peek_kind(i + 1) {
                        Some(TokenKind::ColonEq) => {
                            let (value, j) = match self.parse_expr(i + 2, 0) {
                                Err(e) => {
                                    return Err(e);
                                },
                                Ok(p) => p,
                            };
                            return Ok((Stmt::Assign { name: name.clone(), value }, j));
                        },
                        _ => {},
                    }
                },
                _ => {},
            }
        }
        let (e, j) = match self.parse_expr(i, 0) {
            Err(e) => {
                return Err(e);
            },
            Ok(p) => p,
        };
        Ok((Stmt::Expr(e), j))
    }

    /// Parses the statements from the current token up to `Eof`. The result
    /// is the program that the grammar gives for the tokens, or the index of
    /// the token where it fails.
    pub fn parse_main(&mut self) -> (r: Result<Stmts, ParseErr>)
        ensures
            final(self).toks() == old(self).toks(),
            match r {
                Ok(ss) => program_at(old(self).toks(), old(self).at(), Seq::empty()) == Ok::<
                    Seq<StmtTree>,
                    int,
                >(stmt_trees(ss.item@)),
                Err(err) => program_at(old(self).toks(), old(self).at(), Seq::empty()) == Err::<
                    Seq<StmtTree>,
                    int,
                >(err.idx as int),
            },
    {
        let ghost t = self.toks();
        let ghost i0 = self.idx as int;
        let mut stmts: Vec<Stmt> = Vec::new();
        proof {
            assert(stmt_trees(stmts@) =~= Seq::<StmtTree>::empty());
        }
        loop
            invariant
                t == self.toks(),
                t == old(self).toks(),
                i0 == old(self).at(),
                program_at(t, i0, Seq::empty()) == program_at(t, self.idx as int, stmt_trees(stmts@)),
            ensures
                t == self.toks(),
                program_at(t, i0, Seq::empty()) == Ok::<Seq<StmtTree>, int>(stmt_trees(stmts@)),
            decreases self.token@.len() - self.idx,
        {
            let i = self.idx;
            match self.peek_kind(i) {
                None | Some(TokenKind::Eof) => {
                    break;
                },
                Some(TokenKind::Semi) => {
                    return Err(fail("empty statement", i));
                },
                _ => {},
            }
            let (st, j) = match self.parse_stmt(i) {
                Err(e) => {
                    return Err(e);
                },
                Ok(p) => p,
            };
            let ghost before = stmt_trees(stmts@);
            stmts.push(st);
            proof {
                assert(stmt_trees(stmts@) =~= before.push(st.tree()));
            }
            match self.peek_kind(j) {
                Some(TokenKind::Semi) => {
                    let n = self.token.len();
                    assert(j < n);
                    self.idx = j + 1;
                },
                None | Some(TokenKind::Eof) => {
                    self.idx = j;
                    break;
                },
                _ => {
                    self.idx = j;
                    return Err(fail("unexpected token after statement", j));
                },
            }
        }
        Ok(Stmts { item: stmts })
    }
}

} // verus!
