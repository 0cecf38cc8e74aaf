use vstd::prelude::*;

use crate::numeral::{all_ascii_digits, digit_vals, strip_zeros, stripped_fits, Numeral};
use crate::program::{Block, Expression, Statement};
use crate::CompileError;

verus! {

/// One lexical token of the surface syntax.
#[derive(Debug)]
pub enum Token {
    Let,
    Const,
    Eq,
    Semi,
    Comma,
    Identifier(Vec<u8>),
    Literal(Vec<u8>),
}

/// The mathematical shape of a token.
pub enum SpecToken {
    Let,
    Const,
    Eq,
    Semi,
    Comma,
    Identifier(Seq<u8>),
    Literal(Seq<u8>),
}

pub open spec fn token_view(t: Token) -> SpecToken {
    match t {
        Token::Let => SpecToken::Let,
        Token::Const => SpecToken::Const,
        Token::Eq => SpecToken::Eq,
        Token::Semi => SpecToken::Semi,
        Token::Comma => SpecToken::Comma,
        Token::Identifier(w) => SpecToken::Identifier(w@),
        Token::Literal(w) => SpecToken::Literal(w@),
    }
}

pub open spec fn tokens_view(ts: Seq<Token>) -> Seq<SpecToken> {
    ts.map(|_i: int, t: Token| token_view(t))
}

pub open spec fn is_space(c: u8) -> bool {
    c == 32 || c == 9 || c == 10 || c == 13
}

pub open spec fn is_alpha(c: u8) -> bool {
    (65 <= c <= 90) || (97 <= c <= 122)
}

pub open spec fn is_digit(c: u8) -> bool {
    48 <= c <= 57
}

pub open spec fn is_alnum(c: u8) -> bool {
    is_alpha(c) || is_digit(c)
}

/// The first position at or after `i` holding a non-space byte.
pub open spec fn skip_ws(s: Seq<u8>, i: int) -> int
    decreases s.len() - i,
{
    if i < 0 || i >= s.len() {
        s.len() as int
    } else if is_space(s[i]) {
        skip_ws(s, i + 1)
    } else {
        i
    }
}

/// The first position at or after `i` holding a non-alphanumeric byte.
pub open spec fn word_end(s: Seq<u8>, i: int) -> int
    decreases s.len() - i,
{
    if i < 0 || i >= s.len() {
        s.len() as int
    } else if is_alnum(s[i]) {
        word_end(s, i + 1)
    } else {
        i
    }
}

pub open spec fn let_word() -> Seq<u8> {
    seq![108u8, 101, 116]
}

pub open spec fn const_word() -> Seq<u8> {
    seq![99u8, 111, 110, 115, 116]
}

/// The next token starting at or after `i`, and the position after it.
/// `None` is a byte no token starts with; the end of input is handled by the
/// caller.
pub open spec fn next_token(s: Seq<u8>, i: int) -> Option<(SpecToken, int)> {
    let j = skip_ws(s, i);
    if j >= s.len() {
        None
    } else {
        let c = s[j];
        if is_alpha(c) {
            let e = word_end(s, j);
            let w = s.subrange(j, e);
            if w == let_word() {
                Some((SpecToken::Let, e))
            } else if w == const_word() {
                Some((SpecToken::Const, e))
            } else {
                Some((SpecToken::Identifier(w), e))
            }
        } else if is_digit(c) {
            Some((SpecToken::Literal(s.subrange(j, word_end(s, j))), word_end(s, j)))
        } else if c == 61 {
            Some((SpecToken::Eq, j + 1))
        } else if c == 59 {
            Some((SpecToken::Semi, j + 1))
        } else if c == 44 {
            Some((SpecToken::Comma, j + 1))
        } else {
            None
        }
    }
}

/// The token stream of the input from position `i`, or `None` on a byte no
/// token starts with.
pub open spec fn spec_tokens_from(s: Seq<u8>, i: int) -> Option<Seq<SpecToken>>
    decreases s.len() - i,
{
    if skip_ws(s, i) >= s.len() {
        Some(Seq::<SpecToken>::empty())
    } else {
        match next_token(s, i) {
            None => None,
            Some((t, e)) => {
                if e <= i || e > s.len() {
                    None
                } else {
                    match spec_tokens_from(s, e) {
                        None => None,
                        Some(ts) => Some(seq![t] + ts),
                    }
                }
            }
        }
    }
}

/// Scan an alphanumeric word: its bytes and the position after it.
fn read_word(s: &[u8], i: usize) -> (r: (Vec<u8>, usize))
    requires
        i <= s@.len(),
    ensures
        r.1 == word_end(s@, i as int),
        i <= r.1 <= s@.len(),
        r.0@ == s@.subrange(i as int, r.1 as int),
        i < s@.len() && is_alnum(s@[i as int]) ==> r.1 > i,
{
    let mut e = i;
    let mut w: Vec<u8> = Vec::new();
    while e < s.len() && (s[e] >= 48 && s[e] <= 57 || s[e] >= 65 && s[e] <= 90 || s[e] >= 97
        && s[e] <= 122)
        invariant
            i <= e <= s@.len(),
            word_end(s@, i as int) == word_end(s@, e as int),
            w@ == s@.subrange(i as int, e as int),
            e > i ==> (i < s@.len() && is_alnum(s@[i as int])),
        decreases s@.len() - e,
    {
        w.push(s[e]);
        e += 1;
        proof {
            assert(w@ =~= s@.subrange(i as int, e as int));
        }
    }
    proof {
        assert(word_end(s@, e as int) == e);
    }
    (w, e)
}

/// Split the input into tokens.
fn tokenize(s: &[u8]) -> (r: Result<Vec<Token>, CompileError>)
    ensures
        r matches Ok(ts) ==> spec_tokens_from(s@, 0) == Some(tokens_view(ts@)),
        r is Ok <==> spec_tokens_from(s@, 0) is Some,
        r matches Err(e) ==> e == CompileError::Parse,
{
    let mut out: Vec<Token> = Vec::new();
    let mut i: usize = 0;
    loop
        invariant
            i <= s@.len(),
            spec_tokens_from(s@, 0) == (match spec_tokens_from(s@, i as int) {
                None => None::<Seq<SpecToken>>,
                Some(rest) => Some(tokens_view(out@) + rest),
            }),
        decreases s@.len() - i,
    {
        let ghost i0 = i as int;
        while i < s.len() && (s[i] == 32 || s[i] == 9 || s[i] == 10 || s[i] == 13)
            invariant
                i0 <= i <= s@.len(),
                skip_ws(s@, i0) == skip_ws(s@, i as int),
            decreases s@.len() - i,
        {
            i += 1;
        }
        proof {
            assert(skip_ws(s@, i as int) == i as int);
        }
        if i >= s.len() {
            proof {
                assert(spec_tokens_from(s@, i0) == Some(Seq::<SpecToken>::empty()));
                assert(tokens_view(out@) + Seq::<SpecToken>::empty() =~= tokens_view(out@));
            }
            return Ok(out);
        }
        let ghost pre = out@;
        let c = s[i];
        let e: usize;
        if c >= 65 && c <= 90 || c >= 97 && c <= 122 {
            let (w, e2) = read_word(s, i);
            e = e2;
            if w.len() == 3 && w[0] == 108 && w[1] == 101 && w[2] == 116 {
                proof {
                    assert(w@ =~= let_word());
                }
                out.push(Token::Let);
            } else if w.len() == 5 && w[0] == 99 && w[1] == 111 && w[2] == 110 && w[3] == 115
                && w[4] == 116 {
                proof {
                    assert(w@ =~= const_word());
                }
                out.push(Token::Const);
            } else {
                out.push(Token::Identifier(w));
            }
        } else if c >= 48 && c <= 57 {
            let (w, e2) = read_word(s, i);
            e = e2;
            out.push(Token::Literal(w));
        } else if c == 61 {
            e = i + 1;
            out.push(Token::Eq);
        } else if c == 59 {
            e = i + 1;
            out.push(Token::Semi);
        } else if c == 44 {
            e = i + 1;
            out.push(Token::Comma);
        } else {
            proof {
                assert(next_token(s@, i0) is None);
                assert(spec_tokens_from(s@, i0) is None);
            }
            return Err(CompileError::Parse);
        }
        proof {
            let t = token_view(out@.last());
            assert(next_token(s@, i0) == Some((t, e as int)));
            assert(spec_tokens_from(s@, i0) == (match spec_tokens_from(s@, e as int) {
                None => None::<Seq<SpecToken>>,
                Some(ts) => Some(seq![t] + ts),
            }));
            assert(tokens_view(out@) =~= tokens_view(pre).push(t));
            assert forall|rest: Seq<SpecToken>| true implies tokens_view(pre) + (seq![t] + rest)
                =~= tokens_view(out@) + rest by {}
        }
        i = e;
    }
}

/// The shape of a parsed expression: a literal's canonical digits, or an
/// operator name with its argument names.
pub enum SpecExpr {
    Const(Seq<u8>),
    Op(Seq<u8>, Seq<Seq<u8>>),
}

/// The shape of a parsed statement: result names and expression.
pub struct SpecStmt {
    pub ress: Seq<Seq<u8>>,
    pub expr: SpecExpr,
}

pub open spec fn names_view(v: Seq<Vec<u8>>) -> Seq<Seq<u8>> {
    v.map(|_i: int, x: Vec<u8>| x@)
}

pub open spec fn expr_repr(e: Expression<Vec<u8>>) -> SpecExpr {
    match e {
        Expression::Const(n) => SpecExpr::Const(n.digits@),
        Expression::Op(name, args) => SpecExpr::Op(name@, names_view(args@)),
    }
}

pub open spec fn stmt_repr(s: Statement<Vec<u8>>) -> SpecStmt {
    SpecStmt { ress: names_view(s.0@), expr: expr_repr(s.1) }
}

pub open spec fn block_repr(b: Seq<Statement<Vec<u8>>>) -> Seq<SpecStmt> {
    b.map(|_i: int, s: Statement<Vec<u8>>| stmt_repr(s))
}

/// A literal token that names a 256-bit value.
pub open spec fn lit_ok(txt: Seq<u8>) -> bool {
    txt.len() >= 1 && all_ascii_digits(txt) && stripped_fits(digit_vals(txt))
}

/// Zero or more further identifiers, collected onto `acc`.
pub open spec fn parse_args(ts: Seq<SpecToken>, p: int, acc: Seq<Seq<u8>>) -> (Seq<Seq<u8>>, int)
    decreases ts.len() - p,
{
    if 0 <= p < ts.len() && (ts[p] matches SpecToken::Identifier(w)) {
        parse_args(ts, p + 1, acc.push(ts[p]->Identifier_0))
    } else {
        (acc, p)
    }
}

/// Further `, name` pairs after the first result name.
pub open spec fn more_idents(ts: Seq<SpecToken>, p: int, acc: Seq<Seq<u8>>) -> (Seq<Seq<u8>>, int)
    decreases ts.len() - p,
{
    if 0 <= p && p + 1 < ts.len() && (ts[p] is Comma) && (ts[p + 1] matches
        SpecToken::Identifier(w)) {
        more_idents(ts, p + 2, acc.push(ts[p + 1]->Identifier_0))
    } else {
        (acc, p)
    }
}

/// One or more comma-separated result names.
pub open spec fn parse_idents(ts: Seq<SpecToken>, p: int) -> Option<(Seq<Seq<u8>>, int)> {
    if 0 <= p < ts.len() && (ts[p] matches SpecToken::Identifier(w)) {
        Some(more_idents(ts, p + 1, seq![ts[p]->Identifier_0]))
    } else {
        None
    }
}

/// An expression: `const` with a literal, or an operator name with its
/// arguments.
pub open spec fn parse_expr(ts: Seq<SpecToken>, p: int) -> Option<(SpecExpr, int)> {
    if p < 0 || p >= ts.len() {
        None
    } else {
        match ts[p] {
            SpecToken::Const => {
                if p + 1 >= ts.len() {
                    None
                } else {
                    match ts[p + 1] {
                        SpecToken::Literal(txt) => {
                            if lit_ok(txt) {
                                Some(
                                    (SpecExpr::Const(strip_zeros(digit_vals(txt))), p + 2),
                                )
                            } else {
                                None
                            }
                        }
                        _ => None,
                    }
                }
            }
            SpecToken::Identifier(op) => {
                let (args, e) = parse_args(ts, p + 1, Seq::<Seq<u8>>::empty());
                Some((SpecExpr::Op(op, args), e))
            }
            _ => None,
        }
    }
}

/// A statement: `let names = expression ;` or `expression ;`.
pub open spec fn parse_stmt(ts: Seq<SpecToken>, p: int) -> Option<(SpecStmt, int)> {
    if p < 0 || p >= ts.len() {
        None
    } else if ts[p] is Let {
        match parse_idents(ts, p + 1) {
            None => None,
            Some((vs, p1)) => {
                if p1 >= ts.len() || !(ts[p1] is Eq) {
                    None
                } else {
                    match parse_expr(ts, p1 + 1) {
                        None => None,
                        Some((e, p2)) => {
                            if p2 >= ts.len() || !(ts[p2] is Semi) {
                                None
                            } else {
                                Some(((SpecStmt { ress: vs, expr: e }), p2 + 1))
                            }
                        }
                    }
                }
            }
        }
    } else {
        match parse_expr(ts, p) {
            None => None,
            Some((e, p1)) => {
                if p1 >= ts.len() || !(ts[p1] is Semi) {
                    None
                } else {
                    Some(((SpecStmt { ress: Seq::<Seq<u8>>::empty(), expr: e }), p1 + 1))
                }
            }
        }
    }
}

/// The whole token stream as a sequence of statements.
pub open spec fn parse_block(ts: Seq<SpecToken>, p: int) -> Option<Seq<SpecStmt>>
    decreases ts.len() - p,
{
    if p >= ts.len() {
        Some(Seq::<SpecStmt>::empty())
    } else {
        match parse_stmt(ts, p) {
            None => None,
            Some((st, p2)) => {
                if p2 <= p || p2 > ts.len() {
                    None
                } else {
                    match parse_block(ts, p2) {
                        None => None,
                        Some(sts) => Some(seq![st] + sts),
                    }
                }
            }
        }
    }
}

/// The surface grammar applied to raw text.
pub open spec fn spec_parse(s: Seq<u8>) -> Option<Seq<SpecStmt>> {
    match spec_tokens_from(s, 0) {
        None => None,
        Some(ts) => parse_block(ts, 0),
    }
}

} // verus!

verus! {

fn parse_args_exec(tokens: &Vec<Token>, p: usize, mut acc: Vec<Vec<u8>>) -> (r: (
    Vec<Vec<u8>>,
    usize,
))
    requires
        p <= tokens@.len(),
    ensures
        parse_args(tokens_view(tokens@), p as int, names_view(acc@)) == (
            names_view(r.0@),
            r.1 as int,
        ),
        p <= r.1 <= tokens@.len(),
{
    let ghost ts = tokens_view(tokens@);
    let ghost acc0 = names_view(acc@);
    let mut cur = p;
    while cur < tokens.len() && matches!(&tokens[cur], Token::Identifier(_))
        invariant
            p <= cur <= tokens@.len(),
            ts == tokens_view(tokens@),
            parse_args(ts, p as int, acc0) == parse_args(ts, cur as int, names_view(acc@)),
        decreases tokens@.len() - cur,
    {
        let w = match &tokens[cur] {
            Token::Identifier(w) => w.clone(),
            _ => {
                proof {
                    assert(false);
                }
                Vec::new()
            }
        };
        proof {
            assert(names_view(acc@).push(w@) =~= names_view(acc@.push(w)));
        }
        acc.push(w);
        cur += 1;
    }
    proof {
        assert(parse_args(ts, cur as int, names_view(acc@)) == (names_view(acc@), cur as int));
    }
    (acc, cur)
}

fn parse_idents_exec(tokens: &Vec<Token>, p: usize) -> (r: Result<
    (Vec<Vec<u8>>, usize),
    CompileError,
>)
    requires
        p <= tokens@.len(),
    ensures
        r matches Ok(pr) ==> parse_idents(tokens_view(tokens@), p as int) == Some(
            (names_view(pr.0@), pr.1 as int),
        ) && p < pr.1 <= tokens@.len(),
        r is Ok <==> parse_idents(tokens_view(tokens@), p as int) is Some,
        r matches Err(e) ==> e == CompileError::Parse,
{
    let ghost ts = tokens_view(tokens@);
    if p >= tokens.len() {
        return Err(CompileError::Parse);
    }
    let first = match &tokens[p] {
        Token::Identifier(w) => w.clone(),
        _ => {
            return Err(CompileError::Parse);
        }
    };
    let mut acc: Vec<Vec<u8>> = Vec::new();
    acc.push(first);
    proof {
        assert(names_view(acc@) =~= seq![ts[p as int]->Identifier_0]);
    }
    let mut cur = p + 1;
    while cur < tokens.len() && cur + 1 < tokens.len() && matches!(&tokens[cur], Token::Comma)
        && matches!(&tokens[cur + 1], Token::Identifier(_))
        invariant
            p + 1 <= cur <= tokens@.len(),
            ts == tokens_view(tokens@),
            more_idents(ts, p + 1, seq![ts[p as int]->Identifier_0]) == more_idents(
                ts,
                cur as int,
                names_view(acc@),
            ),
        decreases tokens@.len() - cur,
    {
        let w = match &tokens[cur + 1] {
            Token::Identifier(w) => w.clone(),
            _ => {
                proof {
                    assert(false);
                }
                Vec::new()
            }
        };
        proof {
            assert(names_view(acc@).push(w@) =~= names_view(acc@.push(w)));
        }
        acc.push(w);
        cur += 2;
    }
    proof {
        assert(more_idents(ts, cur as int, names_view(acc@)) == (names_view(acc@), cur as int));
    }
    Ok((acc, cur))
}

fn parse_expr_exec(tokens: &Vec<Token>, p: usize) -> (r: Result<
    (Expression<Vec<u8>>, usize),
    CompileError,
>)
    requires
        p <= tokens@.len(),
    ensures
        r matches Ok(pr) ==> parse_expr(tokens_view(tokens@), p as int) matches Some(spr)
            && spr.0 == expr_repr(pr.0) && spr.1 == pr.1 && p < pr.1 <= tokens@.len(),
        r is Ok <==> parse_expr(tokens_view(tokens@), p as int) is Some,
        r matches Err(e) ==> e == CompileError::Parse,
{
    let ghost ts = tokens_view(tokens@);
    if p >= tokens.len() {
        return Err(CompileError::Parse);
    }
    match &tokens[p] {
        Token::Const => {
            if p + 1 >= tokens.len() {
                return Err(CompileError::Parse);
            }
            match &tokens[p + 1] {
                Token::Literal(txt) => {
                    let n = match Numeral::from_ascii(txt.as_slice()) {
                        Ok(n) => n,
                        Err(e) => {
                            proof {
                                assert(!lit_ok(ts[p + 1]->Literal_0));
                            }
                            return Err(e);
                        }
                    };
                    Ok((Expression::Const(n), p + 2))
                }
                _ => Err(CompileError::Parse),
            }
        }
        Token::Identifier(op) => {
            let name = op.clone();
            let (args, e) = parse_args_exec(tokens, p + 1, Vec::new());
            proof {
                assert(names_view(Seq::<Vec<u8>>::empty()) =~= Seq::<Seq<u8>>::empty());
                assert(parse_args(ts, p + 1, Seq::<Seq<u8>>::empty()) == (
                    names_view(args@),
                    e as int,
                ));
            }
            Ok((Expression::Op(name, args), e))
        }
        _ => Err(CompileError::Parse),
    }
}

fn parse_stmt_exec(tokens: &Vec<Token>, p: usize) -> (r: Result<
    (Statement<Vec<u8>>, usize),
    CompileError,
>)
    requires
        p <= tokens@.len(),
    ensures
        r matches Ok(pr) ==> parse_stmt(tokens_view(tokens@), p as int) matches Some(spr)
            && spr.0 == stmt_repr(pr.0) && spr.1 == pr.1 && p < pr.1 <= tokens@.len(),
        r is Ok <==> parse_stmt(tokens_view(tokens@), p as int) is Some,
        r matches Err(e) ==> e == CompileError::Parse,
{
    let ghost ts = tokens_view(tokens@);
    if p >= tokens.len() {
        return Err(CompileError::Parse);
    }
    if matches!(&tokens[p], Token::Let) {
        let (vs, p1) = match parse_idents_exec(tokens, p + 1) {
            Ok(pr) => pr,
            Err(e) => {
                return Err(e);
            }
        };
        if p1 >= tokens.len() || !matches!(&tokens[p1], Token::Eq) {
            return Err(CompileError::Parse);
        }
        let (e, p2) = match parse_expr_exec(tokens, p1 + 1) {
            Ok(pr) => pr,
            Err(e) => {
                return Err(e);
            }
        };
        if p2 >= tokens.len() || !matches!(&tokens[p2], Token::Semi) {
            return Err(CompileError::Parse);
        }
        Ok((Statement(vs, e), p2 + 1))
    } else {
        let (e, p1) = match parse_expr_exec(tokens, p) {
            Ok(pr) => pr,
            Err(e) => {
                return Err(e);
            }
        };
        if p1 >= tokens.len() || !matches!(&tokens[p1], Token::Semi) {
            return Err(CompileError::Parse);
        }
        proof {
            assert(names_view(Seq::<Vec<u8>>::empty()) =~= Seq::<Seq<u8>>::empty());
        }
        Ok((Statement(Vec::new(), e), p1 + 1))
    }
}

/// Read a block of the surface syntax: statements `let v, … = op …;`,
/// `op …;` or `let v = const <decimal>;`, each ending in a semicolon.
pub fn parse(input: &[u8]) -> (r: Result<Block<Vec<u8>>, CompileError>)
    ensures
        r matches Ok(b) ==> spec_parse(input@) == Some(block_repr(b.0@)),
        r is Ok <==> spec_parse(input@) is Some,
        r matches Err(e) ==> e == CompileError::Parse,
{
    let tokens = match tokenize(input) {
        Ok(ts) => ts,
        Err(e) => {
            return Err(e);
        }
    };
    let ghost ts = tokens_view(tokens@);
    let mut out: Vec<Statement<Vec<u8>>> = Vec::new();
    let mut p: usize = 0;
    while p < tokens.len()
        invariant
            p <= tokens@.len(),
            ts == tokens_view(tokens@),
            spec_tokens_from(input@, 0) == Some(ts),
            parse_block(ts, 0) == (match parse_block(ts, p as int) {
                None => None::<Seq<SpecStmt>>,
                Some(rest) => Some(block_repr(out@) + rest),
            }),
        decreases tokens@.len() - p,
    {
        let ghost pre = out@;
        let (st, p2) = match parse_stmt_exec(&tokens, p) {
            Ok(pr) => pr,
            Err(e) => {
                return Err(e);
            }
        };
        out.push(st);
        proof {
            let sv = stmt_repr(out@.last());
            assert(block_repr(out@) =~= block_repr(pre).push(sv));
            assert(parse_block(ts, p as int) == (match parse_block(ts, p2 as int) {
                None => None::<Seq<SpecStmt>>,
                Some(sts) => Some(seq![sv] + sts),
            }));
            assert forall|rest: Seq<SpecStmt>| true implies block_repr(pre) + (seq![sv] + rest)
                =~= block_repr(out@) + rest by {}
        }
        p = p2;
    }
    proof {
        assert(parse_block(ts, p as int) == Some(Seq::<SpecStmt>::empty()));
        assert(block_repr(out@) + Seq::<SpecStmt>::empty() =~= block_repr(out@));
    }
    Ok(Block(out))
}

} // verus!
