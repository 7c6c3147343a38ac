use vstd::prelude::*;
use crate::expr::{push_char, Expression, Term};
use crate::lexer::{Lexer, Token, tokenize};

verus! {

/// Why a line could not be parsed.
#[derive(Clone, Copy, Debug, PartialEq, Eq, Structural)]
pub enum ParseError {
    /// A token stood where an operand or an operator was required.
    UnexpectedToken(Token),
    /// A parenthesised expression was not followed by `)`.
    MissingCloseParen,
    /// An operator character with no binding power.
    UnknownOperator(char),
}

/// Left and right binding power of each infix operator, in tenths.
/// A right power above the left one makes the operator left-associative,
/// one below makes it right-associative.
pub open spec fn binding_power(op: char) -> Option<(u32, u32)> {
    if op == '=' {
        Some((2, 1))
    } else if op == '+' || op == '-' {
        Some((10, 11))
    } else if op == '*' || op == '/' {
        Some((20, 21))
    } else if op == '^' || op == '√' {
        Some((31, 30))
    } else if op == '.' {
        Some((40, 41))
    } else {
        None
    }
}

pub fn infix_binding_power(op: char) -> (r: Option<(u32, u32)>)
    ensures
        r == binding_power(op),
{
    match op {
        '=' => Some((2, 1)),
        '+' | '-' => Some((10, 11)),
        '*' | '/' => Some((20, 21)),
        '^' | '√' => Some((31, 30)),
        '.' => Some((40, 41)),
        _ => None,
    }
}

/// The front token of a stream, `Eof` when it is empty.
pub open spec fn front(ts: Seq<Token>) -> Token {
    if ts.len() > 0 {
        ts[0]
    } else {
        Token::Eof
    }
}

/// Splits off the run of atom tokens at the front: its characters, and the
/// tokens after it.
pub open spec fn split_atom_run(ts: Seq<Token>) -> (Seq<char>, Seq<Token>)
    decreases ts.len(),
{
    if ts.len() > 0 && ts[0] is Atom {
        let (s, rest) = split_atom_run(ts.drop_first());
        (seq![ts[0]->Atom_0] + s, rest)
    } else {
        (Seq::empty(), ts)
    }
}

/// An operand: a run of atoms, or an expression in parentheses.
/// On success, the tree and the tokens after it.
pub open spec fn parse_operand(ts: Seq<Token>) -> Result<(Term, Seq<Token>), ParseError>
    decreases ts.len(), 0nat,
{
    match front(ts) {
        Token::Atom(_) => {
            let (s, rest) = split_atom_run(ts);
            Ok((Term::Leaf(s), rest))
        },
        Token::Op(c) => {
            if c == '(' {
                match parse_expr(ts.drop_first(), 0) {
                    Ok((t, rest)) => {
                        if front(rest) == Token::Op(')') {
                            Ok((t, rest.drop_first()))
                        } else {
                            Err(ParseError::MissingCloseParen)
                        }
                    },
                    Err(e) => Err(e),
                }
            } else {
                Err(ParseError::UnexpectedToken(Token::Op(c)))
            }
        },
        Token::Eof => Err(ParseError::UnexpectedToken(Token::Eof)),
    }
}

/// An operand followed by the operators that bind at least `min` to their left.
pub open spec fn parse_expr(ts: Seq<Token>, min: u32) -> Result<(Term, Seq<Token>), ParseError>
    decreases ts.len(), 1nat,
{
    match parse_operand(ts) {
        Ok((lhs, rest)) => {
            // an operand takes at least one token (lemma_parse_progress)
            if rest.len() < ts.len() {
                parse_infix(lhs, rest, min)
            } else {
                Ok((lhs, rest))
            }
        },
        Err(e) => Err(e),
    }
}

/// Extends `lhs` with the operators at the front of `ts` that bind at least
/// `min` to their left; `)` and the end of input stop it.
pub open spec fn parse_infix(lhs: Term, ts: Seq<Token>, min: u32) -> Result<
    (Term, Seq<Token>),
    ParseError,
>
    decreases ts.len(), 2nat,
{
    match front(ts) {
        Token::Eof => Ok((lhs, ts)),
        Token::Atom(c) => Err(ParseError::UnexpectedToken(Token::Atom(c))),
        Token::Op(op) => {
            if op == ')' {
                Ok((lhs, ts))
            } else {
                match binding_power(op) {
                    None => Err(ParseError::UnknownOperator(op)),
                    Some((l, r)) => {
                        if l < min {
                            Ok((lhs, ts))
                        } else {
                            match parse_expr(ts.drop_first(), r) {
                                Ok((rhs, rest)) => {
                                    let t = Term::Node(op, Box::new(lhs), Box::new(rhs));
                                    // always shorter (lemma_parse_progress)
                                    if rest.len() < ts.len() {
                                        parse_infix(t, rest, min)
                                    } else {
                                        Ok((t, rest))
                                    }
                                },
                                Err(e) => Err(e),
                            }
                        }
                    },
                }
            }
        },
    }
}

/// The tree of a whole line.
pub open spec fn parse_line(s: Seq<char>) -> Result<Term, ParseError> {
    match parse_expr(tokenize(s), 0) {
        Ok((t, _)) => Ok(t),
        Err(e) => Err(e),
    }
}

pub open spec fn shorter(r: Result<(Term, Seq<Token>), ParseError>, ts: Seq<Token>) -> bool {
    r is Ok ==> r->Ok_0.1.len() < ts.len()
}

pub open spec fn no_longer(r: Result<(Term, Seq<Token>), ParseError>, ts: Seq<Token>) -> bool {
    r is Ok ==> r->Ok_0.1.len() <= ts.len()
}

proof fn lemma_atom_run_len(ts: Seq<Token>)
    ensures
        split_atom_run(ts).1.len() <= ts.len(),
        ts.len() > 0 && ts[0] is Atom ==> split_atom_run(ts).1.len() < ts.len(),
    decreases ts.len(),
{
    if ts.len() > 0 && ts[0] is Atom {
        lemma_atom_run_len(ts.drop_first());
    }
}

/// Every successful parse of an operand or an expression takes at least one token.
pub proof fn lemma_parse_progress(ts: Seq<Token>, min: u32)
    ensures
        shorter(parse_operand(ts), ts),
        shorter(parse_expr(ts, min), ts),
    decreases ts.len(), 1nat,
{
    lemma_operand_progress(ts);
    match parse_operand(ts) {
        Ok((lhs, rest)) => {
            if rest.len() < ts.len() {
                lemma_infix_progress(lhs, rest, min);
            }
        },
        Err(_) => {},
    }
}

proof fn lemma_operand_progress(ts: Seq<Token>)
    ensures
        shorter(parse_operand(ts), ts),
    decreases ts.len(), 0nat,
{
    match front(ts) {
        Token::Atom(_) => lemma_atom_run_len(ts),
        Token::Op(c) => {
            if c == '(' {
                lemma_parse_progress(ts.drop_first(), 0);
            }
        },
        Token::Eof => {},
    }
}

proof fn lemma_infix_progress(lhs: Term, ts: Seq<Token>, min: u32)
    ensures
        no_longer(parse_infix(lhs, ts, min), ts),
    decreases ts.len(), 2nat,
{
    if let Token::Op(op) = front(ts) {
        if op != ')' {
            if let Some((l, r)) = binding_power(op) {
                if l >= min {
                    lemma_parse_progress(ts.drop_first(), r);
                    if let Ok((rhs, rest)) = parse_expr(ts.drop_first(), r) {
                        if rest.len() < ts.len() {
                            lemma_infix_progress(
                                Term::Node(op, Box::new(lhs), Box::new(rhs)),
                                rest,
                                min,
                            );
                        }
                    }
                }
            }
        }
    }
}

/// What an executable parse result says, in the terms of `parse_expr`.
pub open spec fn outcome(r: Result<Expression, ParseError>, rest: Seq<Token>) -> Result<
    (Term, Seq<Token>),
    ParseError,
> {
    match r {
        Ok(e) => Ok((e@, rest)),
        Err(e) => Err(e),
    }
}

/// Precedence climbing: parses an operand, then every operator whose left
/// binding power is at least `min_bp`, each with a right operand parsed at
/// that operator's right binding power.
pub fn parse_expression(lexer: &mut Lexer, min_bp: u32) -> (r: Result<Expression, ParseError>)
    ensures
        outcome(r, final(lexer).remaining()) == parse_expr(old(lexer).remaining(), min_bp),
    decreases old(lexer).remaining().len(),
{
    let ghost start = lexer.remaining();
    proof {
        lemma_parse_progress(start, min_bp);
    }
    let mut lhs = match lexer.next() {
        Token::Atom(c) => {
            let mut atom = String::new();
            push_char(&mut atom, c);
            assert(atom@ =~= seq![c]);
            loop
                invariant
                    lexer.remaining().len() < start.len(),
                    split_atom_run(start) == (
                        atom@ + split_atom_run(lexer.remaining()).0,
                        split_atom_run(lexer.remaining()).1,
                    ),
                ensures
                    split_atom_run(start) == (atom@, lexer.remaining()),
                decreases lexer.remaining().len(),
            {
                match lexer.peek() {
                    Token::Atom(d) => {
                        let ghost before = lexer.remaining();
                        let ghost text = atom@;
                        lexer.next();
                        push_char(&mut atom, d);
                        assert(text + split_atom_run(before).0 =~= atom@ + split_atom_run(
                            lexer.remaining(),
                        ).0);
                    },
                    _ => {
                        assert(atom@ + split_atom_run(lexer.remaining()).0 =~= atom@);
                        break ;
                    },
                }
            }
            Expression::Atom(atom)
        },
        Token::Op(c) => {
            if c == '(' {
                let inner = match parse_expression(lexer, 0) {
                    Ok(e) => e,
                    Err(e) => {
                        return Err(e);
                    },
                };
                match lexer.next() {
                    Token::Op(d) => {
                        if d != ')' {
                            return Err(ParseError::MissingCloseParen);
                        }
                    },
                    _ => {
                        return Err(ParseError::MissingCloseParen);
                    },
                }
                inner
            } else {
                return Err(ParseError::UnexpectedToken(Token::Op(c)));
            }
        },
        Token::Eof => {
            return Err(ParseError::UnexpectedToken(Token::Eof));
        },
    };
    loop
        invariant
            start == old(lexer).remaining(),
            lexer.remaining().len() < start.len(),
            parse_expr(start, min_bp) == parse_infix(lhs@, lexer.remaining(), min_bp),
        ensures
            parse_expr(start, min_bp) == Ok::<(Term, Seq<Token>), ParseError>((lhs@, lexer.remaining())),
        decreases lexer.remaining().len(),
    {
        let op = match lexer.peek() {
            Token::Eof => {
                break ;
            },
            Token::Op(c) => {
                if c == ')' {
                    break ;
                }
                c
            },
            Token::Atom(c) => {
                assert(front(lexer.remaining()) == Token::Atom(c));
                return Err(ParseError::UnexpectedToken(Token::Atom(c)));
            },
        };
        let (l_bp, r_bp) = match infix_binding_power(op) {
            Some(p) => p,
            None => {
                return Err(ParseError::UnknownOperator(op));
            },
        };
        if l_bp < min_bp {
            break ;
        }
        let ghost before = lexer.remaining();
        let ghost old_lhs_view = lhs@;
        lexer.next();
        proof {
            lemma_parse_progress(lexer.remaining(), r_bp);
        }
        let rhs = match parse_expression(lexer, r_bp) {
            Ok(e) => e,
            Err(e) => {
                return Err(e);
            },
        };
        lhs = Expression::Operation(op, Box::new(lhs), Box::new(rhs));
        assert(lhs@ == Term::Node(op, Box::new(old_lhs_view), Box::new(rhs@)));
    }
    Ok(lhs)
}

impl Expression {
    /// Parses a whole line. Tokens after a closing parenthesis that ends the
    /// top-level expression are left unread.
    pub fn from_str(input: String) -> (r: Result<Expression, ParseError>)
        ensures
            match r {
                Ok(e) => parse_line(input@) == Ok::<Term, ParseError>(e@),
                Err(e) => parse_line(input@) == Err::<Term, ParseError>(e),
            },
    {
        let mut lexer = Lexer::new(input);
        parse_expression(&mut lexer, 0)
    }
}

} // verus!
