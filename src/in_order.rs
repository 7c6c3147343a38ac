use vstd::prelude::*;
use crate::expr::{is_delimiter, lemma_render_injective, render_term, well_formed, Term};
use crate::lexer::{Token, tokenize};
use crate::parser::{
    binding_power, front, parse_expr, parse_infix, parse_line, parse_operand, split_atom_run,
};

verus! {

/// The tokens of a tree read from left to right: an atom's characters, and an
/// operator between the readings of its two operands.
pub open spec fn flatten(t: Term) -> Seq<Token>
    decreases t,
{
    match t {
        Term::Leaf(s) => atom_tokens(s),
        Term::Node(op, l, r) => flatten(*l) + seq![Token::Op(op)] + flatten(*r),
    }
}

pub open spec fn is_paren(t: Token) -> bool {
    t == Token::Op('(') || t == Token::Op(')')
}

/// The tokens without the parentheses.
pub open spec fn strip_parens(ts: Seq<Token>) -> Seq<Token>
    decreases ts.len(),
{
    if ts.len() == 0 {
        ts
    } else if is_paren(ts[0]) {
        strip_parens(ts.drop_first())
    } else {
        seq![ts[0]] + strip_parens(ts.drop_first())
    }
}

/// What a parse result says of the tokens it read: they come before `rest`,
/// and without parentheses they are `prefix` followed by the reading of the tree.
pub open spec fn reads_back(
    r: Result<(Term, Seq<Token>), crate::parser::ParseError>,
    ts: Seq<Token>,
    prefix: Seq<Token>,
) -> bool {
    r is Ok ==> {
        let (t, rest) = r->Ok_0;
        let n = ts.len() - rest.len();
        &&& 0 <= n <= ts.len()
        &&& rest == ts.skip(n)
        &&& prefix + strip_parens(ts.take(n)) == flatten(t)
    }
}

proof fn lemma_strip_concat(a: Seq<Token>, b: Seq<Token>)
    ensures
        strip_parens(a + b) == strip_parens(a) + strip_parens(b),
    decreases a.len(),
{
    if a.len() == 0 {
        assert(a + b =~= b);
    } else {
        assert((a + b).drop_first() =~= a.drop_first() + b);
        lemma_strip_concat(a.drop_first(), b);
        if is_paren(a[0]) {
        } else {
            assert(seq![a[0]] + strip_parens(a.drop_first()) + strip_parens(b) =~= seq![a[0]]
                + (strip_parens(a.drop_first()) + strip_parens(b)));
        }
    }
}

/// One atom token for each character.
pub open spec fn atom_tokens(s: Seq<char>) -> Seq<Token>
    decreases s.len(),
{
    if s.len() == 0 {
        Seq::empty()
    } else {
        seq![Token::Atom(s[0])] + atom_tokens(s.drop_first())
    }
}

proof fn lemma_atom_run(ts: Seq<Token>)
    ensures
        ts == atom_tokens(split_atom_run(ts).0) + split_atom_run(ts).1,
        strip_parens(atom_tokens(split_atom_run(ts).0)) == atom_tokens(split_atom_run(ts).0),
    decreases ts.len(),
{
    let s = split_atom_run(ts).0;
    let rest = split_atom_run(ts).1;
    if ts.len() > 0 && ts[0] is Atom {
        let t1 = ts.drop_first();
        lemma_atom_run(t1);
        let s1 = split_atom_run(t1).0;
        assert(s == seq![ts[0]->Atom_0] + s1);
        assert(rest == split_atom_run(t1).1);
        assert(s.drop_first() =~= s1);
        assert(atom_tokens(s) == seq![ts[0]] + atom_tokens(s1));
        assert(atom_tokens(s).drop_first() =~= atom_tokens(s1));
        assert(ts =~= seq![ts[0]] + t1);
        assert(seq![ts[0]] + atom_tokens(s1) + rest =~= seq![ts[0]] + (atom_tokens(s1) + rest));
    } else {
        assert(s == Seq::<char>::empty());
        assert(atom_tokens(s) =~= Seq::<Token>::empty());
        assert(ts =~= atom_tokens(s) + rest);
    }
}

proof fn lemma_operand_reads_back(ts: Seq<Token>)
    ensures
        reads_back(parse_operand(ts), ts, Seq::empty()),
    decreases ts.len(), 0nat,
{
    match front(ts) {
        Token::Atom(_) => {
            lemma_atom_run(ts);
            let rest = split_atom_run(ts).1;
            let atoms = atom_tokens(split_atom_run(ts).0);
            assert(ts.take(ts.len() - rest.len()) =~= atoms);
            assert(rest =~= ts.skip(ts.len() - rest.len()));
            assert(Seq::<Token>::empty() + atoms =~= atoms);
        },
        Token::Op(c) => {
            if c == '(' {
                let inner = ts.drop_first();
                lemma_expr_reads_back(inner, 0);
                if let Ok((t, rest1)) = parse_expr(inner, 0) {
                    if front(rest1) == Token::Op(')') {
                        let rest = rest1.drop_first();
                        let n1 = inner.len() - rest1.len();
                        let n = ts.len() - rest.len();
                        assert(ts.take(n) =~= seq![ts[0]] + (inner.take(n1) + seq![rest1[0]]));
                        assert(rest =~= ts.skip(n));
                        lemma_strip_concat(inner.take(n1), seq![rest1[0]]);
                        assert(strip_parens(seq![rest1[0]]) =~= Seq::<Token>::empty()) by {
                            reveal_with_fuel(strip_parens, 2);
                        }
                        assert((seq![ts[0]] + (inner.take(n1) + seq![rest1[0]])).drop_first()
                            =~= inner.take(n1) + seq![rest1[0]]);
                        assert(Seq::<Token>::empty() + strip_parens(inner.take(n1)) =~= strip_parens(
                            inner.take(n1),
                        ));
                        assert(strip_parens(inner.take(n1)) + Seq::<Token>::empty() =~= strip_parens(
                            inner.take(n1),
                        ));
                        assert(Seq::<Token>::empty() + strip_parens(ts.take(n)) =~= strip_parens(
                            ts.take(n),
                        ));
                    }
                }
            }
        },
        Token::Eof => {},
    }
}

proof fn lemma_expr_reads_back(ts: Seq<Token>, min: u32)
    ensures
        reads_back(parse_expr(ts, min), ts, Seq::empty()),
    decreases ts.len(), 1nat,
{
    crate::parser::lemma_parse_progress(ts, min);
    lemma_operand_reads_back(ts);
    if let Ok((lhs, rest1)) = parse_operand(ts) {
        lemma_infix_reads_back(lhs, rest1, min);
        if let Ok((t, rest)) = parse_infix(lhs, rest1, min) {
            let n1 = ts.len() - rest1.len();
            let n2 = rest1.len() - rest.len();
            let n = ts.len() - rest.len();
            let c1 = ts.take(n1);
            let c2 = rest1.take(n2);
            assert(ts.take(n) =~= c1 + c2);
            assert(rest =~= ts.skip(n));
            lemma_strip_concat(c1, c2);
            assert(Seq::<Token>::empty() + strip_parens(c1) =~= strip_parens(c1));
            assert(Seq::<Token>::empty() + strip_parens(ts.take(n)) =~= strip_parens(ts.take(n)));
        }
    }
}

proof fn lemma_infix_reads_back(lhs: Term, ts: Seq<Token>, min: u32)
    ensures
        reads_back(parse_infix(lhs, ts, min), ts, flatten(lhs)),
    decreases ts.len(), 2nat,
{
    assert(ts.take(0) =~= Seq::<Token>::empty());
    assert(ts.skip(0) =~= ts);
    assert(flatten(lhs) + strip_parens(ts.take(0)) =~= flatten(lhs));
    if let Token::Op(op) = front(ts) {
        if op != ')' {
            if let Some((l, r)) = binding_power(op) {
                if l >= min {
                    assert(op != '(');
                    let ts1 = ts.drop_first();
                    crate::parser::lemma_parse_progress(ts1, r);
                    lemma_expr_reads_back(ts1, r);
                    if let Ok((rhs, rest1)) = parse_expr(ts1, r) {
                        let node = Term::Node(op, Box::new(lhs), Box::new(rhs));
                        lemma_infix_reads_back(node, rest1, min);
                        if let Ok((t, rest)) = parse_infix(node, rest1, min) {
                            let n1 = ts1.len() - rest1.len();
                            let n2 = rest1.len() - rest.len();
                            let n = ts.len() - rest.len();
                            let c1 = ts1.take(n1);
                            let c2 = rest1.take(n2);
                            assert(ts.take(n) =~= seq![ts[0]] + (c1 + c2));
                            assert(rest =~= ts.skip(n));
                            lemma_strip_concat(c1, c2);
                            assert((seq![ts[0]] + (c1 + c2)).drop_first() =~= c1 + c2);
                            assert(Seq::<Token>::empty() + strip_parens(c1) =~= strip_parens(c1));
                            assert(flatten(node) =~= flatten(lhs) + seq![Token::Op(op)] + flatten(
                                rhs,
                            ));
                            assert(flatten(lhs) + strip_parens(ts.take(n)) =~= flatten(lhs) + (
                            seq![Token::Op(op)] + (strip_parens(c1) + strip_parens(c2))));
                            assert(flatten(lhs) + (seq![Token::Op(op)] + (strip_parens(c1)
                                + strip_parens(c2))) =~= flatten(node) + strip_parens(c2));
                        }
                    }
                }
            }
        }
    }
}

proof fn lemma_top_level_stop(lhs: Term, ts: Seq<Token>)
    ensures
        parse_infix(lhs, ts, 0) is Ok ==> {
            let rest = parse_infix(lhs, ts, 0)->Ok_0.1;
            front(rest) == Token::Eof || front(rest) == Token::Op(')')
        },
    decreases ts.len(),
{
    if let Token::Op(op) = front(ts) {
        if op != ')' {
            if let Some((l, r)) = binding_power(op) {
                let ts1 = ts.drop_first();
                crate::parser::lemma_parse_progress(ts1, r);
                if let Ok((rhs, rest1)) = parse_expr(ts1, r) {
                    lemma_top_level_stop(Term::Node(op, Box::new(lhs), Box::new(rhs)), rest1);
                }
            }
        }
    }
}

proof fn lemma_tokenize_has_no_eof(s: Seq<char>)
    ensures
        forall|i: int| 0 <= i < tokenize(s).len() ==> tokenize(s)[i] != Token::Eof,
    decreases s.len(),
{
    if s.len() > 0 {
        lemma_tokenize_has_no_eof(s.drop_last());
    }
}

/// Parsing keeps the order of the input: the tree of a line, read from left to
/// right, is exactly the tokens the parse consumed with the parentheses left
/// out, and the tokens it left unread are empty or begin with a `)`.
pub proof fn lemma_parse_keeps_token_order(s: Seq<char>)
    ensures
        parse_expr(tokenize(s), 0) is Ok ==> {
            let ts = tokenize(s);
            let (t, rest) = parse_expr(ts, 0)->Ok_0;
            let n = ts.len() - rest.len();
            &&& 0 <= n <= ts.len()
            &&& rest == ts.skip(n)
            &&& flatten(t) == strip_parens(ts.take(n))
            &&& (rest.len() == 0 || rest[0] == Token::Op(')'))
        },
{
    let ts = tokenize(s);
    lemma_tokenize_has_no_eof(s);
    lemma_expr_reads_back(ts, 0);
    crate::parser::lemma_parse_progress(ts, 0);
    if let Ok((lhs, rest1)) = parse_operand(ts) {
        lemma_top_level_stop(lhs, rest1);
    }
    if let Ok((t, rest)) = parse_expr(ts, 0) {
        let n = ts.len() - rest.len();
        assert(Seq::<Token>::empty() + strip_parens(ts.take(n)) =~= strip_parens(ts.take(n)));
        if rest.len() > 0 {
            assert(rest[0] == ts[n]);
        }
    }
}

/// The same for a line that parses: its tree, read left to right, is the
/// line's tokens up to the point where parsing stopped, parentheses left out.
pub proof fn lemma_parse_line_keeps_token_order(s: Seq<char>, t: Term)
    requires
        parse_line(s) == Ok::<Term, crate::parser::ParseError>(t),
    ensures
        exists|n: int|
            0 <= n <= tokenize(s).len() && flatten(t) == strip_parens(#[trigger] tokenize(s).take(n))
                && (n == tokenize(s).len() || tokenize(s)[n] == Token::Op(')')),
{
    lemma_parse_keeps_token_order(s);
    let ts = tokenize(s);
    let rest = parse_expr(ts, 0)->Ok_0.1;
    let n = ts.len() - rest.len();
    if n < ts.len() {
        assert(ts[n] == rest[0]);
    }
}

/// No atom token holds a parenthesis or a space.
pub open spec fn atoms_valid(ts: Seq<Token>) -> bool {
    forall|i: int| 0 <= i < ts.len() && (#[trigger] ts[i]) is Atom ==> !is_delimiter(ts[i]->Atom_0)
}

proof fn lemma_atoms_valid_skip(ts: Seq<Token>, k: int)
    requires
        atoms_valid(ts),
        0 <= k <= ts.len(),
    ensures
        atoms_valid(ts.skip(k)),
{
    assert forall|i: int| 0 <= i < ts.skip(k).len() && (#[trigger] ts.skip(k)[i]) is Atom implies !is_delimiter(
        ts.skip(k)[i]->Atom_0,
    ) by {
        assert(ts.skip(k)[i] == ts[i + k]);
    }
}

proof fn lemma_tokenize_atoms_valid(s: Seq<char>)
    ensures
        atoms_valid(tokenize(s)),
    decreases s.len(),
{
    if s.len() > 0 {
        lemma_tokenize_atoms_valid(s.drop_last());
    }
}

proof fn lemma_atom_run_well_formed(ts: Seq<Token>)
    requires
        atoms_valid(ts),
    ensures
        forall|i: int|
            0 <= i < split_atom_run(ts).0.len() ==> !is_delimiter(#[trigger] split_atom_run(ts).0[i]),
        front(ts) is Atom ==> split_atom_run(ts).0.len() > 0,
        atoms_valid(split_atom_run(ts).1),
    decreases ts.len(),
{
    if ts.len() > 0 && ts[0] is Atom {
        let t1 = ts.drop_first();
        lemma_atoms_valid_skip(ts, 1);
        assert(t1 == ts.skip(1));
        lemma_atom_run_well_formed(t1);
        let s = split_atom_run(ts).0;
        let s1 = split_atom_run(t1).0;
        assert(s == seq![ts[0]->Atom_0] + s1);
        assert forall|i: int| 0 <= i < s.len() implies !is_delimiter(#[trigger] s[i]) by {
            if i > 0 {
                assert(s[i] == s1[i - 1]);
            }
        }
    }
}

pub open spec fn yields_well_formed(r: Result<(Term, Seq<Token>), crate::parser::ParseError>) -> bool {
    r is Ok ==> well_formed(r->Ok_0.0) && atoms_valid(r->Ok_0.1)
}

proof fn lemma_operand_well_formed(ts: Seq<Token>)
    requires
        atoms_valid(ts),
    ensures
        yields_well_formed(parse_operand(ts)),
    decreases ts.len(), 0nat,
{
    match front(ts) {
        Token::Atom(_) => lemma_atom_run_well_formed(ts),
        Token::Op(c) => {
            if c == '(' {
                lemma_atoms_valid_skip(ts, 1);
                assert(ts.drop_first() == ts.skip(1));
                lemma_expr_well_formed(ts.drop_first(), 0);
                if let Ok((t, rest)) = parse_expr(ts.drop_first(), 0) {
                    if rest.len() > 0 {
                        lemma_atoms_valid_skip(rest, 1);
                        assert(rest.drop_first() == rest.skip(1));
                    }
                }
            }
        },
        Token::Eof => {},
    }
}

proof fn lemma_expr_well_formed(ts: Seq<Token>, min: u32)
    requires
        atoms_valid(ts),
    ensures
        yields_well_formed(parse_expr(ts, min)),
    decreases ts.len(), 1nat,
{
    lemma_operand_well_formed(ts);
    if let Ok((lhs, rest)) = parse_operand(ts) {
        if rest.len() < ts.len() {
            lemma_infix_well_formed(lhs, rest, min);
        }
    }
}

proof fn lemma_infix_well_formed(lhs: Term, ts: Seq<Token>, min: u32)
    requires
        well_formed(lhs),
        atoms_valid(ts),
    ensures
        yields_well_formed(parse_infix(lhs, ts, min)),
    decreases ts.len(), 2nat,
{
    if let Token::Op(op) = front(ts) {
        if op != ')' {
            if let Some((l, r)) = binding_power(op) {
                if l >= min {
                    lemma_atoms_valid_skip(ts, 1);
                    assert(ts.drop_first() == ts.skip(1));
                    lemma_expr_well_formed(ts.drop_first(), r);
                    if let Ok((rhs, rest)) = parse_expr(ts.drop_first(), r) {
                        let node = Term::Node(op, Box::new(lhs), Box::new(rhs));
                        if rest.len() < ts.len() {
                            lemma_infix_well_formed(node, rest, min);
                        }
                    }
                }
            }
        }
    }
}

/// The tree of every line that parses is well-formed: its atoms are non-empty
/// and hold no parenthesis or space.
pub proof fn lemma_parse_line_well_formed(s: Seq<char>, t: Term)
    requires
        parse_line(s) == Ok::<Term, crate::parser::ParseError>(t),
    ensures
        well_formed(t),
{
    lemma_tokenize_atoms_valid(s);
    lemma_expr_well_formed(tokenize(s), 0);
}

/// Two lines whose trees render to the same text have the same tree.
pub proof fn lemma_parsed_render_injective(s1: Seq<char>, s2: Seq<char>, t1: Term, t2: Term)
    requires
        parse_line(s1) == Ok::<Term, crate::parser::ParseError>(t1),
        parse_line(s2) == Ok::<Term, crate::parser::ParseError>(t2),
        render_term(t1) == render_term(t2),
    ensures
        t1 == t2,
{
    lemma_parse_line_well_formed(s1, t1);
    lemma_parse_line_well_formed(s2, t2);
    lemma_render_injective(t1, t2);
}

} // verus!
