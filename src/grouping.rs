use vstd::prelude::*;
use crate::expr::Term;
use crate::lexer::Token;
use crate::parser::{
    binding_power, front, parse_expr, parse_infix, parse_operand, split_atom_run, ParseError,
};

verus! {

pub open spec fn leaf(c: char) -> Term {
    Term::Leaf(seq![c])
}

pub open spec fn node(op: char, l: Term, r: Term) -> Term {
    Term::Node(op, Box::new(l), Box::new(r))
}

/// A single atom followed by an operator or by nothing is parsed as that atom,
/// and the tokens after it are left.
proof fn lemma_single_atom(ts: Seq<Token>)
    requires
        ts.len() >= 1,
        ts[0] is Atom,
        ts.len() == 1 || ts[1] is Op,
    ensures
        parse_operand(ts) == Ok::<(Term, Seq<Token>), ParseError>((leaf(ts[0]->Atom_0), ts.drop_first())),
{
    let t1 = ts.drop_first();
    assert(split_atom_run(t1) == (Seq::<char>::empty(), t1));
    assert(split_atom_run(ts).0 =~= seq![ts[0]->Atom_0]);
}

/// Precedence and associativity: in `a o1 b o2 c` the first operator takes
/// `b` exactly when the left binding power of `o2` is below the right binding
/// power of `o1`; otherwise `o2` takes `b` first.
pub proof fn lemma_two_operators_group(a: char, o1: char, b: char, o2: char, c: char)
    requires
        binding_power(o1) is Some,
        binding_power(o2) is Some,
    ensures
        ({
            let ts = seq![Token::Atom(a), Token::Op(o1), Token::Atom(b), Token::Op(o2), Token::Atom(c)];
            let r1 = binding_power(o1)->Some_0.1;
            let l2 = binding_power(o2)->Some_0.0;
            parse_expr(ts, 0) == Ok::<(Term, Seq<Token>), ParseError>(
                if l2 < r1 {
                    (node(o2, node(o1, leaf(a), leaf(b)), leaf(c)), Seq::empty())
                } else {
                    (node(o1, leaf(a), node(o2, leaf(b), leaf(c))), Seq::empty())
                },
            )
        }),
{
    let ts = seq![Token::Atom(a), Token::Op(o1), Token::Atom(b), Token::Op(o2), Token::Atom(c)];
    let (l1, r1) = binding_power(o1)->Some_0;
    let (l2, r2) = binding_power(o2)->Some_0;
    let ts1 = ts.drop_first();
    let ts2 = ts1.drop_first();
    let ts3 = ts2.drop_first();
    let ts4 = ts3.drop_first();
    let e = ts4.drop_first();
    assert(ts1 =~= seq![Token::Op(o1), Token::Atom(b), Token::Op(o2), Token::Atom(c)]);
    assert(ts2 =~= seq![Token::Atom(b), Token::Op(o2), Token::Atom(c)]);
    assert(ts3 =~= seq![Token::Op(o2), Token::Atom(c)]);
    assert(ts4 =~= seq![Token::Atom(c)]);
    assert(e =~= Seq::<Token>::empty());
    assert(o1 != ')' && o2 != ')');
    lemma_single_atom(ts);
    lemma_single_atom(ts2);
    lemma_single_atom(ts4);
    assert(front(e) == Token::Eof);
    // `c` alone, at any minimum
    assert(parse_infix(leaf(c), e, r2) == Ok::<(Term, Seq<Token>), ParseError>((leaf(c), e)));
    assert(parse_expr(ts4, r2) == Ok::<(Term, Seq<Token>), ParseError>((leaf(c), e)));
    if l2 < r1 {
        assert(parse_infix(leaf(b), ts3, r1) == Ok::<(Term, Seq<Token>), ParseError>((leaf(b), ts3)));
        assert(parse_expr(ts2, r1) == Ok::<(Term, Seq<Token>), ParseError>((leaf(b), ts3)));
        let ab = node(o1, leaf(a), leaf(b));
        assert(parse_infix(node(o2, ab, leaf(c)), e, 0) == Ok::<(Term, Seq<Token>), ParseError>(
            (node(o2, ab, leaf(c)), e),
        ));
        assert(parse_infix(ab, ts3, 0) == Ok::<(Term, Seq<Token>), ParseError>(
            (node(o2, ab, leaf(c)), e),
        ));
        assert(parse_infix(leaf(a), ts1, 0) == parse_infix(ab, ts3, 0));
    } else {
        let bc = node(o2, leaf(b), leaf(c));
        assert(parse_infix(bc, e, r1) == Ok::<(Term, Seq<Token>), ParseError>((bc, e)));
        assert(parse_infix(leaf(b), ts3, r1) == Ok::<(Term, Seq<Token>), ParseError>((bc, e)));
        assert(parse_expr(ts2, r1) == Ok::<(Term, Seq<Token>), ParseError>((bc, e)));
        let abc = node(o1, leaf(a), bc);
        assert(parse_infix(abc, e, 0) == Ok::<(Term, Seq<Token>), ParseError>((abc, e)));
        assert(parse_infix(leaf(a), ts1, 0) == Ok::<(Term, Seq<Token>), ParseError>((abc, e)));
    }
}

} // verus!
