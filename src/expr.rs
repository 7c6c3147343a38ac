use vstd::prelude::*;
use vstd::string::*;

verus! {

/// The mathematical shape of an expression tree.
pub enum Term {
    Leaf(Seq<char>),
    Node(char, Box<Term>, Box<Term>),
}

/// A parsed expression: an atom (a number or a variable name) or a binary
/// operation on two operands.
#[derive(Debug)]
pub enum Expression {
    Atom(String),
    Operation(char, Box<Expression>, Box<Expression>),
}

impl View for Expression {
    type V = Term;

    open spec fn view(&self) -> Term {
        self.term()
    }
}

/// The fully parenthesised prefix text of a tree: `(op left right)` for an
/// operation, the text itself for an atom.
pub open spec fn render_term(t: Term) -> Seq<char>
    decreases t,
{
    match t {
        Term::Leaf(s) => s,
        Term::Node(op, l, r) => seq!['(', op, ' '] + render_term(*l) + seq![' '] + render_term(*r)
            + seq![')'],
    }
}

pub open spec fn is_delimiter(c: char) -> bool {
    c == '(' || c == ')' || c == ' '
}

/// Every atom is non-empty and holds no parenthesis or space.
pub open spec fn well_formed(t: Term) -> bool
    decreases t,
{
    match t {
        Term::Leaf(s) => s.len() > 0 && forall|i: int| 0 <= i < s.len() ==> !is_delimiter(#[trigger] s[i]),
        Term::Node(_, l, r) => well_formed(*l) && well_formed(*r),
    }
}

pub open spec fn ends_segment(x: Seq<char>) -> bool {
    x.len() == 0 || x[0] == ' ' || x[0] == ')'
}

proof fn lemma_render_starts(t: Term)
    requires
        well_formed(t),
    ensures
        render_term(t).len() > 0,
        (render_term(t)[0] == '(') == (t is Node),
{
    match t {
        Term::Leaf(s) => {
            assert(!is_delimiter(s[0]));
        },
        Term::Node(op, l, r) => {},
    }
}

proof fn lemma_render_prefix_free(a: Term, b: Term, x: Seq<char>, y: Seq<char>)
    requires
        well_formed(a),
        well_formed(b),
        render_term(a) + x == render_term(b) + y,
        ends_segment(x),
        ends_segment(y),
    ensures
        a == b,
        x == y,
    decreases a,
{
    let z = render_term(a) + x;
    lemma_render_starts(a);
    lemma_render_starts(b);
    assert(z[0] == render_term(a)[0]);
    assert(z[0] == render_term(b)[0]);
    match a {
        Term::Leaf(s) => {
            let s2 = b->Leaf_0;
            if s.len() < s2.len() {
                assert(z[s.len() as int] == s2[s.len() as int]);
                assert(!is_delimiter(s2[s.len() as int]));
            } else if s2.len() < s.len() {
                assert(z[s2.len() as int] == s[s2.len() as int]);
                assert(!is_delimiter(s[s2.len() as int]));
            }
            assert(s =~= z.take(s.len() as int));
            assert(s2 =~= z.take(s2.len() as int));
            assert(x =~= z.skip(s.len() as int));
            assert(y =~= z.skip(s2.len() as int));
        },
        Term::Node(op, l, r) => {
            let op2 = b->Node_0;
            let l2 = *b->Node_1;
            let r2 = *b->Node_2;
            let tail = seq![' '] + render_term(*r) + seq![')'] + x;
            let tail2 = seq![' '] + render_term(r2) + seq![')'] + y;
            assert(z =~= seq!['(', op, ' '] + (render_term(*l) + tail));
            assert(z =~= seq!['(', op2, ' '] + (render_term(l2) + tail2));
            assert(z[1] == op);
            assert(z[1] == op2);
            assert(z.skip(3) =~= render_term(*l) + tail);
            assert(z.skip(3) =~= render_term(l2) + tail2);
            lemma_render_prefix_free(*l, l2, tail, tail2);
            assert(tail.skip(1) =~= render_term(*r) + (seq![')'] + x));
            assert(tail2.skip(1) =~= render_term(r2) + (seq![')'] + y));
            lemma_render_prefix_free(*r, r2, seq![')'] + x, seq![')'] + y);
            assert(x =~= (seq![')'] + x).skip(1));
            assert(y =~= (seq![')'] + y).skip(1));
        },
    }
}

/// Rendering tells trees apart: two well-formed trees with the same text are
/// the same tree.
pub proof fn lemma_render_injective(a: Term, b: Term)
    requires
        well_formed(a),
        well_formed(b),
        render_term(a) == render_term(b),
    ensures
        a == b,
{
    assert(render_term(a) + Seq::empty() =~= render_term(a));
    assert(render_term(b) + Seq::empty() =~= render_term(b));
    lemma_render_prefix_free(a, b, Seq::empty(), Seq::empty());
}

/// An assignment is an `=` operation at the root; its target must be an atom.
pub open spec fn assignment_target_is_atom(t: Term) -> bool {
    match t {
        Term::Node(op, l, _) => op == '=' ==> (*l) is Leaf,
        Term::Leaf(_) => true,
    }
}

/// Relies on String::push: appends one character.
#[verifier::external_body]
pub(crate) fn push_char(s: &mut String, c: char)
    ensures
        final(s)@ == old(s)@.push(c),
{
    s.push(c)
}

impl Expression {
    pub open spec fn term(&self) -> Term
        decreases self,
    {
        match self {
            Expression::Atom(s) => Term::Leaf(s@),
            Expression::Operation(op, l, r) => Term::Node(*op, Box::new(l.term()), Box::new(r.term())),
        }
    }

    fn render_into(&self, out: &mut String)
        ensures
            final(out)@ == old(out)@ + render_term(self@),
        decreases self,
    {
        match self {
            Expression::Atom(s) => {
                out.append(s.as_str());
            },
            Expression::Operation(op, l, r) => {
                let ghost start = out@;
                push_char(out, '(');
                push_char(out, *op);
                push_char(out, ' ');
                l.render_into(out);
                push_char(out, ' ');
                r.render_into(out);
                push_char(out, ')');
                assert(out@ =~= start + render_term(self@));
            },
        }
    }

    /// The text form of the tree, as `render_term` gives it.
    pub fn render(&self) -> (r: String)
        ensures
            r@ == render_term(self@),
    {
        let mut out = String::new();
        self.render_into(&mut out);
        assert(out@ =~= render_term(self@));
        out
    }

    /// For an `=` at the root: the name assigned to and the expression whose
    /// value it takes. `None` for every other tree.
    pub fn is_asign(&self) -> (r: Option<(String, &Expression)>)
        requires
            assignment_target_is_atom(self@),
        ensures
            match self@ {
                Term::Node(op, l, rhs) => if op == '=' {
                    (*l) is Leaf && (r matches Some((name, e)) && name@ == (*l)->Leaf_0 && e@ == *rhs)
                } else {
                    r is None
                },
                Term::Leaf(_) => r is None,
            },
    {
        match self {
            Expression::Atom(_) => None,
            Expression::Operation(c, l, r) => {
                assert(self@ == Term::Node(*c, Box::new(l@), Box::new(r@)));
                if *c == '=' {
                    match &**l {
                        Expression::Atom(name) => Some((name.clone(), &**r)),
                        Expression::Operation(..) => None,
                    }
                } else {
                    None
                }
            },
        }
    }
}

} // verus!
