use vstd::prelude::*;
use vstd::string::*;

verus! {

/// A single lexical unit of an input line.
#[derive(Clone, Copy, Debug, PartialEq, Eq, Structural)]
pub enum Token {
    /// An ASCII letter or digit.
    Atom(char),
    /// Any other non-whitespace character.
    Op(char),
    /// Marks the end of the input.
    Eof,
}

/// The ASCII whitespace characters: space, tab, line feed, form feed and carriage return.
pub open spec fn is_ascii_space(c: char) -> bool {
    c == ' ' || c == '\t' || c == '\n' || c == '\x0C' || c == '\r'
}

pub open spec fn is_atom_char(c: char) -> bool {
    ('0' <= c && c <= '9') || ('a' <= c && c <= 'z') || ('A' <= c && c <= 'Z')
}

pub open spec fn classify(c: char) -> Token {
    if is_atom_char(c) {
        Token::Atom(c)
    } else {
        Token::Op(c)
    }
}

/// The tokens of a line: whitespace is dropped, every other character becomes one token.
pub open spec fn tokenize(s: Seq<char>) -> Seq<Token>
    decreases s.len(),
{
    if s.len() == 0 {
        Seq::empty()
    } else if is_ascii_space(s.last()) {
        tokenize(s.drop_last())
    } else {
        tokenize(s.drop_last()).push(classify(s.last()))
    }
}

fn is_space(c: char) -> (r: bool)
    ensures
        r == is_ascii_space(c),
{
    c == ' ' || c == '\t' || c == '\n' || c == '\x0C' || c == '\r'
}

fn classify_char(c: char) -> (t: Token)
    ensures
        t == classify(c),
{
    if ('0' <= c && c <= '9') || ('a' <= c && c <= 'z') || ('A' <= c && c <= 'Z') {
        Token::Atom(c)
    } else {
        Token::Op(c)
    }
}

/// A stream of tokens, kept in reverse so that the front of the stream is the
/// end of the vector.
pub struct Lexer {
    pub tokens: Vec<Token>,
}

impl Lexer {
    /// The tokens not yet taken, front first.
    pub open spec fn remaining(&self) -> Seq<Token> {
        self.tokens@.reverse()
    }

    pub fn new(input: String) -> (r: Lexer)
        ensures
            r.remaining() == tokenize(input@),
    {
        let s = input.as_str();
        let n = s.unicode_len();
        let mut ordered: Vec<Token> = Vec::new();
        let mut i: usize = 0;
        while i < n
            invariant
                n == s@.len(),
                s@ == input@,
                i <= n,
                ordered@ == tokenize(s@.take(i as int)),
            decreases n - i,
        {
            let c = s.get_char(i);
            proof {
                assert(s@.take(i + 1).drop_last() =~= s@.take(i as int));
                assert(s@.take(i + 1).last() == c);
            }
            if !is_space(c) {
                ordered.push(classify_char(c));
            }
            i = i + 1;
        }
        assert(s@.take(n as int) =~= s@);
        let ghost all = ordered@;
        let mut tokens: Vec<Token> = Vec::new();
        while ordered.len() > 0
            invariant
                ordered@ + tokens@.reverse() == all,
            decreases ordered.len(),
        {
            let ghost before = ordered@;
            let ghost taken = tokens@;
            let t = ordered.pop().unwrap();
            tokens.push(t);
            proof {
                assert(before == ordered@.push(t));
                assert(tokens@.reverse() =~= seq![t] + taken.reverse());
                assert(ordered@ + tokens@.reverse() =~= all);
            }
        }
        assert(tokens@.reverse() =~= all);
        Lexer { tokens }
    }

    /// Removes and returns the front token, or `Eof` once the stream is empty.
    pub fn next(&mut self) -> (t: Token)
        ensures
            old(self).remaining().len() == 0 ==> t == Token::Eof
                && final(self).remaining() == old(self).remaining(),
            old(self).remaining().len() > 0 ==> t == old(self).remaining()[0]
                && final(self).remaining() == old(self).remaining().drop_first(),
    {
        let ghost before = self.tokens@;
        match self.tokens.pop() {
            Some(t) => {
                assert(self.tokens@.reverse() =~= before.reverse().drop_first());
                t
            },
            None => Token::Eof,
        }
    }

    /// Returns the front token without taking it, or `Eof` once the stream is empty.
    pub fn peek(&mut self) -> (t: Token)
        ensures
            *final(self) == *old(self),
            old(self).remaining().len() == 0 ==> t == Token::Eof,
            old(self).remaining().len() > 0 ==> t == old(self).remaining()[0],
    {
        let n = self.tokens.len();
        if n == 0 {
            Token::Eof
        } else {
            self.tokens[n - 1]
        }
    }
}

} // verus!
