use vstd::prelude::*;

use crate::token::{classify, is_stream, tokens_of, lemma_lex_no_eof, lemma_lex_step, lex_chars, Token};

verus! {

/// Turns source text into tokens, one per step, ending with a single `EOF`.
pub struct Lexer {
    chars: Vec<char>,
    pos: usize,
    finished: bool,
}

impl Lexer {
    /// The tokens that are still to come.
    pub closed spec fn remaining(&self) -> Seq<Token> {
        if self.finished {
            Seq::empty()
        } else {
            lex_chars(self.chars@.skip(self.pos as int)).push(Token::EOF)
        }
    }

    pub closed spec fn wf(&self) -> bool {
        self.pos <= self.chars@.len()
    }

    /// How many source characters have been read.
    pub closed spec fn position(&self) -> nat {
        self.pos as nat
    }

    pub proof fn lemma_stream(&self)
        requires
            self.wf(),
        ensures
            self.remaining().len() == 0 || is_stream(self.remaining()),
            self.position() <= usize::MAX,
    {
        lemma_lex_no_eof(self.chars@.skip(self.pos as int));
    }

    pub fn new(source: &str) -> (r: Lexer)
        ensures
            r.wf(),
            r.remaining() == tokens_of(source@),
            is_stream(r.remaining()),
    {
        proof {
            lemma_lex_no_eof(source@);
        }
        let mut chars: Vec<char> = Vec::new();
        for c in it: source.chars()
            invariant
                chars@ == it.seq().take(it.index() as int),
        {
            chars.push(c);
        }
        assert(chars@.skip(0) =~= source@);
        Lexer { chars, pos: 0, finished: false }
    }

    /// Hands out the next token, or `None` once `EOF` has been handed out.
    pub fn next(&mut self) -> (r: Option<Token>)
        requires
            old(self).wf(),
        ensures
            final(self).wf(),
            old(self).remaining().len() == 0 ==> r is None && final(self).remaining().len() == 0,
            old(self).remaining().len() > 0 ==> r == Some(old(self).remaining()[0])
                && final(self).remaining() == old(self).remaining().drop_first(),
            final(self).position() >= old(self).position(),
            r is Some && r != Some(Token::EOF) ==> final(self).position() > old(self).position(),
    {
        if self.finished {
            return None;
        }
        while self.pos < self.chars.len()
            invariant
                self.wf(),
                !self.finished,
                self.remaining() == old(self).remaining(),
                self.pos >= old(self).pos,
            decreases self.chars@.len() - self.pos,
        {
            let c = self.chars[self.pos];
            proof {
                lemma_lex_step(self.chars@, self.pos as int);
            }
            self.pos = self.pos + 1;
            if let Some(t) = classify(c) {
                assert(self.remaining() =~= old(self).remaining().drop_first());
                return Some(t);
            }
        }
        assert(self.chars@.skip(self.pos as int) =~= Seq::<char>::empty());
        assert(old(self).remaining() =~= seq![Token::EOF]);
        self.finished = true;
        assert(self.remaining() =~= old(self).remaining().drop_first());
        Some(Token::EOF)
    }

    /// The next token, without taking it.
    pub fn peek(&self) -> (r: Option<Token>)
        requires
            self.wf(),
        ensures
            self.remaining().len() == 0 ==> r is None,
            self.remaining().len() > 0 ==> r == Some(self.remaining()[0]),
    {
        if self.finished {
            return None;
        }
        let mut i: usize = self.pos;
        while i < self.chars.len()
            invariant
                self.pos <= i <= self.chars@.len(),
                !self.finished,
                lex_chars(self.chars@.skip(i as int)) == lex_chars(self.chars@.skip(self.pos as int)),
            decreases self.chars@.len() - i,
        {
            proof {
                lemma_lex_step(self.chars@, i as int);
            }
            if let Some(t) = classify(self.chars[i]) {
                return Some(t);
            }
            i = i + 1;
        }
        assert(self.chars@.skip(i as int) =~= Seq::<char>::empty());
        Some(Token::EOF)
    }
}

} // verus!
