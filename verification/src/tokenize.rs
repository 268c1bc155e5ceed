//! A lossless lexer for source text.
//!
//! A single-pass character-class state machine splits a block of text into
//! identifier tokens, one-character punctuation tokens and whole string
//! literals (honoring backslash-escaped quotes).  Only identifiers are
//! guaranteed to come out as whole tokens; multi-character operators arrive
//! as one token per character.  Concatenating the output reproduces the
//! input exactly.

use vstd::prelude::*;

use crate::text::{concat_seqs, push_char, views_of};

verus! {

/// The lexer's states.
#[derive(Clone, Copy)]
pub enum TokenizerState {
    /// At the start of the text or right after a closed string literal.
    Start,
    /// Inside an identifier run.
    Ident,
    /// Inside a string literal.
    StringLit,
    /// Right after a punctuation character.
    Other,
}

/// The punctuation, whitespace, brace and bracket characters that terminate
/// the current token and stand alone.
pub open spec fn is_rust_punctuation_spec(c: char) -> bool {
    c == '{' || c == '}' || c == '(' || c == ')' || c == '[' || c == ']' || c == '<' || c == '>'
        || c == '.' || c == ',' || c == ';' || c == ':' || c == '!' || c == '#' || c == ' '
        || c == '-'
}

/// Whether `c` ends the token being read and forms a token of its own.
pub fn is_rust_punctuation_char(c: char) -> (r: bool)
    ensures
        r == is_rust_punctuation_spec(c),
{
    match c {
        '{' | '}' | '(' | ')' | '[' | ']' | '<' | '>' | '.' | ',' | ';' | ':' | '!' | '#' | ' '
            | '-' => true,
        _ => false,
    }
}

/// The state a fresh character opens outside a string literal.
pub open spec fn class_of(c: char) -> TokenizerState {
    if is_rust_punctuation_spec(c) {
        TokenizerState::Other
    } else if c == '"' {
        TokenizerState::StringLit
    } else {
        TokenizerState::Ident
    }
}

/// The lexer's accumulator: its state, the token being read, and the tokens
/// already produced.
#[verifier::ext_equal]
pub struct TokAcc {
    pub state: TokenizerState,
    pub cur: Seq<char>,
    pub toks: Seq<Seq<char>>,
}

/// The accumulator before any character is read.
pub open spec fn tok_init() -> TokAcc {
    TokAcc { state: TokenizerState::Start, cur: Seq::empty(), toks: Seq::empty() }
}

/// One character of lexing.
pub open spec fn tok_step(a: TokAcc, c: char) -> TokAcc {
    match a.state {
        TokenizerState::Start => TokAcc { state: class_of(c), cur: a.cur.push(c), toks: a.toks },
        TokenizerState::Ident => {
            if is_rust_punctuation_spec(c) || c == '"' {
                TokAcc { state: class_of(c), cur: seq![c], toks: a.toks.push(a.cur) }
            } else {
                TokAcc { state: TokenizerState::Ident, cur: a.cur.push(c), toks: a.toks }
            }
        },
        TokenizerState::StringLit => {
            if c == '"' {
                if a.cur.len() > 0 && a.cur.last() == '\\' {
                    TokAcc { state: TokenizerState::StringLit, cur: a.cur.push(c), toks: a.toks }
                } else {
                    TokAcc {
                        state: TokenizerState::Start,
                        cur: Seq::empty(),
                        toks: a.toks.push(a.cur.push(c)),
                    }
                }
            } else {
                TokAcc { state: TokenizerState::StringLit, cur: a.cur.push(c), toks: a.toks }
            }
        },
        TokenizerState::Other => TokAcc { state: class_of(c), cur: seq![c], toks: a.toks.push(a.cur) },
    }
}

/// The accumulator after lexing all of `s`.
pub open spec fn tok_run(s: Seq<char>) -> TokAcc
    decreases s.len(),
{
    if s.len() == 0 {
        tok_init()
    } else {
        tok_step(tok_run(s.drop_last()), s.last())
    }
}

/// The token sequence of `s`: the produced tokens, plus the unfinished one
/// if any characters remain in it.
pub open spec fn tokenize_spec(s: Seq<char>) -> Seq<Seq<char>> {
    let a = tok_run(s);
    if a.cur.len() > 0 {
        a.toks.push(a.cur)
    } else {
        a.toks
    }
}

proof fn lemma_tok_run_concat(s: Seq<char>)
    ensures
        concat_seqs(tok_run(s).toks) + tok_run(s).cur == s,
    decreases s.len(),
{
    if s.len() == 0 {
        assert(concat_seqs(tok_run(s).toks) + tok_run(s).cur =~= s);
    } else {
        lemma_tok_run_concat(s.drop_last());
        let a = tok_run(s.drop_last());
        let c = s.last();
        let b = tok_step(a, c);
        assert(a.toks.push(a.cur).drop_last() =~= a.toks);
        assert(a.toks.push(a.cur.push(c)).drop_last() =~= a.toks);
        assert(concat_seqs(a.toks.push(a.cur)) == concat_seqs(a.toks) + a.cur);
        assert(concat_seqs(a.toks.push(a.cur.push(c))) == concat_seqs(a.toks) + a.cur.push(c));
        assert(concat_seqs(b.toks) + b.cur =~= (concat_seqs(a.toks) + a.cur).push(c));
        assert((concat_seqs(a.toks) + a.cur).push(c) =~= s);
    }
}

/// Lossless tokenization: concatenating the token sequence of any text
/// reproduces that text exactly, string literals and all.
pub proof fn lemma_tokenize_lossless(s: Seq<char>)
    ensures
        concat_seqs(tokenize_spec(s)) == s,
{
    lemma_tok_run_concat(s);
    let a = tok_run(s);
    if a.cur.len() > 0 {
        assert(a.toks.push(a.cur).drop_last() =~= a.toks);
        assert(concat_seqs(tokenize_spec(s)) =~= s);
    } else {
        assert(a.cur =~= Seq::<char>::empty());
        assert(concat_seqs(a.toks) =~= concat_seqs(a.toks) + a.cur);
    }
}

/// Splits `text_in` into tokens.  Identifiers come out whole; punctuation
/// characters stand alone; a string literal is one token.  Concatenating the
/// result reproduces `text_in`.
pub fn tokenize_rust_variables(text_in: String) -> (r: Vec<String>)
    ensures
        views_of(r@) == tokenize_spec(text_in@),
        concat_seqs(views_of(r@)) == text_in@,
{
    let n = text_in.as_str().unicode_len();
    let mut toks: Vec<String> = Vec::new();
    let mut cur = String::new();
    let mut st = TokenizerState::Start;
    let mut i: usize = 0;
    while i < n
        invariant
            i <= n,
            n == text_in@.len(),
            st == tok_run(text_in@.take(i as int)).state,
            cur@ == tok_run(text_in@.take(i as int)).cur,
            views_of(toks@) == tok_run(text_in@.take(i as int)).toks,
        decreases n - i,
    {
        let c = text_in.as_str().get_char(i);
        let ghost pre = text_in@.take(i as int);
        let ghost post = text_in@.take(i as int + 1);
        proof {
            assert(post.drop_last() =~= pre);
            assert(post.last() == c);
        }
        let ghost a = tok_run(pre);
        let ghost b = tok_step(a, c);
        match st {
            TokenizerState::Start => {
                push_char(&mut cur, c);
                if is_rust_punctuation_char(c) {
                    st = TokenizerState::Other;
                } else if c == '"' {
                    st = TokenizerState::StringLit;
                } else {
                    st = TokenizerState::Ident;
                }
            },
            TokenizerState::Ident => {
                if is_rust_punctuation_char(c) {
                    toks.push(cur);
                    cur = String::new();
                    push_char(&mut cur, c);
                    st = TokenizerState::Other;
                } else if c == '"' {
                    toks.push(cur);
                    cur = String::new();
                    push_char(&mut cur, c);
                    st = TokenizerState::StringLit;
                } else {
                    push_char(&mut cur, c);
                }
            },
            TokenizerState::StringLit => {
                if c == '"' {
                    let len = cur.as_str().unicode_len();
                    let escaped = if len > 0 {
                        cur.as_str().get_char(len - 1) == '\\'
                    } else {
                        false
                    };
                    if escaped {
                        push_char(&mut cur, c);
                    } else {
                        push_char(&mut cur, c);
                        toks.push(cur);
                        cur = String::new();
                        st = TokenizerState::Start;
                    }
                } else {
                    push_char(&mut cur, c);
                }
            },
            TokenizerState::Other => {
                toks.push(cur);
                cur = String::new();
                push_char(&mut cur, c);
                if is_rust_punctuation_char(c) {
                    st = TokenizerState::Other;
                } else if c == '"' {
                    st = TokenizerState::StringLit;
                } else {
                    st = TokenizerState::Ident;
                }
            },
        }
        i = i + 1;
        proof {
            assert(views_of(toks@) =~= b.toks);
            assert(cur@ =~= b.cur);
        }
    }
    proof {
        assert(text_in@.take(n as int) =~= text_in@);
    }
    if !cur.as_str().is_empty() {
        toks.push(cur);
        proof {
            assert(views_of(toks@) =~= tokenize_spec(text_in@));
        }
    } else {
        proof {
            assert(views_of(toks@) =~= tokenize_spec(text_in@));
        }
    }
    proof {
        lemma_tokenize_lossless(text_in@);
    }
    toks
}

} // verus!
