//! Tokens of Rust source as a procedural macro receives them, with their model.
use vstd::prelude::*;
use crate::strutil::push_char;

verus! {

// ---------------------------------------------------------------------------
// Tokens
// ---------------------------------------------------------------------------

/// How a group of tokens is delimited.
#[derive(Debug, Clone, Copy, PartialEq, Eq, Structural)]
pub enum Delim {
    Paren,
    Brace,
    Bracket,
    Invisible,
}

/// A token as the macro receives it. Each token carries the text it prints
/// as; a group carries its delimiter, its tokens and its text.
#[derive(Debug)]
pub enum Tok {
    Ident(String),
    Punct(char),
    Literal(String),
    Group(Delim, Vec<Tok>, String),
}

/// Model of a token.
pub enum TokModel {
    Ident(Seq<char>),
    Punct(char),
    Literal(Seq<char>),
    Group(Delim, Seq<TokModel>, Seq<char>),
}

pub open spec fn tok_model(t: Tok) -> TokModel
    decreases t,
{
    match t {
        Tok::Ident(s) => TokModel::Ident(s@),
        Tok::Punct(c) => TokModel::Punct(c),
        Tok::Literal(s) => TokModel::Literal(s@),
        Tok::Group(d, ts, s) => TokModel::Group(d, toks_model(ts@), s@),
    }
}

pub open spec fn toks_model(s: Seq<Tok>) -> Seq<TokModel>
    decreases s,
{
    if s.len() == 0 {
        Seq::empty()
    } else {
        toks_model(s.drop_last()).push(tok_model(s.last()))
    }
}

impl View for Tok {
    type V = TokModel;

    open spec fn view(&self) -> TokModel {
        tok_model(*self)
    }
}

pub broadcast proof fn lemma_toks_model_len(s: Seq<Tok>)
    ensures
        #[trigger] toks_model(s).len() == s.len(),
    decreases s.len(),
{
    if s.len() > 0 {
        lemma_toks_model_len(s.drop_last());
    }
}

pub broadcast proof fn lemma_toks_model_index(s: Seq<Tok>, i: int)
    requires
        0 <= i < s.len(),
    ensures
        #[trigger] toks_model(s)[i] == tok_model(s[i]),
    decreases s.len(),
{
    lemma_toks_model_len(s.drop_last());
    if i < s.len() - 1 {
        lemma_toks_model_index(s.drop_last(), i);
    }
}

/// The text a token prints as.
pub open spec fn tok_text(t: TokModel) -> Seq<char> {
    match t {
        TokModel::Ident(s) => s,
        TokModel::Punct(c) => seq![c],
        TokModel::Literal(s) => s,
        TokModel::Group(_, _, s) => s,
    }
}

impl Tok {
    /// The text the token prints as.
    pub fn text(&self) -> (r: String)
        ensures
            r@ == tok_text(self@),
    {
        match self {
            Tok::Ident(s) => s.clone(),
            Tok::Punct(c) => {
                let mut s = String::new();
                push_char(&mut s, *c);
                assert(s@ =~= seq![*c]);
                s
            },
            Tok::Literal(s) => s.clone(),
            Tok::Group(_, _, s) => s.clone(),
        }
    }

    /// A copy of the token.
    pub fn copy(&self) -> (r: Tok)
        ensures
            r@ == self@,
        decreases self,
    {
        match self {
            Tok::Ident(s) => Tok::Ident(s.clone()),
            Tok::Punct(c) => Tok::Punct(*c),
            Tok::Literal(s) => Tok::Literal(s.clone()),
            Tok::Group(d, ts, s) => Tok::Group(*d, copy_toks(ts), s.clone()),
        }
    }
}

/// A copy of a token list.
pub fn copy_toks(v: &Vec<Tok>) -> (r: Vec<Tok>)
    ensures
        toks_model(r@) == toks_model(v@),
    decreases v,
{
    broadcast use lemma_toks_model_len, lemma_toks_model_index;

    let mut r: Vec<Tok> = Vec::new();
    for i in 0..v.len()
        invariant
            r@.len() == i,
            forall|j: int| 0 <= j < i ==> (#[trigger] r@[j])@ == v@[j]@,
    {
        r.push(v[i].copy());
    }
    assert(toks_model(r@) =~= toks_model(v@));
    r
}

/// The model of a token list grows by the model of a pushed token.
pub proof fn lemma_toks_push(s: Seq<Tok>, x: Tok)
    ensures
        toks_model(s.push(x)) == toks_model(s).push(x@),
{
    assert(s.push(x).drop_last() =~= s);
}

/// A copy of tokens `from..to`.
pub fn copy_range(v: &Vec<Tok>, from: usize, to: usize) -> (r: Vec<Tok>)
    requires
        from <= to <= v@.len(),
    ensures
        toks_model(r@) == toks_model(v@).subrange(from as int, to as int),
{
    broadcast use lemma_toks_model_len, lemma_toks_model_index;

    let mut r: Vec<Tok> = Vec::new();
    let mut i = from;
    proof {
        lemma_toks_model_len(v@);
    }
    while i < to
        invariant
            from <= i <= to <= v@.len(),
            toks_model(v@).len() == v@.len(),
            toks_model(r@) == toks_model(v@).subrange(from as int, i as int),
        decreases to - i,
    {
        let x = v[i].copy();
        proof {
            lemma_toks_push(r@, x);
        }
        r.push(x);
        proof {
            lemma_toks_model_index(v@, i as int);
        }
        i = i + 1;
        assert(toks_model(r@) =~= toks_model(v@).subrange(from as int, i as int));
    }
    r
}

} // verus!
