//! Names the markup macro generates for components.
use vstd::prelude::*;
use crate::token::{Tok, TokModel, toks_model, tok_text, lemma_toks_push};
use crate::strutil::{chars_of, string_of_range};

verus! {

broadcast use crate::token::lemma_toks_model_len, crate::token::lemma_toks_model_index;

/// `s` without its spaces.
pub open spec fn no_spaces(s: Seq<char>) -> Seq<char>
    decreases s.len(),
{
    if s.len() == 0 {
        Seq::empty()
    } else if s.last() == ' ' {
        no_spaces(s.drop_last())
    } else {
        no_spaces(s.drop_last()).push(s.last())
    }
}

/// The text of a path: the texts of its tokens run together, without spaces.
pub open spec fn path_text(p: Seq<TokModel>) -> Seq<char>
    decreases p.len(),
{
    if p.len() == 0 {
        Seq::empty()
    } else {
        path_text(p.drop_last()) + no_spaces(tok_text(p.last()))
    }
}

/// The pieces of `s` cut at each `::`, taken left to right: the piece that
/// began at `begin`, scanned up to `i`, then the rest.
pub open spec fn pieces_from(s: Seq<char>, begin: int, i: int) -> Seq<Seq<char>>
    decreases s.len() - i,
{
    if i >= s.len() {
        seq![s.subrange(begin, s.len() as int)]
    } else if i + 1 < s.len() && s[i] == ':' && s[i + 1] == ':' {
        seq![s.subrange(begin, i)] + pieces_from(s, i + 2, i + 2)
    } else {
        pieces_from(s, begin, i + 1)
    }
}

/// Each segment as an identifier followed by `::`.
pub open spec fn segment_toks(segs: Seq<Seq<char>>) -> Seq<TokModel>
    decreases segs.len(),
{
    if segs.len() == 0 {
        Seq::empty()
    } else {
        segment_toks(segs.drop_last()) + seq![
            TokModel::Ident(segs.last()),
            TokModel::Punct(':'),
            TokModel::Punct(':'),
        ]
    }
}

/// The path of a component's props type: the component's path with its last
/// segment replaced by `{short}Props`.
pub open spec fn props_path_s(path: Seq<TokModel>, short: Seq<char>) -> Seq<TokModel> {
    segment_toks(pieces_from(path_text(path), 0, 0).drop_last()) + seq![TokModel::Ident(short + "Props"@)]
}

fn text_without_spaces(t: &Tok, out: &mut Vec<char>)
    ensures
        final(out)@ == old(out)@ + no_spaces(tok_text(t@)),
{
    let s = t.text();
    let cs = chars_of(s.as_str());
    let ghost o = out@;
    for i in 0..cs.len()
        invariant
            out@ == o + no_spaces(cs@.take(i as int)),
    {
        assert(cs@.take(i + 1).drop_last() =~= cs@.take(i as int));
        if cs[i] != ' ' {
            out.push(cs[i]);
        }
        assert(out@ =~= o + no_spaces(cs@.take(i + 1)));
    }
    assert(cs@.take(cs@.len() as int) =~= cs@);
}

/// The props type path of a component at `path` named `short`: `Button` at
/// `ui::Button` gives `ui::ButtonProps`.
pub fn props_path_for(path: &Vec<Tok>, short: &str) -> (r: Vec<Tok>)
    ensures
        toks_model(r@) == props_path_s(toks_model(path@), short@),
{
    let ghost pm = toks_model(path@);
    let mut text: Vec<char> = Vec::new();
    for i in 0..path.len()
        invariant
            pm == toks_model(path@),
            text@ == path_text(pm.take(i as int)),
    {
        assert(pm.take(i + 1).drop_last() =~= pm.take(i as int));
        text_without_spaces(&path[i], &mut text);
    }
    assert(pm.take(pm.len() as int) =~= pm);
    let ghost s = text@;
    let mut segs: Vec<String> = Vec::new();
    let mut begin: usize = 0;
    let mut i: usize = 0;
    while i < text.len()
        invariant
            s == text@,
            begin <= i <= s.len(),
            segs@.map_values(|v: String| v@) + pieces_from(s, begin as int, i as int) == pieces_from(s, 0, 0),
        decreases s.len() - i,
    {
        if i + 1 < text.len() && text[i] == ':' && text[i + 1] == ':' {
            let piece = string_of_range(&text, begin, i);
            let ghost before = segs@.map_values(|v: String| v@);
            segs.push(piece);
            assert(segs@.map_values(|v: String| v@) =~= before.push(s.subrange(begin as int, i as int)));
            assert(before + pieces_from(s, begin as int, i as int) =~= before.push(s.subrange(begin as int, i as int))
                + pieces_from(s, i + 2, i + 2));
            i = i + 2;
            begin = i;
        } else {
            i = i + 1;
        }
    }
    let ghost all = pieces_from(s, 0, 0);
    let ghost done = segs@.map_values(|v: String| v@);
    assert(all == done.push(s.subrange(begin as int, s.len() as int)));
    assert(all.drop_last() =~= done);
    let mut out: Vec<Tok> = Vec::new();
    for k in 0..segs.len()
        invariant
            done == segs@.map_values(|v: String| v@),
            toks_model(out@) == segment_toks(done.take(k as int)),
    {
        assert(done.take(k + 1).drop_last() =~= done.take(k as int));
        let name = segs[k].clone();
        proof {
            lemma_toks_push(out@, Tok::Ident(name));
        }
        out.push(Tok::Ident(name));
        proof {
            lemma_toks_push(out@, Tok::Punct(':'));
        }
        out.push(Tok::Punct(':'));
        proof {
            lemma_toks_push(out@, Tok::Punct(':'));
        }
        out.push(Tok::Punct(':'));
        assert(toks_model(out@) =~= segment_toks(done.take(k + 1)));
    }
    assert(done.take(done.len() as int) =~= done);
    let mut props = short.to_owned();
    props.append("Props");
    proof {
        lemma_toks_push(out@, Tok::Ident(props));
    }
    out.push(Tok::Ident(props));
    out
}

} // verus!
