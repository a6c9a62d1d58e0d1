//! The text samples of a page: its text pieces, in document order, joined into runs while the
//! resolved font stack, style and weight stay the same.
use vstd::prelude::*;
use crate::text::{chars_of, push_chars, string_from_chars};

verus! {

/// A piece of text in document order and the style it is set in, named by an id: two pieces have
/// the same id exactly where their resolved font stacks, styles and weights are the same.
pub struct TextPiece {
    pub style: u64,
    pub text: String,
}

/// A run of text: the style id and the joined text.
pub type Run = (u64, Seq<char>);

/// The runs finished so far, the style of the open run and its text, after the pieces.
pub open spec fn run_state(initial: u64, pieces: Seq<TextPiece>) -> (Seq<Run>, u64, Seq<char>)
    decreases pieces.len(),
{
    if pieces.len() == 0 {
        (Seq::empty(), initial, Seq::empty())
    } else {
        let (done, style, text) = run_state(initial, pieces.drop_last());
        let p = pieces.last();
        if p.style == style {
            (done, style, text + p.text@)
        } else if text.len() > 0 {
            (done.push((style, text)), p.style, p.text@)
        } else {
            (done, p.style, p.text@)
        }
    }
}

/// The runs of a page: consecutive pieces of the same style joined, a run of no text left out.
/// The open run starts with the style `initial` (that of an element no rule reaches).
pub open spec fn text_runs(initial: u64, pieces: Seq<TextPiece>) -> Seq<Run> {
    let (done, style, text) = run_state(initial, pieces);
    if text.len() > 0 { done.push((style, text)) } else { done }
}

/// The views of runs.
pub open spec fn runs_view(v: Seq<(u64, String)>) -> Seq<Run> {
    v.map_values(|r: (u64, String)| (r.0, r.1@))
}

/// Joins the pieces of a page into runs (see `text_runs`).
pub fn join_text_runs(initial: u64, pieces: &Vec<TextPiece>) -> (r: Vec<(u64, String)>)
    ensures
        runs_view(r@) == text_runs(initial, pieces@),
{
    let mut done: Vec<(u64, String)> = Vec::new();
    let mut style: u64 = initial;
    let mut text: Vec<char> = Vec::new();
    let mut i: usize = 0;
    assert(runs_view(done@) =~= Seq::<Run>::empty());
    while i < pieces.len()
        invariant
            i <= pieces@.len(),
            (runs_view(done@), style, text@) == run_state(initial, pieces@.take(i as int)),
        decreases pieces@.len() - i,
    {
        let p = &pieces[i];
        let chars = chars_of(p.text.as_str());
        proof {
            assert(pieces@.take(i + 1).drop_last() =~= pieces@.take(i as int));
            assert(pieces@.take(i + 1).last() == pieces@[i as int]);
        }
        if p.style == style {
            push_chars(&mut text, &chars);
        } else {
            if text.len() > 0 {
                let ghost before = done@;
                done.push((style, string_from_chars(&text)));
                assert(runs_view(done@) =~= runs_view(before).push((style, text@)));
            }
            style = p.style;
            text = chars;
        }
        i = i + 1;
    }
    assert(pieces@.take(pieces@.len() as int) =~= pieces@);
    if text.len() > 0 {
        let ghost before = done@;
        done.push((style, string_from_chars(&text)));
        assert(runs_view(done@) =~= runs_view(before).push((style, text@)));
    }
    done
}

/// The texts of the pieces, one after another.
pub open spec fn pieces_text(pieces: Seq<TextPiece>) -> Seq<char>
    decreases pieces.len(),
{
    if pieces.len() == 0 { Seq::empty() } else { pieces_text(pieces.drop_last()) + pieces.last().text@ }
}

/// The texts of the runs, one after another.
pub open spec fn runs_text(runs: Seq<Run>) -> Seq<char>
    decreases runs.len(),
{
    if runs.len() == 0 { Seq::empty() } else { runs_text(runs.drop_last()) + runs.last().1 }
}

proof fn lemma_run_state(initial: u64, pieces: Seq<TextPiece>)
    ensures
        runs_text(run_state(initial, pieces).0) + run_state(initial, pieces).2 == pieces_text(pieces),
        forall|i: int| 0 <= i < run_state(initial, pieces).0.len() ==> (#[trigger] run_state(initial, pieces).0[i]).1.len() > 0,
        pieces.len() == 0 || run_state(initial, pieces).1 == pieces.last().style,
    decreases pieces.len(),
{
    if pieces.len() > 0 {
        let prev = pieces.drop_last();
        lemma_run_state(initial, prev);
        let (done, style, text) = run_state(initial, prev);
        let p = pieces.last();
        if p.style != style && text.len() > 0 {
            let d2 = done.push((style, text));
            assert(d2.drop_last() =~= done);
            assert(runs_text(d2) + p.text@ =~= runs_text(done) + text + p.text@);
            assert forall|i: int| 0 <= i < d2.len() implies (#[trigger] d2[i]).1.len() > 0 by {
                if i < done.len() { assert(d2[i] == done[i]); }
            }
        } else if p.style == style {
            assert(runs_text(done) + (text + p.text@) =~= runs_text(done) + text + p.text@);
        } else {
            assert(text =~= Seq::<char>::empty());
            assert(runs_text(done) + text =~= runs_text(done));
        }
    }
}

/// Joining loses and adds no text: the runs' texts, one after another, are the pieces' texts,
/// one after another, and every run has text.
pub proof fn law_runs_keep_text(initial: u64, pieces: Seq<TextPiece>)
    ensures
        runs_text(text_runs(initial, pieces)) == pieces_text(pieces),
        forall|i: int| 0 <= i < text_runs(initial, pieces).len() ==> (#[trigger] text_runs(initial, pieces)[i]).1.len() > 0,
{
    lemma_run_state(initial, pieces);
    let (done, style, text) = run_state(initial, pieces);
    if text.len() > 0 {
        let r = done.push((style, text));
        assert(r.drop_last() =~= done);
        assert forall|i: int| 0 <= i < r.len() implies (#[trigger] r[i]).1.len() > 0 by {
            if i < done.len() { assert(r[i] == done[i]); }
        }
    } else {
        assert(runs_text(done) + text =~= runs_text(done));
    }
}

} // verus!
