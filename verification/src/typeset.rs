//! Breaks a text into lines.
//!
//! How wide a text is depends on the typeface, so the one who calls brings the ruler: a function
//! that says whether a text fits the width of the column.
use vstd::prelude::*;

use crate::text::{join_spaced, split_words, texts, words};

verus! {

/// The typeface of the title, and that of everything else.
#[derive(Debug, Clone, Copy, PartialEq, Eq, Structural)]
pub enum Face {
    Title,
    Body,
}

/// The ruler may be held to any text, and always gives the same answer for one.
pub open spec fn is_ruler<M: Fn(Face, &str, u32) -> bool>(fits: M) -> bool {
    &&& forall|face: Face, text: &str, size: u32| call_requires(fits, (face, text, size))
    &&& forall|face: Face, a: &str, b: &str, size: u32, x: bool, y: bool|
        #[trigger] call_ensures(fits, (face, a, size), x) && #[trigger] call_ensures(
            fits,
            (face, b, size),
            y,
        ) && a@ == b@ ==> x == y
}

/// What the ruler says of texts in a typeface and a size.
pub open spec fn ruler<M: Fn(Face, &str, u32) -> bool>(
    fits: M,
    face: Face,
    size: u32,
) -> spec_fn(Seq<char>) -> bool {
    |s: Seq<char>|
        exists|t: &str| t@ == s && #[trigger] call_ensures(fits, (face, t, size), true)
}

/// Holds the ruler to a text.
pub fn measures<M: Fn(Face, &str, u32) -> bool>(fits: &M, face: Face, text: &str, size: u32) -> (r:
    bool)
    requires
        is_ruler(*fits),
    ensures
        r == ruler(*fits, face, size)(text@),
{
    fits(face, text, size)
}

/// The pieces of a word that are complete, and the one that is still growing.
#[verifier::ext_equal]
pub ghost struct Breaking {
    pub pieces: Seq<Seq<char>>,
    pub chunk: Seq<char>,
}

/// How a word falls into the longest pieces that fit. A single character is never broken.
pub open spec fn breaking(word: Seq<char>, fits: spec_fn(Seq<char>) -> bool) -> Breaking
    decreases word.len(),
{
    if word.len() == 0 {
        Breaking { pieces: Seq::empty(), chunk: Seq::empty() }
    } else {
        let before = breaking(word.drop_last(), fits);
        let c = word.last();
        if before.chunk.len() == 0 || fits(before.chunk.push(c)) {
            Breaking { chunk: before.chunk.push(c), ..before }
        } else {
            Breaking { pieces: before.pieces.push(before.chunk), chunk: seq![c] }
        }
    }
}

/// The pieces of a word. A word that fits is a piece by itself.
pub open spec fn pieces_of(word: Seq<char>, fits: spec_fn(Seq<char>) -> bool) -> Seq<Seq<char>> {
    if fits(word) {
        seq![word]
    } else {
        let b = breaking(word, fits);
        if b.chunk.len() > 0 {
            b.pieces.push(b.chunk)
        } else {
            b.pieces
        }
    }
}

/// The pieces of some words, in order.
pub open spec fn all_pieces(words: Seq<Seq<char>>, fits: spec_fn(Seq<char>) -> bool) -> Seq<
    Seq<char>,
>
    decreases words.len(),
{
    if words.len() == 0 {
        Seq::empty()
    } else {
        all_pieces(words.drop_last(), fits) + pieces_of(words.last(), fits)
    }
}

/// The lines that are full, and the one that is still growing.
#[verifier::ext_equal]
pub ghost struct Filling {
    pub lines: Seq<Seq<char>>,
    pub current: Seq<char>,
}

/// How pieces fill lines: each goes on the line before it, behind a space, if it fits there.
pub open spec fn filling(pieces: Seq<Seq<char>>, fits: spec_fn(Seq<char>) -> bool) -> Filling
    decreases pieces.len(),
{
    if pieces.len() == 0 {
        Filling { lines: Seq::empty(), current: Seq::empty() }
    } else {
        let before = filling(pieces.drop_last(), fits);
        let piece = pieces.last();
        if before.current.len() == 0 {
            Filling { current: piece, ..before }
        } else if fits(before.current.push(' ') + piece) {
            Filling { current: before.current.push(' ') + piece, ..before }
        } else {
            Filling { lines: before.lines.push(before.current), current: piece }
        }
    }
}

/// The lines that a text falls into.
pub open spec fn lines_of(text: Seq<char>, fits: spec_fn(Seq<char>) -> bool) -> Seq<Seq<char>> {
    let f = filling(all_pieces(words(text), fits), fits);
    if f.current.len() > 0 {
        f.lines.push(f.current)
    } else {
        f.lines
    }
}

// ---------------------------------------------------------------------------------------
// What holds of every text
// ---------------------------------------------------------------------------------------

/// The text fits, or it is a single character, which cannot be broken.
pub open spec fn fits_or_is_single(s: Seq<char>, fits: spec_fn(Seq<char>) -> bool) -> bool {
    fits(s) || s.len() == 1
}

/// The texts one after the other, with nothing in between.
pub open spec fn concatenated(parts: Seq<Seq<char>>) -> Seq<char>
    decreases parts.len(),
{
    if parts.len() == 0 {
        Seq::empty()
    } else {
        concatenated(parts.drop_last()) + parts.last()
    }
}

proof fn lemma_breaking(word: Seq<char>, fits: spec_fn(Seq<char>) -> bool)
    ensures
        forall|i: int|
            0 <= i < breaking(word, fits).pieces.len() ==> fits_or_is_single(
                #[trigger] breaking(word, fits).pieces[i],
                fits,
            ) && breaking(word, fits).pieces[i].len() > 0,
        breaking(word, fits).chunk.len() > 0 ==> fits_or_is_single(
            breaking(word, fits).chunk,
            fits,
        ),
        breaking(word, fits).chunk.len() == 0 ==> word.len() == 0,
        concatenated(breaking(word, fits).pieces) + breaking(word, fits).chunk == word,
    decreases word.len(),
{
    let b = breaking(word, fits);
    if word.len() == 0 {
        assert(concatenated(b.pieces) + b.chunk == word);
    } else {
        let before = breaking(word.drop_last(), fits);
        lemma_breaking(word.drop_last(), fits);
        assert(word == word.drop_last().push(word.last()));
        if before.chunk.len() == 0 || fits(before.chunk.push(word.last())) {
            assert(concatenated(b.pieces) + b.chunk == (concatenated(before.pieces)
                + before.chunk).push(word.last()));
        } else {
            assert(b.pieces.drop_last() == before.pieces);
            assert(concatenated(b.pieces) + b.chunk == (concatenated(before.pieces)
                + before.chunk).push(word.last()));
        }
    }
}

/// A word that is broken loses no character: its pieces, one after the other, spell it.
pub proof fn pieces_spell_the_word(word: Seq<char>, fits: spec_fn(Seq<char>) -> bool)
    ensures
        concatenated(pieces_of(word, fits)) == word,
{
    lemma_breaking(word, fits);
    let b = breaking(word, fits);
    let pieces = pieces_of(word, fits);
    if fits(word) {
        assert(pieces.drop_last() == Seq::<Seq<char>>::empty());
        assert(concatenated(pieces.drop_last()) + word == word);
    } else if b.chunk.len() > 0 {
        assert(pieces.drop_last() == b.pieces);
    } else {
        assert(concatenated(b.pieces) + b.chunk == concatenated(b.pieces));
    }
}

proof fn lemma_breaking_is_greedy(word: Seq<char>, fits: spec_fn(Seq<char>) -> bool, i: int)
    requires
        0 <= i < breaking(word, fits).pieces.len(),
    ensures
        ({
            let b = breaking(word, fits);
            let all = b.pieces.push(b.chunk);
            all[i + 1].len() > 0 && !fits(all[i].push(all[i + 1][0]))
        }),
    decreases word.len(),
{
    let b = breaking(word, fits);
    let before = breaking(word.drop_last(), fits);
    let c = word.last();
    let all = b.pieces.push(b.chunk);
    let held = before.pieces.push(before.chunk);
    if i < before.pieces.len() {
        lemma_breaking_is_greedy(word.drop_last(), fits, i);
        assert(all[i] == held[i]);
        if i + 1 == before.pieces.len() {
            assert(all[i + 1][0] == held[i + 1][0]);
        } else {
            assert(all[i + 1] == held[i + 1]);
        }
    } else {
        assert(all[i] == before.chunk && all[i + 1] == seq![c]);
    }
}

/// A word that fits is left whole, and the pieces of one that does not are as long as they can
/// be: with the first character of the next piece, none of them would fit.
pub proof fn pieces_are_as_long_as_they_can_be(
    word: Seq<char>,
    fits: spec_fn(Seq<char>) -> bool,
    i: int,
)
    ensures
        fits(word) ==> pieces_of(word, fits) == seq![word],
        0 <= i < pieces_of(word, fits).len() - 1 ==> pieces_of(word, fits)[i + 1].len() > 0
            && !fits(pieces_of(word, fits)[i].push(pieces_of(word, fits)[i + 1][0])),
{
    lemma_breaking(word, fits);
    let b = breaking(word, fits);
    let pieces = pieces_of(word, fits);
    if !fits(word) && 0 <= i < pieces.len() - 1 {
        lemma_breaking_is_greedy(word, fits, i);
        assert(b.chunk.len() > 0);
        assert(pieces == b.pieces.push(b.chunk));
    }
}

proof fn lemma_pieces(word: Seq<char>, fits: spec_fn(Seq<char>) -> bool)
    ensures
        forall|i: int|
            0 <= i < pieces_of(word, fits).len() ==> fits_or_is_single(
                #[trigger] pieces_of(word, fits)[i],
                fits,
            ),
        word.len() > 0 ==> forall|i: int|
            0 <= i < pieces_of(word, fits).len() ==> (#[trigger] pieces_of(word, fits)[i]).len()
                > 0,
{
    lemma_breaking(word, fits);
}

proof fn lemma_all_pieces(words: Seq<Seq<char>>, fits: spec_fn(Seq<char>) -> bool)
    requires
        forall|i: int| 0 <= i < words.len() ==> (#[trigger] words[i]).len() > 0,
    ensures
        forall|i: int|
            0 <= i < all_pieces(words, fits).len() ==> fits_or_is_single(
                #[trigger] all_pieces(words, fits)[i],
                fits,
            ) && all_pieces(words, fits)[i].len() > 0,
    decreases words.len(),
{
    if words.len() > 0 {
        let less = words.drop_last();
        assert forall|i: int| 0 <= i < less.len() implies (#[trigger] less[i]).len() > 0 by {
            assert(less[i] == words[i]);
        }
        lemma_all_pieces(less, fits);
        assert(words[words.len() - 1].len() > 0);
        lemma_pieces(words.last(), fits);
        let all = all_pieces(words, fits);
        let before = all_pieces(less, fits);
        assert forall|i: int| 0 <= i < all.len() implies fits_or_is_single(#[trigger] all[i], fits)
            && all[i].len() > 0 by {
            if i < before.len() {
                assert(all[i] == before[i]);
            } else {
                assert(all[i] == pieces_of(words.last(), fits)[i - before.len()]);
            }
        }
    }
}

proof fn lemma_filling(pieces: Seq<Seq<char>>, fits: spec_fn(Seq<char>) -> bool)
    requires
        forall|i: int|
            0 <= i < pieces.len() ==> fits_or_is_single(#[trigger] pieces[i], fits)
                && pieces[i].len() > 0,
    ensures
        forall|i: int|
            0 <= i < filling(pieces, fits).lines.len() ==> fits_or_is_single(
                #[trigger] filling(pieces, fits).lines[i],
                fits,
            ),
        filling(pieces, fits).current.len() > 0 ==> fits_or_is_single(
            filling(pieces, fits).current,
            fits,
        ),
        filling(pieces, fits).current.len() == 0 <==> pieces.len() == 0,
        pieces.len() == 0 ==> filling(pieces, fits).lines.len() == 0,
        join_spaced(filling(pieces, fits).lines.push(filling(pieces, fits).current))
            == join_spaced(pieces) || pieces.len() == 0,
    decreases pieces.len(),
{
    if pieces.len() > 0 {
        let less = pieces.drop_last();
        assert forall|i: int| 0 <= i < less.len() implies fits_or_is_single(
            #[trigger] less[i],
            fits,
        ) && less[i].len() > 0 by {
            assert(less[i] == pieces[i]);
        }
        lemma_filling(less, fits);
        let f = filling(pieces, fits);
        let before = filling(less, fits);
        let piece = pieces.last();
        assert(piece == pieces[pieces.len() - 1]);
        let all = f.lines.push(f.current);
        let held = before.lines.push(before.current);
        if before.current.len() == 0 {
            assert(less.len() == 0);
            assert(all == seq![piece]);
            assert(pieces == seq![piece]);
        } else if fits(before.current.push(' ') + piece) {
            assert(all.drop_last() == before.lines);
            assert(held.drop_last() == before.lines);
            if before.lines.len() == 0 {
                assert(all[0] == before.current.push(' ') + piece);
                assert(held[0] == before.current);
            } else {
                assert(join_spaced(all) =~= join_spaced(held).push(' ') + piece);
            }
            assert(join_spaced(pieces) == join_spaced(less).push(' ') + piece);
        } else {
            assert(all.drop_last() == held);
            assert(join_spaced(pieces) == join_spaced(less).push(' ') + piece);
        }
    }
}

proof fn lemma_words_are_not_empty(s: Seq<char>)
    ensures
        forall|i: int| 0 <= i < words(s).len() ==> (#[trigger] words(s)[i]).len() > 0,
        s.len() > 0 && !crate::text::is_whitespace_char(s.last()) ==> words(s).len() > 0,
    decreases s.len(),
{
    if s.len() > 0 {
        lemma_words_are_not_empty(s.drop_last());
        if s.len() > 1 && !crate::text::is_whitespace_char(s[s.len() - 2]) {
            assert(s.drop_last().last() == s[s.len() - 2]);
        }
    }
}

/// A piece that begins the next line does not fit behind a line and a space.
pub open spec fn ends_where_it_must(
    line: Seq<char>,
    next: Seq<char>,
    pieces: Seq<Seq<char>>,
    fits: spec_fn(Seq<char>) -> bool,
) -> bool {
    exists|k: int|
        0 <= k < pieces.len() && #[trigger] pieces[k].is_prefix_of(next) && !fits(
            line.push(' ') + pieces[k],
        )
}

proof fn lemma_lines_are_full(pieces: Seq<Seq<char>>, fits: spec_fn(Seq<char>) -> bool, i: int)
    requires
        0 <= i < filling(pieces, fits).lines.len(),
    ensures
        ({
            let all = filling(pieces, fits).lines.push(filling(pieces, fits).current);
            ends_where_it_must(all[i], all[i + 1], pieces, fits)
        }),
    decreases pieces.len(),
{
    let less = pieces.drop_last();
    let before = filling(less, fits);
    let piece = pieces.last();
    let held = before.lines.push(before.current);
    let f = filling(pieces, fits);
    let all = f.lines.push(f.current);
    assert(pieces[pieces.len() - 1] == piece);
    if i < before.lines.len() {
        lemma_lines_are_full(less, fits, i);
        let k = choose|k: int|
            0 <= k < less.len() && #[trigger] less[k].is_prefix_of(held[i + 1]) && !fits(
                held[i].push(' ') + less[k],
            );
        assert(pieces[k] == less[k]);
        assert(all[i] == held[i]);
        assert(pieces[k].is_prefix_of(all[i + 1])) by {
            let (old_next, next) = (held[i + 1], all[i + 1]);
            if old_next != next {
                assert(next.take(old_next.len() as int) == old_next);
                assert(next.take(pieces[k].len() as int) == old_next.take(pieces[k].len() as int));
            }
        }
    } else {
        assert(all[i] == before.current && all[i + 1] == piece);
        assert(pieces[pieces.len() - 1].is_prefix_of(all[i + 1]));
    }
}

/// No line ends too early: the piece that begins the next line would not have fit behind it.
pub proof fn no_line_ends_too_early(text: Seq<char>, fits: spec_fn(Seq<char>) -> bool, i: int)
    requires
        0 <= i < lines_of(text, fits).len() - 1,
    ensures
        ends_where_it_must(
            lines_of(text, fits)[i],
            lines_of(text, fits)[i + 1],
            all_pieces(words(text), fits),
            fits,
        ),
{
    let pieces = all_pieces(words(text), fits);
    let f = filling(pieces, fits);
    let all = f.lines.push(f.current);
    lemma_lines_are_full(pieces, fits, i);
    assert(lines_of(text, fits)[i] == all[i] && lines_of(text, fits)[i + 1] == all[i + 1]);
}

/// No line is wider than the column, but for a single character that would not fit any.
pub proof fn every_line_fits(text: Seq<char>, fits: spec_fn(Seq<char>) -> bool, i: int)
    requires
        0 <= i < lines_of(text, fits).len(),
    ensures
        fits_or_is_single(lines_of(text, fits)[i], fits),
{
    lemma_words_are_not_empty(text);
    lemma_all_pieces(words(text), fits);
    lemma_filling(all_pieces(words(text), fits), fits);
}

/// The lines of a text, joined by spaces, are the pieces of its words joined by spaces: lines
/// are broken nowhere but between pieces, and nothing is lost.
pub proof fn lines_are_pieces_joined(text: Seq<char>, fits: spec_fn(Seq<char>) -> bool)
    ensures
        join_spaced(lines_of(text, fits)) == join_spaced(all_pieces(words(text), fits)),
{
    lemma_words_are_not_empty(text);
    lemma_all_pieces(words(text), fits);
    lemma_filling(all_pieces(words(text), fits), fits);
}

proof fn lemma_whole_words(words: Seq<Seq<char>>, fits: spec_fn(Seq<char>) -> bool)
    requires
        forall|i: int| 0 <= i < words.len() ==> fits(#[trigger] words[i]),
    ensures
        all_pieces(words, fits) == words,
    decreases words.len(),
{
    if words.len() > 0 {
        let less = words.drop_last();
        assert forall|i: int| 0 <= i < less.len() implies fits(#[trigger] less[i]) by {
            assert(less[i] == words[i]);
        }
        lemma_whole_words(less, fits);
        assert(fits(words[words.len() - 1]));
        assert(less + seq![words.last()] == words);
    }
}

/// Where every word fits the column, words are kept whole and runs of white space collapse.
pub proof fn words_that_fit_are_kept_whole(text: Seq<char>, fits: spec_fn(Seq<char>) -> bool)
    requires
        forall|i: int| 0 <= i < words(text).len() ==> fits(#[trigger] words(text)[i]),
    ensures
        join_spaced(lines_of(text, fits)) == join_spaced(words(text)),
{
    lemma_whole_words(words(text), fits);
    lines_are_pieces_joined(text, fits);
}

// ---------------------------------------------------------------------------------------
// Breaking
// ---------------------------------------------------------------------------------------

/// Splits an over-long word into the widest pieces that still fit. Words that fit already come
/// back untouched, which is the overwhelmingly common case.
pub fn break_to_fit<M: Fn(Face, &str, u32) -> bool>(
    word: &str,
    face: Face,
    size: u32,
    fits: &M,
) -> (r: Vec<String>)
    requires
        is_ruler(*fits),
    ensures
        texts(r@) == pieces_of(word@, ruler(*fits, face, size)),
{
    let ghost rule = ruler(*fits, face, size);
    let mut pieces: Vec<String> = Vec::new();
    assert(texts(pieces@) == Seq::<Seq<char>>::empty());
    if measures(fits, face, word, size) {
        pieces.push(word.to_owned());
        assert(texts(pieces@) == seq![word@]);
        return pieces;
    }
    let mut chunk = String::new();
    assert(word@.take(0) == Seq::<char>::empty());
    for c in it: word.chars()
        invariant
            is_ruler(*fits),
            rule == ruler(*fits, face, size),
            it.seq() == word@,
            ({
                let b = breaking(word@.take(it.index() as int), rule);
                texts(pieces@) == b.pieces && chunk@ == b.chunk
            }),
    {
        let ghost before = pieces@;
        let ghost held = chunk@;
        assert(word@.take(it.index() + 1).drop_last() == word@.take(it.index() as int));
        let mut candidate = chunk.clone();
        candidate.push(c);
        if chunk.as_str().is_empty() || measures(fits, face, candidate.as_str(), size) {
            chunk = candidate;
        } else {
            pieces.push(chunk);
            assert(texts(pieces@) == texts(before).push(held));
            chunk = String::new();
            chunk.push(c);
            assert(chunk@ == seq![c]);
        }
    }
    assert(word@.take(word@.len() as int) == word@);
    if !chunk.as_str().is_empty() {
        let ghost before = pieces@;
        let ghost held = chunk@;
        pieces.push(chunk);
        assert(texts(pieces@) == texts(before).push(held));
    }
    pieces
}

/// Greedy word wrap that never returns a line wider than the column, but for a single character
/// that would not fit any: whole words wherever possible, and a break inside a word only where
/// the word cannot fit a line on its own.
pub fn wrap_text<M: Fn(Face, &str, u32) -> bool>(
    text: &str,
    face: Face,
    size: u32,
    fits: &M,
) -> (r: Vec<String>)
    requires
        is_ruler(*fits),
    ensures
        texts(r@) == lines_of(text@, ruler(*fits, face, size)),
{
    let ghost rule = ruler(*fits, face, size);
    let words_of_text = split_words(text);
    let ghost list = words(text@);
    let mut lines: Vec<String> = Vec::new();
    let mut current = String::new();
    assert(texts(lines@) == Seq::<Seq<char>>::empty());
    assert(list.take(0) == Seq::<Seq<char>>::empty());
    for i in 0..words_of_text.len()
        invariant
            is_ruler(*fits),
            rule == ruler(*fits, face, size),
            texts(words_of_text@) == list,
            ({
                let f = filling(all_pieces(list.take(i as int), rule), rule);
                texts(lines@) == f.lines && current@ == f.current
            }),
    {
        let ghost done = all_pieces(list.take(i as int), rule);
        assert(list.take(i + 1).drop_last() == list.take(i as int));
        assert(list.take(i + 1).last() == words_of_text@[i as int]@);
        let pieces = break_to_fit(words_of_text[i].as_str(), face, size, fits);
        let ghost more = texts(pieces@);
        assert(done + more.take(0) == done);
        for j in 0..pieces.len()
            invariant
                is_ruler(*fits),
                rule == ruler(*fits, face, size),
                more == texts(pieces@),
                ({
                    let f = filling(done + more.take(j as int), rule);
                    texts(lines@) == f.lines && current@ == f.current
                }),
        {
            let ghost before = lines@;
            let ghost held = current@;
            let ghost now = done + more.take(j + 1);
            assert(now.drop_last() == done + more.take(j as int));
            assert(now.last() == more[j as int]);
            assert(more[j as int] == pieces@[j as int]@);
            if current.as_str().is_empty() {
                current = pieces[j].clone();
            } else {
                let mut candidate = current.clone();
                candidate.push(' ');
                candidate.append(pieces[j].as_str());
                assert(candidate@ == held.push(' ') + pieces@[j as int]@);
                if measures(fits, face, candidate.as_str(), size) {
                    current = candidate;
                } else {
                    lines.push(current);
                    assert(texts(lines@) == texts(before).push(held));
                    current = pieces[j].clone();
                }
            }
        }
        assert(more.take(pieces@.len() as int) == more);
    }
    assert(list.take(list.len() as int) == list);
    if !current.as_str().is_empty() {
        let ghost before = lines@;
        let ghost held = current@;
        lines.push(current);
        assert(texts(lines@) == texts(before).push(held));
    }
    lines
}

} // verus!
