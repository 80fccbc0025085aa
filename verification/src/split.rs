//! Cutting text into pieces: at characters of a class, into words, into lines.
use vstd::prelude::*;
use vstd::string::*;

use crate::text;

verus! {

/// A class of characters at which text is cut.
#[derive(Clone, Copy)]
pub enum Break {
    /// White space.
    White,
    /// The path separator.
    Slash,
    /// Anything but an ASCII letter or digit.
    Symbol,
    /// The line feed.
    Newline,
}

/// Whether text is cut at `c`.
pub open spec fn breaks(at: Break, c: char) -> bool {
    match at {
        Break::White => text::is_white(c),
        Break::Slash => c == '/',
        Break::Symbol => !text::is_alnum(c),
        Break::Newline => c == '\n',
    }
}

/// Whether text is cut at `c`.
pub fn breaks_at(at: Break, c: char) -> (yes: bool)
    ensures
        yes == breaks(at, c),
{
    match at {
        Break::White => text::white(c),
        Break::Slash => c == '/',
        Break::Symbol => !text::alnum(c),
        Break::Newline => c == '\n',
    }
}

/// The pieces of `s` between the characters at which it is cut; one more than
/// there are such characters.
pub open spec fn pieces(s: Seq<char>, at: Break) -> Seq<Seq<char>>
    decreases s.len(),
{
    if s.len() == 0 {
        seq![Seq::empty()]
    } else {
        let before = pieces(s.drop_last(), at);
        if breaks(at, s.last()) {
            before.push(Seq::empty())
        } else {
            before.drop_last().push(before.last().push(s.last()))
        }
    }
}

/// There is always at least one piece.
pub proof fn lemma_pieces_nonempty(s: Seq<char>, at: Break)
    ensures
        pieces(s, at).len() > 0,
    decreases s.len(),
{
    if s.len() > 0 {
        lemma_pieces_nonempty(s.drop_last(), at);
    }
}

/// No piece holds a character at which the text is cut.
pub proof fn lemma_pieces_unbroken(s: Seq<char>, at: Break, i: int, j: int)
    requires
        0 <= i < pieces(s, at).len(),
        0 <= j < pieces(s, at)[i].len(),
    ensures
        !breaks(at, pieces(s, at)[i][j]),
    decreases s.len(),
{
    if s.len() > 0 {
        let before = pieces(s.drop_last(), at);
        lemma_pieces_nonempty(s.drop_last(), at);
        if i < before.len() && j < before[i].len() {
            lemma_pieces_unbroken(s.drop_last(), at, i, j);
        }
    }
}

/// The pieces of `s` between the characters at which it is cut.
pub fn split(s: &str, at: Break) -> (parts: Vec<String>)
    ensures
        text::views(parts@) == pieces(s@, at),
{
    let chars = text::chars_of(s);
    let mut parts: Vec<String> = Vec::new();
    let mut from: usize = 0;
    let mut i: usize = 0;
    proof {
        assert(chars@.take(0) =~= Seq::<char>::empty());
        assert(chars@.subrange(0, 0) =~= Seq::<char>::empty());
        assert(text::views(parts@).push(Seq::<char>::empty()) =~= pieces(chars@.take(0), at));
    }
    while i < chars.len()
        invariant
            chars@ == s@,
            from <= i <= chars.len(),
            text::views(parts@).push(chars@.subrange(from as int, i as int)) == pieces(
                chars@.take(i as int),
                at,
            ),
        decreases chars.len() - i,
    {
        let ghost now = pieces(chars@.take(i as int), at);
        let ghost piece = chars@.subrange(from as int, i as int);
        proof {
            assert(chars@.take(i + 1).drop_last() =~= chars@.take(i as int));
            assert(now.drop_last() =~= text::views(parts@));
            assert(now.last() == piece);
        }
        if breaks_at(at, chars[i]) {
            let ghost earlier = parts@;
            parts.push(text::text_of(&chars, from, i));
            from = i + 1;
            proof {
                assert(text::views(parts@) =~= text::views(earlier).push(piece));
                assert(now =~= text::views(parts@));
                assert(chars@.subrange(from as int, i + 1) =~= Seq::<char>::empty());
                assert(text::views(parts@).push(Seq::<char>::empty()) =~= now.push(
                    Seq::<char>::empty(),
                ));
            }
        } else {
            proof {
                assert(chars@.subrange(from as int, i + 1) =~= piece.push(chars@[i as int]));
            }
        }
        i += 1;
    }
    let ghost earlier = parts@;
    parts.push(text::text_of(&chars, from, i));
    proof {
        assert(chars@.take(i as int) =~= s@);
        assert(text::views(parts@) =~= text::views(earlier).push(
            chars@.subrange(from as int, i as int),
        ));
    }
    parts
}

/// The pieces that are not empty.
pub open spec fn words(s: Seq<char>, at: Break) -> Seq<Seq<char>> {
    filled(pieces(s, at))
}

/// The texts of a list that are not empty.
pub open spec fn filled(list: Seq<Seq<char>>) -> Seq<Seq<char>>
    decreases list.len(),
{
    if list.len() == 0 {
        Seq::empty()
    } else if list.last().len() > 0 {
        filled(list.drop_last()).push(list.last())
    } else {
        filled(list.drop_last())
    }
}

/// The pieces that are not empty.
pub fn split_words(s: &str, at: Break) -> (parts: Vec<String>)
    ensures
        text::views(parts@) == words(s@, at),
{
    let all = split(s, at);
    let mut parts: Vec<String> = Vec::new();
    let mut i: usize = 0;
    proof {
        assert(text::views(parts@) =~= filled(text::views(all@.take(0))));
    }
    while i < all.len()
        invariant
            i <= all.len(),
            text::views(parts@) == filled(text::views(all@.take(i as int))),
        decreases all.len() - i,
    {
        proof {
            let next = text::views(all@.take(i + 1));
            assert(next.drop_last() =~= text::views(all@.take(i as int)));
            assert(next.last() == all@[i as int]@);
        }
        if !all[i].as_str().is_empty() {
            let ghost earlier = parts@;
            parts.push(all[i].clone());
            proof {
                assert(text::views(parts@) =~= text::views(earlier).push(all@[i as int]@));
            }
        }
        i += 1;
    }
    proof {
        assert(all@.take(i as int) =~= all@);
    }
    parts
}

/// One of the words of a text is `word`.
pub open spec fn has_word(s: Seq<char>, at: Break, word: Seq<char>) -> bool {
    pieces(s, at).contains(word)
}

/// Whether one of the pieces of `s` is `word`.
pub fn has_piece(s: &str, at: Break, word: &str) -> (yes: bool)
    ensures
        yes == has_word(s@, at, word@),
{
    let parts = split(s, at);
    text::contains(&parts, word)
}

/// `line` without one carriage return at its end.
pub open spec fn without_return(line: Seq<char>) -> Seq<char> {
    if line.len() > 0 && line.last() == '\r' {
        line.drop_last()
    } else {
        line
    }
}

/// The lines of `s`: each ends at a line feed, which a carriage return may
/// precede; the last may lack the line feed.
pub open spec fn lines(s: Seq<char>) -> Seq<Seq<char>> {
    let all = pieces(s, Break::Newline);
    let ended = all.drop_last().map_values(|line: Seq<char>| without_return(line));
    if all.last().len() > 0 {
        ended.push(all.last())
    } else {
        ended
    }
}

/// The lines of `s`.
pub fn split_lines(s: &str) -> (list: Vec<String>)
    ensures
        text::views(list@) == lines(s@),
{
    let all = split(s, Break::Newline);
    proof {
        lemma_pieces_nonempty(s@, Break::Newline);
        assert(text::views(all@).len() == all@.len());
    }
    let ghost ended = pieces(s@, Break::Newline).drop_last().map_values(
        |line: Seq<char>| without_return(line),
    );
    let last: usize = all.len() - 1;
    let mut list: Vec<String> = Vec::new();
    let mut i: usize = 0;
    while i < last
        invariant
            last + 1 == all.len(),
            i <= last,
            text::views(all@) == pieces(s@, Break::Newline),
            ended == pieces(s@, Break::Newline).drop_last().map_values(
                |line: Seq<char>| without_return(line),
            ),
            ended.len() == last,
            list@.len() == i,
            forall|k: int| 0 <= k < i ==> (#[trigger] list@[k])@ == ended[k],
        decreases last - i,
    {
        let chars = text::chars_of(all[i].as_str());
        let n: usize = chars.len();
        proof {
            assert(text::views(all@)[i as int] == all@[i as int]@);
            assert(chars@.subrange(0, n as int) =~= chars@);
            if n > 0 {
                assert(chars@.subrange(0, n - 1) =~= chars@.drop_last());
            }
        }
        if n > 0 && chars[n - 1] == '\r' {
            list.push(text::text_of(&chars, 0, n - 1));
        } else {
            list.push(all[i].clone());
        }
        i += 1;
    }
    proof {
        assert(text::views(list@) =~= ended);
        assert(text::views(all@)[last as int] == all@[last as int]@);
    }
    if !all[last].as_str().is_empty() {
        let ghost earlier = list@;
        list.push(all[last].clone());
        proof {
            assert(text::views(list@) =~= text::views(earlier).push(all@[last as int]@));
        }
    }
    list
}

/// What stands behind a separator is a piece of its own.
pub proof fn lemma_pieces_behind(a: Seq<char>, sep: char, b: Seq<char>, at: Break)
    requires
        breaks(at, sep),
        forall|i: int| 0 <= i < b.len() ==> !breaks(at, #[trigger] b[i]),
    ensures
        pieces(a + seq![sep] + b, at) == pieces(a, at).push(b),
    decreases b.len(),
{
    let whole = a + seq![sep] + b;
    if b.len() == 0 {
        assert(whole.drop_last() =~= a);
        assert(b =~= Seq::empty());
    } else {
        let shorter = b.drop_last();
        assert forall|i: int| 0 <= i < shorter.len() implies !breaks(at, #[trigger] shorter[i]) by {
            assert(shorter[i] == b[i]);
        }
        lemma_pieces_behind(a, sep, shorter, at);
        assert(whole.drop_last() =~= a + seq![sep] + shorter);
        assert(whole.last() == b.last());
        assert(!breaks(at, b[b.len() - 1]));
        let before = pieces(a, at).push(shorter);
        assert(before.drop_last() =~= pieces(a, at));
        assert(shorter.push(b.last()) =~= b);
    }
}

/// A text without separators is one piece.
pub proof fn lemma_pieces_single(b: Seq<char>, at: Break)
    requires
        forall|i: int| 0 <= i < b.len() ==> !breaks(at, #[trigger] b[i]),
    ensures
        pieces(b, at) == seq![b],
    decreases b.len(),
{
    if b.len() > 0 {
        let shorter = b.drop_last();
        assert forall|i: int| 0 <= i < shorter.len() implies !breaks(at, #[trigger] shorter[i]) by {
            assert(shorter[i] == b[i]);
        }
        lemma_pieces_single(shorter, at);
        assert(!breaks(at, b[b.len() - 1]));
        assert(shorter.push(b.last()) =~= b);
        assert(seq![shorter].drop_last() =~= Seq::empty());
        assert(Seq::<Seq<char>>::empty().push(b) =~= seq![b]);
    } else {
        assert(b =~= Seq::empty());
    }
}

/// A list in which nothing is empty stays as it is.
pub proof fn lemma_filled_all(list: Seq<Seq<char>>)
    requires
        forall|i: int| 0 <= i < list.len() ==> (#[trigger] list[i]).len() > 0,
    ensures
        filled(list) == list,
    decreases list.len(),
{
    if list.len() > 0 {
        lemma_filled_all(list.drop_last());
        assert(list.drop_last().push(list.last()) =~= list);
    } else {
        assert(list =~= Seq::empty());
    }
}

/// The pieces of two texts with a break between them are those of both.
pub proof fn lemma_pieces_join(a: Seq<char>, sep: char, b: Seq<char>, at: Break)
    requires
        breaks(at, sep),
    ensures
        pieces(a + seq![sep] + b, at) == pieces(a, at) + pieces(b, at),
    decreases b.len(),
{
    let whole = a + seq![sep] + b;
    if b.len() == 0 {
        assert(whole.drop_last() =~= a);
        assert(pieces(whole, at) =~= pieces(a, at) + pieces(b, at));
    } else {
        lemma_pieces_join(a, sep, b.drop_last(), at);
        lemma_pieces_nonempty(b.drop_last(), at);
        assert(whole.drop_last() =~= a + seq![sep] + b.drop_last());
        assert(whole.last() == b.last());
        assert(pieces(whole, at) =~= pieces(a, at) + pieces(b, at));
    }
}

/// What is filled of two lists is that of both.
pub proof fn lemma_filled_join(a: Seq<Seq<char>>, b: Seq<Seq<char>>)
    ensures
        filled(a + b) == filled(a) + filled(b),
    decreases b.len(),
{
    if b.len() == 0 {
        assert(a + b =~= a);
        assert(filled(a) + filled(b) =~= filled(a));
    } else {
        lemma_filled_join(a, b.drop_last());
        assert((a + b).drop_last() =~= a + b.drop_last());
        assert(filled(a + b) =~= filled(a) + filled(b));
    }
}

} // verus!
