//! Finding out what a person wants undone, from how they say it.
use vstd::prelude::*;
use vstd::string::*;
use vstd::utf8::encode_utf8;

use crate::cli::{word_of, Agent};
use crate::db::runs::run_by_ref;
use crate::db::Database;
use crate::error::Error;
use crate::groups::{all_group_paths, group_paths, groups_view, ChangeGroup, GroupView};
use crate::models::{Run, RunIntent};
use crate::number;
use crate::order;
use crate::path;
use crate::rows;
use crate::rows::Order;
use crate::sorted;
use crate::split;
use crate::split::Break;
use crate::style::{BOLD, DIM, GREEN, RESET, YELLOW};
use crate::text;

verus! {

// ── words ───────────────────────────────────────────────────────────

/// Small letters and digits, with a space for everything else.
pub open spec fn plain(s: Seq<char>) -> Seq<char> {
    s.map_values(
        |c: char|
            if text::is_alnum(c) {
                text::lower_char(c)
            } else {
                ' '
            },
    )
}

/// The words of a text in small letters and digits, with one space between each
/// two.
pub open spec fn normalized(s: Seq<char>) -> Seq<char> {
    text::joined(split::words(plain(s), Break::White), " "@)
}

/// The words of a text in small letters and digits, with one space between each
/// two.
pub fn normalize(input: &str) -> (out: String)
    ensures
        out@ == normalized(input@),
{
    let chars = text::chars_of(input);
    let mut mapped: Vec<char> = Vec::new();
    let mut i: usize = 0;
    while i < chars.len()
        invariant
            i <= chars.len(),
            chars@ == input@,
            mapped@ == plain(input@.take(i as int)),
        decreases chars.len() - i,
    {
        if text::alnum(chars[i]) {
            mapped.push(text::lowered_char(chars[i]));
        } else {
            mapped.push(' ');
        }
        proof {
            assert(mapped@ =~= plain(input@.take(i + 1)));
        }
        i += 1;
    }
    proof {
        assert(input@.take(i as int) =~= input@);
    }
    let line = text::text_from(&mapped);
    text::join(&split::split_words(line.as_str(), Break::White), " ")
}

/// The letters and digits of a text alone, in small letters.
pub open spec fn compacted(s: Seq<char>) -> Seq<char>
    decreases s.len(),
{
    if s.len() == 0 {
        Seq::empty()
    } else if text::is_alnum(s.last()) {
        compacted(s.drop_last()).push(text::lower_char(s.last()))
    } else {
        compacted(s.drop_last())
    }
}

/// The letters and digits of a text alone, in small letters.
pub fn compact(input: &str) -> (out: String)
    ensures
        out@ == compacted(input@),
{
    let chars = text::chars_of(input);
    let mut kept: Vec<char> = Vec::new();
    let mut i: usize = 0;
    while i < chars.len()
        invariant
            i <= chars.len(),
            chars@ == input@,
            kept@ == compacted(input@.take(i as int)),
        decreases chars.len() - i,
    {
        proof {
            assert(input@.take(i + 1).drop_last() =~= input@.take(i as int));
            assert(input@.take(i + 1).last() == chars@[i as int]);
        }
        if text::alnum(chars[i]) {
            kept.push(text::lowered_char(chars[i]));
        }
        i += 1;
    }
    proof {
        assert(input@.take(i as int) =~= input@);
    }
    text::text_from(&kept)
}

/// The words that say nothing about files.
pub open spec fn is_filler(word: Seq<char>) -> bool {
    ||| word == "a"@
    ||| word == "an"@
    ||| word == "and"@
    ||| word == "the"@
    ||| word == "this"@
    ||| word == "that"@
    ||| word == "these"@
    ||| word == "those"@
    ||| word == "undo"@
    ||| word == "revert"@
    ||| word == "remove"@
    ||| word == "rollback"@
    ||| word == "roll"@
    ||| word == "back"@
    ||| word == "go"@
    ||| word == "before"@
    ||| word == "from"@
    ||| word == "last"@
    ||| word == "week"@
    ||| word == "but"@
    ||| word == "keep"@
    ||| word == "except"@
    ||| word == "without"@
    ||| word == "agent"@
    ||| word == "did"@
    ||| word == "in"@
    ||| word == "of"@
    ||| word == "to"@
    ||| word == "for"@
    ||| word == "with"@
    ||| word == "new"@
    ||| word == "only"@
    ||| word == "please"@
    ||| word == "work"@
    ||| word == "change"@
    ||| word == "changes"@
    ||| word == "improvement"@
    ||| word == "improvements"@
    ||| word == "refactor"@
    ||| word == "layer"@
    ||| word == "session"@
}

/// Whether a word says nothing about files.
pub fn is_stopword(word: &str) -> (yes: bool)
    ensures
        yes == is_filler(word@),
{
    text::same(word, "a") || text::same(word, "an") || text::same(word, "and") || text::same(word, "the") || text::same(word, "this") || text::same(word, "that") || text::same(word, "these") || text::same(word, "those") || text::same(word, "undo") || text::same(word, "revert") || text::same(word, "remove") || text::same(word, "rollback") || text::same(word, "roll") || text::same(word, "back") || text::same(word, "go") || text::same(word, "before") || text::same(word, "from") || text::same(word, "last") || text::same(word, "week") || text::same(word, "but") || text::same(word, "keep") || text::same(word, "except") || text::same(word, "without") || text::same(word, "agent") || text::same(word, "did") || text::same(word, "in") || text::same(word, "of") || text::same(word, "to") || text::same(word, "for") || text::same(word, "with") || text::same(word, "new") || text::same(word, "only") || text::same(word, "please") || text::same(word, "work") || text::same(word, "change") || text::same(word, "changes") || text::same(word, "improvement") || text::same(word, "improvements") || text::same(word, "refactor") || text::same(word, "layer") || text::same(word, "session")
}

/// A word without an ending, however often it stands there.
pub open spec fn without_ending(word: Seq<char>, ending: Seq<char>) -> Seq<char>
    decreases word.len(),
{
    if ending.len() > 0 && ending.is_suffix_of(word) {
        without_ending(word.take(word.len() - ending.len()), ending)
    } else {
        word
    }
}

/// Whether an ending can be taken off a word: enough is left of it.
pub open spec fn has_ending(word: Seq<char>, ending: Seq<char>) -> bool {
    encode_utf8(word).len() > encode_utf8(ending).len() + 2 && ending.is_suffix_of(word)
}

/// A word without its ending.
pub open spec fn stemmed(word: Seq<char>) -> Seq<char> {
    if has_ending(word, "ing"@) {
        without_ending(word, "ing"@)
    } else if has_ending(word, "ments"@) {
        without_ending(word, "ments"@)
    } else if has_ending(word, "ment"@) {
        without_ending(word, "ment"@)
    } else if has_ending(word, " fixes"@) {
        without_ending(word, " fixes"@)
    } else if has_ending(word, "fixes"@) {
        without_ending(word, "fixes"@)
    } else if has_ending(word, "s"@) {
        without_ending(word, "s"@)
    } else {
        word
    }
}

/// A word without an ending, however often it stands there.
fn strip_ending(word: &str, ending: &str) -> (out: String)
    requires
        ending@.len() > 0,
    ensures
        out@ == without_ending(word@, ending@),
{
    let chars = text::chars_of(word);
    let mark = text::chars_of(ending);
    let n: usize = mark.len();
    let mut end: usize = chars.len();
    proof {
        assert(word@.take(end as int) =~= word@);
    }
    while ends_here(&chars, end, &mark)
        invariant
            end <= chars.len(),
            n == mark.len(),
            n > 0,
            chars@ == word@,
            mark@ == ending@,
            without_ending(word@.take(end as int), ending@) == without_ending(word@, ending@),
        decreases end,
    {
        proof {
            let part = word@.take(end as int);
            assert(ending@.is_suffix_of(part));
            assert(part.take(part.len() - n) =~= word@.take(end - n));
        }
        end -= n;
    }
    proof {
        let part = word@.take(end as int);
        assert(chars@.subrange(0, end as int) =~= part);
    }
    text::text_of(&chars, 0, end)
}

/// Whether the characters before a place end with others.
fn ends_here(chars: &Vec<char>, end: usize, mark: &Vec<char>) -> (yes: bool)
    requires
        end <= chars.len(),
    ensures
        yes == mark@.is_suffix_of(chars@.take(end as int)),
{
    let part = text::text_of(chars, 0, end);
    let tail = text::text_from(mark);
    proof {
        assert(chars@.subrange(0, end as int) =~= chars@.take(end as int));
    }
    text::ends(part.as_str(), tail.as_str())
}

/// Whether an ending can be taken off a word.
fn ending_fits(word: &str, ending: &str) -> (yes: bool)
    ensures
        yes == has_ending(word@, ending@),
{
    let n = text::byte_len(word);
    n > 2 && n - 2 > text::byte_len(ending) && text::ends(word, ending)
}

/// A word without its ending.
pub fn stem(word: &str) -> (out: String)
    ensures
        out@ == stemmed(word@),
{
    proof {
        reveal_strlit("ing");
        reveal_strlit("ments");
        reveal_strlit("ment");
        reveal_strlit(" fixes");
        reveal_strlit("fixes");
        reveal_strlit("s");
    }
    if ending_fits(word, "ing") {
        strip_ending(word, "ing")
    } else if ending_fits(word, "ments") {
        strip_ending(word, "ments")
    } else if ending_fits(word, "ment") {
        strip_ending(word, "ment")
    } else if ending_fits(word, " fixes") {
        strip_ending(word, " fixes")
    } else if ending_fits(word, "fixes") {
        strip_ending(word, "fixes")
    } else if ending_fits(word, "s") {
        strip_ending(word, "s")
    } else {
        word.to_owned()
    }
}

/// The stems of words that say something about files.
pub open spec fn stems(words: Seq<Seq<char>>) -> Seq<Seq<char>>
    decreases words.len(),
{
    if words.len() == 0 {
        Seq::empty()
    } else {
        let before = stems(words.drop_last());
        if !is_filler(words.last()) && encode_utf8(stemmed(words.last())).len() > 1 {
            before.push(stemmed(words.last()))
        } else {
            before
        }
    }
}

/// The words of a text that say something about files.
pub open spec fn telling_words(s: Seq<char>) -> Seq<Seq<char>> {
    stems(split::words(normalized(s), Break::White))
}

/// The words of a text that say something about files, each once and in their
/// order.
pub open spec fn are_terms(s: Seq<char>, terms: Seq<Seq<char>>) -> bool {
    sorted::is_sorted_set(telling_words(s), terms)
}

/// The words of a text that say something about files.
pub fn important_terms(input: &str) -> (terms: Vec<String>)
    ensures
        are_terms(input@, text::views(terms@)),
{
    let line = normalize(input);
    let words = split::split_words(line.as_str(), Break::White);
    let ghost all = text::views(words@);
    let mut list: Vec<String> = Vec::new();
    let mut i: usize = 0;
    proof {
        assert(text::views(list@) =~= stems(all.take(0)));
    }
    while i < words.len()
        invariant
            i <= words.len(),
            all == text::views(words@),
            text::views(list@) == stems(all.take(i as int)),
        decreases words.len() - i,
    {
        proof {
            assert(all.take(i + 1).drop_last() =~= all.take(i as int));
            assert(all.take(i + 1).last() == words@[i as int]@);
        }
        if !is_stopword(words[i].as_str()) {
            let root = stem(words[i].as_str());
            if text::byte_len(root.as_str()) > 1 {
                text::add_line(&mut list, root);
            }
        }
        i += 1;
    }
    proof {
        assert(all.take(i as int) =~= all);
    }
    sorted::sorted_set(&list)
}

// ── what is wanted ──────────────────────────────────────────────────

/// What a person wants undone and what kept.
#[derive(Debug)]
pub struct AskIntent {
    pub revert_terms: Vec<String>,
    pub keep_terms: Vec<String>,
    pub revert_all: bool,
}

/// Whether the first of some marks that occurs cuts a request in two: what is to
/// go, and what is to stay.
pub open spec fn is_parted(query: Seq<char>, parts: (Seq<char>, Option<Seq<char>>)) -> bool {
    let low = text::lower(query);
    if text::occurs(low, " but keep "@) {
        is_parted_at(query, " but keep "@, parts)
    } else if text::occurs(low, " except "@) {
        is_parted_at(query, " except "@, parts)
    } else if text::occurs(low, " keep "@) {
        is_parted_at(query, " keep "@, parts)
    } else if text::occurs(low, " without "@) {
        is_parted_at(query, " without "@, parts)
    } else {
        parts == (query, None::<Seq<char>>)
    }
}

/// Whether a request is cut in two where a mark first occurs in it.
pub open spec fn is_parted_at(query: Seq<char>, mark: Seq<char>, parts: (Seq<char>, Option<Seq<char>>)) -> bool {
    exists|at: int|
        {
            &&& #[trigger] text::is_first_at(text::lower(query), mark, Some(at))
            &&& parts == (query.take(at), Some(query.skip(at + mark.len())))
        }
}

/// Cuts a request in two at a mark, where it occurs.
fn part_at<'a>(query: &'a str, mark: &str) -> (parts: Option<(&'a str, &'a str)>)
    ensures
        match parts {
            Some(p) => is_parted_at(query@, mark@, (p.0@, Some(p.1@))) && text::occurs(
                text::lower(query@),
                mark@,
            ),
            None => !text::occurs(text::lower(query@), mark@),
        },
{
    let low = text::lowercase(query);
    match text::find(low.as_str(), mark) {
        Some(at) => {
            let n = query.unicode_len();
            let m = mark.unicode_len();
            proof {
                assert(text::occurs_at(low@, mark@, at as int));
                assert(low@.len() == query@.len());
                assert(text::is_first_at(low@, mark@, Some(at as int)));
            }
            let head = query.substring_char(0, at);
            let tail = query.substring_char(at + m, n);
            proof {
                assert(head@ =~= query@.take(at as int));
                assert(tail@ =~= query@.skip(at + m));
            }
            Some((head, tail))
        },
        None => None,
    }
}

/// Cuts a request in two: what is to go, and what is to stay.
pub fn split_keep_clause<'a>(query: &'a str) -> (parts: (&'a str, Option<&'a str>))
    ensures
        is_parted(query@, (parts.0@, text::view_opt_str(parts.1))),
{
    if let Some((head, tail)) = part_at(query, " but keep ") {
        return (head, Some(tail));
    }
    if let Some((head, tail)) = part_at(query, " except ") {
        return (head, Some(tail));
    }
    if let Some((head, tail)) = part_at(query, " keep ") {
        return (head, Some(tail));
    }
    if let Some((head, tail)) = part_at(query, " without ") {
        return (head, Some(tail));
    }
    (query, None)
}

/// Whether everything is meant.
pub open spec fn means_all(input: Seq<char>) -> bool {
    split::words(input, Break::White).contains("all"@) || split::words(
        input,
        Break::White,
    ).contains("everything"@)
}

/// Whether everything is meant.
pub fn contains_all_intent(input: &str) -> (yes: bool)
    ensures
        yes == means_all(input@),
{
    let words = split::split_words(input, Break::White);
    text::contains(&words, "all") || text::contains(&words, "everything")
}

/// Whether an intent is that of a request.
pub open spec fn is_intent(query: Seq<char>, intent: AskIntent) -> bool {
    exists|parts: (Seq<char>, Option<Seq<char>>)|
        {
            &&& #[trigger] is_parted(query, parts)
            &&& intent.revert_all == means_all(normalized(parts.0))
            &&& are_terms(parts.0, text::views(intent.revert_terms@))
            &&& are_terms(
                match parts.1 {
                    Some(keep) => keep,
                    None => ""@,
                },
                text::views(intent.keep_terms@),
            )
        }
}

/// What a request wants undone and what kept.
pub fn parse_intent(query: &str) -> (intent: AskIntent)
    ensures
        is_intent(query@, intent),
{
    let (revert_part, keep_part) = split_keep_clause(query);
    assert(is_parted(query@, (revert_part@, text::view_opt_str(keep_part))));
    let revert_all = contains_all_intent(normalize(revert_part).as_str());
    AskIntent {
        revert_terms: important_terms(revert_part),
        keep_terms: important_terms(
            match keep_part {
                Some(keep) => keep,
                None => "",
            },
        ),
        revert_all,
    }
}

// ── scores ──────────────────────────────────────────────────────────

/// A score that can be counted: the largest number stands for all above it.
pub open spec fn capped(n: int) -> int {
    if n > usize::MAX {
        usize::MAX as int
    } else {
        n
    }
}

/// A score with more points.
fn plus(score: usize, points: usize, Ghost(exact): Ghost<int>) -> (sum: usize)
    requires
        score == capped(exact),
        exact >= 0,
    ensures
        sum == capped(exact + points),
{
    match score.checked_add(points) {
        Some(sum) => sum,
        None => usize::MAX,
    }
}

/// The points that a word gives a group by its id.
pub open spec fn id_points(id: Seq<char>, term: Seq<char>) -> int {
    let low = text::lower(id);
    if low == term {
        10
    } else if compacted(low) == compacted(term) {
        8
    } else if text::occurs(low, term) || text::occurs(term, low) {
        6
    } else {
        0
    }
}

/// The points that a word gives a group by its label.
pub open spec fn label_points(label: Seq<char>, term: Seq<char>) -> int {
    let low = text::lower(label);
    if split::has_word(low, Break::White, term) {
        5
    } else if text::occurs(low, term) {
        3
    } else {
        0
    }
}

/// The points that a word gives a group by one of its paths.
pub open spec fn path_points(rel: Seq<char>, term: Seq<char>) -> int {
    let low = text::lower(rel);
    if split::has_word(low, Break::Symbol, term) {
        2
    } else if text::occurs(low, term) {
        1
    } else {
        0
    }
}

/// The points that a word gives a group by its paths.
pub open spec fn paths_points(paths: Seq<Seq<char>>, root: Seq<char>, term: Seq<char>) -> int
    decreases paths.len(),
{
    if paths.len() == 0 {
        0
    } else {
        paths_points(paths.drop_last(), root, term) + path_points(
            path::relative(paths.last(), root),
            term,
        )
    }
}

/// The points that a word gives a group.
pub open spec fn term_points(group: GroupView, root: Seq<char>, term: Seq<char>) -> int {
    if term.len() == 0 {
        0
    } else {
        id_points(group.id, term) + label_points(group.label, term) + paths_points(
            group.paths,
            root,
            term,
        )
    }
}

/// The points that words give a group.
pub open spec fn points(group: GroupView, root: Seq<char>, terms: Seq<Seq<char>>) -> int
    decreases terms.len(),
{
    if terms.len() == 0 {
        0
    } else {
        points(group, root, terms.drop_last()) + term_points(group, root, terms.last())
    }
}

/// No paths take points away.
proof fn lemma_paths_points(paths: Seq<Seq<char>>, root: Seq<char>, term: Seq<char>)
    ensures
        paths_points(paths, root, term) >= 0,
    decreases paths.len(),
{
    if paths.len() > 0 {
        lemma_paths_points(paths.drop_last(), root, term);
    }
}

/// No words take points away.
proof fn lemma_points(group: GroupView, root: Seq<char>, terms: Seq<Seq<char>>)
    ensures
        points(group, root, terms) >= 0,
    decreases terms.len(),
{
    if terms.len() > 0 {
        lemma_points(group, root, terms.drop_last());
        lemma_paths_points(group.paths, root, terms.last());
    }
}

/// The score that a word adds to a group.
fn add_term(score: usize, group: &ChangeGroup, root: &str, term: &str, Ghost(exact): Ghost<int>) -> (sum:
    usize)
    requires
        score == capped(exact),
        exact >= 0,
    ensures
        sum == capped(exact + term_points(group@, root@, term@)),
{
    if term.unicode_len() == 0 {
        return score;
    }
    let id = text::lowercase(group.id.as_str());
    let id_score: usize = if text::same(id.as_str(), term) {
        10
    } else if text::same(compact(id.as_str()).as_str(), compact(term).as_str()) {
        8
    } else if text::has(id.as_str(), term) || text::has(term, id.as_str()) {
        6
    } else {
        0
    };
    let label = text::lowercase(group.label.as_str());
    let label_score: usize = if split::has_piece(label.as_str(), Break::White, term) {
        5
    } else if text::has(label.as_str(), term) {
        3
    } else {
        0
    };
    let mut total = plus(score, id_score, Ghost(exact));
    total = plus(total, label_score, Ghost(exact + id_score));
    let ghost base = exact + id_score + label_score;
    let ghost all = text::views(group.paths@);
    let mut i: usize = 0;
    proof {
        assert(all.take(0) =~= Seq::empty());
    }
    while i < group.paths.len()
        invariant
            i <= group.paths.len(),
            all == text::views(group.paths@),
            base >= 0,
            total == capped(base + paths_points(all.take(i as int), root@, term@)),
        decreases group.paths.len() - i,
    {
        let rel = path::relative_path(group.paths[i].as_str(), root);
        let low = text::lowercase(rel);
        let path_score: usize = if split::has_piece(low.as_str(), Break::Symbol, term) {
            2
        } else if text::has(low.as_str(), term) {
            1
        } else {
            0
        };
        proof {
            assert(all.take(i + 1).drop_last() =~= all.take(i as int));
            assert(all.take(i + 1).last() == group.paths@[i as int]@);
            lemma_paths_points(all.take(i as int), root@, term@);
        }
        total = plus(
            total,
            path_score,
            Ghost(base + paths_points(all.take(i as int), root@, term@)),
        );
        i += 1;
    }
    proof {
        assert(all.take(i as int) =~= all);
    }
    total
}

/// The score that words give a group.
pub fn score_group(group: &ChangeGroup, root: &str, terms: &Vec<String>) -> (score: usize)
    ensures
        score == capped(points(group@, root@, text::views(terms@))),
{
    let ghost all = text::views(terms@);
    let mut score: usize = 0;
    let mut i: usize = 0;
    proof {
        assert(all.take(0) =~= Seq::empty());
    }
    while i < terms.len()
        invariant
            i <= terms.len(),
            all == text::views(terms@),
            score == capped(points(group@, root@, all.take(i as int))),
        decreases terms.len() - i,
    {
        proof {
            assert(all.take(i + 1).drop_last() =~= all.take(i as int));
            assert(all.take(i + 1).last() == terms@[i as int]@);
            lemma_points(group@, root@, all.take(i as int));
        }
        score = add_term(
            score,
            group,
            root,
            terms[i].as_str(),
            Ghost(points(group@, root@, all.take(i as int))),
        );
        i += 1;
    }
    proof {
        assert(all.take(i as int) =~= all);
    }
    score
}

// ── matching ────────────────────────────────────────────────────────

/// The score that words give a group.
pub open spec fn score_of(group: GroupView, root: Seq<char>, terms: Seq<Seq<char>>) -> int {
    capped(points(group, root, terms))
}

/// Whether group `a` fits words better than group `b`: by its score, then by its
/// id, then by its place.
pub open spec fn fits_better(
    groups: Seq<GroupView>,
    root: Seq<char>,
    terms: Seq<Seq<char>>,
    a: int,
    b: int,
) -> bool {
    let x = score_of(groups[a], root, terms);
    let y = score_of(groups[b], root, terms);
    x > y || (x == y && (sorted::less(groups[a].id, groups[b].id) || (groups[a].id == groups[b].id
        && a < b)))
}

/// Whether a list holds the places of the groups that fit words, the best first.
pub open spec fn is_ranking(
    groups: Seq<GroupView>,
    root: Seq<char>,
    terms: Seq<Seq<char>>,
    places: Seq<usize>,
) -> bool {
    &&& forall|i: int|
        0 <= i < places.len() ==> (#[trigger] places[i]) < groups.len() && score_of(
            groups[places[i] as int],
            root,
            terms,
        ) > 0
    &&& forall|k: usize|
        k < groups.len() && score_of(groups[k as int], root, terms) > 0
            ==> #[trigger] places.contains(k)
    &&& forall|i: int, j: int|
        0 <= i < j < places.len() ==> fits_better(
            groups,
            root,
            terms,
            (#[trigger] places[i]) as int,
            (#[trigger] places[j]) as int,
        )
}

/// Whether groups are those that fit words, the best first.
pub open spec fn are_selected(
    groups: Seq<GroupView>,
    root: Seq<char>,
    terms: Seq<Seq<char>>,
    list: Seq<GroupView>,
) -> bool {
    exists|places: Seq<usize>|
        #[trigger] is_ranking(groups, root, terms, places) && list == order::arranged(
            groups,
            places,
        )
}

/// What fits better than something fits better than all that it fits better
/// than.
proof fn lemma_better_transitive(
    groups: Seq<GroupView>,
    root: Seq<char>,
    terms: Seq<Seq<char>>,
    a: int,
    b: int,
    c: int,
)
    requires
        fits_better(groups, root, terms, a, b),
        fits_better(groups, root, terms, b, c),
    ensures
        fits_better(groups, root, terms, a, c),
{
    if sorted::less(groups[a].id, groups[b].id) && sorted::less(groups[b].id, groups[c].id) {
        sorted::lemma_less_transitive(groups[a].id, groups[b].id, groups[c].id);
    }
}

/// Copies of the groups at some places.
fn groups_at(groups: &Vec<ChangeGroup>, places: &Vec<usize>) -> (list: Vec<ChangeGroup>)
    requires
        forall|i: int| 0 <= i < places@.len() ==> (#[trigger] places@[i]) < groups@.len(),
    ensures
        groups_view(list@) == order::arranged(groups_view(groups@), places@),
{
    let ghost all = groups_view(groups@);
    let mut list: Vec<ChangeGroup> = Vec::new();
    let mut i: usize = 0;
    proof {
        assert(groups_view(list@) =~= order::arranged(all, places@.take(0)));
    }
    while i < places.len()
        invariant
            i <= places.len(),
            all == groups_view(groups@),
            forall|k: int| 0 <= k < places@.len() ==> (#[trigger] places@[k]) < groups@.len(),
            groups_view(list@) == order::arranged(all, places@.take(i as int)),
        decreases places.len() - i,
    {
        let ghost earlier = list@;
        let ghost at = places@[i as int] as int;
        assert(places@[i as int] < groups@.len());
        list.push(groups[places[i]].clone());
        proof {
            assert(all[at] == groups@[at]@);
            assert(groups_view(list@) =~= groups_view(earlier).push(all[at]));
            assert(order::arranged(all, places@.take(i + 1)) =~= order::arranged(
                all,
                places@.take(i as int),
            ).push(all[at]));
        }
        i += 1;
    }
    proof {
        assert(places@.take(i as int) =~= places@);
    }
    list
}

/// The groups that fit words, the best first.
pub fn select_groups(groups: &Vec<ChangeGroup>, root: &str, terms: &Vec<String>) -> (list: Vec<
    ChangeGroup,
>)
    ensures
        are_selected(groups_view(groups@), root@, text::views(terms@), groups_view(list@)),
{
    let ghost all = groups_view(groups@);
    let ghost words = text::views(terms@);
    let mut scores: Vec<usize> = Vec::new();
    let mut places: Vec<usize> = Vec::new();
    let mut i: usize = 0;
    while i < groups.len()
        invariant
            i <= groups.len(),
            all == groups_view(groups@),
            words == text::views(terms@),
            scores@.len() == i,
            forall|k: int| 0 <= k < i ==> (#[trigger] scores@[k]) == score_of(all[k], root@, words),
            forall|a: int|
                0 <= a < places@.len() ==> (#[trigger] places@[a]) < i && score_of(
                    all[places@[a] as int],
                    root@,
                    words,
                ) > 0,
            forall|k: usize|
                k < i && score_of(all[k as int], root@, words) > 0
                    ==> #[trigger] places@.contains(k),
            forall|a: int, b: int|
                0 <= a < b < places@.len() ==> fits_better(
                    all,
                    root@,
                    words,
                    (#[trigger] places@[a]) as int,
                    (#[trigger] places@[b]) as int,
                ),
        decreases groups.len() - i,
    {
        let score = score_group(&groups[i], root, terms);
        scores.push(score);
        assert(all[i as int] == groups@[i as int]@);
        let ghost earlier = places@;
        if score > 0 {
            let mut k: usize = places.len();
            while k > 0 && (score > scores[places[k - 1]] || (score == scores[places[k - 1]]
                && sorted::before(
                groups[i].id.as_str(),
                groups[places[k - 1]].id.as_str(),
            )))
                invariant
                    i < groups.len(),
                    k <= places.len(),
                    places@ == earlier,
                    all == groups_view(groups@),
                    scores@.len() == i + 1,
                    score == scores@[i as int],
                    forall|m: int|
                        0 <= m < i + 1 ==> (#[trigger] scores@[m]) == score_of(
                            all[m],
                            root@,
                            words,
                        ),
                    forall|a: int| 0 <= a < places@.len() ==> (#[trigger] places@[a]) < i,
                    forall|a: int|
                        k <= a < places@.len() ==> fits_better(
                            all,
                            root@,
                            words,
                            i as int,
                            (#[trigger] places@[a]) as int,
                        ),
                decreases k,
            {
                proof {
                    let at = places@[k - 1] as int;
                    assert(all[at] == groups@[at]@);
                    assert(scores@[at] == score_of(all[at], root@, words));
                    assert(scores@[i as int] == score_of(all[i as int], root@, words));
                }
                k -= 1;
            }
            proof {
                if k > 0 {
                    let at = places@[k - 1] as int;
                    assert(all[at] == groups@[at]@);
                    assert(scores@[at] == score_of(all[at], root@, words));
                    assert(scores@[i as int] == score_of(all[i as int], root@, words));
                    sorted::lemma_less_total(all[at].id, all[i as int].id);
                    assert(fits_better(all, root@, words, at, i as int));
                }
            }
            places.insert(k, i);
            proof {
                let now = places@;
                assert(now == earlier.insert(k as int, i));
                assert forall|m: usize| m < i + 1 && score_of(
                    all[m as int],
                    root@,
                    words,
                ) > 0 implies #[trigger] now.contains(m) by {
                    if m < i {
                        assert(earlier.contains(m));
                        let q = choose|q: int| 0 <= q < earlier.len() && earlier[q] == m;
                        let w = if q < k { q } else { q + 1 };
                        assert(now[w] == m);
                    } else {
                        assert(now[k as int] == i);
                    }
                }
                assert forall|a: int| 0 <= a < now.len() implies (#[trigger] now[a]) < i + 1
                    && score_of(all[now[a] as int], root@, words) > 0 by {
                    if a < k {
                        assert(now[a] == earlier[a]);
                    } else if a > k {
                        assert(now[a] == earlier[a - 1]);
                    }
                }
                assert forall|a: int, b: int| 0 <= a < b < now.len() implies fits_better(
                    all,
                    root@,
                    words,
                    (#[trigger] now[a]) as int,
                    (#[trigger] now[b]) as int,
                ) by {
                    if b < k {
                        assert(fits_better(
                            all,
                            root@,
                            words,
                            earlier[a] as int,
                            earlier[b] as int,
                        ));
                    } else if a > k {
                        assert(fits_better(
                            all,
                            root@,
                            words,
                            earlier[a - 1] as int,
                            earlier[b - 1] as int,
                        ));
                    } else if a < k {
                        assert(now[a] == earlier[a]);
                        if b > k {
                            assert(fits_better(
                                all,
                                root@,
                                words,
                                earlier[a] as int,
                                earlier[b - 1] as int,
                            ));
                        } else if a < k - 1 {
                            assert(fits_better(
                                all,
                                root@,
                                words,
                                earlier[a] as int,
                                earlier[k - 1] as int,
                            ));
                            lemma_better_transitive(
                                all,
                                root@,
                                words,
                                earlier[a] as int,
                                earlier[k - 1] as int,
                                i as int,
                            );
                        }
                    } else {
                        assert(now[b] == earlier[b - 1]);
                    }
                }
            }
        }
        i += 1;
    }
    assert(is_ranking(all, root@, words, places@));
    groups_at(groups, &places)
}

/// The points that a word gives a task by its label.
pub open spec fn task_points(label: Seq<char>, term: Seq<char>) -> int {
    let line = normalized(label);
    if split::words(line, Break::White).contains(term) {
        5
    } else if text::occurs(compacted(line), compacted(term)) {
        2
    } else {
        0
    }
}

/// The points that words give a task.
pub open spec fn task_score(label: Seq<char>, terms: Seq<Seq<char>>) -> int
    decreases terms.len(),
{
    if terms.len() == 0 {
        0
    } else {
        task_score(label, terms.drop_last()) + task_points(label, terms.last())
    }
}

/// No words take points away from a task.
proof fn lemma_task_score(label: Seq<char>, terms: Seq<Seq<char>>)
    ensures
        task_score(label, terms) >= 0,
    decreases terms.len(),
{
    if terms.len() > 0 {
        lemma_task_score(label, terms.drop_last());
    }
}

/// The score of a task: none where it has not ended.
pub open spec fn score_in(intents: Seq<RunIntent>, terms: Seq<Seq<char>>, i: int) -> int {
    if intents[i].end_event_id is Some {
        capped(task_score(intents[i].label@, terms))
    } else {
        0
    }
}

/// Whether a task is the one that words mean: it has a score, and none has as
/// much.
pub open spec fn is_meant(intents: Seq<RunIntent>, terms: Seq<Seq<char>>, i: int) -> bool {
    &&& 0 <= i < intents.len()
    &&& score_in(intents, terms, i) > 0
    &&& forall|k: int|
        0 <= k < intents.len() && k != i ==> score_in(intents, terms, k) < score_in(
            intents,
            terms,
            i,
        )
}

/// Whether a result is the place of the task that the words mean.
pub open spec fn is_found(
    intents: Seq<RunIntent>,
    terms: Seq<Seq<char>>,
    found: Option<usize>,
) -> bool {
    match found {
        Some(i) => is_meant(intents, terms, i as int),
        None => forall|i: int| !(#[trigger] is_meant(intents, terms, i)),
    }
}

/// Whether a result is the place of the task that a request means.
pub open spec fn is_match(
    query: Seq<char>,
    intents: Seq<RunIntent>,
    found: Option<usize>,
) -> bool {
    exists|terms: Seq<Seq<char>>|
        #[trigger] are_terms(query, terms) && is_found(intents, terms, found)
}

/// The score that words give a task.
fn score_task(label: &str, terms: &Vec<String>) -> (score: usize)
    ensures
        score == capped(task_score(label@, text::views(terms@))),
{
    let ghost all = text::views(terms@);
    let line = normalize(label);
    let words = split::split_words(line.as_str(), Break::White);
    let tight = compact(line.as_str());
    let mut score: usize = 0;
    let mut i: usize = 0;
    proof {
        assert(all.take(0) =~= Seq::empty());
    }
    while i < terms.len()
        invariant
            i <= terms.len(),
            all == text::views(terms@),
            line@ == normalized(label@),
            text::views(words@) == split::words(line@, Break::White),
            tight@ == compacted(line@),
            score == capped(task_score(label@, all.take(i as int))),
        decreases terms.len() - i,
    {
        proof {
            assert(all.take(i + 1).drop_last() =~= all.take(i as int));
            assert(all.take(i + 1).last() == terms@[i as int]@);
            lemma_task_score(label@, all.take(i as int));
        }
        let more: usize = if text::contains(&words, terms[i].as_str()) {
            5
        } else if text::has(tight.as_str(), compact(terms[i].as_str()).as_str()) {
            2
        } else {
            0
        };
        score = plus(score, more, Ghost(task_score(label@, all.take(i as int))));
        i += 1;
    }
    proof {
        assert(all.take(i as int) =~= all);
    }
    score
}

/// The place of the task that a request means, where it means one.
pub fn match_explicit_intent(query: &str, intents: &Vec<RunIntent>) -> (found: Option<usize>)
    ensures
        is_match(query@, intents@, found),
{
    let terms = important_terms(query);
    let ghost words = text::views(terms@);
    assert(are_terms(query@, words));
    let mut best: Option<usize> = None;
    let mut top: usize = 0;
    let mut tied = false;
    let mut i: usize = 0;
    while i < intents.len()
        invariant
            i <= intents.len(),
            words == text::views(terms@),
            forall|k: int| 0 <= k < i ==> score_in(intents@, words, k) <= top,
            match best {
                Some(b) => {
                    &&& b < i
                    &&& top > 0
                    &&& score_in(intents@, words, b as int) == top
                    &&& tied == exists|k: int|
                        0 <= k < i && k != b && score_in(intents@, words, k) == top
                },
                None => top == 0 && !tied,
            },
        decreases intents.len() - i,
    {
        let score: usize = match intents[i].end_event_id {
            Some(_) => score_task(intents[i].label.as_str(), &terms),
            None => 0,
        };
        assert(score == score_in(intents@, words, i as int));
        if score > top {
            proof {
                assert forall|k: int| 0 <= k < i + 1 && k != i implies score_in(
                    intents@,
                    words,
                    k,
                ) != score by {}
            }
            best = Some(i);
            top = score;
            tied = false;
        } else if score == top && score > 0 {
            tied = true;
        }
        i += 1;
    }
    match best {
        Some(b) => if tied {
            proof {
                let k = choose|k: int|
                    0 <= k < i && k != b && score_in(intents@, words, k) == top;
                assert forall|m: int| !#[trigger] is_meant(intents@, words, m) by {
                    if is_meant(intents@, words, m) {
                        if m != b {
                            assert(score_in(intents@, words, b as int) < score_in(
                                intents@,
                                words,
                                m,
                            ));
                        } else {
                            assert(score_in(intents@, words, k) < score_in(intents@, words, m));
                        }
                    }
                }
            }
            None
        } else {
            proof {
                assert forall|k: int| 0 <= k < intents@.len() && k != b implies score_in(
                    intents@,
                    words,
                    k,
                ) < score_in(intents@, words, b as int) by {}
            }
            Some(b)
        },
        None => None,
    }
}

// ── proposals ───────────────────────────────────────────────────────

/// What would be undone and what kept.
#[derive(Debug)]
pub struct AskProposal {
    pub session: Run,
    pub revert_groups: Vec<ChangeGroup>,
    pub keep_groups: Vec<ChangeGroup>,
    pub unmatched_terms: Vec<String>,
}

/// Whether a group with an id is among others.
pub open spec fn has_id(groups: Seq<GroupView>, id: Seq<char>) -> bool {
    exists|i: int| 0 <= i < groups.len() && (#[trigger] groups[i]).id == id
}

/// The groups with ids that are not among others.
pub open spec fn not_among(others: Seq<GroupView>) -> spec_fn(GroupView) -> bool {
    |g: GroupView| !has_id(others, g.id)
}

/// Whether some group fits a word.
pub open spec fn fits_some(groups: Seq<GroupView>, root: Seq<char>, term: Seq<char>) -> bool {
    exists|i: int|
        0 <= i < groups.len() && score_of(#[trigger] groups[i], root, seq![term]) > 0
}

/// Whether words are those of an intent that fit no group, in their order.
pub open spec fn are_unmatched(
    groups: Seq<GroupView>,
    root: Seq<char>,
    intent: AskIntent,
    words: Seq<Seq<char>>,
) -> bool {
    &&& sorted::ascending(words)
    &&& forall|t: Seq<char>|
        #[trigger] words.contains(t) <==> (text::views(intent.revert_terms@).contains(t)
            || text::views(intent.keep_terms@).contains(t)) && !fits_some(groups, root, t)
}

/// Whether what would be undone and what kept are those that an intent asks for.
pub open spec fn is_proposal(
    groups: Seq<GroupView>,
    root: Seq<char>,
    intent: AskIntent,
    revert: Seq<GroupView>,
    keep: Seq<GroupView>,
    unmatched: Seq<Seq<char>>,
) -> bool {
    exists|kept: Seq<GroupView>, chosen: Seq<GroupView>|
        {
            &&& #[trigger] are_selected(groups, root, text::views(intent.keep_terms@), kept)
            &&& #[trigger] are_chosen(groups, root, intent, chosen)
            &&& revert == rows::retained(chosen, not_among(kept))
            &&& keep == rows::retained(groups, not_among(revert))
            &&& are_unmatched(groups, root, intent, unmatched)
        }
}

/// Whether groups are those that an intent wants undone: all, or those that fit.
pub open spec fn are_chosen(
    groups: Seq<GroupView>,
    root: Seq<char>,
    intent: AskIntent,
    chosen: Seq<GroupView>,
) -> bool {
    if intent.revert_all {
        chosen == groups
    } else {
        are_selected(groups, root, text::views(intent.revert_terms@), chosen)
    }
}

/// Whether a group with an id is among others.
fn among(groups: &Vec<ChangeGroup>, id: &str) -> (yes: bool)
    ensures
        yes == has_id(groups_view(groups@), id@),
{
    let ghost all = groups_view(groups@);
    let mut i: usize = 0;
    while i < groups.len()
        invariant
            i <= groups.len(),
            all == groups_view(groups@),
            forall|k: int| 0 <= k < i ==> (#[trigger] all[k]).id != id@,
        decreases groups.len() - i,
    {
        assert(all[i as int] == groups@[i as int]@);
        if text::same(groups[i].id.as_str(), id) {
            return true;
        }
        i += 1;
    }
    false
}

/// The groups with ids that are not among others.
fn without(groups: &Vec<ChangeGroup>, others: &Vec<ChangeGroup>) -> (list: Vec<ChangeGroup>)
    ensures
        groups_view(list@) == rows::retained(
            groups_view(groups@),
            not_among(groups_view(others@)),
        ),
{
    let ghost all = groups_view(groups@);
    let ghost keep = not_among(groups_view(others@));
    let mut list: Vec<ChangeGroup> = Vec::new();
    let mut i: usize = 0;
    proof {
        assert(groups_view(list@) =~= rows::retained(all.take(0), keep));
    }
    while i < groups.len()
        invariant
            i <= groups.len(),
            all == groups_view(groups@),
            keep == not_among(groups_view(others@)),
            groups_view(list@) == rows::retained(all.take(i as int), keep),
        decreases groups.len() - i,
    {
        proof {
            assert(all.take(i + 1).drop_last() =~= all.take(i as int));
            assert(all.take(i + 1).last() == groups@[i as int]@);
        }
        if !among(others, groups[i].id.as_str()) {
            let ghost earlier = list@;
            list.push(groups[i].clone());
            proof {
                assert(groups_view(list@) =~= groups_view(earlier).push(groups@[i as int]@));
            }
        }
        i += 1;
    }
    proof {
        assert(all.take(i as int) =~= all);
    }
    list
}

/// Whether some group fits a word.
fn any_fits(groups: &Vec<ChangeGroup>, root: &str, term: &String) -> (yes: bool)
    ensures
        yes == fits_some(groups_view(groups@), root@, term@),
{
    let ghost all = groups_view(groups@);
    let mut one: Vec<String> = Vec::new();
    text::add_line(&mut one, term.clone());
    proof {
        assert(text::views(one@) =~= seq![term@]);
    }
    let mut i: usize = 0;
    while i < groups.len()
        invariant
            i <= groups.len(),
            all == groups_view(groups@),
            text::views(one@) == seq![term@],
            forall|k: int|
                0 <= k < i ==> score_of(#[trigger] all[k], root@, seq![term@]) <= 0,
        decreases groups.len() - i,
    {
        assert(all[i as int] == groups@[i as int]@);
        if score_group(&groups[i], root, &one) > 0 {
            return true;
        }
        i += 1;
    }
    false
}

/// Adds the words that fit no group to a set.
fn note_unmatched(
    kept: &mut Vec<String>,
    terms: &Vec<String>,
    groups: &Vec<ChangeGroup>,
    root: &str,
)
    requires
        sorted::in_order(old(kept)@),
    ensures
        sorted::in_order(final(kept)@),
        forall|t: Seq<char>|
            #[trigger] text::views(final(kept)@).contains(t) <==> text::views(
                old(kept)@,
            ).contains(t) || (text::views(terms@).contains(t) && !fits_some(
                groups_view(groups@),
                root@,
                t,
            )),
{
    let ghost start = text::views(kept@);
    let ghost all = text::views(terms@);
    let ghost these = groups_view(groups@);
    let mut i: usize = 0;
    while i < terms.len()
        invariant
            i <= terms.len(),
            start == text::views(old(kept)@),
            all == text::views(terms@),
            these == groups_view(groups@),
            sorted::in_order(kept@),
            forall|t: Seq<char>|
                #[trigger] text::views(kept@).contains(t) <==> start.contains(t) || (all.take(
                    i as int,
                ).contains(t) && !fits_some(these, root@, t)),
        decreases terms.len() - i,
    {
        let ghost before = text::views(kept@);
        let ghost word = terms@[i as int]@;
        if !any_fits(groups, root, &terms[i]) {
            let new = sorted::insert(kept, terms[i].clone());
        }
        proof {
            let t0 = all.take(i as int);
            let t1 = all.take(i + 1);
            assert(t1 =~= t0.push(word));
            assert forall|t: Seq<char>| t1.contains(t) <==> t0.contains(t) || t == word by {
                if t0.contains(t) {
                    let k = choose|k: int| 0 <= k < t0.len() && t0[k] == t;
                    assert(t1[k] == t);
                }
                assert(t1[i as int] == word);
                if t1.contains(t) && t != word {
                    let k = choose|k: int| 0 <= k < t1.len() && t1[k] == t;
                    assert(t0[k] == t);
                }
            }
            assert forall|t: Seq<char>| #[trigger] text::views(kept@).contains(t)
                <==> start.contains(t) || (t1.contains(t) && !fits_some(these, root@, t)) by {
                assert(before.contains(t) <==> start.contains(t) || (t0.contains(t) && !fits_some(
                    these,
                    root@,
                    t,
                )));
            }
        }
        i += 1;
    }
    proof {
        assert(all.take(i as int) =~= all);
    }
}

/// Whether a proposal is the one for a request on the groups of a Run.
pub open spec fn is_proposed(
    query: Seq<char>,
    run: Run,
    root: Seq<char>,
    groups: Seq<ChangeGroup>,
    p: AskProposal,
) -> bool {
    p.session == run && exists|intent: AskIntent|
        #[trigger] is_intent(query, intent) && is_proposal(
            groups_view(groups),
            root,
            intent,
            groups_view(p.revert_groups@),
            groups_view(p.keep_groups@),
            text::views(p.unmatched_terms@),
        )
}

/// What would be undone and what kept, for a request on the groups of a Run.
pub fn build_proposal(query: &str, session: Run, root: &str, groups: &Vec<ChangeGroup>) -> (result:
    Result<AskProposal, Error>)
    ensures
        result matches Ok(p) && is_proposed(query@, session, root@, groups@, p),
{
    let intent = parse_intent(query);
    let kept = select_groups(groups, root, &intent.keep_terms);
    let revert_groups = if intent.revert_all {
        assert(are_chosen(groups_view(groups@), root@, intent, groups_view(groups@)));
        without(groups, &kept)
    } else {
        let chosen = select_groups(groups, root, &intent.revert_terms);
        assert(are_chosen(groups_view(groups@), root@, intent, groups_view(chosen@)));
        without(&chosen, &kept)
    };
    let keep_groups = without(groups, &revert_groups);
    let mut unmatched: Vec<String> = Vec::new();
    proof {
        assert(text::views(unmatched@) =~= Seq::empty());
    }
    note_unmatched(&mut unmatched, &intent.revert_terms, groups, root);
    note_unmatched(&mut unmatched, &intent.keep_terms, groups, root);
    assert(are_unmatched(groups_view(groups@), root@, intent, text::views(unmatched@)));
    assert(is_intent(query@, intent));
    assert(is_proposal(
        groups_view(groups@),
        root@,
        intent,
        groups_view(revert_groups@),
        groups_view(keep_groups@),
        text::views(unmatched@),
    ));
    Ok(AskProposal { session, revert_groups, keep_groups, unmatched_terms: unmatched })
}

/// Every group is kept or undone and never both, and what fits the words of what
/// is to stay is kept.
pub proof fn lemma_proposal_parts(
    groups: Seq<GroupView>,
    root: Seq<char>,
    intent: AskIntent,
    revert: Seq<GroupView>,
    keep: Seq<GroupView>,
    unmatched: Seq<Seq<char>>,
)
    requires
        groups.len() <= usize::MAX,
        is_proposal(groups, root, intent, revert, keep, unmatched),
    ensures
        forall|i: int|
            0 <= i < groups.len() ==> has_id(revert, (#[trigger] groups[i]).id) != keep.contains(
                groups[i],
            ),
        forall|i: int|
            0 <= i < groups.len() && score_of(
                #[trigger] groups[i],
                root,
                text::views(intent.keep_terms@),
            ) > 0 ==> !has_id(revert, groups[i].id),
{
    let (kept, chosen) = choose|kept: Seq<GroupView>, chosen: Seq<GroupView>|
        {
            &&& #[trigger] are_selected(groups, root, text::views(intent.keep_terms@), kept)
            &&& #[trigger] are_chosen(groups, root, intent, chosen)
            &&& revert == rows::retained(chosen, not_among(kept))
            &&& keep == rows::retained(groups, not_among(revert))
            &&& are_unmatched(groups, root, intent, unmatched)
        };
    rows::lemma_retained_contains(groups, not_among(revert));
    rows::lemma_retained_contains(chosen, not_among(kept));
    assert forall|i: int| 0 <= i < groups.len() implies has_id(revert, (#[trigger] groups[i]).id)
        != keep.contains(groups[i]) by {
        assert(groups.contains(groups[i]));
    }
    let terms = text::views(intent.keep_terms@);
    let places = choose|places: Seq<usize>|
        #[trigger] is_ranking(groups, root, terms, places) && kept == order::arranged(
            groups,
            places,
        );
    assert forall|i: int| 0 <= i < groups.len() && score_of(
        #[trigger] groups[i],
        root,
        terms,
    ) > 0 implies !has_id(revert, groups[i].id) by {
        assert(places.contains(i as usize));
        let k = choose|k: int| 0 <= k < places.len() && places[k] == i as usize;
        assert(kept[k].id == groups[i].id);
        if has_id(revert, groups[i].id) {
            let m = choose|m: int| 0 <= m < revert.len() && (#[trigger] revert[m]).id
                == groups[i].id;
            assert(revert.contains(revert[m]));
            assert(not_among(kept)(revert[m]));
        }
    }
}

/// A line on a group.
pub open spec fn group_line(g: GroupView) -> Seq<char> {
    "  "@ + g.label + " — "@ + number::decimal(g.paths.len() as int) + " files, "@
        + number::decimal(g.event_count as int) + " recorded changes, +"@ + number::decimal(
        g.inserted as int,
    ) + " -"@ + number::decimal(g.deleted as int) + " "@ + DIM@ + "("@ + g.id + ")"@ + RESET@
}

/// A line on a group.
pub fn print_group(g: &ChangeGroup) -> (line: String)
    ensures
        line@ == group_line(g@),
{
    let mut line = text::cat3("  ", g.label.as_str(), " — ");
    line.append(number::count_text(g.paths.len()).as_str());
    line.append(" files, ");
    line.append(number::count_text(g.event_count).as_str());
    line.append(" recorded changes, +");
    line.append(number::count_text(g.inserted).as_str());
    line.append(" -");
    line.append(number::count_text(g.deleted).as_str());
    line.append(" ");
    line.append(DIM);
    line.append("(");
    line.append(g.id.as_str());
    line.append(")");
    line.append(RESET);
    line
}

/// The lines on a proposal.
pub open spec fn proposal_lines(
    query: Seq<char>,
    run: Run,
    revert: Seq<GroupView>,
    keep: Seq<GroupView>,
    unmatched: Seq<Seq<char>>,
) -> Seq<Seq<char>> {
    let a = seq![
        BOLD@ + "Checked this Run for matching file changes."@ + RESET@,
        "Run:     "@ + ("r_"@ + number::decimal(run.id as int)) + " ("@ + run.name@ + ")"@,
        "Request: "@ + query,
        ""@,
    ];
    let b = if revert.len() == 0 {
        a.push(YELLOW@ + "Would undo:"@ + RESET@ + " no matching file changes"@)
    } else {
        a.push(YELLOW@ + "Would undo"@ + RESET@) + revert.map_values(
            |g: GroupView| group_line(g),
        )
    };
    let c = if keep.len() == 0 {
        b
    } else {
        b.push(""@).push(GREEN@ + "Would keep"@ + RESET@) + keep.map_values(
            |g: GroupView| group_line(g),
        )
    };
    let d = if unmatched.len() == 0 {
        c
    } else {
        c.push(""@).push(
            DIM@ + "Words not matched to files"@ + RESET@ + ": "@ + text::joined(unmatched, ", "@),
        )
    };
    d.push(""@).push("No files changed."@)
}

/// A line for each group.
fn group_lines(groups: &Vec<ChangeGroup>) -> (lines: Vec<String>)
    ensures
        text::views(lines@) == groups_view(groups@).map_values(|g: GroupView| group_line(g)),
{
    let said = |g: &ChangeGroup| -> (out: String)
        ensures out@ == group_line(g@)
    { print_group(g) };
    let lines = text::lines_for(groups, said, Ghost(|g: ChangeGroup| group_line(g@)));
    proof {
        assert(text::views(lines@) =~= groups_view(groups@).map_values(
            |g: GroupView| group_line(g),
        ));
    }
    lines
}

/// The lines on a proposal.
pub fn print_proposal(query: &str, p: &AskProposal) -> (lines: Vec<String>)
    ensures
        text::views(lines@) == proposal_lines(
            query@,
            p.session,
            groups_view(p.revert_groups@),
            groups_view(p.keep_groups@),
            text::views(p.unmatched_terms@),
        ),
{
    let mut lines: Vec<String> = Vec::new();
    text::add_line(
        &mut lines,
        text::cat3(BOLD, "Checked this Run for matching file changes.", RESET),
    );
    text::add_line(
        &mut lines,
        text::cat5(
            "Run:     ",
            p.session.public_id().as_str(),
            " (",
            p.session.name.as_str(),
            ")",
        ),
    );
    text::add_line(&mut lines, text::cat("Request: ", query));
    text::add_line(&mut lines, "".to_owned());
    proof {
        assert(text::views(lines@) =~= seq![
            BOLD@ + "Checked this Run for matching file changes."@ + RESET@,
            "Run:     "@ + ("r_"@ + number::decimal(p.session.id as int)) + " ("@
                + p.session.name@ + ")"@,
            "Request: "@ + query@,
            ""@,
        ]);
    }
    if p.revert_groups.len() == 0 {
        let mut line = text::cat3(YELLOW, "Would undo:", RESET);
        line.append(" no matching file changes");
        text::add_line(&mut lines, line);
    } else {
        text::add_line(&mut lines, text::cat3(YELLOW, "Would undo", RESET));
        text::add_lines(&mut lines, group_lines(&p.revert_groups));
    }
    if p.keep_groups.len() > 0 {
        text::add_line(&mut lines, "".to_owned());
        text::add_line(&mut lines, text::cat3(GREEN, "Would keep", RESET));
        text::add_lines(&mut lines, group_lines(&p.keep_groups));
    }
    if p.unmatched_terms.len() > 0 {
        text::add_line(&mut lines, "".to_owned());
        text::add_line(
            &mut lines,
            text::cat5(
                DIM,
                "Words not matched to files",
                RESET,
                ": ",
                text::join(&p.unmatched_terms, ", ").as_str(),
            ),
        );
    }
    text::add_line(&mut lines, "".to_owned());
    text::add_line(&mut lines, "No files changed.".to_owned());
    lines
}

// ── the request ─────────────────────────────────────────────────────

/// Whether a result is the Run that is asked about: the one that is named, else
/// the newest that has ended.
pub open spec fn is_asked_run(
    sessions: Seq<Run>,
    project_id: i64,
    name: Option<Seq<char>>,
    usual: Agent,
    result: Result<Run, Error>,
) -> bool {
    match name {
        Some(n) => match run_by_ref(sessions, project_id, n) {
            Some(run) => result matches Ok(r) && r == run,
            None => result matches Err(e) && e@ == "Run '"@ + n + "' not found"@,
        },
        None => match rows::pick(sessions, Order::Newest, ended_runs(project_id)) {
            Some(run) => result matches Ok(r) && r == run,
            None => result matches Err(e) && e@
                == "No completed Runs are available.\nStart one with: undo run "@ + word_of(usual),
        },
    }
}

/// The Runs of a project that have ended.
pub open spec fn ended_runs(project_id: i64) -> spec_fn(Run) -> bool {
    |r: Run| r.project_id == project_id && r.ended_at is Some
}

/// The Run that is asked about.
pub fn resolve_run(db: &Database, project_id: i64, name: Option<&str>, usual: Agent) -> (result: Result<
    Run,
    Error,
>)
    requires
        db@.wf(),
    ensures
        is_asked_run(db@.sessions, project_id, text::view_opt_str(name), usual, result),
{
    if let Some(name) = name {
        return match db.get_run_by_ref(project_id, name)? {
            Some(run) => Ok(run),
            None => Err(Error::new(text::cat3("Run '", name, "' not found"))),
        };
    }
    let test = |r: &Run| -> (yes: bool)
        ensures yes == (r.project_id == project_id && r.ended_at is Some)
    { r.project_id == project_id && r.ended_at.is_some() };
    match rows::first_row(&db.sessions, Order::Newest, test, Ghost(ended_runs(project_id))) {
        Some(run) => Ok(run),
        None => Err(
            Error::new(
                text::cat(
                    "No completed Runs are available.\nStart one with: undo run ",
                    usual.as_str(),
                ),
            ),
        ),
    }
}

/// How a request goes on.
#[derive(Debug)]
pub enum AskStep {
    /// Nothing is done, and what is said of it.
    Nothing(Vec<String>),
    /// A finished task of the Run is taken back.
    Task { run: Run, task: RunIntent, lines: Vec<String> },
    /// Files of the Run are brought back to what they were before it.
    Files {
        run: Run,
        lines: Vec<String>,
        paths: Vec<String>,
        kind: &'static str,
        confidence: &'static str,
    },
}

/// What is said of a request that means a finished task.
pub open spec fn task_lines(query: Seq<char>, run: Run, task: RunIntent) -> Seq<Seq<char>> {
    seq![
        BOLD@ + "Matched your request to a completed task boundary."@ + RESET@,
        "Run:     "@ + ("r_"@ + number::decimal(run.id as int)) + " ("@ + run.name@ + ")"@,
        "Request: "@ + query,
        "Task:    "@ + task.label@ + " ("@ + ("i_"@ + number::decimal(task.id as int)) + ")"@,
        ""@,
    ]
}

/// What is said where a request fits no group.
pub open spec fn unmatched_text(run: Run) -> Seq<char> {
    "No file changes matched your request.\nInspect this Run with: undo run show "@ + ("r_"@
        + number::decimal(run.id as int))
}

/// Whether a result is how a request goes on, by how many changes the Run has
/// made, its tasks and its groups of changes.
pub open spec fn is_next_step(
    query: Seq<char>,
    run: Run,
    changes: int,
    intents: Seq<RunIntent>,
    root: Seq<char>,
    groups: Seq<ChangeGroup>,
    result: Result<AskStep, Error>,
) -> bool {
    if run.ended_at is None {
        result matches Err(e) && e@ == crate::recoveries::still_active_text(run)
    } else if changes == 0 {
        result matches Ok(AskStep::Nothing(lines)) && text::views(lines@) == seq![
            "Run "@ + ("r_"@ + number::decimal(run.id as int)) + " has no recorded file changes."@,
        ]
    } else {
        exists|found: Option<usize>|
            #[trigger] is_match(query, intents, found) && is_step(
                query,
                run,
                intents,
                root,
                groups,
                found,
                result,
            )
    }
}

/// Whether a result goes on with the task at a place, or with groups of changes.
pub open spec fn is_step(
    query: Seq<char>,
    run: Run,
    intents: Seq<RunIntent>,
    root: Seq<char>,
    groups: Seq<ChangeGroup>,
    found: Option<usize>,
    result: Result<AskStep, Error>,
) -> bool {
    match found {
        Some(i) => result matches Ok(AskStep::Task { run: r, task, lines }) && r == run && task
            == intents[i as int] && text::views(lines@) == task_lines(query, run, task),
        None => if groups.len() == 0 {
            result matches Ok(AskStep::Nothing(lines)) && text::views(lines@) == seq![
                "Run "@ + ("r_"@ + number::decimal(run.id as int))
                    + " has no recoverable groups of file changes."@,
            ]
        } else {
            exists|p: AskProposal|
                #[trigger] is_proposed(query, run, root, groups, p) && is_proposal_step(
                    query,
                    p,
                    result,
                )
        },
    }
}

/// Whether a result goes on with what a proposal would undo.
pub open spec fn is_proposal_step(
    query: Seq<char>,
    p: AskProposal,
    result: Result<AskStep, Error>,
) -> bool {
    let said = proposal_lines(
        query,
        p.session,
        groups_view(p.revert_groups@),
        groups_view(p.keep_groups@),
        text::views(p.unmatched_terms@),
    );
    if p.revert_groups@.len() == 0 {
        result matches Ok(AskStep::Nothing(lines)) && text::views(lines@) == said.push(""@).push(
            unmatched_text(p.session),
        )
    } else {
        result matches Ok(AskStep::Files { run, lines, paths, kind, confidence }) && run
            == p.session && text::views(lines@) == said && sorted::is_sorted_set(
            group_paths(p.revert_groups@),
            text::views(paths@),
        ) && kind@ == "intent-fallback"@ && confidence@ == "path-match"@
    }
}

/// Tells that a request may not change files without permission, where it has
/// none.
pub fn check_permission(apply: bool, yes: bool) -> (result: Result<(), Error>)
    ensures
        if apply && !yes {
            result matches Err(e) && e@
                == "No files changed: --yes is required to apply a recovery plan.\nPreview first, then rerun with --apply --yes to give Undo permission to change files."@
        } else {
            result is Ok
        },
{
    if apply && !yes {
        return Err(
            Error::new(
                "No files changed: --yes is required to apply a recovery plan.\nPreview first, then rerun with --apply --yes to give Undo permission to change files.".to_owned(),
            ),
        );
    }
    Ok(())
}

/// One line of text.
fn one_line(line: String) -> (lines: Vec<String>)
    ensures
        text::views(lines@) == seq![line@],
{
    let mut lines: Vec<String> = Vec::new();
    text::add_line(&mut lines, line);
    assert(text::views(lines@) =~= seq![line@]);
    lines
}

/// The lines on a request that means a finished task.
fn lines_on_task(query: &str, run: &Run, task: &RunIntent) -> (lines: Vec<String>)
    ensures
        text::views(lines@) == task_lines(query@, *run, *task),
{
    let mut lines: Vec<String> = Vec::new();
    text::add_line(
        &mut lines,
        text::cat3(BOLD, "Matched your request to a completed task boundary.", RESET),
    );
    text::add_line(
        &mut lines,
        text::cat5("Run:     ", run.public_id().as_str(), " (", run.name.as_str(), ")"),
    );
    text::add_line(&mut lines, text::cat("Request: ", query));
    text::add_line(
        &mut lines,
        text::cat5("Task:    ", task.label.as_str(), " (", task.public_id().as_str(), ")"),
    );
    text::add_line(&mut lines, "".to_owned());
    assert(text::views(lines@) =~= task_lines(query@, *run, *task));
    lines
}

/// How a request on a Run goes on: a finished task that it means is taken back,
/// else the files of the groups that it fits.
pub fn cmd_ask(
    query: &str,
    run: Run,
    changes: usize,
    intents: &Vec<RunIntent>,
    root: &str,
    groups: &Vec<ChangeGroup>,
) -> (result: Result<AskStep, Error>)
    ensures
        is_next_step(query@, run, changes as int, intents@, root@, groups@, result),
{
    if run.is_active() {
        return Err(crate::recoveries::still_active(&run));
    }
    if changes == 0 {
        return Ok(
            AskStep::Nothing(
                one_line(
                    text::cat3("Run ", run.public_id().as_str(), " has no recorded file changes."),
                ),
            ),
        );
    }
    let found = match_explicit_intent(query, intents);
    let ghost seen = found;
    assert(is_match(query@, intents@, seen));
    if let Some(i) = found {
        let task = intents[i].clone();
        let lines = lines_on_task(query, &run, &task);
        let result = Ok(AskStep::Task { run, task, lines });
        assert(is_step(query@, run, intents@, root@, groups@, seen, result));
        return result;
    }
    if groups.len() == 0 {
        let lines = one_line(
            text::cat3(
                "Run ",
                run.public_id().as_str(),
                " has no recoverable groups of file changes.",
            ),
        );
        let result = Ok(AskStep::Nothing(lines));
        assert(is_step(query@, run, intents@, root@, groups@, seen, result));
        return result;
    }
    let p = build_proposal(query, run, root, groups)?;
    let ghost proposal = p;
    assert(is_proposed(query@, run, root@, groups@, proposal));
    let mut lines = print_proposal(query, &p);
    if p.revert_groups.len() == 0 {
        text::add_line(&mut lines, "".to_owned());
        text::add_line(
            &mut lines,
            text::cat(
                "No file changes matched your request.\nInspect this Run with: undo run show ",
                p.session.public_id().as_str(),
            ),
        );
        let result = Ok(AskStep::Nothing(lines));
        assert(is_proposal_step(query@, proposal, result));
        assert(is_step(query@, run, intents@, root@, groups@, seen, result));
        return result;
    }
    let paths = all_group_paths(&p.revert_groups);
    let result = Ok(
        AskStep::Files {
            run: p.session,
            lines,
            paths,
            kind: "intent-fallback",
            confidence: "path-match",
        },
    );
    assert(is_proposal_step(query@, proposal, result));
    assert(is_step(query@, run, intents@, root@, groups@, seen, result));
    result
}

} // verus!
