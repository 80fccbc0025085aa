//! What a request in words undoes, and what it keeps.
use vstd::prelude::*;

use crate::ask::{
    are_chosen, are_selected, compacted, has_id, is_match, is_meant, is_parted, is_proposal,
    is_ranking, normalized, not_among, path_points, paths_points, points, score_in, score_of,
    task_score, term_points, AskIntent,
};
use crate::groups::GroupView;
use crate::models::RunIntent;
use crate::path;
use crate::rows;
use crate::split;
use crate::split::Break;
use crate::text;

verus! {

// ── groups ──────────────────────────────────────────────────────────

/// Whether a word stands in a text.
pub open spec fn stands_in(word: Seq<char>, s: Seq<char>) -> bool {
    exists|i: int|
        0 <= i && i + word.len() <= s.len() && #[trigger] s.subrange(i, i + word.len()) == word
}

/// Whether a word is about one of the files of a group.
pub open spec fn is_about_path(paths: Seq<Seq<char>>, root: Seq<char>, word: Seq<char>) -> bool {
    exists|k: int|
        0 <= k < paths.len() && {
            let low = text::lower(path::relative(#[trigger] paths[k], root));
            stands_in(word, low) || split::has_word(low, Break::Symbol, word)
        }
}

/// Whether a word is about a group: it stands in what the group is called or in the
/// path of one of its files, whatever the size of the letters; or the group is called
/// by a part of it, or by the same letters.
pub open spec fn is_about(group: GroupView, root: Seq<char>, word: Seq<char>) -> bool {
    word.len() > 0 && {
        let id = text::lower(group.id);
        let label = text::lower(group.label);
        ||| stands_in(word, id)
        ||| stands_in(id, word)
        ||| compacted(id) == compacted(word)
        ||| stands_in(word, label)
        ||| split::has_word(label, Break::White, word)
        ||| is_about_path(group.paths, root, word)
    }
}

/// Whether one of some words is about a group.
pub open spec fn is_asked_for(group: GroupView, root: Seq<char>, words: Seq<Seq<char>>) -> bool {
    exists|i: int| 0 <= i < words.len() && is_about(group, root, #[trigger] words[i])
}

/// The words for it agree.
proof fn lemma_stands_in(word: Seq<char>, s: Seq<char>)
    ensures
        stands_in(word, s) <==> text::occurs(s, word),
{
    if text::occurs(s, word) {
        let i = choose|i: int| text::occurs_at(s, word, i);
        assert(s.subrange(i, i + word.len()) == word);
    }
    if stands_in(word, s) {
        let i = choose|i: int|
            0 <= i && i + word.len() <= s.len() && #[trigger] s.subrange(i, i + word.len()) == word;
        assert(text::occurs_at(s, word, i));
    }
}

/// A word stands in itself.
proof fn lemma_stands_in_itself(word: Seq<char>)
    ensures
        stands_in(word, word),
{
    let from: int = 0;
    assert(word.subrange(from, from + word.len()) =~= word);
}

/// Paths give points exactly where a word is about one of them.
proof fn lemma_paths(paths: Seq<Seq<char>>, root: Seq<char>, word: Seq<char>)
    ensures
        paths_points(paths, root, word) >= 0,
        paths_points(paths, root, word) > 0 <==> is_about_path(paths, root, word),
    decreases paths.len(),
{
    if paths.len() > 0 {
        let front = paths.drop_last();
        let n = paths.len() - 1;
        lemma_paths(front, root, word);
        let low = text::lower(path::relative(paths[n], root));
        lemma_stands_in(word, low);
        if is_about_path(front, root, word) {
            let k = choose|k: int|
                0 <= k < front.len() && {
                    let low = text::lower(path::relative(#[trigger] front[k], root));
                    stands_in(word, low) || split::has_word(low, Break::Symbol, word)
                };
            assert(paths[k] == front[k]);
        }
        if is_about_path(paths, root, word) && path_points(
            path::relative(paths.last(), root),
            word,
        ) == 0 {
            let k = choose|k: int|
                0 <= k < paths.len() && {
                    let low = text::lower(path::relative(#[trigger] paths[k], root));
                    stands_in(word, low) || split::has_word(low, Break::Symbol, word)
                };
            assert(k < n);
            assert(front[k] == paths[k]);
        }
        if path_points(path::relative(paths.last(), root), word) > 0 {
            assert(paths[n] == paths.last());
        }
    }
}

/// A word gives points exactly where it is about a group.
proof fn lemma_term(group: GroupView, root: Seq<char>, word: Seq<char>)
    ensures
        term_points(group, root, word) >= 0,
        term_points(group, root, word) > 0 <==> is_about(group, root, word),
{
    lemma_paths(group.paths, root, word);
    let id = text::lower(group.id);
    lemma_stands_in(word, id);
    lemma_stands_in(id, word);
    lemma_stands_in(word, text::lower(group.label));
    lemma_stands_in_itself(word);
}

/// Words give points exactly where one of them is about a group.
proof fn lemma_points(group: GroupView, root: Seq<char>, words: Seq<Seq<char>>)
    ensures
        points(group, root, words) >= 0,
        points(group, root, words) > 0 <==> is_asked_for(group, root, words),
    decreases words.len(),
{
    if words.len() > 0 {
        let front = words.drop_last();
        let n = words.len() - 1;
        lemma_points(group, root, front);
        lemma_term(group, root, words[n]);
        if is_asked_for(group, root, front) {
            let i = choose|i: int| 0 <= i < front.len() && is_about(group, root, #[trigger] front[i]);
            assert(words[i] == front[i]);
        }
        if is_asked_for(group, root, words) && !is_about(group, root, words[n]) {
            let i = choose|i: int| 0 <= i < words.len() && is_about(group, root, #[trigger] words[i]);
            assert(front[i] == words[i]);
        }
        if is_about(group, root, words[n]) {
            assert(words.last() == words[n]);
        }
    }
}

/// The groups that words choose are those that one of them is about.
pub proof fn lemma_words_choose(
    groups: Seq<GroupView>,
    root: Seq<char>,
    words: Seq<Seq<char>>,
    list: Seq<GroupView>,
)
    requires
        groups.len() <= usize::MAX,
        are_selected(groups, root, words, list),
    ensures
        forall|g: GroupView| #[trigger]
            list.contains(g) <==> groups.contains(g) && is_asked_for(g, root, words),
{
    let places = choose|places: Seq<usize>|
        #[trigger] is_ranking(groups, root, words, places) && list == crate::order::arranged(
            groups,
            places,
        );
    assert forall|g: GroupView| #[trigger] list.contains(g) <==> groups.contains(g) && is_asked_for(
        g,
        root,
        words,
    ) by {
        lemma_points(g, root, words);
        if list.contains(g) {
            let i = choose|i: int| 0 <= i < list.len() && list[i] == g;
            assert(places[i] < groups.len());
            assert(groups[places[i] as int] == g);
        }
        if groups.contains(g) && is_asked_for(g, root, words) {
            let k = choose|k: int| 0 <= k < groups.len() && groups[k] == g;
            assert(places.contains(k as usize));
            let i = choose|i: int| 0 <= i < places.len() && places[i] == k as usize;
            assert(list[i] == g);
        }
    }
}

/// Whether no two groups have the same id.
pub open spec fn ids_differ(groups: Seq<GroupView>) -> bool {
    forall|i: int, j: int|
        0 <= i < j < groups.len() ==> (#[trigger] groups[i]).id != (#[trigger] groups[j]).id
}

/// What a request undoes are the groups that it asks for, or all, but never one that it
/// asks to keep; and it keeps all others. Every group is either undone or kept.
pub proof fn lemma_request_undoes_what_it_asks_for(
    groups: Seq<GroupView>,
    root: Seq<char>,
    intent: AskIntent,
    revert: Seq<GroupView>,
    keep: Seq<GroupView>,
    unmatched: Seq<Seq<char>>,
)
    requires
        groups.len() <= usize::MAX,
        ids_differ(groups),
        is_proposal(groups, root, intent, revert, keep, unmatched),
    ensures
        forall|g: GroupView| #[trigger]
            revert.contains(g) <==> groups.contains(g) && (intent.revert_all || is_asked_for(
                g,
                root,
                text::views(intent.revert_terms@),
            )) && !is_asked_for(g, root, text::views(intent.keep_terms@)),
        forall|g: GroupView| #[trigger]
            keep.contains(g) <==> groups.contains(g) && !revert.contains(g),
        forall|word: Seq<char>| #[trigger]
            unmatched.contains(word) <==> (text::views(intent.revert_terms@).contains(word)
                || text::views(intent.keep_terms@).contains(word)) && !exists|i: int|
                0 <= i < groups.len() && is_about(#[trigger] groups[i], root, word),
{
    let back = text::views(intent.revert_terms@);
    let stay = text::views(intent.keep_terms@);
    let (kept, chosen) = choose|kept: Seq<GroupView>, chosen: Seq<GroupView>|
        {
            &&& #[trigger] are_selected(groups, root, stay, kept)
            &&& #[trigger] are_chosen(groups, root, intent, chosen)
            &&& revert == rows::retained(chosen, not_among(kept))
            &&& keep == rows::retained(groups, not_among(revert))
            &&& crate::ask::are_unmatched(groups, root, intent, unmatched)
        };
    lemma_words_choose(groups, root, stay, kept);
    if !intent.revert_all {
        lemma_words_choose(groups, root, back, chosen);
    }
    rows::lemma_retained_contains(chosen, not_among(kept));
    rows::lemma_retained_contains(groups, not_among(revert));
    assert forall|g: GroupView| groups.contains(g) implies (#[trigger] has_id(kept, g.id)
        <==> kept.contains(g)) by {
        lemma_same_id(groups, kept, g);
    }
    assert forall|g: GroupView| #[trigger] revert.contains(g) <==> groups.contains(g) && (
    intent.revert_all || is_asked_for(g, root, back)) && !is_asked_for(g, root, stay) by {
        if groups.contains(g) {
            lemma_same_id(groups, kept, g);
        }
    }
    assert forall|g: GroupView| #[trigger] keep.contains(g) <==> groups.contains(g)
        && !revert.contains(g) by {
        if groups.contains(g) {
            assert forall|r: GroupView| #[trigger] revert.contains(r) implies groups.contains(r) by {}
            lemma_same_id(groups, revert, g);
        }
    }
    assert forall|word: Seq<char>| #[trigger] unmatched.contains(word) <==> (back.contains(word)
        || stay.contains(word)) && !exists|i: int|
        0 <= i < groups.len() && is_about(#[trigger] groups[i], root, word) by {
        assert forall|i: int| 0 <= i < groups.len() implies (score_of(
            #[trigger] groups[i],
            root,
            seq![word],
        ) > 0 <==> is_about(groups[i], root, word)) by {
            lemma_points(groups[i], root, seq![word]);
            assert(seq![word][0] == word);
            if is_asked_for(groups[i], root, seq![word]) {
                let k = choose|k: int|
                    0 <= k < seq![word].len() && is_about(
                        groups[i],
                        root,
                        #[trigger] seq![word][k],
                    );
            }
        }
        if crate::ask::fits_some(groups, root, word) {
            let i = choose|i: int|
                0 <= i < groups.len() && score_of(#[trigger] groups[i], root, seq![word]) > 0;
            assert(is_about(groups[i], root, word));
        }
    }
}

/// Where ids differ, a group is among some of the groups exactly where its id is.
proof fn lemma_same_id(groups: Seq<GroupView>, part: Seq<GroupView>, g: GroupView)
    requires
        ids_differ(groups),
        groups.contains(g),
        forall|p: GroupView| #[trigger] part.contains(p) ==> groups.contains(p),
    ensures
        has_id(part, g.id) <==> part.contains(g),
{
    let a = choose|a: int| 0 <= a < groups.len() && groups[a] == g;
    if has_id(part, g.id) {
        let i = choose|i: int| 0 <= i < part.len() && (#[trigger] part[i]).id == g.id;
        assert(part.contains(part[i]));
        let b = choose|b: int| 0 <= b < groups.len() && groups[b] == part[i];
        if a < b {
            assert(groups[a].id != groups[b].id);
        } else if b < a {
            assert(groups[b].id != groups[a].id);
        }
    }
    if part.contains(g) {
        let i = choose|i: int| 0 <= i < part.len() && part[i] == g;
        assert(part[i].id == g.id);
    }
}

// ── tasks ───────────────────────────────────────────────────────────

/// Whether a word is about a task: it is a word of what the task is called, or its
/// letters stand in it.
pub open spec fn is_about_task(label: Seq<char>, word: Seq<char>) -> bool {
    split::words(normalized(label), Break::White).contains(word) || stands_in(
        compacted(word),
        compacted(normalized(label)),
    )
}

/// Whether one of some words is about a task.
pub open spec fn is_task_asked_for(label: Seq<char>, words: Seq<Seq<char>>) -> bool {
    exists|i: int| 0 <= i < words.len() && is_about_task(label, #[trigger] words[i])
}

/// Words give a task points exactly where one of them is about it.
proof fn lemma_task_points(label: Seq<char>, words: Seq<Seq<char>>)
    ensures
        task_score(label, words) >= 0,
        task_score(label, words) > 0 <==> is_task_asked_for(label, words),
    decreases words.len(),
{
    if words.len() > 0 {
        let front = words.drop_last();
        let n = words.len() - 1;
        lemma_task_points(label, front);
        lemma_stands_in(compacted(words[n]), compacted(normalized(label)));
        if is_task_asked_for(label, front) {
            let i = choose|i: int| 0 <= i < front.len() && is_about_task(label, #[trigger] front[i]);
            assert(words[i] == front[i]);
        }
        if is_task_asked_for(label, words) && !is_about_task(label, words[n]) {
            let i = choose|i: int| 0 <= i < words.len() && is_about_task(label, #[trigger] words[i]);
            assert(front[i] == words[i]);
        }
        if is_about_task(label, words[n]) {
            assert(words.last() == words[n]);
        }
    }
}

/// A task that a request means has ended, and a word of the request is about it. Where
/// one task alone is such, it is the one that is meant.
pub proof fn lemma_which_task_is_meant(
    query: Seq<char>,
    intents: Seq<RunIntent>,
    found: Option<usize>,
)
    requires
        is_match(query, intents, found),
    ensures
        exists|words: Seq<Seq<char>>|
            {
                &&& #[trigger] crate::ask::are_terms(query, words)
                &&& (found is Some ==> found->0 < intents.len() && is_candidate(
                    intents[found->0 as int],
                    words,
                ))
                &&& forall|i: int|
                    #[trigger] is_only_candidate(intents, words, i) ==> found == Some(i as usize)
            },
{
    let words = choose|words: Seq<Seq<char>>|
        #[trigger] crate::ask::are_terms(query, words) && crate::ask::is_found(
            intents,
            words,
            found,
        );
    assert forall|i: int| 0 <= i < intents.len() implies (score_in(intents, words, i) > 0
        <==> is_candidate(#[trigger] intents[i], words)) by {
        lemma_task_points(intents[i].label@, words);
    }
    assert forall|i: int|
        #[trigger] is_only_candidate(intents, words, i) implies found == Some(i as usize) by {
        assert forall|k: int| 0 <= k < intents.len() && k != i implies score_in(intents, words, k)
            < score_in(intents, words, i) by {
            assert(!is_candidate(intents[k], words));
            lemma_task_points(intents[k].label@, words);
        }
        assert(is_meant(intents, words, i));
        if let Some(at) = found {
            if at != i {
                assert(is_candidate(intents[at as int], words));
            }
        }
    }
    if let Some(i) = found {
        assert(is_candidate(intents[i as int], words));
    }
}

/// Whether one task alone has ended and is what one of some words is about.
pub open spec fn is_only_candidate(intents: Seq<RunIntent>, words: Seq<Seq<char>>, i: int) -> bool {
    &&& 0 <= i < intents.len()
    &&& is_candidate(intents[i], words)
    &&& forall|k: int|
        0 <= k < intents.len() && k != i ==> !is_candidate(#[trigger] intents[k], words)
}

/// Whether a task has ended, and one of some words is about it.
pub open spec fn is_candidate(task: RunIntent, words: Seq<Seq<char>>) -> bool {
    task.end_event_id is Some && is_task_asked_for(task.label@, words)
}

// ── what is to be kept ──────────────────────────────────────────────

/// Whether a text is one of the marks behind which a request says what to keep.
pub open spec fn is_mark(mark: Seq<char>) -> bool {
    mark == " but keep "@ || mark == " except "@ || mark == " keep "@ || mark == " without "@
}

/// A request is cut where it first says what to keep: what stands before is to be
/// undone, and what stands behind is to be kept. Where it does not say so, all of it is
/// about what is to be undone.
pub proof fn lemma_request_is_cut(query: Seq<char>, parts: (Seq<char>, Option<Seq<char>>))
    requires
        is_parted(query, parts),
    ensures
        match parts.1 {
            Some(keep) => exists|mark: Seq<char>| #[trigger]
                is_mark(mark) && text::lower(query) == text::lower(parts.0) + mark + text::lower(
                    keep,
                ) && parts.0.len() + mark.len() + keep.len() == query.len() && query.take(
                    parts.0.len() as int,
                ) == parts.0 && query.skip(query.len() - keep.len()) == keep,
            None => parts.0 == query && forall|mark: Seq<char>| #[trigger]
                is_mark(mark) ==> !stands_in(mark, text::lower(query)),
        },
        (exists|mark: Seq<char>| #[trigger]
            is_mark(mark) && stands_in(mark, text::lower(query))) ==> parts.1 is Some,
{
    let low = text::lower(query);
    lemma_stands_in(" but keep "@, low);
    lemma_stands_in(" except "@, low);
    lemma_stands_in(" keep "@, low);
    lemma_stands_in(" without "@, low);
    if let Some(keep) = parts.1 {
        let mark = if text::occurs(low, " but keep "@) {
            " but keep "@
        } else if text::occurs(low, " except "@) {
            " except "@
        } else if text::occurs(low, " keep "@) {
            " keep "@
        } else {
            " without "@
        };
        assert(is_mark(mark));
        let at = choose|at: int|
            {
                &&& #[trigger] text::is_first_at(low, mark, Some(at))
                &&& parts == (query.take(at), Some(query.skip(at + mark.len())))
            };
        assert(text::occurs_at(low, mark, at));
        assert(low.len() == query.len());
        assert(low =~= text::lower(parts.0) + mark + text::lower(keep)) by {
            assert(text::lower(query.take(at)) =~= low.take(at));
            assert(text::lower(query.skip(at + mark.len())) =~= low.skip(at + mark.len()));
            assert(low.subrange(at, at + mark.len()) == mark);
            assert(low =~= low.take(at) + low.subrange(at, at + mark.len()) + low.skip(
                at + mark.len(),
            ));
        }
        assert(query.skip(query.len() - keep.len()) =~= keep);
    }
}

} // verus!
