//! Scoring a candidate against the query, and re-ranking a session's
//! candidates after the query has changed.

use vstd::prelude::*;
use crate::fuzzyfinder::align::{
    alignment_score, best_alignment, lemma_best_alignment_is_maximum, lemma_exact_match_is_best,
    MATCH,
};
use crate::fuzzyfinder::rank::{
    is_ranked, lemma_ranked_idempotent, lemma_ranked_is_ranked, lemma_ranked_keeps_texts,
    lemma_ranked_permutes, rank, ranked, texts,
};
use crate::fuzzyfinder::ui::{Pick, PickView, Picker, PickerView, views};

verus! {

/// The lowercase form of a text, as `str::to_lowercase` of the standard
/// library gives it.
pub uninterp spec fn lowercase(text: Seq<char>) -> Seq<char>;

/// Calls `str::to_lowercase`. The contract gives its result the name
/// `lowercase`; beyond that it claims nothing of it.
#[verifier::external_body]
fn to_lowercase(text: &str) -> (folded: String)
    ensures
        folded@ == lowercase(text@),
{
    text.to_lowercase()
}

/// The scalars of a text, one by one.
fn scalars(text: &str) -> (out: Vec<char>)
    ensures
        out@ == text@,
{
    let mut out: Vec<char> = Vec::new();
    for c in it: text.chars()
        invariant
            it.seq() == text@,
            out@.len() == it.index(),
            forall|k: int| 0 <= k < out@.len() ==> out@[k] == text@[k],
    {
        out.push(c);
    }
    out
}

/// The score of a candidate against a query: zero where either is empty,
/// otherwise the local alignment score of the two lowercase forms.
pub open spec fn score_spec(query: Seq<char>, text: Seq<char>) -> nat {
    if query.len() == 0 || text.len() == 0 {
        0
    } else {
        best_alignment(lowercase(query), lowercase(text)) as nat
    }
}

/// The two texts are equal but for the case of their letters.
pub open spec fn same_up_to_case(a: Seq<char>, b: Seq<char>) -> bool {
    lowercase(a) == lowercase(b) && (a.len() == 0 <==> b.len() == 0)
}

/// The query is short enough that no candidate's score can leave `usize`.
pub open spec fn scorable(query: Seq<char>) -> bool {
    query.len() == 0 || MATCH * lowercase(query).len() <= usize::MAX
}

/// Against a scorable query every score fits in `usize`.
pub proof fn lemma_scorable_bounds_scores(query: Seq<char>, text: Seq<char>)
    requires
        scorable(query),
    ensures
        score_spec(query, text) <= usize::MAX,
{
    lemma_best_alignment_is_maximum(lowercase(query), lowercase(text));
}

/// Scoring ignores case: a query and a candidate score the same as any
/// query and candidate that equal them up to case.
pub proof fn lemma_score_case_insensitive(
    query: Seq<char>,
    text: Seq<char>,
    other_query: Seq<char>,
    other_text: Seq<char>,
)
    requires
        same_up_to_case(query, other_query),
        same_up_to_case(text, other_text),
    ensures
        score_spec(query, text) == score_spec(other_query, other_text),
{
}

/// A candidate that equals the query up to case scores at least as high as
/// any other candidate does against that query: it scores `MATCH` for every
/// scalar of the lowercase query.
pub proof fn lemma_exact_match_scores_highest(
    query: Seq<char>,
    exact: Seq<char>,
    other: Seq<char>,
)
    requires
        same_up_to_case(exact, query),
    ensures
        score_spec(query, other) <= score_spec(query, exact),
        query.len() > 0 ==> score_spec(query, exact) == MATCH * lowercase(query).len(),
{
    lemma_exact_match_is_best(lowercase(query), lowercase(other));
    lemma_best_alignment_is_maximum(lowercase(query), lowercase(other));
}

/// The local alignment score of the lowercase forms of two texts. The score
/// has to fit in `usize`.
pub fn smith_waterman_score(s1: &String, s2: &String) -> (r: usize)
    requires
        best_alignment(lowercase(s1@), lowercase(s2@)) <= usize::MAX,
    ensures
        r == best_alignment(lowercase(s1@), lowercase(s2@)),
{
    let folded1 = to_lowercase(s1.as_str());
    let folded2 = to_lowercase(s2.as_str());
    let a = scalars(folded1.as_str());
    let b = scalars(folded2.as_str());
    alignment_score(a.as_slice(), b.as_slice())
}

/// Scores the candidate `pick` against the query `input`. The score has to
/// fit in `usize`, as it does against every query that `is_scorable` accepts.
pub fn score(input: &String, pick: &String) -> (r: usize)
    requires
        score_spec(input@, pick@) <= usize::MAX,
    ensures
        r == score_spec(input@, pick@),
        input@.len() == 0 ==> r == 0,
        pick@.len() == 0 ==> r == 0,
{
    if input.as_str().is_empty() || pick.as_str().is_empty() {
        return 0;
    }
    proof {
        lemma_best_alignment_is_maximum(lowercase(input@), lowercase(pick@));
    }
    smith_waterman_score(input, pick)
}

/// Tells whether the query is short enough to score every candidate.
pub fn is_scorable(input: &String) -> (r: bool)
    ensures
        r == scorable(input@),
{
    if input.as_str().is_empty() {
        return true;
    }
    let folded = to_lowercase(input.as_str());
    let n = folded.as_str().unicode_len();
    n <= usize::MAX / MATCH
}

/// The candidates with their scores against `query`, in unchanged order.
pub open spec fn rescored(picks: Seq<PickView>, query: Seq<char>) -> Seq<PickView> {
    picks.map_values(|p: PickView| PickView { text: p.text, score: score_spec(query, p.text) })
}

/// Every candidate's score against `query` fits in `usize`.
pub open spec fn scores_fit(picks: Seq<PickView>, query: Seq<char>) -> bool {
    forall|i: int| 0 <= i < picks.len() ==> score_spec(query, #[trigger] picks[i].text) <= usize::MAX
}

/// Every candidate carries its score against `query`.
pub open spec fn scores_fresh(picks: Seq<PickView>, query: Seq<char>) -> bool {
    forall|i: int| 0 <= i < picks.len() ==> (#[trigger] picks[i]).score == score_spec(query, picks[i].text)
}

/// The candidates scored against `query` and put into ranked order.
pub open spec fn reranked(picks: Seq<PickView>, query: Seq<char>) -> Seq<PickView> {
    ranked(rescored(picks, query))
}

/// After re-ranking, the candidates are the same texts, each with its score
/// against the query, in ranked order.
pub proof fn lemma_reranked(picks: Seq<PickView>, query: Seq<char>)
    ensures
        reranked(picks, query).len() == picks.len(),
        is_ranked(reranked(picks, query)),
        scores_fresh(reranked(picks, query), query),
        reranked(picks, query).to_multiset() == rescored(picks, query).to_multiset(),
        texts(reranked(picks, query)).to_multiset() == texts(picks).to_multiset(),
{
    lemma_ranked_keeps_texts(rescored(picks, query));
    assert(texts(rescored(picks, query)) =~= texts(picks));
    let scored = rescored(picks, query);
    let r = reranked(picks, query);
    lemma_ranked_is_ranked(scored);
    lemma_ranked_permutes(scored);
    assert forall|i: int| 0 <= i < r.len() implies (#[trigger] r[i]).score == score_spec(
        query,
        r[i].text,
    ) by {
        assert(r.contains(r[i]));
        r.to_multiset_ensures();
        scored.to_multiset_ensures();
        assert(scored.to_multiset().count(r[i]) > 0);
        assert(scored.contains(r[i]));
    }
}

/// Re-ranking is idempotent: a second pass with the same query changes
/// neither the order nor any score.
pub proof fn lemma_rerank_idempotent(picks: Seq<PickView>, query: Seq<char>)
    ensures
        reranked(reranked(picks, query), query) == reranked(picks, query),
{
    let once = reranked(picks, query);
    lemma_reranked(picks, query);
    assert(rescored(once, query) =~= once);
    lemma_ranked_idempotent(rescored(picks, query));
}

/// Scores every candidate of the session against its query and puts the
/// candidates into ranked order. Query, state and selection stay as they are.
/// The scores have to fit in `usize`, as they do against every query that
/// `is_scorable` accepts.
pub fn sort_by_score(picker: &mut Picker)
    requires
        scores_fit(old(picker)@.picks, old(picker)@.query),
    ensures
        final(picker)@ == (PickerView {
            picks: reranked(old(picker)@.picks, old(picker)@.query),
            ..old(picker)@
        }),
        is_ranked(final(picker)@.picks),
        scores_fresh(final(picker)@.picks, final(picker)@.query),
{
    let n = picker.picks.len();
    let ghost before = picker@.picks;
    let ghost query = picker@.query;
    let mut i: usize = 0;
    while i < n
        invariant
            i <= n,
            n == picker.picks@.len(),
            before.len() == n,
            picker.input@ == query,
            picker.state == old(picker).state,
            picker.selection == old(picker).selection,
            scores_fit(before, query),
            forall|k: int| 0 <= k < i ==> (#[trigger] picker.picks@[k])@ == rescored(before, query)[k],
            forall|k: int| i <= k < n ==> (#[trigger] picker.picks@[k])@ == before[k],
        decreases n - i,
    {
        assert(score_spec(query, before[i as int].text) <= usize::MAX);
        let s = score(&picker.input, &picker.picks[i].element);
        picker.picks[i].score = s;
        i += 1;
    }
    proof {
        assert(views(picker.picks@) =~= rescored(before, query));
        lemma_reranked(before, query);
    }
    let mut scored: Vec<Pick> = Vec::new();
    std::mem::swap(&mut picker.picks, &mut scored);
    picker.picks = rank(scored);
}

} // verus!
