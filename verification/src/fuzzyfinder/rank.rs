//! The ranked order of candidates: higher scores first, and among equal scores
//! the shorter text first. Candidates that tie on both keep the order they
//! had.

use vstd::prelude::*;
use crate::fuzzyfinder::ui::{Pick, PickView, views};

verus! {

/// The length by which ties are broken: the size of the text in UTF-8.
pub open spec fn text_len(text: Seq<char>) -> nat {
    vstd::utf8::encode_utf8(text).len()
}

/// `x` belongs strictly before `y`: it scores higher, or it scores the same
/// and is shorter.
pub open spec fn outranks(x: PickView, y: PickView) -> bool {
    x.score > y.score || (x.score == y.score && text_len(x.text) < text_len(y.text))
}

/// Of any two entries of `s`, the earlier one scores higher, or scores the
/// same and is not longer.
pub open spec fn is_ranked(s: Seq<PickView>) -> bool {
    forall|i: int, j: int|
        0 <= i < j < s.len() ==> s[i].score > s[j].score || (s[i].score == s[j].score && text_len(
            s[i].text,
        ) <= text_len(s[j].text))
}

/// `s` with `x` put in behind every entry that `x` does not outrank, counted
/// from the end: `x` passes the trailing entries it outranks and stops at the
/// first it does not.
pub open spec fn place(s: Seq<PickView>, x: PickView) -> Seq<PickView>
    decreases s.len(),
{
    if s.len() > 0 && outranks(x, s.last()) {
        place(s.drop_last(), x).push(s.last())
    } else {
        s.push(x)
    }
}

/// The ranked order of `s`: its entries placed one after the other, first to
/// last, so that entries with equal keys stay in the order `s` had them.
pub open spec fn ranked(s: Seq<PickView>) -> Seq<PickView>
    decreases s.len(),
{
    if s.len() == 0 {
        s
    } else {
        place(ranked(s.drop_last()), s.last())
    }
}

/// The texts of a sequence of candidates, in the same order.
pub open spec fn texts(s: Seq<PickView>) -> Seq<Seq<char>> {
    s.map_values(|p: PickView| p.text)
}

/// `x` and `y` have the same score and the same length, so that neither
/// outranks the other.
pub open spec fn ties_with(x: PickView, y: PickView) -> bool {
    x.score == y.score && text_len(x.text) == text_len(y.text)
}

/// The entries of `s` that tie with `like`, in the order `s` has them.
pub open spec fn tied(s: Seq<PickView>, like: PickView) -> Seq<PickView>
    decreases s.len(),
{
    if s.len() == 0 {
        s
    } else if ties_with(s.last(), like) {
        tied(s.drop_last(), like).push(s.last())
    } else {
        tied(s.drop_last(), like)
    }
}

/// Placing an entry lengthens a sequence by one.
pub proof fn lemma_place_len(s: Seq<PickView>, x: PickView)
    ensures
        place(s, x).len() == s.len() + 1,
    decreases s.len(),
{
    if s.len() > 0 && outranks(x, s.last()) {
        lemma_place_len(s.drop_last(), x);
    }
}

/// An entry that outranks neither `x` nor any entry of `s` outranks no entry
/// of `place(s, x)`.
proof fn lemma_place_floor(s: Seq<PickView>, x: PickView, floor: PickView)
    requires
        forall|i: int| 0 <= i < s.len() ==> !outranks(floor, s[i]),
        !outranks(floor, x),
    ensures
        forall|k: int| 0 <= k < place(s, x).len() ==> !outranks(floor, place(s, x)[k]),
    decreases s.len(),
{
    let placed = place(s, x);
    if s.len() > 0 && outranks(x, s.last()) {
        let front = place(s.drop_last(), x);
        lemma_place_floor(s.drop_last(), x, floor);
        lemma_place_len(s.drop_last(), x);
        assert forall|k: int| 0 <= k < placed.len() implies !outranks(floor, placed[k]) by {
            if k < front.len() {
                assert(placed[k] == front[k]);
            } else {
                assert(placed[k] == s[s.len() - 1]);
            }
        }
    } else {
        assert forall|k: int| 0 <= k < placed.len() implies !outranks(floor, placed[k]) by {
            if k < s.len() {
                assert(placed[k] == s[k]);
            }
        }
    }
}

/// Placing an entry into a ranked sequence leaves it ranked.
pub proof fn lemma_place_keeps_ranked(s: Seq<PickView>, x: PickView)
    requires
        is_ranked(s),
    ensures
        is_ranked(place(s, x)),
    decreases s.len(),
{
    if s.len() > 0 && outranks(x, s.last()) {
        let front = s.drop_last();
        let last = s.last();
        lemma_place_keeps_ranked(front, x);
        assert forall|i: int| 0 <= i < front.len() implies !outranks(last, front[i]) by {
            assert(front[i] == s[i]);
        }
        lemma_place_floor(front, x, last);
        lemma_place_len(front, x);
    } else if s.len() > 0 {
        let t = s.push(x);
        assert forall|i: int, j: int| 0 <= i < j < t.len() implies t[i].score > t[j].score || (
        t[i].score == t[j].score && text_len(t[i].text) <= text_len(t[j].text)) by {
            if j == s.len() && i < s.len() - 1 {
                assert(s[i].score > s[s.len() - 1].score || (s[i].score == s[s.len() - 1].score
                    && text_len(s[i].text) <= text_len(s[s.len() - 1].text)));
            }
        }
    }
}

/// The ranked order is ranked: scores fall, and equal scores go by rising
/// length.
pub proof fn lemma_ranked_is_ranked(s: Seq<PickView>)
    ensures
        is_ranked(ranked(s)),
        ranked(s).len() == s.len(),
    decreases s.len(),
{
    if s.len() > 0 {
        lemma_ranked_is_ranked(s.drop_last());
        lemma_place_keeps_ranked(ranked(s.drop_last()), s.last());
        lemma_place_len(ranked(s.drop_last()), s.last());
    }
}

/// A sequence that is ranked already is its own ranked order.
pub proof fn lemma_ranked_of_ranked(s: Seq<PickView>)
    requires
        is_ranked(s),
    ensures
        ranked(s) == s,
    decreases s.len(),
{
    if s.len() > 0 {
        let front = s.drop_last();
        lemma_ranked_of_ranked(front);
        if front.len() > 0 {
            assert(front.last() == s[s.len() - 2]);
        }
        assert(front.push(s.last()) =~= s);
    }
}

/// Ranking a second time changes nothing.
pub proof fn lemma_ranked_idempotent(s: Seq<PickView>)
    ensures
        ranked(ranked(s)) == ranked(s),
{
    lemma_ranked_is_ranked(s);
    lemma_ranked_of_ranked(ranked(s));
}

/// Placing an entry adds exactly that entry.
proof fn lemma_place_multiset(s: Seq<PickView>, x: PickView)
    ensures
        place(s, x).to_multiset() =~= s.to_multiset().insert(x),
    decreases s.len(),
{
    broadcast use vstd::seq_lib::group_to_multiset_ensures;

    if s.len() > 0 && outranks(x, s.last()) {
        lemma_place_multiset(s.drop_last(), x);
        assert(s.drop_last().push(s.last()) =~= s);
    }
}

/// The ranked order holds the same entries as the sequence it was made from,
/// each as often.
pub proof fn lemma_ranked_permutes(s: Seq<PickView>)
    ensures
        ranked(s).to_multiset() =~= s.to_multiset(),
    decreases s.len(),
{
    broadcast use vstd::seq_lib::group_to_multiset_ensures;

    if s.len() > 0 {
        lemma_ranked_permutes(s.drop_last());
        lemma_place_multiset(ranked(s.drop_last()), s.last());
        assert(s.drop_last().push(s.last()) =~= s);
    }
}

/// Placing an entry adds exactly its text.
proof fn lemma_place_texts(s: Seq<PickView>, x: PickView)
    ensures
        texts(place(s, x)).to_multiset() =~= texts(s).to_multiset().insert(x.text),
    decreases s.len(),
{
    broadcast use vstd::seq_lib::group_to_multiset_ensures;

    if s.len() > 0 && outranks(x, s.last()) {
        let front = place(s.drop_last(), x);
        lemma_place_texts(s.drop_last(), x);
        assert(texts(front.push(s.last())) =~= texts(front).push(s.last().text));
        assert(texts(s.drop_last()).push(s.last().text) =~= texts(s));
    } else {
        assert(texts(s.push(x)) =~= texts(s).push(x.text));
    }
}

/// The ranked order holds the same texts as the sequence it was made from,
/// each as often.
pub proof fn lemma_ranked_keeps_texts(s: Seq<PickView>)
    ensures
        texts(ranked(s)).to_multiset() =~= texts(s).to_multiset(),
    decreases s.len(),
{
    broadcast use vstd::seq_lib::group_to_multiset_ensures;

    if s.len() > 0 {
        lemma_ranked_keeps_texts(s.drop_last());
        lemma_place_texts(ranked(s.drop_last()), s.last());
        assert(texts(s.drop_last()).push(s.last().text) =~= texts(s));
    }
}

/// Placing an entry puts it behind the entries it ties with, and leaves the
/// order among all others alone.
proof fn lemma_place_tied(s: Seq<PickView>, x: PickView, like: PickView)
    ensures
        tied(place(s, x), like) == if ties_with(x, like) {
            tied(s, like).push(x)
        } else {
            tied(s, like)
        },
    decreases s.len(),
{
    if s.len() > 0 && outranks(x, s.last()) {
        let front = place(s.drop_last(), x);
        lemma_place_tied(s.drop_last(), x, like);
        assert(front.push(s.last()).drop_last() =~= front);
    } else {
        assert(s.push(x).drop_last() =~= s);
    }
}

/// Ranking is stable: among the entries that tie, the ranked order is the
/// order they had.
pub proof fn lemma_ranked_is_stable(s: Seq<PickView>, like: PickView)
    ensures
        tied(ranked(s), like) == tied(s, like),
    decreases s.len(),
{
    if s.len() > 0 {
        lemma_ranked_is_stable(s.drop_last(), like);
        lemma_place_tied(ranked(s.drop_last()), s.last(), like);
    }
}

/// Every entry of `tied(s, like)` is an entry of `s` that ties with `like`.
proof fn lemma_tied_entries(s: Seq<PickView>, like: PickView)
    ensures
        forall|k: int|
            0 <= k < tied(s, like).len() ==> ties_with(#[trigger] tied(s, like)[k], like)
                && s.contains(tied(s, like)[k]),
    decreases s.len(),
{
    if s.len() > 0 {
        let front = s.drop_last();
        lemma_tied_entries(front, like);
        assert forall|k: int| 0 <= k < tied(s, like).len() implies ties_with(
            #[trigger] tied(s, like)[k],
            like,
        ) && s.contains(tied(s, like)[k]) by {
            if k < tied(front, like).len() {
                let e = tied(front, like)[k];
                assert(front.contains(e));
                let i = choose|i: int| 0 <= i < front.len() && front[i] == e;
                assert(s[i] == e);
            } else {
                assert(s[s.len() - 1] == s.last());
            }
        }
    }
}

/// Two ranked sequences that agree on every class of tying entries are equal.
proof fn lemma_stable_order_is_unique(t: Seq<PickView>, u: Seq<PickView>)
    requires
        is_ranked(t),
        is_ranked(u),
        forall|like: PickView| tied(t, like) == tied(u, like),
    ensures
        t == u,
    decreases t.len(),
{
    if t.len() == 0 {
        if u.len() > 0 {
            assert(tied(t, u.last()) == tied(u, u.last()));
        }
        assert(t =~= u);
    } else {
        let x = t.last();
        assert(tied(t, x) == tied(u, x));
        assert(tied(t, x).last() == x);
        lemma_tied_entries(u, x);
        if u.len() == 0 {
            assert(tied(u, x).len() == 0);
        }
        let y = u.last();
        // Some entry of `u` ties with `x`, and some entry of `t` ties with
        // `y`; as `x` and `y` are last in ranked sequences, they tie.
        let in_u = tied(u, x)[0];
        assert(ties_with(in_u, x) && u.contains(in_u));
        let iu = choose|i: int| 0 <= i < u.len() && u[i] == in_u;
        assert(tied(t, y) == tied(u, y));
        assert(tied(u, y).last() == y);
        lemma_tied_entries(t, y);
        let in_t = tied(t, y)[0];
        assert(ties_with(in_t, y) && t.contains(in_t));
        let it = choose|i: int| 0 <= i < t.len() && t[i] == in_t;
        if iu < u.len() - 1 {
            assert(!outranks(u[u.len() - 1], u[iu]));
        }
        if it < t.len() - 1 {
            assert(!outranks(t[t.len() - 1], t[it]));
        }
        assert(ties_with(y, x));
        assert(tied(u, x).last() == y);
        assert(x == y);
        let tf = t.drop_last();
        let uf = u.drop_last();
        assert forall|like: PickView| tied(tf, like) == tied(uf, like) by {
            assert(tied(t, like) == tied(u, like));
            if ties_with(x, like) {
                assert(tied(tf, like) =~= tied(t, like).drop_last());
                assert(tied(uf, like) =~= tied(u, like).drop_last());
            }
        }
        assert forall|i: int, j: int| 0 <= i < j < tf.len() implies tf[i].score > tf[j].score || (
        tf[i].score == tf[j].score && text_len(tf[i].text) <= text_len(tf[j].text)) by {
            assert(tf[i] == t[i] && tf[j] == t[j]);
        }
        assert forall|i: int, j: int| 0 <= i < j < uf.len() implies uf[i].score > uf[j].score || (
        uf[i].score == uf[j].score && text_len(uf[i].text) <= text_len(uf[j].text)) by {
            assert(uf[i] == u[i] && uf[j] == u[j]);
        }
        lemma_stable_order_is_unique(tf, uf);
        assert(t =~= tf.push(x));
        assert(u =~= uf.push(y));
    }
}

/// The ranked order of `s` is the one sequence that is ranked and has the
/// entries of `s`, those that tie in the order `s` has them.
pub proof fn lemma_ranked_is_the_stable_order(s: Seq<PickView>, t: Seq<PickView>)
    requires
        is_ranked(t),
        forall|like: PickView| tied(t, like) == tied(s, like),
    ensures
        t == ranked(s),
{
    lemma_ranked_is_ranked(s);
    assert forall|like: PickView| tied(t, like) == tied(ranked(s), like) by {
        lemma_ranked_is_stable(s, like);
    }
    lemma_stable_order_is_unique(t, ranked(s));
}

/// Two ranked runs woven into one, the entries of `left` before those of
/// `right` wherever neither outranks the other.
spec fn weave(left: Seq<PickView>, right: Seq<PickView>) -> Seq<PickView>
    decreases left.len() + right.len(),
{
    if left.len() == 0 {
        right
    } else if right.len() == 0 {
        left
    } else if outranks(right.last(), left.last()) {
        weave(left.drop_last(), right).push(left.last())
    } else {
        weave(left, right.drop_last()).push(right.last())
    }
}

/// Placing an entry commutes with weaving: it may be placed into the right
/// run before the runs are woven, or into the result afterwards.
proof fn lemma_place_weave(left: Seq<PickView>, right: Seq<PickView>, x: PickView)
    ensures
        place(weave(left, right), x) == weave(left, place(right, x)),
    decreases left.len() + right.len(),
{
    let placed = place(right, x);
    if left.len() == 0 {
        // Both sides are `place(right, x)`.
    } else if right.len() == 0 {
        // Both sides place `x` into `left`.
        assert(placed.drop_last() =~= right);
        lemma_place_weave(left.drop_last(), right, x);
        assert(weave(left.drop_last(), right) == left.drop_last());
    } else {
        let a = left.last();
        let b = right.last();
        if outranks(x, b) {
            // `x` passes `b`, which stays the last entry of the right run.
            assert(placed.drop_last() =~= place(right.drop_last(), x));
            if outranks(b, a) {
                // `a` ends the weave on both sides, and `x` passes it too.
                lemma_place_weave(left.drop_last(), right, x);
                let w = weave(left.drop_last(), right);
                assert(w.push(a).drop_last() =~= w);
            } else {
                // `b` ends the weave on both sides.
                lemma_place_weave(left, right.drop_last(), x);
                let w = weave(left, right.drop_last());
                assert(w.push(b).drop_last() =~= w);
            }
        } else {
            // `x` becomes the last entry of the right run.
            assert(placed.drop_last() =~= right);
            if outranks(x, a) {
                // `x` passes `a` but not `b`, so `b` outranks `a`, and `a`
                // ends the weave on both sides.
                assert(outranks(b, a));
                lemma_place_weave(left.drop_last(), right, x);
                let w = weave(left.drop_last(), right);
                assert(w.push(a).drop_last() =~= w);
            } else {
                // `x` passes neither `a` nor `b`, one of which ends the
                // weave of the runs: `x` ends the weave on both sides.
                assert(weave(left, right).last() == a || weave(left, right).last() == b);
            }
        }
    }
}

/// The ranked order of a concatenation is the weave of the ranked orders of
/// its two parts.
proof fn lemma_ranked_concat(left: Seq<PickView>, right: Seq<PickView>)
    ensures
        ranked(left + right) == weave(ranked(left), ranked(right)),
    decreases right.len(),
{
    if right.len() == 0 {
        assert(left + right =~= left);
    } else {
        assert((left + right).drop_last() =~= left + right.drop_last());
        lemma_ranked_concat(left, right.drop_last());
        lemma_place_weave(ranked(left), ranked(right.drop_last()), right.last());
    }
}

/// Tells whether `x` belongs strictly before `y` in the ranked order.
pub fn ranks_before(x: &Pick, y: &Pick) -> (before: bool)
    ensures
        before == outranks(x@, y@),
{
    if x.score > y.score {
        true
    } else if x.score == y.score {
        x.element.as_str().as_bytes().len() < y.element.as_str().as_bytes().len()
    } else {
        false
    }
}

/// Weaves two runs into one, taking from the ends.
fn weave_runs(left: Vec<Pick>, right: Vec<Pick>) -> (woven: Vec<Pick>)
    ensures
        views(woven@) == weave(views(left@), views(right@)),
{
    let mut left = left;
    let mut right = right;
    let ghost whole = weave(views(left@), views(right@));
    // The entries taken so far, the last of the result first.
    let mut taken: Vec<Pick> = Vec::new();
    while left.len() > 0 && right.len() > 0
        invariant
            whole == weave(views(left@), views(right@)) + views(taken@).reverse(),
        decreases left.len() + right.len(),
    {
        let ghost l = views(left@);
        let ghost r = views(right@);
        let ghost t = views(taken@);
        let from_left = ranks_before(&right[right.len() - 1], &left[left.len() - 1]);
        if from_left {
            let x = left.pop().unwrap();
            taken.push(x);
            proof {
                assert(views(left@) =~= l.drop_last());
                assert(views(taken@) =~= t.push(l.last()));
                assert(weave(l, r) + t.reverse() =~= weave(l.drop_last(), r) + t.push(
                    l.last(),
                ).reverse());
            }
        } else {
            let x = right.pop().unwrap();
            taken.push(x);
            proof {
                assert(views(right@) =~= r.drop_last());
                assert(views(taken@) =~= t.push(r.last()));
                assert(weave(l, r) + t.reverse() =~= weave(l, r.drop_last()) + t.push(
                    r.last(),
                ).reverse());
            }
        }
    }
    let mut woven = if left.len() > 0 {
        left
    } else {
        right
    };
    while taken.len() > 0
        invariant
            whole == views(woven@) + views(taken@).reverse(),
        decreases taken.len(),
    {
        let ghost w = views(woven@);
        let ghost t = views(taken@);
        let x = taken.pop().unwrap();
        woven.push(x);
        proof {
            assert(views(taken@) =~= t.drop_last());
            assert(views(woven@) =~= w.push(t.last()));
            assert(w + t.reverse() =~= w.push(t.last()) + t.drop_last().reverse());
        }
    }
    proof {
        assert(views(woven@) + views(taken@).reverse() =~= views(woven@));
    }
    woven
}

/// Puts candidates into ranked order by their present scores.
pub fn rank(picks: Vec<Pick>) -> (r: Vec<Pick>)
    ensures
        views(r@) == ranked(views(picks@)),
    decreases picks.len(),
{
    let mut left = picks;
    let n = left.len();
    if n <= 1 {
        proof {
            let s = views(left@);
            if n == 1 {
                assert(ranked(s.drop_last()) =~= s.drop_last());
                assert(s.drop_last().push(s.last()) =~= s);
            }
        }
        return left;
    }
    let ghost whole = views(left@);
    let right = left.split_off(n / 2);
    proof {
        assert(views(left@) + views(right@) =~= whole);
        lemma_ranked_concat(views(left@), views(right@));
    }
    let left_ranked = rank(left);
    let right_ranked = rank(right);
    weave_runs(left_ranked, right_ranked)
}

} // verus!
