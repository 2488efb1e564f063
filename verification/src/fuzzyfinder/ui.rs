//! The picker session: candidates, query, selection and state.

use vstd::prelude::*;
use crate::fuzzyfinder::algo::{
    is_scorable, lemma_reranked, lemma_scorable_bounds_scores, reranked, rescored, scorable,
    score_spec, scores_fresh, sort_by_score,
};
use crate::fuzzyfinder::keys::{decode, map_key, KeyMode};
use crate::fuzzyfinder::rank::{is_ranked, ranked, texts};

verus! {

/// The most candidates among which the selection moves.
pub const ELEMS_TO_DISPLAY: usize = 2147483647;

/// What a keystroke asks of the session.
#[derive(Debug, Clone, Copy, PartialEq, Eq)]
pub enum Event {
    /// Append a scalar to the query.
    AppendChar(char),
    /// Remove the last scalar of the query.
    Backspace,
    /// Move the selection one candidate up the list, away from the best.
    MoveSelectionUp,
    /// Move the selection one candidate down the list, towards the best.
    MoveSelectionDown,
    /// End the session with the selected candidate.
    Confirm,
    /// End the session without a result.
    Abort,
}

/// Where a session stands. `RUNNING` is the start; the other two are final.
#[allow(non_camel_case_types)]
#[derive(Debug, Clone, Copy, PartialEq, Eq)]
pub enum PickerState {
    RUNNING,
    FINISHED,
    ABORTED,
}

/// One candidate line and its score against the current query.
#[derive(Debug)]
pub struct Pick {
    pub element: String,
    pub score: usize,
}

/// A candidate as the contracts see it: its scalars and its score.
#[verifier::ext_equal]
pub struct PickView {
    pub text: Seq<char>,
    pub score: nat,
}

impl View for Pick {
    type V = PickView;

    open spec fn view(&self) -> PickView {
        PickView { text: self.element@, score: self.score as nat }
    }
}

/// An interactive session: the candidates in their current order, the query
/// typed so far, the state, and the index of the selected candidate.
#[derive(Debug)]
pub struct Picker {
    pub picks: Vec<Pick>,
    pub input: String,
    pub state: PickerState,
    pub selection: usize,
}

/// A session as the contracts see it.
#[verifier::ext_equal]
pub struct PickerView {
    pub picks: Seq<PickView>,
    pub query: Seq<char>,
    pub state: PickerState,
    pub selection: nat,
}

impl View for Picker {
    type V = PickerView;

    open spec fn view(&self) -> PickerView {
        PickerView {
            picks: views(self.picks@),
            query: self.input@,
            state: self.state,
            selection: self.selection as nat,
        }
    }
}

/// The views of a sequence of candidates, in the same order.
pub open spec fn views(picks: Seq<Pick>) -> Seq<PickView> {
    picks.map_values(|p: Pick| p@)
}

impl Pick {
    /// A candidate that has not been scored yet.
    pub fn new(element: String) -> (pick: Pick)
        ensures
            pick@ == (PickView { text: element@, score: 0 }),
            pick.element == element,
    {
        Pick { element, score: 0 }
    }
}

/// `String::push` appends the given scalar to the end of the string.
pub assume_specification[ String::push ](text: &mut String, ch: char)
    ensures
        final(text)@ == old(text)@.push(ch),
;

/// `String::pop` removes the last scalar of the string and returns it, or
/// returns `None` and leaves the string alone where it is empty.
pub assume_specification[ String::pop ](text: &mut String) -> (last: Option<char>)
    ensures
        old(text)@.len() == 0 ==> last is None && final(text)@ == old(text)@,
        old(text)@.len() > 0 ==> last == Some(old(text)@.last()) && final(text)@ == old(
            text,
        )@.drop_last(),
;

/// The number of candidates, out of `count`, that lie in the window.
pub open spec fn window(count: nat) -> nat {
    if count <= ELEMS_TO_DISPLAY {
        count
    } else {
        ELEMS_TO_DISPLAY as nat
    }
}

/// The index in the window of `count` candidates that is nearest to
/// `selection`; zero where there is no candidate.
pub open spec fn clamp(selection: int, count: nat) -> nat {
    if count == 0 || selection <= 0 {
        0
    } else if selection >= window(count) {
        (window(count) - 1) as nat
    } else {
        selection as nat
    }
}

/// The selection is an index into the window, or zero where the session has
/// no candidate.
pub open spec fn selection_in_window(s: PickerView) -> bool {
    if s.picks.len() == 0 {
        s.selection == 0
    } else {
        s.selection < window(s.picks.len())
    }
}

/// What holds of a session between events: every score is the candidate's
/// score against the query, the candidates are in ranked order, and the
/// selection lies in the window.
pub open spec fn well_formed(s: PickerView) -> bool {
    &&& scores_fresh(s.picks, s.query)
    &&& is_ranked(s.picks)
    &&& selection_in_window(s)
}

/// The session after its query has been replaced by `query`: the candidates
/// are re-ranked, and the selection keeps its index as far as the window
/// allows; it does not go back to the best candidate. A query too long to
/// score is refused, and the session stays as it is.
pub open spec fn edited(s: PickerView, query: Seq<char>) -> PickerView {
    if scorable(query) {
        PickerView {
            picks: reranked(s.picks, query),
            query,
            state: s.state,
            selection: clamp(s.selection as int, s.picks.len()),
        }
    } else {
        s
    }
}

/// The session after one event. A session that is no longer running ignores
/// every event.
pub open spec fn step(s: PickerView, event: Event) -> PickerView {
    if s.state != PickerState::RUNNING {
        s
    } else {
        match event {
            Event::AppendChar(c) => edited(s, s.query.push(c)),
            Event::Backspace => if s.query.len() == 0 {
                s
            } else {
                edited(s, s.query.drop_last())
            },
            Event::MoveSelectionUp => PickerView {
                selection: clamp(s.selection as int + 1, s.picks.len()),
                ..s
            },
            Event::MoveSelectionDown => PickerView {
                selection: clamp(s.selection as int - 1, s.picks.len()),
                ..s
            },
            Event::Confirm => PickerView { state: PickerState::FINISHED, ..s },
            Event::Abort => PickerView { state: PickerState::ABORTED, ..s },
        }
    }
}

/// The session after a sequence of events, applied first to last.
pub open spec fn run(s: PickerView, events: Seq<Event>) -> PickerView
    decreases events.len(),
{
    if events.len() == 0 {
        s
    } else {
        step(run(s, events.drop_last()), events.last())
    }
}

/// The candidates of a new session: the given texts, unscored, in ranked
/// order.
pub open spec fn initial(texts: Seq<Seq<char>>) -> PickerView {
    PickerView {
        picks: ranked(texts.map_values(|t: Seq<char>| PickView { text: t, score: 0 })),
        query: Seq::empty(),
        state: PickerState::RUNNING,
        selection: 0,
    }
}

/// An event leaves a well-formed session well formed.
pub proof fn lemma_step_keeps_well_formed(s: PickerView, event: Event)
    requires
        well_formed(s),
    ensures
        well_formed(step(s, event)),
{
    lemma_reranked(s.picks, s.query.push(event->AppendChar_0));
    lemma_reranked(s.picks, s.query.drop_last());
}

/// No event adds, removes or alters a candidate's text: the session holds
/// the same texts before and after, each as often.
pub proof fn lemma_step_keeps_candidates(s: PickerView, event: Event)
    ensures
        step(s, event).picks.len() == s.picks.len(),
        texts(step(s, event).picks).to_multiset() == texts(s.picks).to_multiset(),
{
    lemma_reranked(s.picks, s.query.push(event->AppendChar_0));
    lemma_reranked(s.picks, s.query.drop_last());
}

/// Whatever the events, the selection stays in the window.
pub proof fn lemma_run_keeps_selection_in_window(s: PickerView, events: Seq<Event>)
    requires
        selection_in_window(s),
    ensures
        selection_in_window(run(s, events)),
    decreases events.len(),
{
    if events.len() > 0 {
        let before = run(s, events.drop_last());
        let event = events.last();
        lemma_run_keeps_selection_in_window(s, events.drop_last());
        lemma_reranked(before.picks, before.query.push(event->AppendChar_0));
        lemma_reranked(before.picks, before.query.drop_last());
    }
}

/// Whatever the events, a well-formed session stays well formed.
pub proof fn lemma_run_keeps_well_formed(s: PickerView, events: Seq<Event>)
    requires
        well_formed(s),
    ensures
        well_formed(run(s, events)),
    decreases events.len(),
{
    if events.len() > 0 {
        lemma_run_keeps_well_formed(s, events.drop_last());
        lemma_step_keeps_well_formed(run(s, events.drop_last()), events.last());
    }
}

/// A move of the selection lands in the window, wherever it started.
pub proof fn lemma_move_lands_in_window(s: PickerView, event: Event)
    requires
        s.state == PickerState::RUNNING,
        event == Event::MoveSelectionUp || event == Event::MoveSelectionDown,
    ensures
        selection_in_window(step(s, event)),
        step(s, event).picks == s.picks,
        step(s, event).query == s.query,
        step(s, event).state == s.state,
{
}

/// Backspace on an empty query changes nothing: not the query, not the
/// selection, not the order of the candidates.
pub proof fn lemma_backspace_on_empty_query(s: PickerView)
    requires
        s.query.len() == 0,
    ensures
        step(s, Event::Backspace) == s,
{
}

/// Once a session is finished or aborted, no event changes it.
pub proof fn lemma_final_states_are_frozen(s: PickerView, events: Seq<Event>)
    requires
        s.state != PickerState::RUNNING,
    ensures
        run(s, events) == s,
    decreases events.len(),
{
    if events.len() > 0 {
        lemma_final_states_are_frozen(s, events.drop_last());
    }
}

/// A new session is well formed.
pub proof fn lemma_initial_is_well_formed(texts: Seq<Seq<char>>)
    ensures
        well_formed(initial(texts)),
        initial(texts).picks.len() == texts.len(),
{
    let unscored = texts.map_values(|t: Seq<char>| PickView { text: t, score: 0 });
    assert(rescored(unscored, Seq::empty()) =~= unscored);
    lemma_reranked(unscored, Seq::empty());
}

/// One line of the list as it is drawn: the screen line, the index of the
/// candidate shown there, and whether it is the selected one.
#[derive(Debug, Clone, Copy, PartialEq, Eq)]
pub struct Row {
    pub line: i32,
    pub index: usize,
    pub selected: bool,
}

/// The number of candidates drawn on a screen of `lines` lines: those in the
/// window, as far as there are lines above the last one, which holds the
/// prompt.
pub open spec fn rows_shown(count: nat, lines: int) -> nat {
    if lines <= 1 {
        0
    } else if window(count) <= lines - 1 {
        window(count)
    } else {
        (lines - 1) as nat
    }
}

/// The number of candidates, out of `count`, that lie in the window.
fn clamp_window(count: usize) -> (shown: usize)
    ensures
        shown == window(count as nat),
{
    if count <= ELEMS_TO_DISPLAY {
        count
    } else {
        ELEMS_TO_DISPLAY
    }
}

/// The index nearest to `selection` in the window of `count` candidates.
fn clamp_selection(selection: usize, count: usize) -> (r: usize)
    ensures
        r == clamp(selection as int, count as nat),
{
    let shown = clamp_window(count);
    if shown == 0 {
        0
    } else if selection >= shown {
        shown - 1
    } else {
        selection
    }
}

impl Picker {
    /// A running session over the given candidates, with an empty query and
    /// the first candidate selected.
    pub fn new(picks: Vec<String>) -> (picker: Picker)
        ensures
            picker@ == initial(picks.deep_view()),
            picker@.picks.len() == picks@.len(),
            well_formed(picker@),
    {
        let ghost texts = picks.deep_view();
        let ghost unscored = texts.map_values(|t: Seq<char>| PickView { text: t, score: 0 });
        let ghost elements = picks@;
        assert forall|k: int| 0 <= k < elements.len() implies #[trigger] unscored[k] == (PickView {
            text: elements[k]@,
            score: 0,
        }) by {
            assert(texts[k] == elements[k]@);
        }
        let mut candidates: Vec<Pick> = Vec::new();
        for element in it: picks
            invariant
                it.seq() == elements,
                unscored.len() == elements.len(),
                forall|k: int|
                    0 <= k < elements.len() ==> #[trigger] unscored[k] == (PickView {
                        text: elements[k]@,
                        score: 0,
                    }),
                candidates@.len() == it.index(),
                forall|k: int|
                    0 <= k < candidates@.len() ==> (#[trigger] candidates@[k])@ == unscored[k],
        {
            candidates.push(Pick::new(element));
        }
        let mut picker = Picker {
            picks: candidates,
            input: String::new(),
            state: PickerState::RUNNING,
            selection: 0,
        };
        proof {
            assert(views(picker.picks@) =~= unscored);
            assert(rescored(unscored, Seq::empty()) =~= unscored);
            lemma_initial_is_well_formed(texts);
        }
        sort_by_score(&mut picker);
        picker
    }

    /// Re-ranks the candidates against the query and pulls the selection back
    /// into the window.
    fn rerank(&mut self)
        requires
            scorable(old(self)@.query),
        ensures
            final(self)@ == (PickerView {
                picks: reranked(old(self)@.picks, old(self)@.query),
                selection: clamp(old(self)@.selection as int, old(self)@.picks.len()),
                ..old(self)@
            }),
    {
        proof {
            assert forall|i: int| 0 <= i < self@.picks.len() implies score_spec(
                self@.query,
                #[trigger] self@.picks[i].text,
            ) <= usize::MAX by {
                lemma_scorable_bounds_scores(self@.query, self@.picks[i].text);
            }
            lemma_reranked(self@.picks, self@.query);
        }
        sort_by_score(self);
        self.selection = clamp_selection(self.selection, self.picks.len());
    }

    /// Applies one event to the session.
    pub fn apply(&mut self, event: Event)
        ensures
            final(self)@ == step(old(self)@, event),
            final(self)@.picks.len() == old(self)@.picks.len(),
            well_formed(old(self)@) ==> well_formed(final(self)@),
    {
        proof {
            lemma_step_keeps_candidates(self@, event);
            if well_formed(self@) {
                lemma_step_keeps_well_formed(self@, event);
            }
        }
        match self.state {
            PickerState::RUNNING => {},
            _ => {
                return ;
            },
        }
        match event {
            Event::AppendChar(c) => {
                self.input.push(c);
                if is_scorable(&self.input) {
                    self.rerank();
                } else {
                    self.input.pop();
                    assert(self.input@ =~= old(self).input@);
                }
            },
            Event::Backspace => {
                match self.input.pop() {
                    None => {},
                    Some(c) => {
                        if is_scorable(&self.input) {
                            self.rerank();
                        } else {
                            self.input.push(c);
                            assert(self.input@ =~= old(self).input@);
                        }
                    },
                }
            },
            Event::MoveSelectionUp => {
                let count = self.picks.len();
                if self.selection < usize::MAX {
                    self.selection = clamp_selection(self.selection + 1, count);
                } else {
                    self.selection = clamp_selection(self.selection, count);
                }
            },
            Event::MoveSelectionDown => {
                let count = self.picks.len();
                if self.selection > 0 {
                    self.selection = clamp_selection(self.selection - 1, count);
                } else {
                    self.selection = 0;
                }
            },
            Event::Confirm => {
                self.state = PickerState::FINISHED;
            },
            Event::Abort => {
                self.state = PickerState::ABORTED;
            },
        }
    }

    /// Takes the raw key that was read while the decoder was in `mode`,
    /// applies the event it stands for, if it stands for one, and returns the
    /// mode in which the next key is to be read.
    pub fn read_char(&mut self, mode: KeyMode, raw: i32) -> (next: KeyMode)
        ensures
            next == decode(mode, raw as int).0,
            final(self)@ == match decode(mode, raw as int).1 {
                Some(event) => step(old(self)@, event),
                None => old(self)@,
            },
    {
        let (next, event) = map_key(mode, raw);
        match event {
            Some(event) => {
                self.apply(event);
            },
            None => {},
        }
        next
    }

    /// Lays the list out on a screen of `lines` lines: the best candidate on
    /// the line above the prompt, the next one above it, and so on upwards
    /// to the top of the screen.
    pub fn render(&self, lines: i32) -> (rows: Vec<Row>)
        ensures
            rows@.len() == rows_shown(self@.picks.len(), lines as int),
            forall|i: int|
                0 <= i < rows@.len() ==> #[trigger] rows@[i] == (Row {
                    line: (lines - 2 - i) as i32,
                    index: i as usize,
                    selected: i == self@.selection,
                }),
    {
        let mut rows: Vec<Row> = Vec::new();
        if lines <= 1 {
            return rows;
        }
        let room = (lines - 1) as usize;
        let count = clamp_window(self.picks.len());
        let shown = if count <= room {
            count
        } else {
            room
        };
        let mut i: usize = 0;
        while i < shown
            invariant
                i <= shown <= lines - 1,
                rows@.len() == i,
                forall|k: int|
                    0 <= k < i ==> #[trigger] rows@[k] == (Row {
                        line: (lines - 2 - k) as i32,
                        index: k as usize,
                        selected: k == self.selection,
                    }),
            decreases shown - i,
        {
            rows.push(Row { line: lines - 2 - (i as i32), index: i, selected: i == self.selection });
            i += 1;
        }
        rows
    }

    /// Tells whether the session has ended, by confirmation or by abort.
    pub fn finished(&self) -> (done: bool)
        ensures
            done == (self@.state != PickerState::RUNNING),
    {
        match self.state {
            PickerState::RUNNING => false,
            PickerState::FINISHED => true,
            PickerState::ABORTED => true,
        }
    }

    /// The text of the selected candidate. There is none after an abort, and
    /// none where the selection is no index of a candidate, as in a session
    /// without candidates.
    pub fn get_selection(&self) -> (chosen: Option<String>)
        ensures
            chosen is Some <==> self@.state != PickerState::ABORTED && self@.selection
                < self@.picks.len(),
            chosen matches Some(text) ==> text@ == self@.picks[self@.selection as int].text,
    {
        match self.state {
            PickerState::ABORTED => None,
            _ => {
                if self.selection < self.picks.len() {
                    Some(self.picks[self.selection].element.clone())
                } else {
                    None
                }
            },
        }
    }
}

} // verus!
