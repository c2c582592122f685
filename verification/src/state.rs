//! Composition state machine: maps input events to state transitions and commit/clear
//! effects. Candidate recomputation is left to the caller.
use vstd::prelude::*;
use vstd::string::*;
use vstd::utf8::is_ascii_chars;
use crate::lattice::Candidate;
use crate::protocol::PredictionCandidate;
use crate::text::{chars_of, lemma_ascii_edits, push_char, string_from_range};

verus! {

/// Candidates shown per menu page.
pub const PAGE_SIZE: usize = 9;

/// The composition of one input method session.
#[derive(Debug, Clone)]
pub struct InputState {
    /// Raw lowercased input letters (plus apostrophe boundaries).
    pub input: String,
    /// Insertion/backspace position inside `input`.
    pub cursor: usize,
    pub candidates: Vec<Candidate>,
    pub selected_index: usize,
    pub page: usize,
    pub predictions: Vec<PredictionCandidate>,
    pub model_pending: bool,
    /// Bumped on every input-changing key; guards stale model responses.
    pub revision: u64,
}

impl Default for InputState {
    fn default() -> (s: Self)
        ensures
            s.input@ == Seq::<char>::empty(),
            s.cursor == 0,
            s.candidates@ == Seq::<Candidate>::empty(),
            s.selected_index == 0,
            s.page == 0,
            s.predictions@ == Seq::<PredictionCandidate>::empty(),
            !s.model_pending,
            s.revision == 0,
    {
        InputState {
            input: String::new(),
            cursor: 0,
            candidates: Vec::new(),
            selected_index: 0,
            page: 0,
            predictions: Vec::new(),
            model_pending: false,
            revision: 0,
        }
    }
}

/// A key or menu event delivered to a session.
#[derive(Debug, Clone, Copy, PartialEq, Eq)]
pub enum InputEvent {
    Letter(char),
    Backspace,
    Delete,
    Left,
    Right,
    PageUp,
    PageDown,
    Space,
    Enter,
    Escape,
    Digit(u8),
    SelectCandidate(usize),
}

/// What the frontend must do after an event.
#[derive(Debug, Clone, PartialEq)]
pub enum Effect {
    Nothing,
    /// Commit `text` and keep composing the remaining input.
    Commit { text: String },
    /// Commit `text` and end the composition.
    CommitAndClear { text: String },
    Clear,
}

/// The effect of an event and whether the candidates went stale.
#[derive(Debug, Clone, PartialEq)]
pub struct Outcome {
    pub effect: Effect,
    /// True when the composition input changed and candidates are stale.
    pub candidates_dirty: bool,
}

/// The state machine over [`InputState`].
pub struct StateMachine;

/// `a + 1`, saturating at `usize::MAX`.
pub open spec fn sat_inc(a: usize) -> usize {
    if a < usize::MAX {
        (a + 1) as usize
    } else {
        a
    }
}

/// `a - 1`, saturating at zero.
pub open spec fn sat_dec(a: usize) -> usize {
    if a > 0 {
        (a - 1) as usize
    } else {
        0
    }
}

/// `r + 1`, wrapping to zero after `u64::MAX`.
pub open spec fn wrap_inc(r: u64) -> u64 {
    if r < u64::MAX {
        (r + 1) as u64
    } else {
        0
    }
}

/// Characters that may be typed into the composition: lowercase ASCII letters and the
/// apostrophe boundary.
pub open spec fn editable(c: char) -> bool {
    ('a' <= c && c <= 'z') || c == '\''
}

/// The selection index and page after restoring the invariants for `len` candidates.
pub open spec fn normalized_selection(len: nat, selected: usize) -> (usize, usize) {
    if len == 0 {
        (0, 0)
    } else {
        let s = if selected < len {
            selected
        } else {
            (len - 1) as usize
        };
        (s, s / PAGE_SIZE)
    }
}

impl InputState {
    /// The state machine's invariant: the input is ASCII, the cursor lies within it, the first
    /// candidate of the current page has an index that fits in `usize`, and the candidate list
    /// is no longer than any allocation can be.
    pub open spec fn wf(&self) -> bool {
        &&& is_ascii_chars(self.input@)
        &&& self.cursor <= self.input@.len()
        &&& self.page < usize::MAX / PAGE_SIZE
        &&& self.candidates@.len() <= isize::MAX
    }

    /// The selected candidate, if the selection lies within the list.
    pub fn selection(&self) -> (r: Option<&Candidate>)
        ensures
            r == (if self.selected_index < self.candidates@.len() {
                Some(&self.candidates@[self.selected_index as int])
            } else {
                None
            }),
    {
        if self.selected_index < self.candidates.len() {
            Some(&self.candidates[self.selected_index])
        } else {
            None
        }
    }

    /// Number of menu pages, at least one.
    pub fn page_count(&self) -> (r: usize)
        ensures
            r == (if self.candidates@.len() == 0 {
                1
            } else {
                (self.candidates@.len() + PAGE_SIZE - 1) / PAGE_SIZE as int
            }),
    {
        let len = self.candidates.len();
        if len == 0 {
            1
        } else {
            (len - 1) / PAGE_SIZE + 1
        }
    }

    /// Restores the selection and page invariants after candidates are reordered or reduced
    /// by an asynchronous model response.
    pub fn normalize_selection(&mut self)
        ensures
            (final(self).selected_index, final(self).page) == normalized_selection(
                old(self).candidates@.len(),
                old(self).selected_index,
            ),
            final(self).input == old(self).input,
            final(self).cursor == old(self).cursor,
            final(self).candidates == old(self).candidates,
            final(self).predictions == old(self).predictions,
            final(self).model_pending == old(self).model_pending,
            final(self).revision == old(self).revision,
    {
        if self.candidates.len() == 0 {
            self.selected_index = 0;
            self.page = 0;
            return;
        }
        if self.selected_index > self.candidates.len() - 1 {
            self.selected_index = self.candidates.len() - 1;
        }
        self.page = self.selected_index / PAGE_SIZE;
    }

    fn reset_composition(&mut self)
        ensures
            final(self).input@ == Seq::<char>::empty(),
            final(self).cursor == 0,
            final(self).candidates@ == Seq::<Candidate>::empty(),
            final(self).selected_index == 0,
            final(self).page == 0,
            final(self).predictions@ == Seq::<PredictionCandidate>::empty(),
            !final(self).model_pending,
            final(self).revision == old(self).revision,
    {
        self.input = String::new();
        self.cursor = 0;
        self.candidates = Vec::new();
        self.selected_index = 0;
        self.page = 0;
        self.predictions = Vec::new();
        self.model_pending = false;
    }
}

/// Everything but the input, the cursor and the revision is unchanged.
pub open spec fn keeps_menu(pre: InputState, post: InputState) -> bool {
    &&& post.candidates == pre.candidates
    &&& post.selected_index == pre.selected_index
    &&& post.page == pre.page
    &&& post.predictions == pre.predictions
    &&& post.model_pending == pre.model_pending
}

/// The composition was emptied: no input, candidates, predictions or pending request.
pub open spec fn cleared(post: InputState) -> bool {
    &&& post.input@ == Seq::<char>::empty()
    &&& post.cursor == 0
    &&& post.candidates@ == Seq::<Candidate>::empty()
    &&& post.selected_index == 0
    &&& post.page == 0
    &&& post.predictions@ == Seq::<PredictionCandidate>::empty()
    &&& !post.model_pending
}

/// Committing candidate `index` of `pre` gives `post` and `effect`: the candidate's letters
/// are removed from the front of the input and the menu is emptied; with no candidate at
/// `index` nothing happens.
pub open spec fn commits(pre: InputState, index: int, post: InputState, effect: Effect) -> bool {
    if index < 0 || index >= pre.candidates@.len() {
        post == pre && effect == Effect::Nothing
    } else {
        let cand = pre.candidates@[index];
        let len = pre.input@.len();
        let consumed = if cand.consumedkeys < len {
            cand.consumedkeys as int
        } else {
            len as int
        };
        let remaining = pre.input@.subrange(consumed, len as int);
        &&& post.revision == wrap_inc(pre.revision)
        &&& post.input@ == remaining
        &&& post.cursor == (if pre.cursor >= consumed {
            if pre.cursor - consumed < remaining.len() {
                pre.cursor - consumed
            } else {
                remaining.len() as int
            }
        } else {
            0
        })
        &&& post.candidates@ == Seq::<Candidate>::empty()
        &&& post.selected_index == 0
        &&& post.page == 0
        &&& post.predictions@ == Seq::<PredictionCandidate>::empty()
        &&& !post.model_pending
        &&& if remaining.len() == 0 {
            effect matches Effect::CommitAndClear { text } && text@ == cand.text@
        } else {
            effect matches Effect::Commit { text } && text@ == cand.text@
        }
    }
}

/// Committing the raw input when there are no candidates.
pub open spec fn commits_raw(pre: InputState, post: InputState, outcome: Outcome) -> bool {
    &&& cleared(post)
    &&& post.revision == wrap_inc(pre.revision)
    &&& outcome.candidates_dirty
    &&& outcome.effect matches Effect::CommitAndClear { text } && text@ == pre.input@
}

/// Nothing changes and the outcome is a no-op.
pub open spec fn ignored(pre: InputState, post: InputState, outcome: Outcome) -> bool {
    post == pre && outcome == (Outcome { effect: Effect::Nothing, candidates_dirty: false })
}

/// The transition relation of the state machine.
pub open spec fn transition(event: InputEvent, pre: InputState, post: InputState, outcome: Outcome) -> bool {
    match event {
        InputEvent::Letter(c) => if editable(c) {
            &&& post.input@ == pre.input@.insert(pre.cursor as int, c)
            &&& post.cursor == sat_inc(pre.cursor)
            &&& post.revision == wrap_inc(pre.revision)
            &&& keeps_menu(pre, post)
            &&& outcome == (Outcome { effect: Effect::Nothing, candidates_dirty: true })
        } else {
            ignored(pre, post, outcome)
        },
        InputEvent::Backspace => if pre.cursor == 0 {
            ignored(pre, post, outcome)
        } else {
            &&& post.input@ == pre.input@.remove(pre.cursor - 1)
            &&& post.cursor == pre.cursor - 1
            &&& post.revision == wrap_inc(pre.revision)
            &&& keeps_menu(pre, post)
            &&& outcome == (Outcome { effect: Effect::Nothing, candidates_dirty: true })
        },
        InputEvent::Delete => if pre.cursor >= pre.input@.len() {
            ignored(pre, post, outcome)
        } else {
            &&& post.input@ == pre.input@.remove(pre.cursor as int)
            &&& post.cursor == pre.cursor
            &&& post.revision == wrap_inc(pre.revision)
            &&& keeps_menu(pre, post)
            &&& outcome == (Outcome { effect: Effect::Nothing, candidates_dirty: true })
        },
        InputEvent::Left => {
            &&& post == InputState { cursor: sat_dec(pre.cursor), ..pre }
            &&& outcome == (Outcome { effect: Effect::Nothing, candidates_dirty: false })
        },
        InputEvent::Right => {
            &&& post == InputState {
                cursor: if sat_inc(pre.cursor) < pre.input@.len() {
                    sat_inc(pre.cursor)
                } else {
                    pre.input@.len() as usize
                },
                ..pre
            }
            &&& outcome == (Outcome { effect: Effect::Nothing, candidates_dirty: false })
        },
        InputEvent::PageUp => {
            let (sel, page) = normalized_selection(
                pre.candidates@.len(),
                (sat_dec(pre.page) * PAGE_SIZE) as usize,
            );
            &&& post == InputState { selected_index: sel, page, ..pre }
            &&& outcome == (Outcome { effect: Effect::Nothing, candidates_dirty: false })
        },
        InputEvent::PageDown => {
            let selected = if (pre.page + 1) * PAGE_SIZE < pre.candidates@.len() {
                ((pre.page + 1) * PAGE_SIZE) as usize
            } else {
                pre.selected_index
            };
            let (sel, page) = normalized_selection(pre.candidates@.len(), selected);
            &&& post == InputState { selected_index: sel, page, ..pre }
            &&& outcome == (Outcome { effect: Effect::Nothing, candidates_dirty: false })
        },
        InputEvent::Space => if pre.candidates@.len() == 0 {
            commits_raw(pre, post, outcome)
        } else {
            commits(pre, pre.page * PAGE_SIZE, post, outcome.effect) && outcome.candidates_dirty
        },
        InputEvent::Enter => if pre.candidates@.len() == 0 {
            commits_raw(pre, post, outcome)
        } else {
            commits(pre, pre.selected_index as int, post, outcome.effect)
                && outcome.candidates_dirty
        },
        InputEvent::Escape => {
            &&& cleared(post)
            &&& post.revision == wrap_inc(pre.revision)
            &&& outcome == (Outcome { effect: Effect::Clear, candidates_dirty: true })
        },
        InputEvent::Digit(d) => {
            let index = pre.page * PAGE_SIZE + d - 1;
            if d == 0 || d > PAGE_SIZE || index >= pre.candidates@.len() {
                ignored(pre, post, outcome)
            } else {
                commits(pre, index, post, outcome.effect) && outcome.candidates_dirty
            }
        },
        InputEvent::SelectCandidate(index) => if index >= pre.candidates@.len() {
            ignored(pre, post, outcome)
        } else {
            commits(pre, index as int, post, outcome.effect) && outcome.candidates_dirty
        },
    }
}

impl StateMachine {
    /// Applies one event to the composition state.
    pub fn apply(event: &InputEvent, state: &mut InputState) -> (outcome: Outcome)
        requires
            old(state).wf(),
        ensures
            transition(*event, *old(state), *final(state), outcome),
            final(state).wf(),
    {
        match *event {
            InputEvent::Letter(character) => {
                if is_editable(character) {
                    proof {
                        lemma_ascii_edits(state.input@, state.cursor as int, 0, character);
                    }
                    state.input = insert_char(&state.input, state.cursor, character);
                    state.cursor = state.cursor.saturating_add(1);
                    state.revision = state.revision.wrapping_add(1);
                    dirty()
                } else {
                    Outcome { effect: Effect::Nothing, candidates_dirty: false }
                }
            },
            InputEvent::Backspace => {
                if state.cursor == 0 {
                    return Outcome { effect: Effect::Nothing, candidates_dirty: false };
                }
                proof {
                    lemma_ascii_edits(state.input@, state.cursor - 1, 0, 'a');
                }
                state.input = remove_char(&state.input, state.cursor - 1);
                state.cursor = state.cursor - 1;
                state.revision = state.revision.wrapping_add(1);
                dirty()
            },
            InputEvent::Delete => {
                if state.cursor >= state.input.as_str().unicode_len() {
                    return Outcome { effect: Effect::Nothing, candidates_dirty: false };
                }
                proof {
                    lemma_ascii_edits(state.input@, state.cursor as int, 0, 'a');
                }
                state.input = remove_char(&state.input, state.cursor);
                state.revision = state.revision.wrapping_add(1);
                dirty()
            },
            InputEvent::Left => {
                state.cursor = state.cursor.saturating_sub(1);
                Outcome { effect: Effect::Nothing, candidates_dirty: false }
            },
            InputEvent::Right => {
                let next = state.cursor.saturating_add(1);
                state.cursor = if next < state.input.as_str().unicode_len() {
                    next
                } else {
                    state.input.as_str().unicode_len()
                };
                Outcome { effect: Effect::Nothing, candidates_dirty: false }
            },
            InputEvent::PageUp => {
                state.page = state.page.saturating_sub(1);
                state.selected_index = state.page * PAGE_SIZE;
                state.normalize_selection();
                Outcome { effect: Effect::Nothing, candidates_dirty: false }
            },
            InputEvent::PageDown => {
                if (state.page + 1) * PAGE_SIZE < state.candidates.len() {
                    state.page = state.page + 1;
                    state.selected_index = state.page * PAGE_SIZE;
                }
                state.normalize_selection();
                Outcome { effect: Effect::Nothing, candidates_dirty: false }
            },
            InputEvent::Space => {
                if state.candidates.len() == 0 {
                    return commit_raw(state);
                }
                let index = state.page * PAGE_SIZE;
                Outcome { effect: commit_candidate(state, index), candidates_dirty: true }
            },
            InputEvent::Enter => {
                if state.candidates.len() == 0 {
                    return commit_raw(state);
                }
                let index = state.selected_index;
                Outcome { effect: commit_candidate(state, index), candidates_dirty: true }
            },
            InputEvent::Escape => {
                state.revision = state.revision.wrapping_add(1);
                state.reset_composition();
                Outcome { effect: Effect::Clear, candidates_dirty: true }
            },
            InputEvent::Digit(digit) => {
                if digit == 0 || digit > PAGE_SIZE as u8 {
                    return Outcome { effect: Effect::Nothing, candidates_dirty: false };
                }
                let index = state.page * PAGE_SIZE + (digit as usize - 1);
                if index >= state.candidates.len() {
                    return Outcome { effect: Effect::Nothing, candidates_dirty: false };
                }
                Outcome { effect: commit_candidate(state, index), candidates_dirty: true }
            },
            InputEvent::SelectCandidate(index) => {
                if index >= state.candidates.len() {
                    return Outcome { effect: Effect::Nothing, candidates_dirty: false };
                }
                Outcome { effect: commit_candidate(state, index), candidates_dirty: true }
            },
        }
    }
}

/// Cursor movement and paging never change the input or the revision, and leave the
/// candidates fresh.
pub proof fn law_navigation_keeps_input(
    event: InputEvent,
    pre: InputState,
    post: InputState,
    outcome: Outcome,
)
    requires
        transition(event, pre, post, outcome),
        event is Left || event is Right || event is PageUp || event is PageDown,
    ensures
        post.input == pre.input,
        post.revision == pre.revision,
        post.candidates == pre.candidates,
        !outcome.candidates_dirty,
        outcome.effect == Effect::Nothing,
{
}

/// Every event that changes the input bumps the revision, and every revision bump marks the
/// candidates stale.
pub proof fn law_input_change_bumps_revision(
    event: InputEvent,
    pre: InputState,
    post: InputState,
    outcome: Outcome,
)
    requires
        transition(event, pre, post, outcome),
    ensures
        post.input@ != pre.input@ ==> post.revision == wrap_inc(pre.revision),
        post.revision != pre.revision ==> outcome.candidates_dirty,
{
}

/// Typing an editable letter and then pressing backspace restores the input and the cursor
/// and leaves the menu as it was.
pub proof fn law_backspace_undoes_letter(
    c: char,
    s0: InputState,
    s1: InputState,
    s2: InputState,
    o1: Outcome,
    o2: Outcome,
)
    requires
        editable(c),
        s0.wf(),
        s0.input@.len() < usize::MAX,
        transition(InputEvent::Letter(c), s0, s1, o1),
        transition(InputEvent::Backspace, s1, s2, o2),
    ensures
        s2.input@ == s0.input@,
        s2.cursor == s0.cursor,
        keeps_menu(s0, s2),
        s2.revision == wrap_inc(wrap_inc(s0.revision)),
{
    assert(s2.input@ =~= s0.input@);
}

/// Restoring the selection invariants leaves the selection on an existing candidate of the
/// page it reports, and doing it twice changes nothing more.
pub proof fn law_normalized_selection(len: nat, selected: usize)
    requires
        len <= usize::MAX,
    ensures
        ({
            let (s, p) = normalized_selection(len, selected);
            &&& len == 0 ==> s == 0 && p == 0
            &&& len > 0 ==> s < len && p == s / PAGE_SIZE
            &&& normalized_selection(len, s) == (s, p)
        }),
{
}

/// A committed candidate consumes letters from the front of the input only: what remains
/// is a suffix of the previous input.
pub proof fn law_commit_keeps_suffix(pre: InputState, index: int, post: InputState, effect: Effect)
    requires
        commits(pre, index, post, effect),
    ensures
        pre.input@ == pre.input@.subrange(0, pre.input@.len() - post.input@.len()) + post.input@,
{
    assert(pre.input@ =~= pre.input@.subrange(0, pre.input@.len() - post.input@.len())
        + post.input@);
}

/// A commit keeps the cursor on the same letter of what remains: the cursor moves back by the
/// number of letters the commit consumed, clamped to the remaining input; a cursor at the end
/// of the input stays at the end of what remains.
pub proof fn law_commit_moves_cursor_back(
    event: InputEvent,
    pre: InputState,
    post: InputState,
    outcome: Outcome,
)
    requires
        pre.wf(),
        transition(event, pre, post, outcome),
        outcome.effect is Commit || outcome.effect is CommitAndClear,
    ensures
        post.input@.len() <= pre.input@.len(),
        ({
            let consumed = pre.input@.len() - post.input@.len();
            let back = pre.cursor - consumed;
            post.cursor == if back < 0 {
                0
            } else if back > post.input@.len() {
                post.input@.len() as int
            } else {
                back
            }
        }),
        pre.cursor == pre.input@.len() ==> post.cursor == post.input@.len(),
{
}

/// Commits the raw input when there are no candidates.
fn commit_raw(state: &mut InputState) -> (outcome: Outcome)
    requires
        old(state).wf(),
    ensures
        commits_raw(*old(state), *final(state), outcome),
        final(state).wf(),
{
    state.revision = state.revision.wrapping_add(1);
    let text = state.input.clone();
    state.reset_composition();
    Outcome { effect: Effect::CommitAndClear { text }, candidates_dirty: true }
}

/// Commits candidate `index`, keeping the input it did not consume.
fn commit_candidate(state: &mut InputState, index: usize) -> (effect: Effect)
    requires
        old(state).wf(),
    ensures
        commits(*old(state), index as int, *final(state), effect),
        final(state).wf(),
{
    if index >= state.candidates.len() {
        return Effect::Nothing;
    }
    let text = state.candidates[index].text.clone();
    let keys = state.candidates[index].consumedkeys;
    let chars = chars_of(state.input.as_str());
    let len = chars.len();
    let consumed = if keys < len {
        keys
    } else {
        len
    };
    proof {
        lemma_ascii_edits(chars@, consumed as int, len as int, 'a');
    }
    let remaining = string_from_range(&chars, consumed, len);
    let remaining_len = len - consumed;
    state.revision = state.revision.wrapping_add(1);
    state.input = remaining;
    let back = state.cursor.saturating_sub(consumed);
    state.cursor = if back < remaining_len {
        back
    } else {
        remaining_len
    };
    state.candidates = Vec::new();
    state.selected_index = 0;
    state.page = 0;
    state.predictions = Vec::new();
    state.model_pending = false;
    if remaining_len == 0 {
        Effect::CommitAndClear { text }
    } else {
        Effect::Commit { text }
    }
}

fn dirty() -> (outcome: Outcome)
    ensures
        outcome == (Outcome { effect: Effect::Nothing, candidates_dirty: true }),
{
    Outcome { effect: Effect::Nothing, candidates_dirty: true }
}

fn is_editable(character: char) -> (r: bool)
    ensures
        r == editable(character),
{
    ('a' <= character && character <= 'z') || character == '\''
}

/// `s` with `c` inserted before position `at`.
fn insert_char(s: &String, at: usize, c: char) -> (r: String)
    requires
        at <= s@.len(),
    ensures
        r@ == s@.insert(at as int, c),
{
    let chars = chars_of(s.as_str());
    let mut r = string_from_range(&chars, 0, at);
    push_char(&mut r, c);
    let tail = string_from_range(&chars, at, chars.len());
    r.append(tail.as_str());
    assert(r@ =~= s@.insert(at as int, c));
    r
}

/// `s` without the character at position `at`.
fn remove_char(s: &String, at: usize) -> (r: String)
    requires
        at < s@.len(),
    ensures
        r@ == s@.remove(at as int),
{
    let chars = chars_of(s.as_str());
    let n = chars.len();
    let mut r = string_from_range(&chars, 0, at);
    let tail = string_from_range(&chars, at + 1, n);
    r.append(tail.as_str());
    assert(r@ =~= s@.remove(at as int));
    r
}

} // verus!
