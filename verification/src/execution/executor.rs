//! The code-runner state machine: pure `State → State` transitions for one runnable block.
//! There is no real HTTP cancel, so `cancel`/`started`/`clear_outcome` bump the opaque
//! `RunHandle`, and a late result whose handle no longer matches is a no-op.
//!
//! The state is generic over the run result it carries: the machine never looks inside it.

use vstd::prelude::*;

use crate::text::{chars_of, chars_of_string, lemma_join_split, same, seqs, split_char, split_on};

verus! {

#[derive(Debug, Clone, Copy, PartialEq, Eq, Structural)]
pub enum RunState {
    Idle,
    Running,
    Done,
}

/// Orthogonal to `RunState`; the auth gate is enforced by the caller, not by the machine.
#[derive(Debug, Clone, Copy, PartialEq, Eq, Structural)]
pub enum EditMode {
    ReadOnly,
    Editing,
}

/// Opaque, monotonic — cannot be fabricated outside this module, so a stored handle can only
/// have come from a transition.
#[derive(Debug, Clone, Copy, PartialEq, Eq, Structural)]
pub struct RunHandle(u64);

impl View for RunHandle {
    type V = u64;

    closed spec fn view(&self) -> u64 {
        self.0
    }
}

impl RunHandle {
    fn initial() -> (h: RunHandle)
        ensures
            h@ == 0,
    {
        RunHandle(0)
    }

    fn next(self) -> (h: RunHandle)
        requires
            self@ < u64::MAX,
        ensures
            h@ == self@ + 1,
    {
        RunHandle(self.0 + 1)
    }

    fn same(self, other: RunHandle) -> (b: bool)
        ensures
            b == (self@ == other@),
    {
        self.0 == other.0
    }
}

#[derive(Debug, Clone, PartialEq)]
pub struct ExecutorState<R> {
    pub code: String,
    pub run_state: RunState,
    pub edit_mode: EditMode,
    pub result: Option<R>,
    pub error: Option<String>,
    pub run_id: RunHandle,
}

pub open spec fn err_view(e: Option<String>) -> Option<Seq<char>> {
    match e {
        Some(s) => Some(s@),
        None => None,
    }
}

/// `b` holds a clone of what `a` holds.
pub open spec fn kept<R: Clone>(a: Option<R>, b: Option<R>) -> bool {
    match (a, b) {
        (None, None) => true,
        (Some(x), Some(y)) => cloned(x, y),
        _ => false,
    }
}

/// `b` is `a` with the same code, modes, error and handle, and a clone of its result.
pub open spec fn same_state<R: Clone>(a: ExecutorState<R>, b: ExecutorState<R>) -> bool {
    &&& b.code@ == a.code@
    &&& b.run_state == a.run_state
    &&& b.edit_mode == a.edit_mode
    &&& kept(a.result, b.result)
    &&& err_view(b.error) == err_view(a.error)
    &&& b.run_id@ == a.run_id@
}

fn clone_error(e: &Option<String>) -> (r: Option<String>)
    ensures
        err_view(r) == err_view(*e),
{
    match e {
        Some(s) => Some(s.clone()),
        None => None,
    }
}

impl<R: Clone> ExecutorState<R> {
    /// Idle, read-only, no outcome, the initial handle.
    pub fn initial(source: &str) -> (s: Self)
        ensures
            s.code@ == source@,
            s.run_state == RunState::Idle,
            s.edit_mode == EditMode::ReadOnly,
            s.result is None,
            s.error is None,
            s.run_id@ == 0,
    {
        ExecutorState {
            code: source.to_owned(),
            run_state: RunState::Idle,
            edit_mode: EditMode::ReadOnly,
            result: None,
            error: None,
            run_id: RunHandle::initial(),
        }
    }

    /// Reset-to-starter: identical to `initial`.
    pub fn reset(source: &str) -> (s: Self)
        ensures
            s.code@ == source@,
            s.run_state == RunState::Idle,
            s.edit_mode == EditMode::ReadOnly,
            s.result is None,
            s.error is None,
            s.run_id@ == 0,
    {
        Self::initial(source)
    }

    /// A run begins: clear the previous outcome, mint the handle the eventual result must
    /// show.
    pub fn started(&self) -> (s: Self)
        requires
            self.run_id@ < u64::MAX,
        ensures
            s.code@ == self.code@,
            s.run_state == RunState::Running,
            s.edit_mode == self.edit_mode,
            s.result is None,
            s.error is None,
            s.run_id@ == self.run_id@ + 1,
    {
        ExecutorState {
            code: self.code.clone(),
            run_state: RunState::Running,
            edit_mode: self.edit_mode,
            result: None,
            error: None,
            run_id: self.run_id.next(),
        }
    }

    /// Clear the run outcome (case switch): the buffer and edit unlock survive, the stale
    /// result/error panel disappears, and the bumped handle stale-guards any run in flight.
    pub fn clear_outcome(&self) -> (s: Self)
        requires
            self.run_id@ < u64::MAX,
        ensures
            s.code@ == self.code@,
            s.run_state == RunState::Idle,
            s.edit_mode == self.edit_mode,
            s.result is None,
            s.error is None,
            s.run_id@ == self.run_id@ + 1,
    {
        ExecutorState {
            code: self.code.clone(),
            run_state: RunState::Idle,
            edit_mode: self.edit_mode,
            result: None,
            error: None,
            run_id: self.run_id.next(),
        }
    }

    /// Cancel without a real HTTP cancel: back to Idle and BUMP the handle, so the in-flight
    /// run's eventual result is stale on arrival.
    pub fn cancel(&self) -> (s: Self)
        requires
            self.run_id@ < u64::MAX,
        ensures
            s.code@ == self.code@,
            s.run_state == RunState::Idle,
            s.edit_mode == self.edit_mode,
            kept(self.result, s.result),
            err_view(s.error) == err_view(self.error),
            s.run_id@ == self.run_id@ + 1,
    {
        ExecutorState {
            code: self.code.clone(),
            run_state: RunState::Idle,
            edit_mode: self.edit_mode,
            result: self.result.clone(),
            error: clone_error(&self.error),
            run_id: self.run_id.next(),
        }
    }

    fn copy(&self) -> (s: Self)
        ensures
            same_state(*self, s),
    {
        ExecutorState {
            code: self.code.clone(),
            run_state: self.run_state,
            edit_mode: self.edit_mode,
            result: self.result.clone(),
            error: clone_error(&self.error),
            run_id: self.run_id,
        }
    }

    /// Apply a result — only if it belongs to the CURRENT run; otherwise nothing changes.
    pub fn completed(&self, handle: RunHandle, result: R) -> (s: Self)
        ensures
            handle@ != self.run_id@ ==> same_state(*self, s),
            handle@ == self.run_id@ ==> {
                &&& s.code@ == self.code@
                &&& s.run_state == RunState::Done
                &&& s.edit_mode == self.edit_mode
                &&& s.result == Some(result)
                &&& err_view(s.error) == err_view(self.error)
                &&& s.run_id@ == self.run_id@
            },
    {
        if !self.run_id.same(handle) {
            return self.copy();
        }
        ExecutorState {
            code: self.code.clone(),
            run_state: RunState::Done,
            edit_mode: self.edit_mode,
            result: Some(result),
            error: clone_error(&self.error),
            run_id: self.run_id,
        }
    }

    /// Apply a failure — same staleness guard.
    pub fn failed(&self, handle: RunHandle, error: &str) -> (s: Self)
        ensures
            handle@ != self.run_id@ ==> same_state(*self, s),
            handle@ == self.run_id@ ==> {
                &&& s.code@ == self.code@
                &&& s.run_state == RunState::Done
                &&& s.edit_mode == self.edit_mode
                &&& kept(self.result, s.result)
                &&& err_view(s.error) == Some(error@)
                &&& s.run_id@ == self.run_id@
            },
    {
        if !self.run_id.same(handle) {
            return self.copy();
        }
        ExecutorState {
            code: self.code.clone(),
            run_state: RunState::Done,
            edit_mode: self.edit_mode,
            result: self.result.clone(),
            error: Some(error.to_owned()),
            run_id: self.run_id,
        }
    }

    /// Buffer edits touch NOTHING else — a keystroke during a run must not eat the result.
    pub fn set_code(&self, code: &str) -> (s: Self)
        ensures
            s.code@ == code@,
            s.run_state == self.run_state,
            s.edit_mode == self.edit_mode,
            kept(self.result, s.result),
            err_view(s.error) == err_view(self.error),
            s.run_id@ == self.run_id@,
    {
        ExecutorState {
            code: code.to_owned(),
            run_state: self.run_state,
            edit_mode: self.edit_mode,
            result: self.result.clone(),
            error: clone_error(&self.error),
            run_id: self.run_id,
        }
    }

    pub fn enter_edit(&self) -> (s: Self)
        ensures
            s.code@ == self.code@,
            s.run_state == self.run_state,
            s.edit_mode == EditMode::Editing,
            kept(self.result, s.result),
            err_view(s.error) == err_view(self.error),
            s.run_id@ == self.run_id@,
    {
        ExecutorState {
            code: self.code.clone(),
            run_state: self.run_state,
            edit_mode: EditMode::Editing,
            result: self.result.clone(),
            error: clone_error(&self.error),
            run_id: self.run_id,
        }
    }

    /// Leave edit mode reverting the buffer to the authored source — the last RESULT survives
    /// (reverting code is not un-running it).
    pub fn cancel_edit(&self, source: &str) -> (s: Self)
        ensures
            s.code@ == source@,
            s.run_state == self.run_state,
            s.edit_mode == EditMode::ReadOnly,
            kept(self.result, s.result),
            err_view(s.error) == err_view(self.error),
            s.run_id@ == self.run_id@,
    {
        ExecutorState {
            code: source.to_owned(),
            run_state: self.run_state,
            edit_mode: EditMode::ReadOnly,
            result: self.result.clone(),
            error: clone_error(&self.error),
            run_id: self.run_id,
        }
    }
}

impl<R: Clone> ExecutorState<R> {
    /// What the Run button does: nothing while a run is in flight (that run wins); otherwise
    /// the run begins, and the caller sends the returned state's code under its handle.
    pub fn launch(&self) -> (s: Option<Self>)
        requires
            self.run_state != RunState::Running ==> self.run_id@ < u64::MAX,
        ensures
            self.run_state == RunState::Running <==> s is None,
            s matches Some(n) ==> {
                &&& n.code@ == self.code@
                &&& n.run_state == RunState::Running
                &&& n.edit_mode == self.edit_mode
                &&& n.result is None
                &&& n.error is None
                &&& n.run_id@ == self.run_id@ + 1
            },
    {
        if self.run_state == RunState::Running {
            None
        } else {
            Some(self.started())
        }
    }

    /// The edit toggle: unlocking enters edit mode; locking back up leaves it and reverts the
    /// buffer to the authored source (the last result survives). Returns the new unlock.
    pub fn toggle_edit(&self, unlocked: bool, authored: &str) -> (r: (bool, Self))
        ensures
            r.0 == !unlocked,
            r.1.edit_mode == if unlocked {
                EditMode::ReadOnly
            } else {
                EditMode::Editing
            },
            r.1.code@ == if unlocked {
                authored@
            } else {
                self.code@
            },
            r.1.run_state == self.run_state,
            kept(self.result, r.1.result),
            err_view(r.1.error) == err_view(self.error),
            r.1.run_id@ == self.run_id@,
    {
        if unlocked {
            (false, self.cancel_edit(authored))
        } else {
            (true, self.enter_edit())
        }
    }
}

/// The buffer differs from the authored source.
pub fn is_dirty<R>(state: &ExecutorState<R>, source: &str) -> (b: bool)
    ensures
        b == (state.code@ != source@),
{
    !same(&chars_of_string(&state.code), &chars_of(source))
}

/// Line `i` of a split text, if it has one.
pub open spec fn line_at(ls: Seq<Seq<char>>, i: int) -> Option<Seq<char>> {
    if 0 <= i < ls.len() {
        Some(ls[i])
    } else {
        None
    }
}

/// How many of the first `n` line positions differ between `a` and `b`.
pub open spec fn count_diff(a: Seq<Seq<char>>, b: Seq<Seq<char>>, n: int) -> nat
    decreases n,
{
    if n <= 0 {
        0
    } else {
        count_diff(a, b, n - 1) + if line_at(a, n - 1) != line_at(b, n - 1) {
            1nat
        } else {
            0nat
        }
    }
}

/// How many lines differ from the authored source, by index: changed lines plus lines one
/// text has and the other lacks.
pub open spec fn spec_changed_lines(code: Seq<char>, source: Seq<char>) -> nat {
    let a = split_char(code, '\n');
    let b = split_char(source, '\n');
    count_diff(a, b, if a.len() >= b.len() { a.len() as int } else { b.len() as int })
}

/// How many lines differ from the authored source, by index (the Edit chrome's badge).
pub fn changed_line_count<R>(state: &ExecutorState<R>, source: &str) -> (n: usize)
    ensures
        n == spec_changed_lines(state.code@, source@),
{
    let current = split_on(&chars_of_string(&state.code), '\n');
    let authored = split_on(&chars_of(source), '\n');
    let ghost a = seqs(current@);
    let ghost b = seqs(authored@);
    let max = if current.len() >= authored.len() {
        current.len()
    } else {
        authored.len()
    };
    let mut n: usize = 0;
    let mut i: usize = 0;
    while i < max
        invariant
            i <= max,
            max == if a.len() >= b.len() { a.len() as int } else { b.len() as int },
            a == seqs(current@),
            b == seqs(authored@),
            n == count_diff(a, b, i as int),
            n <= i,
        decreases max - i,
    {
        let differs = if i < current.len() && i < authored.len() {
            assert(a[i as int] == current@[i as int]@);
            assert(b[i as int] == authored@[i as int]@);
            !same(&current[i], &authored[i])
        } else {
            true
        };
        if differs {
            n = n + 1;
        }
        i = i + 1;
    }
    n
}

/// An untouched buffer has no changed lines.
pub proof fn lemma_clean_has_no_changes(code: Seq<char>)
    ensures
        spec_changed_lines(code, code) == 0,
{
    let a = split_char(code, '\n');
    lemma_count_diff_self(a, a.len() as int);
}

proof fn lemma_count_diff_self(a: Seq<Seq<char>>, n: int)
    ensures
        count_diff(a, a, n) == 0,
    decreases n,
{
    if n > 0 {
        lemma_count_diff_self(a, n - 1);
    }
}


proof fn lemma_count_diff_zero(a: Seq<Seq<char>>, b: Seq<Seq<char>>, n: int)
    requires
        count_diff(a, b, n) == 0,
    ensures
        forall|i: int| 0 <= i < n ==> #[trigger] line_at(a, i) == line_at(b, i),
    decreases n,
{
    if n > 0 {
        lemma_count_diff_zero(a, b, n - 1);
    }
}

/// No changed line exactly when the buffer is the authored source.
pub proof fn lemma_no_changes_iff_clean(code: Seq<char>, source: Seq<char>)
    ensures
        spec_changed_lines(code, source) == 0 <==> code == source,
{
    let a = split_char(code, '\n');
    let b = split_char(source, '\n');
    let m = if a.len() >= b.len() {
        a.len() as int
    } else {
        b.len() as int
    };
    if code == source {
        lemma_clean_has_no_changes(code);
    }
    if spec_changed_lines(code, source) == 0 {
        lemma_count_diff_zero(a, b, m);
        if a.len() != b.len() {
            assert(line_at(a, m - 1) != line_at(b, m - 1));
        }
        assert forall|i: int| 0 <= i < a.len() implies a[i] == b[i] by {
            assert(line_at(a, i) == line_at(b, i));
        }
        assert(a =~= b);
        lemma_join_split(code, '\n');
        lemma_join_split(source, '\n');
    }
}


/// Counting changed lines is symmetric in the two texts, and never exceeds the line count of
/// the longer one.
pub proof fn lemma_changed_lines_symmetric(code: Seq<char>, source: Seq<char>)
    ensures
        spec_changed_lines(code, source) == spec_changed_lines(source, code),
        spec_changed_lines(code, source) <= if split_char(code, '\n').len() >= split_char(source, '\n').len() {
            split_char(code, '\n').len()
        } else {
            split_char(source, '\n').len()
        },
{
    let a = split_char(code, '\n');
    let b = split_char(source, '\n');
    let m = if a.len() >= b.len() {
        a.len() as int
    } else {
        b.len() as int
    };
    lemma_count_diff_swap(a, b, m);
    lemma_count_diff_le(a, b, m);
}

proof fn lemma_count_diff_swap(a: Seq<Seq<char>>, b: Seq<Seq<char>>, n: int)
    ensures
        count_diff(a, b, n) == count_diff(b, a, n),
    decreases n,
{
    if n > 0 {
        lemma_count_diff_swap(a, b, n - 1);
    }
}

proof fn lemma_count_diff_le(a: Seq<Seq<char>>, b: Seq<Seq<char>>, n: int)
    ensures
        count_diff(a, b, n) <= if n > 0 { n } else { 0 },
    decreases n,
{
    if n > 0 {
        lemma_count_diff_le(a, b, n - 1);
    }
}

} // verus!
