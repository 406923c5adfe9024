//! A linear undo/redo history over whole map states.

use vstd::prelude::*;

verus! {

/// What a history holds: the state it began with, the states committed since,
/// oldest first, and the states taken back, the latest taken back last.
#[verifier::ext_equal]
pub struct HistoryView {
    pub init: Seq<u8>,
    pub prev: Seq<Seq<u8>>,
    pub next: Seq<Seq<u8>>,
}

impl HistoryView {
    /// A history that begins with `init` and has seen no commit.
    pub open spec fn fresh(init: Seq<u8>) -> HistoryView {
        HistoryView { init, prev: Seq::empty(), next: Seq::empty() }
    }

    /// The state in force: the last commit not taken back, or the first
    /// state where there is none.
    pub open spec fn current(self) -> Seq<u8> {
        if self.prev.len() > 0 {
            self.prev.last()
        } else {
            self.init
        }
    }

    /// The history after `state` is committed: nothing is left to redo.
    pub open spec fn update(self, state: Seq<u8>) -> HistoryView {
        HistoryView { init: self.init, prev: self.prev.push(state), next: Seq::empty() }
    }

    /// The history after the last commit is taken back; unchanged where
    /// there is no commit.
    pub open spec fn undo(self) -> HistoryView {
        if self.prev.len() == 0 {
            self
        } else {
            HistoryView {
                init: self.init,
                prev: self.prev.drop_last(),
                next: self.next.push(self.prev.last()),
            }
        }
    }

    /// The history after the commit taken back last is made again; unchanged
    /// where none was taken back.
    pub open spec fn redo(self) -> HistoryView {
        if self.next.len() == 0 {
            self
        } else {
            HistoryView {
                init: self.init,
                prev: self.prev.push(self.next.last()),
                next: self.next.drop_last(),
            }
        }
    }

    /// Whether every state of the history is `len` bytes long.
    pub open spec fn states_have_len(self, len: nat) -> bool {
        &&& self.init.len() == len
        &&& forall|i: int| 0 <= i < self.prev.len() ==> (#[trigger] self.prev[i]).len() == len
        &&& forall|i: int| 0 <= i < self.next.len() ==> (#[trigger] self.next[i]).len() == len
    }

    /// The history after `times` undos.
    pub open spec fn undo_times(self, times: nat) -> HistoryView
        decreases times,
    {
        if times == 0 {
            self
        } else {
            self.undo().undo_times((times - 1) as nat)
        }
    }

    /// The history after `times` redos.
    pub open spec fn redo_times(self, times: nat) -> HistoryView
        decreases times,
    {
        if times == 0 {
            self
        } else {
            self.redo().redo_times((times - 1) as nat)
        }
    }

    /// The history that begins with `init` after the states of `commits` are
    /// committed in turn.
    pub open spec fn after_commits(init: Seq<u8>, commits: Seq<Seq<u8>>) -> HistoryView
        decreases commits.len(),
    {
        if commits.len() == 0 {
            HistoryView::fresh(init)
        } else {
            HistoryView::after_commits(init, commits.drop_last()).update(commits.last())
        }
    }
}

/// The state in force after the first `count` of `commits`, beginning with `init`.
pub open spec fn state_after(init: Seq<u8>, commits: Seq<Seq<u8>>, count: int) -> Seq<u8> {
    if count <= 0 {
        init
    } else {
        commits[count - 1]
    }
}

/// The states of `commits` from place `from` on, the last one first.
pub open spec fn taken_back(commits: Seq<Seq<u8>>, from: int) -> Seq<Seq<u8>> {
    Seq::new((commits.len() - from) as nat, |i: int| commits[commits.len() - 1 - i])
}

/// An undo right after a commit puts the state in force that was in force
/// before the commit, keeps the commit to redo, and a redo then makes the
/// commit again.
pub proof fn lemma_undo_takes_commit_back(history: HistoryView, state: Seq<u8>)
    ensures
        history.update(state).undo().current() == history.current(),
        history.update(state).undo().prev == history.prev,
        history.update(state).undo().next == seq![state],
        history.update(state).undo().redo() == history.update(state),
{
    let committed = history.update(state);
    let undone = committed.undo();
    assert(undone.prev =~= history.prev);
    assert(undone.next =~= seq![state]);
    assert(undone.redo().prev =~= committed.prev);
    assert(undone.redo().next =~= committed.next);
}

/// Commits made on a fresh history are its past, in their order, and leave
/// nothing to redo.
pub proof fn lemma_after_commits(init: Seq<u8>, commits: Seq<Seq<u8>>)
    ensures
        HistoryView::after_commits(init, commits) == (HistoryView {
            init,
            prev: commits,
            next: Seq::empty(),
        }),
    decreases commits.len(),
{
    if commits.len() > 0 {
        lemma_after_commits(init, commits.drop_last());
        assert(commits.drop_last().push(commits.last()) =~= commits);
    }
}

/// After `times` undos, a history of commits holds the earlier commits as
/// its past and the later ones to redo, the latest taken back last.
pub proof fn lemma_undo_times(init: Seq<u8>, commits: Seq<Seq<u8>>, times: nat)
    requires
        times <= commits.len(),
    ensures
        HistoryView::after_commits(init, commits).undo_times(times) == (HistoryView {
            init,
            prev: commits.take(commits.len() - times),
            next: taken_back(commits, commits.len() - times),
        }),
{
    lemma_after_commits(init, commits);
    let start = HistoryView::after_commits(init, commits);
    assert(commits.take(commits.len() as int) =~= commits);
    assert(taken_back(commits, commits.len() as int) =~= Seq::empty());
    lemma_undo_steps(start, init, commits, 0, times);
}

/// Further undos move further commits from the past to the states to redo.
proof fn lemma_undo_steps(
    start: HistoryView,
    init: Seq<u8>,
    commits: Seq<Seq<u8>>,
    done: nat,
    more: nat,
)
    requires
        done + more <= commits.len(),
        start == (HistoryView {
            init,
            prev: commits.take(commits.len() - done),
            next: taken_back(commits, commits.len() - done),
        }),
    ensures
        start.undo_times(more) == (HistoryView {
            init,
            prev: commits.take(commits.len() - done - more),
            next: taken_back(commits, commits.len() - done - more),
        }),
    decreases more,
{
    if more > 0 {
        let step = start.undo();
        let kept = commits.len() - done - 1;
        assert(step.prev =~= commits.take(kept));
        assert(step.next =~= taken_back(commits, kept));
        lemma_undo_steps(step, init, commits, done + 1, (more - 1) as nat);
    } else {
        assert(commits.take(commits.len() - done) =~= commits.take(commits.len() - done - more));
    }
}

/// Redos move commits back from the states to redo to the past.
proof fn lemma_redo_steps(
    start: HistoryView,
    init: Seq<u8>,
    commits: Seq<Seq<u8>>,
    done: nat,
    more: nat,
)
    requires
        done + more <= commits.len(),
        start == (HistoryView {
            init,
            prev: commits.take(done as int),
            next: taken_back(commits, done as int),
        }),
    ensures
        start.redo_times(more) == (HistoryView {
            init,
            prev: commits.take((done + more) as int),
            next: taken_back(commits, (done + more) as int),
        }),
    decreases more,
{
    if more > 0 {
        let step = start.redo();
        assert(step.prev =~= commits.take(done + 1 as int));
        assert(step.next =~= taken_back(commits, done + 1 as int));
        lemma_redo_steps(step, init, commits, done + 1, (more - 1) as nat);
    }
}

/// On a fresh history, after any commits: the undo number `k` puts the state
/// in force that preceded the commit it takes back, the first state of the
/// history being the floor; once every commit is taken back, the redo number
/// `k` puts the state of commit `k` in force; and as many redos as undos give
/// the history as it was after the last commit.
pub proof fn lemma_undo_redo_round_trip(init: Seq<u8>, commits: Seq<Seq<u8>>)
    ensures
        forall|k: nat|
            k <= commits.len() ==> (#[trigger] HistoryView::after_commits(
                init,
                commits,
            ).undo_times(k)).current() == state_after(init, commits, commits.len() - k),
        forall|k: nat|
            k <= commits.len() ==> (#[trigger] HistoryView::after_commits(init, commits).undo_times(
                commits.len(),
            ).redo_times(k)).current() == state_after(init, commits, k as int),
        HistoryView::after_commits(init, commits).undo_times(commits.len()).redo_times(
            commits.len(),
        ) == HistoryView::after_commits(init, commits),
{
    let done = HistoryView::after_commits(init, commits);
    let count = commits.len();
    lemma_after_commits(init, commits);
    assert forall|k: nat| k <= count implies (#[trigger] done.undo_times(k)).current()
        == state_after(init, commits, count - k) by {
        lemma_undo_times(init, commits, k);
    }
    lemma_undo_times(init, commits, count);
    let undone = done.undo_times(count);
    assert(commits.take(0) =~= Seq::empty());
    assert forall|k: nat| k <= count implies (#[trigger] undone.redo_times(k)).current()
        == state_after(init, commits, k as int) by {
        lemma_redo_steps(undone, init, commits, 0, k);
    }
    lemma_redo_steps(undone, init, commits, 0, count);
    assert(commits.take(count as int) =~= commits);
    assert(taken_back(commits, count as int) =~= Seq::empty());
}

/// A linear undo/redo history over whole states.
#[derive(Debug)]
pub struct History {
    init: Vec<u8>,
    prev: Vec<Vec<u8>>,
    next: Vec<Vec<u8>>,
}

impl View for History {
    type V = HistoryView;

    closed spec fn view(&self) -> HistoryView {
        HistoryView {
            init: self.init@,
            prev: states_of(self.prev@),
            next: states_of(self.next@),
        }
    }
}

/// The states that a stack of snapshots holds.
spec fn states_of(stack: Seq<Vec<u8>>) -> Seq<Seq<u8>> {
    stack.map_values(|state: Vec<u8>| state@)
}

/// A copy of a stack of snapshots, state for state.
fn clone_stack(stack: &Vec<Vec<u8>>) -> (copy: Vec<Vec<u8>>)
    ensures
        states_of(copy@) == states_of(stack@),
{
    let mut copy: Vec<Vec<u8>> = Vec::new();
    let mut i: usize = 0;
    while i < stack.len()
        invariant
            i <= stack@.len(),
            copy@.len() == i,
            states_of(copy@) == states_of(stack@.take(i as int)),
        decreases stack@.len() - i,
    {
        let state = stack[i].clone();
        assert(state@ =~= stack@[i as int]@);
        let ghost before = copy@;
        copy.push(state);
        proof {
            let copied = states_of(copy@);
            let want = states_of(stack@.take(i + 1));
            assert forall|j: int| 0 <= j < copied.len() implies copied[j] == want[j] by {
                if j < i {
                    assert(copy@[j] == before[j]);
                    assert(states_of(before)[j] == states_of(stack@.take(i as int))[j]);
                }
            }
            assert(copied =~= want);
        }
        i += 1;
    }
    assert(stack@.take(i as int) =~= stack@);
    copy
}

impl Clone for History {
    /// A history that holds the same states.
    fn clone(&self) -> (copy: History)
        ensures
            copy@ == self@,
    {
        let init = self.init.clone();
        assert(init@ =~= self.init@);
        History { init, prev: clone_stack(&self.prev), next: clone_stack(&self.next) }
    }
}

impl History {
    /// A history that begins with `init`.
    pub fn new(init: Vec<u8>) -> (history: History)
        ensures
            history@ == HistoryView::fresh(init@),
    {
        let history = History { init: init, prev: Vec::new(), next: Vec::new() };
        assert(states_of(history.prev@) =~= Seq::empty());
        assert(states_of(history.next@) =~= Seq::empty());
        history
    }

    /// Makes again the commit that was taken back last and returns its
    /// state; `None`, and nothing changes, where none was taken back.
    pub fn redo(&mut self) -> (state: Option<Vec<u8>>)
        ensures
            final(self)@ == old(self)@.redo(),
            old(self)@.next.len() == 0 ==> state is None,
            old(self)@.next.len() > 0 ==> state is Some && state->0@ == old(self)@.next.last(),
    {
        let ghost before = self@;
        match self.next.pop() {
            None => {
                assert(states_of(self.next@) =~= before.next);
                None
            },
            Some(elem) => {
                let copy = elem.clone();
                assert(copy@ =~= elem@);
                self.prev.push(elem);
                assert(states_of(self.next@) =~= before.next.drop_last());
                assert(states_of(self.prev@) =~= before.prev.push(before.next.last()));
                Some(copy)
            },
        }
    }

    /// Takes the last commit back and returns the state that was in force
    /// before it: the commit before, or the first state of the history;
    /// `None`, and nothing changes, where there is no commit to take back.
    pub fn undo(&mut self) -> (state: Option<Vec<u8>>)
        ensures
            final(self)@ == old(self)@.undo(),
            old(self)@.prev.len() == 0 ==> state is None,
            old(self)@.prev.len() > 0 ==> state is Some && state->0@ == final(self)@.current(),
    {
        let ghost before = self@;
        match self.prev.pop() {
            None => {
                assert(states_of(self.prev@) =~= before.prev);
                None
            },
            Some(elem) => {
                self.next.push(elem);
                assert(states_of(self.prev@) =~= before.prev.drop_last());
                assert(states_of(self.next@) =~= before.next.push(before.prev.last()));
                let left = self.prev.len();
                if left == 0 {
                    let copy = self.init.clone();
                    assert(copy@ =~= self.init@);
                    Some(copy)
                } else {
                    let copy = self.prev[left - 1].clone();
                    assert(copy@ =~= self.prev[left - 1]@);
                    Some(copy)
                }
            },
        }
    }

    /// Commits `state`: it is the state in force, and nothing is left to redo.
    pub fn update(&mut self, state: Vec<u8>)
        ensures
            final(self)@ == old(self)@.update(state@),
    {
        let ghost before = self@;
        self.next.clear();
        self.prev.push(state);
        assert(states_of(self.next@) =~= Seq::empty());
        assert(states_of(self.prev@) =~= before.prev.push(state@));
    }

    /// The number of commits that can be taken back.
    pub fn undo_len(&self) -> (len: usize)
        ensures
            len == self@.prev.len(),
    {
        self.prev.len()
    }

    /// The number of commits that can be made again.
    pub fn redo_len(&self) -> (len: usize)
        ensures
            len == self@.next.len(),
    {
        self.next.len()
    }
}

} // verus!
