use vstd::pervasive::cloned;
use vstd::prelude::*;

verus! {

/// A linear undo history over a cloneable state: commands transform the
/// current state, and the state after every prefix of commands stays
/// retrievable.
pub struct History<State> {
    /// The state after each prefix of the executed commands: the first
    /// element is the initial state, the last one the current state.
    states: Vec<State>,
}

impl<State> History<State> {
    /// The state after each prefix of executed commands, oldest first.
    pub closed spec fn snapshots(&self) -> Seq<State> {
        self.states@
    }

    /// At least the initial state is always present.
    pub open spec fn wf(&self) -> bool {
        self.snapshots().len() >= 1
    }

    /// The current state.
    pub open spec fn current(&self) -> State {
        self.snapshots().last()
    }

    /// Creates a history whose initial and current state is `initial`.
    pub fn new(initial: State) -> (r: Self)
        ensures
            r.wf(),
            r.snapshots() =~= seq![initial],
    {
        let mut states: Vec<State> = Vec::new();
        states.push(initial);
        History { states }
    }

    /// Applies `command` to the current state and makes the result the new
    /// current state; the old state is kept as a snapshot, so the command
    /// can be undone.
    pub fn execute<F: Fn(&State) -> State>(&mut self, command: F)
        requires
            old(self).wf(),
            call_requires(command, (&old(self).current(),)),
        ensures
            final(self).wf(),
            final(self).snapshots().len() == old(self).snapshots().len() + 1,
            final(self).snapshots().drop_last() == old(self).snapshots(),
            call_ensures(command, (&old(self).current(),), final(self).current()),
    {
        let n = self.states.len();
        let next = command(&self.states[n - 1]);
        self.states.push(next);
        proof {
            assert(self.snapshots().drop_last() =~= old(self).snapshots());
        }
    }

    /// Reads the current state.
    pub fn get(&self) -> (r: State) where State: Clone
        requires
            self.wf(),
        ensures
            cloned(self.current(), r),
    {
        let n = self.states.len();
        self.states[n - 1].clone()
    }

    /// The state as it was after `t` commands: `t == 0` is the initial
    /// state, and the number of executed commands is the largest `t` that is
    /// answered. Returns `None` for any larger `t`.
    pub fn at_t(&self, t: usize) -> (r: Option<State>) where State: Clone
        requires
            self.wf(),
        ensures
            r is Some <==> t < self.snapshots().len(),
            r matches Some(s) ==> cloned(self.snapshots()[t as int], s),
    {
        if t < self.states.len() {
            Some(self.states[t].clone())
        } else {
            None
        }
    }

    /// Undoes the last executed command: the current state reverts to the
    /// snapshot before it. Returns the state that was undone, or `None` when
    /// no command has been executed yet.
    pub fn undo(&mut self) -> (r: Option<State>)
        requires
            old(self).wf(),
        ensures
            final(self).wf(),
            old(self).snapshots().len() == 1 ==> r is None && final(self).snapshots() == old(
                self,
            ).snapshots(),
            old(self).snapshots().len() > 1 ==> (final(self).snapshots() == old(
                self,
            ).snapshots().drop_last() && r == Some(old(self).current())),
    {
        if self.states.len() <= 1 {
            return None;
        }
        self.states.pop()
    }
}

impl<State: Default> Default for History<State> {
    /// A history whose initial state is the state type's default value.
    fn default() -> (r: Self)
        ensures
            r.wf(),
            r.snapshots().len() == 1,
            call_ensures(State::default, (), r.snapshots()[0]),
    {
        History::new(State::default())
    }
}

} // verus!
