use vstd::prelude::*;

verus! {

/// What a move command reads and writes of an agent: its id, position and fuel.
#[derive(Clone, Copy, Debug)]
pub struct AgentMotion<P> {
    pub id: usize,
    pub pos: P,
    pub fuel: i64,
}

/// Fuel after one move: one quantum less, held at the lower limit.
pub open spec fn fuel_consumed(f: i64) -> i64 {
    if f > i64::MIN {
        (f - 1) as i64
    } else {
        f
    }
}

/// Fuel after one move is undone: one quantum more, held at the upper limit.
pub open spec fn fuel_restored(f: i64) -> i64 {
    if f < i64::MAX {
        (f + 1) as i64
    } else {
        f
    }
}

/// A recorded move of one agent, from `old_pos` to `new_pos`.
#[derive(Clone, Copy, Debug)]
pub struct MoveCommand<P> {
    pub agent_id: usize,
    pub old_pos: P,
    pub new_pos: P,
    pub timestamp: u64,
}

/// The command's agent is present under its own id.
pub open spec fn targets<P>(agents: Seq<AgentMotion<P>>, cmd: MoveCommand<P>) -> bool {
    cmd.agent_id < agents.len() && agents[cmd.agent_id as int].id == cmd.agent_id
}

/// The agents after `cmd` runs: its agent moves to `new_pos` and spends one
/// quantum of fuel. A command whose agent is gone changes nothing.
pub open spec fn applied<P>(agents: Seq<AgentMotion<P>>, cmd: MoveCommand<P>) -> Seq<AgentMotion<P>> {
    if targets(agents, cmd) {
        let a = agents[cmd.agent_id as int];
        agents.update(
            cmd.agent_id as int,
            AgentMotion { id: a.id, pos: cmd.new_pos, fuel: fuel_consumed(a.fuel) },
        )
    } else {
        agents
    }
}

/// The agents after `cmd` is undone: its agent goes back to `old_pos` and
/// regains one quantum of fuel.
pub open spec fn undone<P>(agents: Seq<AgentMotion<P>>, cmd: MoveCommand<P>) -> Seq<AgentMotion<P>> {
    if targets(agents, cmd) {
        let a = agents[cmd.agent_id as int];
        agents.update(
            cmd.agent_id as int,
            AgentMotion { id: a.id, pos: cmd.old_pos, fuel: fuel_restored(a.fuel) },
        )
    } else {
        agents
    }
}

/// The agents after the commands run in order.
pub open spec fn applied_all<P>(agents: Seq<AgentMotion<P>>, cmds: Seq<MoveCommand<P>>) -> Seq<
    AgentMotion<P>,
>
    decreases cmds.len(),
{
    if cmds.len() == 0 {
        agents
    } else {
        applied(applied_all(agents, cmds.drop_last()), cmds.last())
    }
}

impl<P: Copy> MoveCommand<P> {
    pub fn new(agent_id: usize, old_pos: P, new_pos: P, timestamp: u64) -> (r: Self)
        ensures
            r == (MoveCommand { agent_id, old_pos, new_pos, timestamp }),
    {
        MoveCommand { agent_id, old_pos, new_pos, timestamp }
    }

    /// Runs the move on `agents`.
    pub fn execute(&self, agents: &mut Vec<AgentMotion<P>>)
        ensures
            final(agents)@ == applied(old(agents)@, *self),
    {
        let i = self.agent_id;
        if i < agents.len() {
            let a = agents[i];
            if a.id == i {
                let fuel = if a.fuel > i64::MIN {
                    a.fuel - 1
                } else {
                    a.fuel
                };
                agents.set(i, AgentMotion { id: a.id, pos: self.new_pos, fuel });
            }
        }
    }

    /// Reverts the move on `agents`.
    pub fn undo(&self, agents: &mut Vec<AgentMotion<P>>)
        ensures
            final(agents)@ == undone(old(agents)@, *self),
    {
        let i = self.agent_id;
        if i < agents.len() {
            let a = agents[i];
            if a.id == i {
                let fuel = if a.fuel < i64::MAX {
                    a.fuel + 1
                } else {
                    a.fuel
                };
                agents.set(i, AgentMotion { id: a.id, pos: self.old_pos, fuel });
            }
        }
    }
}

/// Pending moves, run in submission order, and the history of moves run, most
/// recent last.
pub struct CommandManager<P> {
    queue: Vec<MoveCommand<P>>,
    history: Vec<MoveCommand<P>>,
}

impl<P: Copy> CommandManager<P> {
    pub closed spec fn queue_spec(&self) -> Seq<MoveCommand<P>> {
        self.queue@
    }

    pub closed spec fn history_spec(&self) -> Seq<MoveCommand<P>> {
        self.history@
    }

    pub fn new() -> (r: Self)
        ensures
            r.queue_spec() == Seq::<MoveCommand<P>>::empty(),
            r.history_spec() == Seq::<MoveCommand<P>>::empty(),
    {
        CommandManager { queue: Vec::new(), history: Vec::new() }
    }

    /// Number of queued commands.
    pub fn queue_len(&self) -> (r: usize)
        ensures
            r == self.queue_spec().len(),
    {
        self.queue.len()
    }

    /// Number of commands in the history.
    pub fn history_len(&self) -> (r: usize)
        ensures
            r == self.history_spec().len(),
    {
        self.history.len()
    }

    /// Queues a command.
    pub fn add_command(&mut self, cmd: MoveCommand<P>)
        ensures
            final(self).queue_spec() == old(self).queue_spec().push(cmd),
            final(self).history_spec() == old(self).history_spec(),
    {
        self.queue.push(cmd);
    }

    /// Runs every queued command in order and moves it to the history.
    pub fn process_commands(&mut self, agents: &mut Vec<AgentMotion<P>>)
        ensures
            final(agents)@ == applied_all(old(agents)@, old(self).queue_spec()),
            final(self).history_spec() == old(self).history_spec() + old(self).queue_spec(),
            final(self).queue_spec() == Seq::<MoveCommand<P>>::empty(),
    {
        let mut i: usize = 0;
        while i < self.queue.len()
            invariant
                i <= self.queue@.len(),
                self.queue@ == old(self).queue@,
                agents@ == applied_all(old(agents)@, self.queue@.take(i as int)),
                self.history@ == old(self).history@ + self.queue@.take(i as int),
            decreases self.queue@.len() - i,
        {
            let cmd = self.queue[i];
            cmd.execute(agents);
            self.history.push(cmd);
            proof {
                assert(self.queue@.take(i + 1).drop_last() =~= self.queue@.take(i as int));
                assert(self.history@ =~= old(self).history@ + self.queue@.take(i + 1));
            }
            i += 1;
        }
        proof {
            assert(self.queue@.take(self.queue@.len() as int) =~= self.queue@);
        }
        self.queue.clear();
    }

    /// Undoes the most recent command of the history, if any, and drops it.
    pub fn undo_last(&mut self, agents: &mut Vec<AgentMotion<P>>)
        ensures
            final(self).queue_spec() == old(self).queue_spec(),
            old(self).history_spec().len() == 0 ==> final(self).history_spec() == old(self).history_spec()
                && final(agents)@ == old(agents)@,
            old(self).history_spec().len() > 0 ==> final(self).history_spec() == old(
                self,
            ).history_spec().drop_last() && final(agents)@ == undone(
                old(agents)@,
                old(self).history_spec().last(),
            ),
    {
        match self.history.pop() {
            Some(cmd) => cmd.undo(agents),
            None => {},
        }
    }

    /// Drops the queue and the history.
    pub fn clear(&mut self)
        ensures
            final(self).queue_spec() == Seq::<MoveCommand<P>>::empty(),
            final(self).history_spec() == Seq::<MoveCommand<P>>::empty(),
    {
        self.queue.clear();
        self.history.clear();
    }
}

/// Undoing a move and then replaying it leaves the agents as they were, provided
/// the agent stands where the move put it and its fuel is below the upper limit.
pub proof fn lemma_undo_then_redo<P>(agents: Seq<AgentMotion<P>>, cmd: MoveCommand<P>)
    requires
        targets(agents, cmd) ==> agents[cmd.agent_id as int].pos == cmd.new_pos
            && agents[cmd.agent_id as int].fuel < i64::MAX,
    ensures
        applied(undone(agents, cmd), cmd) == agents,
{
    if targets(agents, cmd) {
        assert(applied(undone(agents, cmd), cmd) =~= agents);
    }
}

/// Running a move and then undoing it leaves the agents as they were, provided
/// the move starts where the agent stands and its fuel is above the lower limit.
pub proof fn lemma_redo_then_undo<P>(agents: Seq<AgentMotion<P>>, cmd: MoveCommand<P>)
    requires
        targets(agents, cmd) ==> agents[cmd.agent_id as int].pos == cmd.old_pos
            && agents[cmd.agent_id as int].fuel > i64::MIN,
    ensures
        undone(applied(agents, cmd), cmd) == agents,
{
    if targets(agents, cmd) {
        assert(undone(applied(agents, cmd), cmd) =~= agents);
    }
}

} // verus!
