//! What a debugger does before each instruction.
use crate::channel::{poll_command, PollView, Received};
use crate::debugger::{
    delivered, forget, lemma_delivered_on, performs, refused_at, surviving_triggers,
    DebuggerResult, DebuggerServer, ServerView,
};
use crate::execution::HostView;
use crate::machine::{AgonMachine, MachineView};
use crate::processor::{cpu_contents, cpu_registers};
use crate::protocol::{
    cmds_view, triggers_view, CmdView, DebugCmd, DebuggerError, RespView, Trigger, TriggerView,
};
use crate::world::{
    command_steps, dispatch_steps, event_steps, fired_actions, lemma_performed_on, Chances,
    TickStep, World,
};
use vstd::prelude::*;

verus! {

/// Whether a debugger and its machine go through the first so many of some steps: through all of
/// them, or up to the one whose answers the controller did not all take.
pub open spec fn carries_out(
    before: ServerView,
    host: HostView,
    steps: Seq<TickStep>,
    chances: Seq<Chances>,
    after: ServerView,
    host_after: HostView,
    result: DebuggerResult,
) -> bool {
    let done: int = chances.len() as int;
    let (world, answers) = before.world(host).performed(steps.take(done), chances);
    &&& done <= steps.len()
    &&& after.world(host_after) == world
    &&& match result {
        Ok(_) => done == steps.len() && after.offers == before.offers + delivered(answers),
        Err(_) => {
            let earlier: int = before.world(host).performed(
                steps.take(done - 1),
                chances,
            ).1.len() as int;
            &&& done > 0
            &&& exists|count: int|
                earlier <= count < answers.len() && after.offers == before.offers
                    + #[trigger] refused_at(answers, count)
        },
    }
}

/// Going through one step is going through the sequence of it.
proof fn lemma_carries_out_one(
    before: ServerView,
    host: HostView,
    step: TickStep,
    chances: Chances,
    after: ServerView,
    host_after: HostView,
    result: DebuggerResult,
)
    requires
        performs(before, host, step, chances, after, host_after, result),
    ensures
        carries_out(before, host, seq![step], seq![chances], after, host_after, result),
{
    reveal(World::step_taken);
    let world: World = before.world(host);
    let steps: Seq<TickStep> = seq![step];
    assert(steps.take(1) =~= steps);
    assert(steps.drop_last() =~= Seq::<TickStep>::empty());
    assert(steps.take(0) =~= Seq::<TickStep>::empty());
    let answers: Seq<RespView> = world.performed_step(step, chances).1;
    assert(world.performed(Seq::<TickStep>::empty(), seq![chances]) == (
        world,
        Seq::<RespView>::empty(),
    ));
    assert(Seq::<RespView>::empty() + answers =~= answers);
    assert(world.performed(steps, seq![chances]) == world.performed_step(step, chances));
}

/// Going through some steps and then through others is going through all of them.
proof fn lemma_carries_out_on(
    before: ServerView,
    host: HostView,
    first: Seq<TickStep>,
    first_chances: Seq<Chances>,
    between: ServerView,
    host_between: HostView,
    second: Seq<TickStep>,
    second_chances: Seq<Chances>,
    after: ServerView,
    host_after: HostView,
    result: DebuggerResult,
)
    requires
        carries_out(before, host, first, first_chances, between, host_between, Ok(())),
        carries_out(between, host_between, second, second_chances, after, host_after, result),
    ensures
        carries_out(
            before,
            host,
            first + second,
            first_chances + second_chances,
            after,
            host_after,
            result,
        ),
{
    let world: World = before.world(host);
    let steps: Seq<TickStep> = first + second;
    let chances: Seq<Chances> = first_chances + second_chances;
    let done: int = second_chances.len() as int;
    let all: int = chances.len() as int;
    assert(first.take(first.len() as int) =~= first);
    let answers: Seq<RespView> = world.performed(first, first_chances).1;
    lemma_performed_on(world, first, second.take(done), first_chances, second_chances);
    assert(steps.take(all) =~= first + second.take(done));
    let more: Seq<RespView> = between.world(host_between).performed(
        second.take(done),
        second_chances,
    ).1;
    assert(after.world(host_after) == world.performed(steps.take(all), chances).0);
    lemma_delivered_on(answers, more);
    match result {
        Ok(_) => {
            assert(before.offers + delivered(answers) + delivered(more) =~= before.offers + (
            delivered(answers) + delivered(more)));
            assert(after.offers == before.offers + delivered(
                world.performed(steps.take(all), chances).1,
            ));
            assert(all == steps.len());
        },
        Err(_) => {
            lemma_performed_on(world, first, second.take(done - 1), first_chances, second_chances);
            assert(steps.take(all - 1) =~= first + second.take(done - 1));
            let earlier: int = between.world(host_between).performed(
                second.take(done - 1),
                second_chances,
            ).1.len() as int;
            let count: int = choose|count: int|
                earlier <= count < more.len() && after.offers == between.offers
                    + #[trigger] refused_at(more, count);
            let total: int = answers.len() + count;
            let whole: Seq<RespView> = world.performed(steps.take(all), chances).1;
            assert(whole == answers + more);
            assert(after.offers =~= before.offers + refused_at(whole, total));
            assert(world.performed(steps.take(all - 1), chances).1.len() == answers.len()
                + earlier);
        },
    }
}

/// Steps that were broken off were so whatever would have followed.
proof fn lemma_carries_out_broken_off(
    before: ServerView,
    host: HostView,
    first: Seq<TickStep>,
    second: Seq<TickStep>,
    chances: Seq<Chances>,
    after: ServerView,
    host_after: HostView,
    error: DebuggerError,
)
    requires
        carries_out(before, host, first, chances, after, host_after, Err(error)),
    ensures
        carries_out(before, host, first + second, chances, after, host_after, Err(error)),
{
    let done: int = chances.len() as int;
    assert((first + second).take(done) =~= first.take(done));
    assert((first + second).take(done - 1) =~= first.take(done - 1));
}

/// Going through no steps.
proof fn lemma_carries_out_nothing(before: ServerView, host: HostView)
    ensures
        carries_out(
            before,
            host,
            Seq::<TickStep>::empty(),
            Seq::<Chances>::empty(),
            before,
            host,
            Ok(()),
        ),
{
    let none: Seq<TickStep> = Seq::empty();
    assert(none.take(0) =~= none);
    assert(before.offers + delivered(Seq::<RespView>::empty()) =~= before.offers);
}

/// What looking for commands came to while some came.
pub open spec fn command_polls(commands: Seq<CmdView>) -> Seq<PollView> {
    commands.map_values(|cmd: CmdView| PollView::Command(cmd))
}

/// Whether a debugger and its machine go through a tick in which some commands came from the
/// controller. It ends well when there is no further command, or when there were more than can be
/// counted. It fails when the controller does not take an answer, which breaks it off there, or
/// when there is no further command because the controller has gone.
pub open spec fn ticks(
    before: ServerView,
    host: HostView,
    commands: Seq<CmdView>,
    chances: Seq<Chances>,
    after: ServerView,
    host_after: HostView,
    result: DebuggerResult,
) -> bool {
    let steps: Seq<TickStep> = before.world(host).tick_steps(commands);
    let looked: Seq<PollView> = before.polls + command_polls(commands);
    ||| {
        &&& result is Ok
        &&& carries_out(before, host, steps, chances, after, host_after, Ok(()))
        &&& after.polls == looked.push(PollView::Empty) || (commands.len() == u64::MAX
            && after.polls == looked)
    }
    ||| {
        &&& result is Err
        &&& carries_out(before, host, steps, chances, after, host_after, Ok(()))
        &&& after.polls == looked.push(PollView::Disconnected)
    }
    ||| {
        &&& result is Err
        &&& carries_out(before, host, steps, chances, after, host_after, result)
        &&& commands.len() > 0 ==> chances.len() == steps.len()
        &&& after.polls == looked
    }
}

/// The actions of the triggers at an address.
fn actions_at(triggers: &Vec<Trigger>, address: u32) -> (actions: Vec<DebugCmd>)
    ensures
        cmds_view(actions@) == fired_actions(triggers_view(triggers@), address),
{
    let ghost all: Seq<TriggerView> = triggers_view(triggers@);
    let mut actions: Vec<DebugCmd> = Vec::new();
    let mut i: usize = 0;
    assert(cmds_view(actions@) =~= fired_actions(all.take(0), address));
    while i < triggers.len()
        invariant
            all == triggers_view(triggers@),
            i <= triggers@.len(),
            cmds_view(actions@) == fired_actions(all.take(i as int), address),
        decreases triggers@.len() - i,
    {
        let ghost next: Seq<TriggerView> = all.take(i + 1);
        let ghost so_far: Seq<CmdView> = cmds_view(actions@);
        proof {
            assert(next.drop_last() =~= all.take(i as int));
            assert(next.last() == triggers@[i as int]@);
        }
        if triggers[i].address == address {
            let ghost added: Seq<CmdView> = triggers@[i as int]@.actions;
            let mut j: usize = 0;
            assert(so_far + added.take(0) =~= so_far);
            while j < triggers[i as usize].actions.len()
                invariant
                    i < triggers@.len(),
                    added == cmds_view(triggers@[i as int].actions@),
                    j <= triggers@[i as int].actions@.len(),
                    cmds_view(actions@) == so_far + added.take(j as int),
                decreases triggers@[i as int].actions@.len() - j,
            {
                let ghost now: Seq<CmdView> = cmds_view(actions@);
                let action = triggers[i].actions[j].clone();
                actions.push(action);
                assert(cmds_view(actions@) =~= now.push(action@));
                assert(added[j as int] == action@);
                assert(so_far + added.take(j + 1) =~= (so_far + added.take(j as int)).push(
                    action@,
                ));
                j += 1;
            }
            assert(added.take(j as int) =~= added);
        }
        i += 1;
    }
    assert(all.take(i as int) =~= all);
    actions
}

impl DebuggerServer {
    /// Looks at what happened since the last tick.
    fn look_at_events(&mut self, machine: &mut AgonMachine, cpu: &ez80::Cpu) -> (result:
        DebuggerResult)
        requires
            cpu_contents(*cpu).ready,
        ensures
            exists|chances: Seq<Chances>|
                #[trigger] carries_out(
                    old(self)@,
                    old(machine).host(*cpu),
                    event_steps(),
                    chances,
                    final(self)@,
                    final(machine).host(*cpu),
                    result,
                ),
            final(self)@.polls == old(self)@.polls,
            final(self)@.triggers == old(self)@.triggers,
            result is Ok ==> (final(machine)@.paused <==> !old(self)@.world(
                old(machine).host(*cpu),
            ).dispatches()),
    {
        let ghost before: ServerView = self@;
        let ghost host: HostView = machine.host(*cpu);
        let noted = self.on_out_of_bounds(machine, cpu);
        let ghost first: Chances = choose|chances: Chances|
            #[trigger] performs(
                before,
                host,
                TickStep::Fault,
                chances,
                self@,
                machine.host(*cpu),
                forget(noted),
            );
        let ghost fault: Seq<TickStep> = seq![TickStep::Fault];
        let ghost io: Seq<TickStep> = seq![TickStep::Io];
        proof {
            lemma_carries_out_one(
                before,
                host,
                TickStep::Fault,
                first,
                self@,
                machine.host(*cpu),
                forget(noted),
            );
            assert(fault + io =~= event_steps());
        }
        if let Err(error) = noted {
            proof {
                lemma_carries_out_broken_off(
                    before,
                    host,
                    fault,
                    io,
                    seq![first],
                    self@,
                    machine.host(*cpu),
                    error,
                );
            }
            return Err(error);
        }
        let ghost between: ServerView = self@;
        let ghost host_between: HostView = machine.host(*cpu);
        let result = self.on_unhandled_io(machine, cpu);
        proof {
            let second: Chances = choose|chances: Chances|
                #[trigger] performs(
                    between,
                    host_between,
                    TickStep::Io,
                    chances,
                    self@,
                    machine.host(*cpu),
                    result,
                );
            lemma_carries_out_one(
                between,
                host_between,
                TickStep::Io,
                second,
                self@,
                machine.host(*cpu),
                result,
            );
            lemma_carries_out_on(
                before,
                host,
                fault,
                seq![first],
                between,
                host_between,
                io,
                seq![second],
                self@,
                machine.host(*cpu),
                result,
            );
        }
        result
    }

    /// Carries out commands until one of them cannot be answered.
    fn handle_all(
        &mut self,
        cmds: &Vec<DebugCmd>,
        machine: &mut AgonMachine,
        cpu: &mut ez80::Cpu,
    ) -> (result: DebuggerResult)
        requires
            cpu_contents(*old(cpu)).ready,
        ensures
            cpu_contents(*final(cpu)).ready,
            exists|chances: Seq<Chances>|
                #[trigger] carries_out(
                    old(self)@,
                    old(machine).host(*old(cpu)),
                    command_steps(cmds_view(cmds@)),
                    chances,
                    final(self)@,
                    final(machine).host(*final(cpu)),
                    result,
                ),
            final(self)@.polls == old(self)@.polls,
    {
        let ghost before: ServerView = self@;
        let ghost host: HostView = machine.host(*cpu);
        let ghost all: Seq<TickStep> = command_steps(cmds_view(cmds@));
        let ghost mut chances: Seq<Chances> = Seq::empty();
        let mut i: usize = 0;
        proof {
            lemma_carries_out_nothing(before, host);
            assert(all.take(0) =~= Seq::<TickStep>::empty());
        }
        while i < cmds.len()
            invariant
                before == old(self)@,
                host == old(machine).host(*old(cpu)),
                all == command_steps(cmds_view(cmds@)),
                i <= cmds@.len(),
                cpu_contents(*cpu).ready,
                self@.polls == before.polls,
                carries_out(
                    before,
                    host,
                    all.take(i as int),
                    chances,
                    self@,
                    machine.host(*cpu),
                    Ok(()),
                ),
            decreases cmds@.len() - i,
        {
            let ghost between: ServerView = self@;
            let ghost host_between: HostView = machine.host(*cpu);
            let ghost step: TickStep = TickStep::Command(cmds@[i as int]@);
            let result = self.handle_debug_cmd(&cmds[i], machine, cpu);
            proof {
                let chance: Chances = choose|chance: Chances|
                    #[trigger] performs(
                        between,
                        host_between,
                        step,
                        chance,
                        self@,
                        machine.host(*cpu),
                        result,
                    );
                lemma_carries_out_one(
                    between,
                    host_between,
                    step,
                    chance,
                    self@,
                    machine.host(*cpu),
                    result,
                );
                lemma_carries_out_on(
                    before,
                    host,
                    all.take(i as int),
                    chances,
                    between,
                    host_between,
                    seq![step],
                    seq![chance],
                    self@,
                    machine.host(*cpu),
                    result,
                );
                assert(all[i as int] == step);
                assert(all.take(i as int) + seq![step] =~= all.take(i + 1));
                chances = chances + seq![chance];
            }
            if let Err(error) = result {
                proof {
                    lemma_carries_out_broken_off(
                        before,
                        host,
                        all.take(i + 1),
                        all.skip(i + 1),
                        chances,
                        self@,
                        machine.host(*cpu),
                        error,
                    );
                    assert(all.take(i + 1) + all.skip(i + 1) =~= all);
                }
                return Err(error);
            }
            i += 1;
        }
        assert(all.take(i as int) =~= all);
        Ok(())
    }
}

impl DebuggerServer {
    /// Carries out the actions of the triggers at an address and removes the one-shots among them.
    /// While the machine is paused they all stay as they are.
    fn run_triggers(&mut self, pc: u32, machine: &mut AgonMachine, cpu: &mut ez80::Cpu) -> (result:
        DebuggerResult)
        requires
            cpu_contents(*old(cpu)).ready,
        ensures
            cpu_contents(*final(cpu)).ready,
            exists|chances: Seq<Chances>|
                #[trigger] carries_out(
                    old(self)@,
                    old(machine).host(*old(cpu)),
                    dispatch_steps(old(self)@.triggers, pc, old(machine)@.paused),
                    chances,
                    final(self)@,
                    final(machine).host(*final(cpu)),
                    result,
                ),
            final(self)@.polls == old(self)@.polls,
    {
        let ghost before: ServerView = self@;
        let ghost host: HostView = machine.host(*cpu);
        let ghost steps: Seq<TickStep> = dispatch_steps(before.triggers, pc, host.machine.paused);
        if machine.is_paused() {
            proof {
                lemma_carries_out_nothing(before, host);
                assert(steps == Seq::<TickStep>::empty());
            }
            return Ok(());
        }
        let actions = actions_at(&self.triggers, pc);
        let ghost first: Seq<TickStep> = command_steps(fired_actions(before.triggers, pc));
        let ghost disarm: Seq<TickStep> = seq![TickStep::Disarm(pc)];
        assert(steps == first + disarm);
        let handled = self.handle_all(&actions, machine, cpu);
        let ghost chances: Seq<Chances> = choose|chances: Seq<Chances>|
            #[trigger] carries_out(
                before,
                host,
                first,
                chances,
                self@,
                machine.host(*cpu),
                handled,
            );
        if let Err(error) = handled {
            proof {
                lemma_carries_out_broken_off(
                    before,
                    host,
                    first,
                    disarm,
                    chances,
                    self@,
                    machine.host(*cpu),
                    error,
                );
            }
            return Err(error);
        }
        let ghost between: ServerView = self@;
        let ghost host_now: HostView = machine.host(*cpu);
        self.triggers = surviving_triggers(&self.triggers, pc, true);
        proof {
            let idle: Chances = Chances { listing: None, state: None };
            assert(between.offers + delivered(Seq::<RespView>::empty()) =~= between.offers);
            assert(performs(
                between,
                host_now,
                TickStep::Disarm(pc),
                idle,
                self@,
                host_now,
                Ok(()),
            ));
            lemma_carries_out_one(
                between,
                host_now,
                TickStep::Disarm(pc),
                idle,
                self@,
                host_now,
                Ok(()),
            );
            lemma_carries_out_on(
                before,
                host,
                first,
                chances,
                between,
                host_now,
                disarm,
                seq![idle],
                self@,
                host_now,
                Ok(()),
            );
        }
        Ok(())
    }

    /// Does what is due when a command was looked for, and says whether to look for another one.
    pub fn on_received(
        &mut self,
        received: Received,
        machine: &mut AgonMachine,
        cpu: &mut ez80::Cpu,
    ) -> (result: Result<bool, DebuggerError>)
        requires
            cpu_contents(*old(cpu)).ready,
        ensures
            cpu_contents(*final(cpu)).ready,
            received matches Received::Command(cmd) ==> (exists|chances: Chances|
                #[trigger] performs(
                    old(self)@,
                    old(machine).host(*old(cpu)),
                    TickStep::Command(cmd@),
                    chances,
                    final(self)@,
                    final(machine).host(*final(cpu)),
                    forget(result),
                )) && (result is Ok ==> result == Ok::<bool, DebuggerError>(true)),
            !(received is Command) ==> final(self)@ == old(self)@ && final(machine).host(
                *final(cpu),
            ) == old(machine).host(*old(cpu)),
            received is Empty ==> result == Ok::<bool, DebuggerError>(false),
            received is Disconnected ==> result == Err::<bool, DebuggerError>(
                DebuggerError::ControllerDisconnected,
            ),
    {
        match received {
            Received::Command(cmd) => match self.handle_debug_cmd(&cmd, machine, cpu) {
                Ok(done) => {
                    assert(done == ());
                    Ok(true)
                },
                Err(error) => Err(error),
            },
            Received::Empty => Ok(false),
            Received::Disconnected => Err(DebuggerError::ControllerDisconnected),
        }
    }

    /// Carries out the commands that the controller has sent, until there are no more. So many that
    /// a 64-bit number cannot count them are left for another time.
    fn receive_commands(&mut self, machine: &mut AgonMachine, cpu: &mut ez80::Cpu) -> (result:
        DebuggerResult)
        requires
            cpu_contents(*old(cpu)).ready,
        ensures
            cpu_contents(*final(cpu)).ready,
            exists|commands: Seq<CmdView>, chances: Seq<Chances>|
                #[trigger] receives(
                    old(self)@,
                    old(machine).host(*old(cpu)),
                    commands,
                    chances,
                    final(self)@,
                    final(machine).host(*final(cpu)),
                    result,
                ),
    {
        let ghost before: ServerView = self@;
        let ghost host: HostView = machine.host(*cpu);
        let ghost mut commands: Seq<CmdView> = Seq::empty();
        let ghost mut chances: Seq<Chances> = Seq::empty();
        proof {
            lemma_carries_out_nothing(before, host);
            assert(command_steps(commands) =~= Seq::<TickStep>::empty());
            assert(before.polls + command_polls(commands) =~= before.polls);
        }
        let mut left: u64 = u64::MAX;
        while left > 0
            invariant
                before == old(self)@,
                host == old(machine).host(*old(cpu)),
                cpu_contents(*cpu).ready,
                commands.len() + left == u64::MAX,
                self@.polls == before.polls + command_polls(commands),
                carries_out(
                    before,
                    host,
                    command_steps(commands),
                    chances,
                    self@,
                    machine.host(*cpu),
                    Ok(()),
                ),
            decreases left,
        {
            let received = poll_command(&mut self.con.rx);
            let ghost between: ServerView = self@;
            let ghost host_between: HostView = machine.host(*cpu);
            let ghost polled: Received = received;
            let result = self.on_received(received, machine, cpu);
            proof {
                if polled is Command {
                    let cmd: CmdView = polled->Command_0@;
                    let step: TickStep = TickStep::Command(cmd);
                    let chance: Chances = choose|chance: Chances|
                        #[trigger] performs(
                            between,
                            host_between,
                            step,
                            chance,
                            self@,
                            machine.host(*cpu),
                            forget(result),
                        );
                    lemma_carries_out_one(
                        between,
                        host_between,
                        step,
                        chance,
                        self@,
                        machine.host(*cpu),
                        forget(result),
                    );
                    lemma_carries_out_on(
                        before,
                        host,
                        command_steps(commands),
                        chances,
                        between,
                        host_between,
                        seq![step],
                        seq![chance],
                        self@,
                        machine.host(*cpu),
                        forget(result),
                    );
                    assert(command_steps(commands) + seq![step] =~= command_steps(
                        commands.push(cmd),
                    ));
                    assert(before.polls + command_polls(commands.push(cmd)) =~= (before.polls
                        + command_polls(commands)).push(PollView::Command(cmd)));
                    commands = commands.push(cmd);
                    chances = chances + seq![chance];
                }
            }
            match result {
                Err(error) => {
                    assert(receives(
                        before,
                        host,
                        commands,
                        chances,
                        self@,
                        machine.host(*cpu),
                        Err(error),
                    ));
                    return Err(error);
                },
                Ok(more) => {
                    if !more {
                        assert(receives(
                            before,
                            host,
                            commands,
                            chances,
                            self@,
                            machine.host(*cpu),
                            Ok(()),
                        ));
                        return Ok(());
                    }
                },
            }
            left -= 1;
        }
        assert(receives(before, host, commands, chances, self@, machine.host(*cpu), Ok(())));
        Ok(())
    }

    /// Looks at faults, port accesses and triggers, and carries out the controller's commands. To be
    /// called before each instruction.
    pub fn tick(&mut self, machine: &mut AgonMachine, cpu: &mut ez80::Cpu) -> (result:
        DebuggerResult)
        requires
            cpu_contents(*old(cpu)).ready,
        ensures
            cpu_contents(*final(cpu)).ready,
            exists|commands: Seq<CmdView>, chances: Seq<Chances>|
                #[trigger] ticks(
                    old(self)@,
                    old(machine).host(*old(cpu)),
                    commands,
                    chances,
                    final(self)@,
                    final(machine).host(*final(cpu)),
                    result,
                ),
    {
        let ghost before: ServerView = self@;
        let ghost host: HostView = machine.host(*cpu);
        let ghost world: World = before.world(host);
        let ghost none: Seq<CmdView> = Seq::empty();
        let pc: u32 = cpu_registers(cpu).next_pc();
        proof {
            assert(before.polls + command_polls(none) =~= before.polls);
            assert(world.tick_steps(none) =~= event_steps() + world.trigger_steps());
        }

        let noted = self.look_at_events(machine, cpu);
        let ghost first: Seq<Chances> = choose|chances: Seq<Chances>|
            #[trigger] carries_out(
                before,
                host,
                event_steps(),
                chances,
                self@,
                machine.host(*cpu),
                noted,
            );
        if let Err(error) = noted {
            proof {
                lemma_carries_out_broken_off(
                    before,
                    host,
                    event_steps(),
                    world.trigger_steps(),
                    first,
                    self@,
                    machine.host(*cpu),
                    error,
                );
                assert(ticks(before, host, none, first, self@, machine.host(*cpu), noted));
            }
            return Err(error);
        }
        let ghost second_start: ServerView = self@;
        let ghost second_host: HostView = machine.host(*cpu);
        let fired = self.run_triggers(pc, machine, cpu);
        let ghost second: Seq<Chances> = choose|chances: Seq<Chances>|
            #[trigger] carries_out(
                second_start,
                second_host,
                world.trigger_steps(),
                chances,
                self@,
                machine.host(*cpu),
                fired,
            );
        proof {
            lemma_carries_out_on(
                before,
                host,
                event_steps(),
                first,
                second_start,
                second_host,
                world.trigger_steps(),
                second,
                self@,
                machine.host(*cpu),
                fired,
            );
        }
        if let Err(error) = fired {
            assert(ticks(
                before,
                host,
                none,
                first + second,
                self@,
                machine.host(*cpu),
                fired,
            ));
            return Err(error);
        }
        let ghost third_start: ServerView = self@;
        let ghost third_host: HostView = machine.host(*cpu);
        let result = self.receive_commands(machine, cpu);
        proof {
            let (commands, third): (Seq<CmdView>, Seq<Chances>) =
                choose|commands: Seq<CmdView>, chances: Seq<Chances>|
                #[trigger] receives(
                    third_start,
                    third_host,
                    commands,
                    chances,
                    self@,
                    machine.host(*cpu),
                    result,
                );
            lemma_tick_ends(
                before,
                host,
                first + second,
                third_start,
                third_host,
                commands,
                third,
                self@,
                machine.host(*cpu),
                result,
            );
        }
        result
    }
}

/// Whether a debugger and its machine go through some commands that came from the controller.
pub open spec fn receives(
    before: ServerView,
    host: HostView,
    commands: Seq<CmdView>,
    chances: Seq<Chances>,
    after: ServerView,
    host_after: HostView,
    result: DebuggerResult,
) -> bool {
    let steps: Seq<TickStep> = command_steps(commands);
    let looked: Seq<PollView> = before.polls + command_polls(commands);
    ||| {
        &&& result is Ok
        &&& carries_out(before, host, steps, chances, after, host_after, Ok(()))
        &&& after.polls == looked.push(PollView::Empty) || (commands.len() == u64::MAX
            && after.polls == looked)
    }
    ||| {
        &&& result is Err
        &&& carries_out(before, host, steps, chances, after, host_after, Ok(()))
        &&& after.polls == looked.push(PollView::Disconnected)
    }
    ||| {
        &&& result is Err
        &&& carries_out(before, host, steps, chances, after, host_after, result)
        &&& chances.len() == steps.len()
        &&& after.polls == looked
    }
}

/// A tick that got as far as the controller's commands ends as they do.
proof fn lemma_tick_ends(
    before: ServerView,
    host: HostView,
    first: Seq<Chances>,
    between: ServerView,
    host_between: HostView,
    commands: Seq<CmdView>,
    second: Seq<Chances>,
    after: ServerView,
    host_after: HostView,
    result: DebuggerResult,
)
    requires
        carries_out(
            before,
            host,
            event_steps() + before.world(host).trigger_steps(),
            first,
            between,
            host_between,
            Ok(()),
        ),
        between.polls == before.polls,
        receives(between, host_between, commands, second, after, host_after, result),
    ensures
        ticks(before, host, commands, first + second, after, host_after, result),
{
    let start: Seq<TickStep> = event_steps() + before.world(host).trigger_steps();
    let steps: Seq<TickStep> = command_steps(commands);
    if carries_out(between, host_between, steps, second, after, host_after, Ok(())) {
        lemma_carries_out_on(
            before,
            host,
            start,
            first,
            between,
            host_between,
            steps,
            second,
            after,
            host_after,
            Ok(()),
        );
    }
    if carries_out(between, host_between, steps, second, after, host_after, result) {
        lemma_carries_out_on(
            before,
            host,
            start,
            first,
            between,
            host_between,
            steps,
            second,
            after,
            host_after,
            result,
        );
    }
}

impl HostView {
    /// The machine without its debugger: it runs, and remembers no fault.
    pub open spec fn released(self) -> HostView {
        HostView {
            machine: MachineView { paused: false, mem_out_of_bounds: None, ..self.machine },
            ..self
        }
    }
}

/// Whether a debugger is attached after a tick that ended in a given way, and what became of the
/// machine: a debugger whose controller has gone is let go of, and the machine with it.
pub open spec fn stays_attached(
    attached: Option<DebuggerServer>,
    host: HostView,
    after: ServerView,
    host_after: HostView,
    result: DebuggerResult,
) -> bool {
    match result {
        Ok(_) => attached matches Some(server) && server@ == after && host == host_after,
        Err(_) => attached is None && host == host_after.released(),
    }
}

impl AgonMachine {
    /// Lets the attached debugger do its work before an instruction.
    pub fn debugger_tick(&mut self, debugger: &mut Option<DebuggerServer>, cpu: &mut ez80::Cpu)
        requires
            cpu_contents(*old(cpu)).ready,
        ensures
            cpu_contents(*final(cpu)).ready,
            *old(debugger) is None ==> *final(debugger) is None && final(self).host(*final(cpu))
                == old(self).host(*old(cpu)),
            *old(debugger) matches Some(server) ==> (exists|
                commands: Seq<CmdView>,
                chances: Seq<Chances>,
                after: ServerView,
                host_after: HostView,
                result: DebuggerResult,
            |
                {
                    &&& #[trigger] ticks(
                        server@,
                        old(self).host(*old(cpu)),
                        commands,
                        chances,
                        after,
                        host_after,
                        result,
                    )
                    &&& stays_attached(
                        *final(debugger),
                        final(self).host(*final(cpu)),
                        after,
                        host_after,
                        result,
                    )
                }),
    {
        match debugger.take() {
            Some(server) => {
                let mut server = server;
                let result = server.tick(self, cpu);
                *debugger = self.after_tick(server, result);
            },
            None => {},
        }
    }

    /// Keeps the debugger after a tick that went well. After one that failed, lets go of it and sets
    /// the machine running, with no fault remembered.
    pub fn after_tick(&mut self, server: DebuggerServer, result: DebuggerResult) -> (attached: Option<
        DebuggerServer,
    >)
        ensures
            result is Ok ==> attached == Some(server) && final(self)@ == old(self)@,
            result is Err ==> attached is None && final(self)@ == (MachineView {
                paused: false,
                mem_out_of_bounds: None,
                ..old(self)@
            }),
    {
        match result {
            Ok(_) => Some(server),
            Err(_) => {
                self.set_paused(false);
                self.mem_out_of_bounds = None;
                None
            },
        }
    }
}

} // verus!
