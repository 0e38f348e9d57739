//! What holds of debugging as a whole.
use crate::address::MAX_ADDRESS;
use crate::execution::HostView;
use crate::machine::MachineView;
use crate::prefix::{PrefixScan, PrefixScanError};
use crate::protocol::{CmdView, PauseReason, RespView, TriggerView};
use crate::world::{
    call_len, command_steps, event_steps, fired_actions, is_call, is_restart, survives, Chances,
    TickStep, World, MAX_DEBUGGER_MEMORY_BYTES,
};
use vstd::prelude::*;

verus! {

/// Whether a command only looks.
pub open spec fn is_observation(cmd: CmdView) -> bool {
    match cmd {
        CmdView::Ping => true,
        CmdView::Message(_) => true,
        CmdView::ListTriggers => true,
        CmdView::GetMemory { .. } => true,
        CmdView::GetMemoryAtReg { .. } => true,
        CmdView::GetRegisters => true,
        CmdView::GetState => true,
        CmdView::DisassemblePc { .. } => true,
        CmdView::Disassemble { .. } => true,
        _ => false,
    }
}

/// A command that only looks changes nothing: not the registers, the cycles, the marks of faults
/// and port accesses, nor anything else.
pub proof fn law_observations_change_nothing(world: World, cmd: CmdView, chances: Chances)
    requires
        is_observation(cmd),
    ensures
        world.handled(cmd, chances).0 == world,
        world.handled(cmd, chances).1.len() == 1,
{
}

/// Every command is answered, exactly once.
pub proof fn law_every_command_is_answered_once(world: World, cmd: CmdView, chances: Chances)
    ensures
        world.handled(cmd, chances).1.len() == 1,
{
}

/// No memory reply is longer than the limit, and short ones are as long as was asked.
pub proof fn law_memory_replies_are_capped(machine: MachineView, start: u32, len: u32)
    ensures
        machine.memory_response(start, len) matches RespView::Memory { start: from, data } && from
            == start && data.len() <= MAX_DEBUGGER_MEMORY_BYTES && data.len() <= len && (len
            <= MAX_DEBUGGER_MEMORY_BYTES ==> data.len() == len),
{
}

/// Stepping over anything that is not a call or a restart is a single step.
pub proof fn law_step_over_falls_back_to_step(world: World, chances: Chances)
    requires
        match world.code().scan() {
            Ok(scan) => !is_call(scan.opcode) && !is_restart(scan.opcode),
            Err(error) => error is Unmapped,
        },
    ensures
        world.handled(CmdView::StepOver, chances) == world.handled(CmdView::Step, chances),
{
}

/// A step leaves the machine paused, with all cycles accounted for, no fault remembered by the
/// debugger, and the triggers as they were.
pub proof fn law_step_settles(world: World, chances: Chances)
    ensures
        ({
            let after: World = world.handled(CmdView::Step, chances).0;
            &&& after.host.machine.paused
            &&& after.host.machine.cycle_counter == 0
            &&& after.reported is None
            &&& after.triggers == world.triggers
        }),
{
}

/// Stepping over a call or a restart executes nothing by itself. It sets a one-shot trigger right
/// behind the instruction, wherever fetching wraps to, and lets the machine run.
pub proof fn law_step_over_call_arms_the_successor(world: World, scan: PrefixScan, chances: Chances)
    requires
        world.code().scan() == Ok::<_, PrefixScanError>(scan),
        is_call(scan.opcode) || is_restart(scan.opcode),
    ensures
        ({
            let (after, answers) = world.handled(CmdView::StepOver, chances);
            &&& answers == seq![RespView::Resumed]
            &&& after.host == (HostView {
                machine: MachineView {
                    paused: false,
                    mem_out_of_bounds: None,
                    ..world.host.machine
                },
                ..world.host
            })
            &&& after.triggers.len() == world.triggers.len() + 1
            &&& after.triggers.drop_last() == world.triggers
            &&& after.triggers.last().once
            &&& after.triggers.last().address == world.code().address(call_len(scan))
            &&& after.triggers.last().address <= MAX_ADDRESS
        }),
{
    crate::prefix::law_scan_is_bounded(world.code());
    crate::address::law_fetch_stays_in_space(
        world.code().start,
        call_len(scan) as u32,
        world.code().adl,
        world.code().mbase,
    );
    let after: World = world.handled(CmdView::StepOver, chances).0;
    assert(after.triggers.drop_last() =~= world.triggers);
}

/// Where only prefixes can be fetched, stepping over is refused: the machine is paused, and nothing
/// else changes.
pub proof fn law_step_over_refuses_endless_prefixes(world: World, chances: Chances)
    requires
        world.code().scan() == Err::<PrefixScan, _>(PrefixScanError::FullSpan),
    ensures
        world.handled(CmdView::StepOver, chances).0 == world.paused(true),
        world.handled(CmdView::StepOver, chances).1 == seq![
            RespView::Message(
                "StepOver refused: the complete code-address span contains only eZ80 prefixes"@,
            ),
        ],
{
}

/// A fault is reported when it is first looked at, and never again while it stands.
pub proof fn law_fault_is_reported_once(
    world: World,
    address: u32,
    chances: Chances,
    later: Chances,
)
    requires
        world.host.machine.mem_out_of_bounds == Some(address),
        world.reported != Some(address),
    ensures
        ({
            let (after, answers) = world.fault_noted(chances);
            &&& after.host == world.host.paused(true)
            &&& answers.len() == 3
            &&& answers[0] == RespView::Paused(PauseReason::OutOfBoundsMemAccess(address))
            &&& answers[1] is Disassembly
            &&& answers[2] is State
            &&& after.fault_noted(later) == (after, Seq::<RespView>::empty())
        }),
{
}

/// Letting the machine go on acknowledges a fault: it is forgotten, and the same one is reported
/// anew when it happens again.
pub proof fn law_continue_acknowledges_a_fault(
    world: World,
    address: u32,
    chances: Chances,
    later: Chances,
)
    ensures
        ({
            let after: World = world.handled(CmdView::Continue, chances).0;
            let again: World = World {
                host: HostView {
                    machine: MachineView {
                        mem_out_of_bounds: Some(address),
                        ..after.host.machine
                    },
                    ..after.host
                },
                ..after
            };
            &&& !after.host.machine.paused
            &&& after.host.machine.mem_out_of_bounds is None
            &&& after.reported is None
            &&& again.fault_noted(later).1.len() == 3
        }),
{
}

/// All elements pass a filter that suits them all.
proof fn lemma_filter_keeps_all(triggers: Seq<TriggerView>, keep: spec_fn(TriggerView) -> bool)
    requires
        forall|i: int| 0 <= i < triggers.len() ==> keep(#[trigger] triggers[i]),
    ensures
        triggers.filter(keep) == triggers,
    decreases triggers.len(),
{
    reveal(Seq::filter);
    if triggers.len() > 0 {
        assert forall|i: int| 0 <= i < triggers.len() - 1 implies keep(
            #[trigger] triggers.drop_last()[i],
        ) by {
            assert(triggers.drop_last()[i] == triggers[i]);
        }
        lemma_filter_keeps_all(triggers.drop_last(), keep);
        assert(keep(triggers[triggers.len() - 1]));
        assert(triggers.drop_last().push(triggers.last()) =~= triggers);
    }
}

/// Whatever passes a filter suits it.
proof fn lemma_filtered(triggers: Seq<TriggerView>, keep: spec_fn(TriggerView) -> bool)
    ensures
        forall|i: int|
            0 <= i < triggers.filter(keep).len() ==> keep(#[trigger] triggers.filter(keep)[i]),
    decreases triggers.len(),
{
    reveal(Seq::filter);
    if triggers.len() > 0 {
        lemma_filtered(triggers.drop_last(), keep);
    }
}

/// A trigger that was set is listed, behind those that were set before.
pub proof fn law_added_trigger_is_listed(
    world: World,
    trigger: TriggerView,
    chances: Chances,
    later: Chances,
)
    ensures
        world.handled(CmdView::AddTrigger(trigger), chances).0.handled(
            CmdView::ListTriggers,
            later,
        ).1 == seq![RespView::Triggers(world.triggers.push(trigger))],
{
}

/// No trigger is left at an address whose triggers were deleted.
pub proof fn law_deleted_triggers_are_gone(world: World, address: u32, chances: Chances)
    ensures
        forall|i: int|
            0 <= i < world.handled(CmdView::DeleteTrigger(address), chances).0.triggers.len() ==> (
            #[trigger] world.handled(CmdView::DeleteTrigger(address), chances).0.triggers[i]).address
                != address,
{
    lemma_filtered(world.triggers, survives(address, false));
}

/// Deleting the trigger that was just set, where there was none before, undoes setting it.
pub proof fn law_delete_undoes_add(
    world: World,
    trigger: TriggerView,
    chances: Chances,
    later: Chances,
)
    requires
        forall|i: int|
            0 <= i < world.triggers.len() ==> (#[trigger] world.triggers[i]).address
                != trigger.address,
    ensures
        world.handled(CmdView::AddTrigger(trigger), chances).0.handled(
            CmdView::DeleteTrigger(trigger.address),
            later,
        ).0 == world,
{
    let keep: spec_fn(TriggerView) -> bool = survives(trigger.address, false);
    let more: Seq<TriggerView> = world.triggers.push(trigger);
    reveal(Seq::filter);
    assert(more.drop_last() =~= world.triggers);
    assert(more.filter(keep) == world.triggers.filter(keep));
    lemma_filter_keeps_all(world.triggers, keep);
}

/// While the machine is paused, or a fault or a port access pauses it, a tick without commands keeps
/// all triggers, one-shots too.
pub proof fn law_paused_tick_keeps_triggers(world: World, chances: Seq<Chances>)
    requires
        !world.dispatches(),
    ensures
        world.tick_steps(Seq::empty()) == event_steps(),
        world.performed(event_steps(), chances).0.triggers == world.triggers,
        world.performed(event_steps(), chances).0.host.machine.paused,
{
    reveal(World::step_taken);
    assert(world.tick_steps(Seq::empty()) =~= event_steps());
    lemma_events(world, chances);
}

/// What looking at the events comes to.
proof fn lemma_events(world: World, chances: Seq<Chances>)
    ensures
        world.performed(event_steps(), chances).0 == world.fault_noted(
            chances[0],
        ).0.io_noted(chances[1]).0,
        world.performed(event_steps(), chances).1 == world.fault_noted(chances[0]).1
            + world.fault_noted(chances[0]).0.io_noted(chances[1]).1,
{
    reveal(World::step_taken);
    reveal_with_fuel(World::performed, 3);
    let events: Seq<TickStep> = event_steps();
    assert(events.drop_last() =~= seq![TickStep::Fault]);
    assert(seq![TickStep::Fault].drop_last() =~= Seq::<TickStep>::empty());
    assert(Seq::<RespView>::empty() + world.fault_noted(chances[0]).1 =~= world.fault_noted(
        chances[0],
    ).1);
}

/// A tick that looks at the triggers leaves no one-shot at the program counter, even if an action
/// has set one there.
pub proof fn law_dispatched_one_shots_are_removed(world: World, chances: Seq<Chances>)
    requires
        world.dispatches(),
    ensures
        ({
            let pc: u32 = world.host.cpu.registers.code_pc() as u32;
            let after: World = world.performed(world.tick_steps(Seq::empty()), chances).0;
            forall|i: int|
                0 <= i < after.triggers.len() ==> !((#[trigger] after.triggers[i]).address == pc
                    && after.triggers[i].once)
        }),
{
    reveal(World::step_taken);
    let pc: u32 = world.host.cpu.registers.code_pc() as u32;
    let steps: Seq<TickStep> = world.tick_steps(Seq::empty());
    assert(command_steps(Seq::empty()) =~= Seq::<TickStep>::empty());
    assert(steps.last() == TickStep::Disarm(pc));
    let before: World = world.performed(steps.drop_last(), chances).0;
    lemma_filtered(before.triggers, survives(pc, true));
}

/// A tick in which nothing happened, no trigger is set at the program counter and no command came
/// changes nothing and says nothing.
pub proof fn law_idle_tick_changes_nothing(world: World, chances: Seq<Chances>)
    requires
        world.host.machine.mem_out_of_bounds is None,
        world.host.machine.io_unhandled is None,
        world.reported is None,
        forall|i: int|
            0 <= i < world.triggers.len() ==> (#[trigger] world.triggers[i]).address
                != world.host.cpu.registers.code_pc(),
    ensures
        world.performed(world.tick_steps(Seq::empty()), chances) == (
            world,
            Seq::<RespView>::empty(),
        ),
{
    let pc: u32 = world.host.cpu.registers.code_pc() as u32;
    let steps: Seq<TickStep> = world.tick_steps(Seq::empty());
    lemma_events(world, chances);
    lemma_nothing_fires(world.triggers, pc);
    assert(command_steps(Seq::empty()) =~= Seq::<TickStep>::empty());
    if world.dispatches() {
        reveal(World::step_taken);
        assert(steps =~= event_steps().push(TickStep::Disarm(pc)));
        assert(steps.drop_last() =~= event_steps());
        lemma_filter_keeps_all(world.triggers, survives(pc, true));
        assert(world.disarmed(pc) == world);
    } else {
        assert(steps =~= event_steps());
    }
}

/// Where no trigger is set, none fires.
proof fn lemma_nothing_fires(triggers: Seq<TriggerView>, address: u32)
    requires
        forall|i: int| 0 <= i < triggers.len() ==> (#[trigger] triggers[i]).address != address,
    ensures
        fired_actions(triggers, address) == Seq::<CmdView>::empty(),
    decreases triggers.len(),
{
    if triggers.len() > 0 {
        assert(triggers[triggers.len() - 1].address != address);
        assert forall|i: int| 0 <= i < triggers.len() - 1 implies (
        #[trigger] triggers.drop_last()[i]).address != address by {
            assert(triggers.drop_last()[i] == triggers[i]);
        }
        lemma_nothing_fires(triggers.drop_last(), address);
    }
}

} // verus!
