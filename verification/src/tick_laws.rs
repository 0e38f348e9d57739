//! What holds of the events of a tick, of the triggers it fires, and of a tick as a whole.
use crate::channel::PollView;
use crate::command_laws::{handed_over, tells_listing, tells_state};
use crate::debugger::{refused_at, DebuggerResult, DebuggerServer, ServerView};
use crate::execution::HostView;
use crate::machine::MachineView;
use crate::processor::Registers;
use crate::protocol::{CmdView, PauseReason, RespView, TriggerView};
use crate::text::hexadecimal;
use crate::tick::{carries_out, stays_attached, ticks};
use crate::world::{fired_actions, Chances, TickStep, World};
use vstd::prelude::*;

verus! {

/// Whether a response lists the instruction executed last: from its address to the next one that is
/// fetched, or, where that is not behind it, 32 bytes on.
pub open spec fn tells_last(host: HostView, chances: Chances, response: RespView) -> bool {
    let now: Registers = host.cpu.registers;
    let last: u32 = host.machine.last_pc;
    let next: int = if now.adl {
        (last + 1) % 0x100_0000
    } else {
        now.mbase * 0x1_0000 + (last + 1) % 0x1_0000
    };
    tells_listing(
        host,
        None,
        last,
        if next > last {
            next
        } else {
            last + 32
        },
        chances.listing,
        response,
    )
}

/// What is sent when the machine stops by itself tells the reason, the last instruction and the
/// state.
proof fn lemma_stop_is_told(host: HostView, reason: PauseReason, chances: Chances)
    ensures
        ({
            let responses: Seq<RespView> = host.stop_report(reason, chances);
            &&& responses.len() == 3
            &&& responses[0] == RespView::Paused(reason)
            &&& tells_last(host, chances, responses[1])
            &&& tells_state(host, chances.state, responses[2])
        }),
{
    let now: Registers = host.cpu.registers;
    let last: u32 = host.machine.last_pc;
    let end: u32 = if now.adl {
        ((last + 1) % 0x100_0000) as u32
    } else {
        (now.mbase * 0x1_0000 + (last + 1) % 0x1_0000) as u32
    };
    let responses: Seq<RespView> = host.stop_report(reason, chances);
    assert(responses[1] == host.disassembly_response(None, last, end, chances.listing));
    crate::command_laws::lemma_listing_is_told(host, None, last, end, chances.listing);
    crate::command_laws::lemma_state_is_told(host, chances.state);
}

/// No fault: the debugger forgets the one it reported, tells nothing and changes nothing. A fault
/// pauses the machine, is remembered as reported, and, unless it was reported already, is told with
/// its address, the last instruction and the state. Nothing else changes.
pub proof fn law_fault_pauses_and_is_told(world: World, chances: Chances)
    ensures
        ({
            let (after, responses) = world.fault_noted(chances);
            match world.host.machine.mem_out_of_bounds {
                None => {
                    &&& after == (World { reported: None, ..world })
                    &&& responses.len() == 0
                },
                Some(address) => {
                    &&& after.triggers == world.triggers
                    &&& after.reported == Some(address)
                    &&& after.host.cpu == world.host.cpu
                    &&& after.host.machine == (MachineView { paused: true, ..world.host.machine })
                    &&& world.reported == Some(address) ==> responses.len() == 0
                    &&& world.reported != Some(address) ==> {
                        &&& responses.len() == 3
                        &&& responses[0] == RespView::Paused(
                            PauseReason::OutOfBoundsMemAccess(address),
                        )
                        &&& tells_last(after.host, chances, responses[1])
                        &&& tells_state(after.host, chances.state, responses[2])
                    }
                },
            }
        }),
{
    if let Some(address) = world.host.machine.mem_out_of_bounds {
        let after: World = world.fault_noted(chances).0;
        lemma_stop_is_told(after.host, PauseReason::OutOfBoundsMemAccess(address), chances);
    }
}

/// An access to a port without a peripheral is no longer marked once it was looked at. The low byte
/// of its address decides the rest: from $10 to $1F it pauses the machine, and the port, the last
/// instruction and the state are told; from $20 to $2F a message and the state are told; otherwise
/// nothing is told. Nothing else changes.
pub proof fn law_port_access_pauses_or_dumps(world: World, chances: Chances)
    ensures
        ({
            let (after, responses) = world.io_noted(chances);
            let paused: bool = after.host.machine.paused;
            &&& after.triggers == world.triggers
            &&& after.reported == world.reported
            &&& after.host.cpu == world.host.cpu
            &&& after.host.machine == (MachineView {
                paused,
                io_unhandled: None,
                ..world.host.machine
            })
            &&& world.host.machine.io_unhandled is None ==> paused == world.host.machine.paused
                && responses.len() == 0
            &&& world.host.machine.io_unhandled matches Some(address) ==> {
                let port: u16 = address % 256;
                &&& 16 <= port <= 31 ==> {
                    &&& paused
                    &&& responses.len() == 3
                    &&& responses[0] == RespView::Paused(PauseReason::IOBreakpoint(port as u8))
                    &&& tells_last(after.host, chances, responses[1])
                    &&& tells_state(after.host, chances.state, responses[2])
                }
                &&& 32 <= port <= 47 ==> {
                    &&& paused == world.host.machine.paused
                    &&& responses.len() == 2
                    &&& responses[0] == RespView::Message(
                        "State dump triggered by IO 0x"@ + hexadecimal(port as nat, 0)
                            + " access at PC=$"@ + hexadecimal(
                            world.host.machine.last_pc as nat,
                            0,
                        ),
                    )
                    &&& tells_state(after.host, chances.state, responses[1])
                }
                &&& port < 16 || port > 47 ==> {
                    &&& paused == world.host.machine.paused
                    &&& responses.len() == 0
                }
            }
        }),
{
    if let Some(address) = world.host.machine.io_unhandled {
        let after: World = world.io_noted(chances).0;
        let port: u16 = address % 256;
        lemma_stop_is_told(after.host, PauseReason::IOBreakpoint(port as u8), chances);
        crate::command_laws::lemma_state_is_told(after.host, chances.state);
    }
}

/// The triggers are looked at only while the machine runs, no fault is marked, and no access to a
/// port from $10 to $1F is.
pub proof fn law_triggers_wait_while_paused(world: World)
    ensures
        world.dispatches() <==> {
            &&& !world.host.machine.paused
            &&& world.host.machine.mem_out_of_bounds is None
            &&& world.host.machine.io_unhandled is None || !(16
                <= world.host.machine.io_unhandled->0 % 256 <= 31)
        },
{
}

/// The actions that fire at an address are those of the triggers there, one after the other: some
/// triggers and then others fire what the first fire and then what the others fire, and a trigger
/// fires its actions exactly where it is set.
pub proof fn law_triggers_fire_in_order(
    first: Seq<TriggerView>,
    second: Seq<TriggerView>,
    trigger: TriggerView,
    address: u32,
)
    ensures
        fired_actions(first + second, address) == fired_actions(first, address) + fired_actions(
            second,
            address,
        ),
        trigger.address == address ==> fired_actions(seq![trigger], address) == trigger.actions,
        trigger.address != address ==> fired_actions(seq![trigger], address).len() == 0,
    decreases second.len(),
{
    let one: Seq<TriggerView> = seq![trigger];
    assert(one.drop_last() =~= Seq::<TriggerView>::empty());
    assert(fired_actions(one.drop_last(), address) =~= Seq::<CmdView>::empty());
    assert(fired_actions(one, address) =~= if trigger.address == address {
        trigger.actions
    } else {
        Seq::<CmdView>::empty()
    });
    if second.len() == 0 {
        assert(first + second =~= first);
        assert(fired_actions(first, address) + fired_actions(second, address) =~= fired_actions(
            first,
            address,
        ));
    } else {
        law_triggers_fire_in_order(first, second.drop_last(), trigger, address);
        assert((first + second).drop_last() =~= first + second.drop_last());
        assert((first + second).last() == second.last());
        assert(fired_actions(first + second, address) =~= fired_actions(first, address)
            + fired_actions(second, address));
    }
}

/// A tick looks at a fault, then at a port access, then, if the triggers are looked at, runs the
/// actions of those at the program counter and removes the one-shots there, and then does what the
/// controller commands, in the order in which it came.
pub proof fn law_tick_goes_in_order(world: World, commands: Seq<CmdView>)
    ensures
        ({
            let steps: Seq<TickStep> = world.tick_steps(commands);
            let now: Registers = world.host.cpu.registers;
            let pc: int = if now.adl {
                now.pc as int
            } else {
                now.mbase * 0x1_0000 + now.pc % 0x1_0000
            };
            let fired: Seq<CmdView> = fired_actions(world.triggers, pc as u32);
            let middle: int = if world.dispatches() {
                (fired.len() + 1) as int
            } else {
                0
            };
            &&& steps.len() == 2 + middle + commands.len()
            &&& steps[0] == TickStep::Fault
            &&& steps[1] == TickStep::Io
            &&& world.dispatches() ==> {
                &&& forall|i: int|
                    0 <= i < fired.len() ==> #[trigger] steps[2 + i] == TickStep::Command(fired[i])
                &&& steps[(2 + fired.len()) as int] == TickStep::Disarm(pc as u32)
            }
            &&& forall|i: int|
                0 <= i < commands.len() ==> #[trigger] steps[2 + middle + i] == TickStep::Command(
                    commands[i],
                )
        }),
{
}

/// Steps are taken one by one, each in the world that the one before left, and what they answer is
/// put one behind the other.
pub proof fn law_steps_are_taken_one_by_one(
    world: World,
    steps: Seq<TickStep>,
    step: TickStep,
    chances: Seq<Chances>,
)
    ensures
        world.performed(Seq::empty(), chances) == (world, Seq::<RespView>::empty()),
        ({
            let (between, first) = world.performed(steps, chances);
            let (after, second) = match step {
                TickStep::Fault => between.fault_noted(chances[steps.len() as int]),
                TickStep::Io => between.io_noted(chances[steps.len() as int]),
                TickStep::Command(cmd) => between.handled(cmd, chances[steps.len() as int]),
                TickStep::Disarm(address) => (between.disarmed(address), Seq::empty()),
            };
            world.performed(steps.push(step), chances) == (after, first + second)
        }),
{
    reveal(World::step_taken);
    assert(steps.push(step).drop_last() =~= steps);
}

/// A tick that went well took all of its steps, and handed over all that they answer. It looked for
/// commands until there was none. One that failed handed over what its steps answer up to a response
/// that the controller did not take, or found that the controller has gone after all of them.
pub proof fn law_tick_hands_over_in_order(
    before: ServerView,
    host: HostView,
    commands: Seq<CmdView>,
    chances: Seq<Chances>,
    after: ServerView,
    host_after: HostView,
    result: DebuggerResult,
)
    requires
        ticks(before, host, commands, chances, after, host_after, result),
    ensures
        ({
            let world: World = World {
                triggers: before.triggers,
                reported: before.reported,
                host,
            };
            let steps: Seq<TickStep> = world.tick_steps(commands);
            let taken: int = chances.len() as int;
            let (done, responses) = world.performed(steps.take(taken), chances);
            let polls: Seq<PollView> = after.polls;
            let count: int = (before.polls.len() + commands.len()) as int;
            &&& taken <= steps.len()
            &&& done.triggers == after.triggers
            &&& done.reported == after.reported
            &&& done.host == host_after
            &&& polls.len() == count || polls.len() == count + 1
            &&& forall|i: int| 0 <= i < before.polls.len() ==> #[trigger] polls[i] == before.polls[i]
            &&& forall|i: int|
                before.polls.len() <= i < count ==> #[trigger] polls[i] == PollView::Command(
                    commands[i - before.polls.len()],
                )
            &&& result is Ok ==> {
                &&& taken == steps.len()
                &&& handed_over(before.offers, after.offers, responses, Ok(()))
                &&& polls.len() == count + 1 ==> polls.last() == PollView::Empty
                &&& polls.len() == count ==> commands.len() == 0xffff_ffff_ffff_ffff
            }
            &&& result is Err && polls.len() == count + 1 ==> {
                &&& taken == steps.len()
                &&& handed_over(before.offers, after.offers, responses, Ok(()))
                &&& polls.last() == PollView::Disconnected
            }
            &&& result is Err && polls.len() == count ==> {
                &&& taken > 0
                &&& commands.len() > 0 ==> taken == steps.len()
                &&& handed_over(before.offers, after.offers, responses, result)
                &&& after.offers.len() - before.offers.len() > world.performed(
                    steps.take(taken - 1),
                    chances,
                ).1.len()
            }
        }),
{
    let responses: Seq<RespView> = before.world(host).performed(
        before.world(host).tick_steps(commands).take(chances.len() as int),
        chances,
    ).1;
    let steps: Seq<TickStep> = before.world(host).tick_steps(commands);
    crate::command_laws::law_responses_go_in_order(
        before.offers,
        after.offers,
        responses,
        Ok(()),
    );
    crate::command_laws::law_responses_go_in_order(before.offers, after.offers, responses, result);
    if result is Err && carries_out(before, host, steps, chances, after, host_after, result) {
        let earlier: int = before.world(host).performed(
            steps.take(chances.len() - 1),
            chances,
        ).1.len() as int;
        let count: int = choose|count: int|
            earlier <= count < responses.len() && after.offers == before.offers
                + #[trigger] refused_at(responses, count);
        assert(after.offers == before.offers + refused_at(responses, count));
    }
}

/// A tick in which an access to a port from $10 to $1F is found, or a fault, or the machine paused,
/// and no command comes, runs no action of a trigger and keeps all triggers, and leaves the machine
/// paused.
pub proof fn law_stopped_tick_keeps_triggers(
    before: ServerView,
    host: HostView,
    chances: Seq<Chances>,
    after: ServerView,
    host_after: HostView,
)
    requires
        ticks(before, host, Seq::empty(), chances, after, host_after, Ok(())),
        host.machine.paused || host.machine.mem_out_of_bounds is Some || (
        host.machine.io_unhandled is Some && 16 <= host.machine.io_unhandled->0 % 256 <= 31),
    ensures
        after.triggers == before.triggers,
        host_after.cpu == host.cpu,
        host_after.machine == (MachineView {
            paused: true,
            io_unhandled: None,
            ..host.machine
        }),
{
    let world: World = before.world(host);
    let steps: Seq<TickStep> = world.tick_steps(Seq::empty());
    crate::debugging_laws::law_paused_tick_keeps_triggers(world, chances);
    assert(steps.take(chances.len() as int) =~= steps);
    let none: Seq<TickStep> = Seq::empty();
    law_steps_are_taken_one_by_one(world, none, TickStep::Fault, chances);
    let one: Seq<TickStep> = none.push(TickStep::Fault);
    law_steps_are_taken_one_by_one(world, one, TickStep::Io, chances);
    assert(one.push(TickStep::Io) =~= steps);
    law_fault_pauses_and_is_told(world, chances[0]);
    let between: World = world.fault_noted(chances[0]).0;
    law_port_access_pauses_or_dumps(between, chances[1]);
}

/// A debugger stays attached after a tick that went well, with the machine as it left it. After one
/// that failed it is gone, and the machine runs and remembers no fault; nothing else changes.
pub proof fn law_failed_debugger_is_let_go(
    attached: Option<DebuggerServer>,
    host: HostView,
    after: ServerView,
    host_after: HostView,
    result: DebuggerResult,
)
    requires
        stays_attached(attached, host, after, host_after, result),
    ensures
        result is Ok ==> attached is Some && attached->0@ == after && host == host_after,
        result is Err ==> attached is None && host == (HostView {
            machine: MachineView { paused: false, mem_out_of_bounds: None, ..host_after.machine },
            cpu: host_after.cpu,
        }),
{
}

} // verus!
