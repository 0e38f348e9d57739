//! What holds of headless sessions, told in numbers.
use crate::execution::HostView;
use crate::headless::{
    begin_refused, begun, can_begin, HeadlessBoot, HeadlessRunError, HeadlessRunOutcome,
    HeadlessSession, HeadlessStepOutcome, LoadImage, RoundPolls, RunLimits, SessionView, StepPolls,
    StopReason,
};
use crate::images::LoadView;
use crate::machine::MachineView;
use crate::processor::{cpu_contents, CpuView, Registers};
use vstd::prelude::*;

verus! {

/// A session starts exactly at the entry point that was asked for, in the mode that was asked for:
/// the address of its next instruction is the entry point, in either mode. Nothing was executed, and
/// nothing stops it yet. Its machine is headless, without the host's files and without an exit
/// status, and but for RAM it is the one that was handed over.
pub proof fn law_session_starts_at_its_entry(
    machine: MachineView,
    boot: HeadlessBoot,
    images: Seq<LoadImage>,
    session: SessionView,
)
    requires
        can_begin(machine, boot, images),
        begun(machine, boot, images, session),
    ensures
        ({
            let entry = match boot {
                HeadlessBoot::Direct(entry) => entry,
            };
            let cpu: CpuView = session.host.cpu;
            let after: MachineView = session.host.machine;
            &&& cpu.registers.adl == entry.adl
            &&& cpu.registers.madl == entry.madl
            &&& cpu.registers.mbase == entry.mbase
            &&& entry.pc == (if cpu.registers.adl {
                cpu.registers.pc as int
            } else {
                cpu.registers.mbase * 0x1_0000 + cpu.registers.pc % 0x1_0000
            })
            &&& cpu == (CpuView {
                registers: Registers {
                    pc: cpu.registers.pc,
                    adl: entry.adl,
                    madl: entry.madl,
                    mbase: entry.mbase,
                    af: 0xffff,
                    bc: 0,
                    de: 0,
                    hl: 0,
                    ix: 0,
                    iy: 0,
                    sps: 0,
                    spl: 0,
                    i: 0,
                    r: 0,
                    iff1: false,
                    iff2: false,
                },
                instructions_executed: 0,
                halted: false,
                trace: false,
                ready: true,
                hidden: Seq::empty(),
            })
            &&& session.terminal_stop is None
            &&& after == (MachineView {
                internal: after.internal,
                external: after.external,
                headless_mode: true,
                enable_hostfs: false,
                guest_exit_status: None,
                ..machine
            })
            &&& after.internal.len() == machine.internal.len()
            &&& after.external.len() == machine.external.len()
        }),
{
}

/// An entry point has to be an address of 24 bits, and outside ADL mode one of the bank of MBASE,
/// whichever that is. Otherwise a session cannot begin; where the machine is unused and the images
/// are in order, it is refused for that and for nothing else. An entry point that is in order is
/// never refused.
pub proof fn law_entry_lies_in_its_bank(
    machine: MachineView,
    boot: HeadlessBoot,
    images: Seq<LoadImage>,
    error: HeadlessRunError,
)
    ensures
        ({
            let entry = match boot {
                HeadlessBoot::Direct(entry) => entry,
            };
            let ready: bool = !machine.used() && (LoadView { machine, images }).accepted();
            &&& entry.pc >= 0x100_0000 ==> !can_begin(machine, boot, images)
            &&& entry.pc >= 0x100_0000 && ready ==> (begin_refused(machine, boot, images, error)
                <==> error == HeadlessRunError::EntryOutOfRange { entry: entry.pc })
            &&& entry.pc < 0x100_0000 && !entry.adl && entry.pc / 0x1_0000 != entry.mbase
                ==> !can_begin(machine, boot, images)
            &&& entry.pc < 0x100_0000 && !entry.adl && entry.pc / 0x1_0000 != entry.mbase && ready
                ==> (begin_refused(machine, boot, images, error) <==> error
                == HeadlessRunError::EntryMbaseMismatch { entry: entry.pc, mbase: entry.mbase })
            &&& entry.pc < 0x100_0000 && (entry.adl || entry.pc / 0x1_0000 == entry.mbase) && ready
                ==> can_begin(machine, boot, images) && !begin_refused(
                machine,
                boot,
                images,
                error,
            )
        }),
{
}

/// A machine that has used cycles, or holds a fault, a marked port access or an exit status, is
/// refused, whatever else is wrong, and no other machine is for that reason.
pub proof fn law_used_machine_is_refused(
    machine: MachineView,
    boot: HeadlessBoot,
    images: Seq<LoadImage>,
    error: HeadlessRunError,
)
    ensures
        ({
            let fresh: bool = machine.cycle_counter == 0 && machine.total_cycles_elapsed == 0
                && machine.mem_out_of_bounds is None && machine.io_unhandled is None
                && machine.guest_exit_status is None;
            &&& machine.used() == !fresh
            &&& !fresh ==> !can_begin(machine, boot, images)
            &&& !fresh ==> (begin_refused(machine, boot, images, error) <==> error
                == HeadlessRunError::MachineAlreadyUsed)
            &&& fresh && !(LoadView { machine, images }).accepted() ==> {
                &&& !can_begin(machine, boot, images)
                &&& begin_refused(machine, boot, images, error) <==> (LoadView {
                    machine,
                    images,
                }).refused(error)
            }
        }),
{
}

/// The reason for which a guest can do no more: one that was kept, else its exit status, else a
/// shutdown that is requested, else that it is halted.
pub proof fn law_terminal_reasons_in_order(session: SessionView, shutdown: bool)
    ensures
        ({
            let reason: Option<StopReason> = session.terminal_reason(shutdown);
            let exit: Option<u8> = session.host.machine.guest_exit_status;
            &&& session.terminal_stop is Some ==> reason == session.terminal_stop
            &&& session.terminal_stop is None && exit is Some ==> reason == Some(
                StopReason::GuestExit(exit->0),
            )
            &&& session.terminal_stop is None && exit is None && shutdown ==> reason == Some(
                StopReason::RequestedShutdown,
            )
            &&& session.terminal_stop is None && exit is None && !shutdown ==> (reason is Some
                <==> session.host.cpu.halted)
            &&& session.terminal_stop is None && exit is None && !shutdown ==> (reason is Some
                ==> reason == Some(StopReason::Halted))
        }),
{
}

/// What a step and what a run report: the exit status, the address of the next instruction, and the
/// counts, as they are.
pub proof fn law_outcomes_tell_the_session(
    session: SessionView,
    reason: Option<StopReason>,
    stop: StopReason,
)
    ensures
        ({
            let now: Registers = session.host.cpu.registers;
            let pc: int = if now.adl {
                now.pc as int
            } else {
                now.mbase * 0x1_0000 + now.pc % 0x1_0000
            };
            &&& session.step_outcome(reason) == (HeadlessStepOutcome {
                reason,
                guest_status: session.host.machine.guest_exit_status,
                pc: pc as u32,
                instructions: session.host.cpu.instructions_executed,
                cycles: session.host.machine.total_cycles_elapsed,
            })
            &&& session.run_outcome(stop) == (HeadlessRunOutcome {
                reason: stop,
                guest_status: session.host.machine.guest_exit_status,
                pc: pc as u32,
                instructions: session.host.cpu.instructions_executed,
                cycles: session.host.machine.total_cycles_elapsed,
            })
        }),
{
}

/// The session with its machine and CPU after the instruction of a step, the cycles still pending.
pub open spec fn ran(session: SessionView) -> SessionView {
    let cleared: HostView = HostView {
        machine: MachineView { mem_out_of_bounds: None, ..session.host.machine },
        cpu: session.host.cpu,
    };
    SessionView { host: cleared.executed(), terminal_stop: session.terminal_stop }
}

/// The session with its cycles accounted for.
pub open spec fn paid(session: SessionView) -> SessionView {
    SessionView {
        host: HostView {
            machine: session.host.machine.cycles_applied(),
            cpu: session.host.cpu,
        },
        terminal_stop: session.terminal_stop,
    }
}

/// A step first looks whether the guest can do no more; then nothing changes and the reason is
/// reported. Otherwise the last fault is forgotten and one instruction executed. Where not exactly
/// one more is counted, the step fails with its cycles pending; where it took no time, it fails with
/// them accounted for.
pub proof fn law_step_executes_one_instruction(session: SessionView, polls: StepPolls)
    ensures
        ({
            let (end, outcome) = session.stepped(polls);
            let stop: Option<StopReason> = session.terminal_reason(polls.before);
            let after: SessionView = ran(session);
            let before: u64 = session.host.cpu.instructions_executed;
            let count: u64 = after.host.cpu.instructions_executed;
            let pending: i32 = after.host.machine.cycle_counter;
            &&& stop is Some ==> end == session && outcome == Ok::<_, HeadlessRunError>(
                session.step_outcome(stop),
            )
            &&& stop is None && count != before + 1 ==> end == after && outcome == Err::<
                HeadlessStepOutcome,
                _,
            >(HeadlessRunError::InstructionAccountingInvariant { before, after: count })
            &&& stop is None && count == before + 1 && pending <= 0 ==> end == paid(after)
                && outcome == Err::<HeadlessStepOutcome, _>(
                HeadlessRunError::CycleAccountingInvariant { pending },
            )
        }),
{
}

/// Behind an instruction that was counted and took time, an interrupt is looked at, unless the guest
/// can do no more or has accessed an unmapped address, and its cycles are accounted for. The step
/// fails where those are less than none, or where the total went back. Otherwise an access to an
/// unmapped address is kept as the reason to stop, with the address of the instruction, and the
/// reason for which the guest can do no more is reported, if there is one.
pub proof fn law_step_settles_behind_the_instruction(session: SessionView, polls: StepPolls)
    requires
        session.terminal_reason(polls.before) is None,
        ran(session).host.cpu.instructions_executed == session.host.cpu.instructions_executed + 1,
        ran(session).host.machine.cycle_counter > 0,
    ensures
        ({
            let (end, outcome) = session.stepped(polls);
            let after: SessionView = paid(ran(session));
            let fault: Option<u32> = after.host.machine.mem_out_of_bounds;
            let quiet: bool = after.terminal_reason(polls.after) is Some || fault is Some;
            let entered: SessionView = SessionView {
                host: if quiet {
                    after.host
                } else {
                    after.host.interrupted()
                },
                terminal_stop: after.terminal_stop,
            };
            let settled: SessionView = paid(entered);
            let pending: i32 = entered.host.machine.cycle_counter;
            let total: u64 = settled.host.machine.total_cycles_elapsed;
            let began: u64 = session.host.machine.total_cycles_elapsed;
            &&& pending < 0 ==> end == settled && outcome == Err::<HeadlessStepOutcome, _>(
                HeadlessRunError::CycleAccountingInvariant { pending },
            )
            &&& pending >= 0 && total < began ==> end == settled && outcome == Err::<
                HeadlessStepOutcome,
                _,
            >(HeadlessRunError::CycleAccountingOverflow)
            &&& pending >= 0 && total >= began ==> {
                &&& end.host == settled.host
                &&& settled.host.machine.mem_out_of_bounds is None ==> end.terminal_stop
                    == session.terminal_stop
                &&& settled.host.machine.mem_out_of_bounds matches Some(address)
                    ==> end.terminal_stop == Some(
                    StopReason::MemoryFault {
                        address,
                        instruction_pc: settled.host.machine.last_pc,
                    },
                )
                &&& outcome == Ok::<_, HeadlessRunError>(
                    end.step_outcome(end.terminal_reason(polls.end)),
                )
            }
        }),
{
}

/// A run looks before each step whether the guest can do no more, then whether the instruction limit
/// is reached, then the cycle limit.
pub proof fn law_limits_before_a_step(session: SessionView, limits: RunLimits, shutdown: bool)
    ensures
        ({
            let stop: Option<StopReason> = session.stop_before(limits, shutdown);
            let terminal: Option<StopReason> = session.terminal_reason(shutdown);
            let instructions: bool = session.host.cpu.instructions_executed
                >= limits.max_instructions@;
            let cycles: bool = session.host.machine.total_cycles_elapsed >= limits.max_cycles@;
            &&& terminal is Some ==> stop == terminal
            &&& terminal is None && instructions ==> stop == Some(StopReason::InstructionLimit)
            &&& terminal is None && !instructions && cycles ==> stop == Some(
                StopReason::CycleLimit,
            )
            &&& terminal is None && !instructions && !cycles ==> stop is None
        }),
{
}

/// A run looks behind each step first whether the cycle limit is exceeded, then whether the guest
/// can do no more, then whether the instruction limit is reached, then the cycle limit.
pub proof fn law_limits_behind_a_step(outcome: HeadlessStepOutcome, limits: RunLimits)
    ensures
        ({
            let stop: Option<StopReason> = outcome.stop_after(limits);
            let exceeded: bool = outcome.cycles > limits.max_cycles@;
            let terminal: bool = outcome.reason is Some;
            let instructions: bool = outcome.instructions >= limits.max_instructions@;
            let cycles: bool = outcome.cycles == limits.max_cycles@;
            &&& exceeded ==> stop == Some(StopReason::CycleLimit)
            &&& !exceeded && terminal ==> stop == outcome.reason
            &&& !exceeded && !terminal && instructions ==> stop == Some(
                StopReason::InstructionLimit,
            )
            &&& !exceeded && !terminal && !instructions && cycles ==> stop == Some(
                StopReason::CycleLimit,
            )
            &&& !exceeded && !terminal && !instructions && !cycles ==> stop is None
        }),
{
}

/// A run of one round ends before a step where there is a reason to, fails where the step does, and
/// ends behind the step where there is a reason to then. In each case it reports the session in which
/// it ends, and only that. Where there is no reason to stop it is no run of one round.
pub proof fn law_run_of_one_round(
    session: SessionView,
    limits: RunLimits,
    polls: RoundPolls,
    end: SessionView,
    result: Result<HeadlessRunOutcome, HeadlessRunError>,
)
    ensures
        session.runs(limits, seq![polls], end, result) <==> {
            let (after, outcome) = session.stepped(polls.step);
            match session.stop_before(limits, polls.entry) {
                Some(reason) => end == session && result == Ok::<_, HeadlessRunError>(
                    session.run_outcome(reason),
                ),
                None => end == after && match outcome {
                    Err(error) => result == Err::<HeadlessRunOutcome, _>(error),
                    Ok(step) => step.stop_after(limits) is Some && result == Ok::<
                        _,
                        HeadlessRunError,
                    >(after.run_outcome(step.stop_after(limits)->0)),
                },
            }
        },
{
    reveal(SessionView::step_taken);
    let one: Seq<RoundPolls> = seq![polls];
    assert(one.drop_last() =~= Seq::<RoundPolls>::empty());
    assert(session.after(one.drop_last()) == session);
    assert(one.last() == polls);
}

/// A run of more rounds goes on behind its first step only where there is no reason to stop, neither
/// before it nor behind it, and is from there on the run of the session that the step leaves.
pub proof fn law_run_goes_on_behind_a_step(
    session: SessionView,
    limits: RunLimits,
    polls: Seq<RoundPolls>,
    end: SessionView,
    result: Result<HeadlessRunOutcome, HeadlessRunError>,
)
    requires
        session.runs(limits, polls, end, result),
        polls.len() > 1,
    ensures
        ({
            let (after, outcome) = session.stepped(polls[0].step);
            &&& session.stop_before(limits, polls[0].entry) is None
            &&& outcome is Ok
            &&& outcome->Ok_0.stop_after(limits) is None
            &&& after.runs(limits, polls.skip(1), end, result)
        }),
{
    reveal(SessionView::step_taken);
    let rest: Seq<RoundPolls> = polls.skip(1);
    let after: SessionView = session.stepped(polls[0].step).0;
    assert(polls.take(0) =~= Seq::<RoundPolls>::empty());
    assert(session.after(polls.take(0)) == session);
    assert(session.goes_on(limits, polls[0]));
    assert forall|i: int| #![trigger rest[i]] 0 <= i < rest.len() - 1 implies after.after(
        rest.take(i),
    ).goes_on(limits, rest[i]) by {
        lemma_after_first(session, polls.take(i + 1));
        assert(polls.take(i + 1).skip(1) =~= rest.take(i));
        assert(rest[i] == polls[i + 1]);
    }
    lemma_after_first(session, polls.drop_last());
    assert(polls.drop_last().skip(1) =~= rest.drop_last());
    assert(rest.last() == polls.last());
}

/// The session after some steps is the one after the first, and then after the others.
proof fn lemma_after_first(session: SessionView, polls: Seq<RoundPolls>)
    requires
        polls.len() > 0,
    ensures
        session.after(polls) == session.step_taken(polls[0].step).0.after(polls.skip(1)),
    decreases polls.len(),
{
    let first: SessionView = session.step_taken(polls[0].step).0;
    if polls.len() == 1 {
        assert(polls.drop_last() =~= Seq::<RoundPolls>::empty());
        assert(session.after(polls.drop_last()) == session);
        assert(polls.skip(1) =~= Seq::<RoundPolls>::empty());
        assert(first.after(polls.skip(1)) == first);
    } else {
        lemma_after_first(session, polls.drop_last());
        assert(polls.drop_last().skip(1) =~= polls.skip(1).drop_last());
        assert(polls.skip(1).last() == polls.last());
    }
}

/// A session is told in full: its machine, its CPU, and the reason to stop that was kept.
pub proof fn law_session_is_told_in_full(session: HeadlessSession)
    ensures
        session@.host.machine == session.machine@,
        session@.host.cpu == cpu_contents(session.cpu),
        session@.terminal_stop == session.terminal_stop,
{
}

/// An instruction has to be counted exactly once, and then to take time. Where it was miscounted its
/// cycles stay pending; otherwise they are accounted for.
pub proof fn law_instruction_is_accounted_for(session: SessionView, before: u64)
    ensures
        ({
            let after: u64 = session.host.cpu.instructions_executed;
            let pending: i32 = session.host.machine.cycle_counter;
            &&& after != before + 1 ==> {
                &&& session.count_fault(before) == Some(
                    HeadlessRunError::InstructionAccountingInvariant { before, after },
                )
                &&& session.accounted(before) == session
            }
            &&& after == before + 1 ==> session.accounted(before) == paid(session)
            &&& after == before + 1 && pending <= 0 ==> session.count_fault(before) == Some(
                HeadlessRunError::CycleAccountingInvariant { pending },
            )
            &&& after == before + 1 && pending > 0 ==> session.count_fault(before) is None
        }),
{
}

/// Behind an instruction no less than no time may pass, and the total may not go back to before the
/// step.
pub proof fn law_interrupt_is_accounted_for(
    session: SessionView,
    shutdown: bool,
    cycles_before: u64,
)
    ensures
        ({
            let pending: i32 = session.host.machine.cycle_counter;
            let total: u64 = paid(session).host.machine.total_cycles_elapsed;
            let quiet: bool = session.terminal_reason(shutdown) is Some
                || session.host.machine.mem_out_of_bounds is Some;
            let entered: SessionView = SessionView {
                host: session.host.interrupted(),
                terminal_stop: session.terminal_stop,
            };
            &&& pending < 0 ==> session.total_fault(cycles_before) == Some(
                HeadlessRunError::CycleAccountingInvariant { pending },
            )
            &&& pending >= 0 && total < cycles_before ==> session.total_fault(cycles_before)
                == Some(HeadlessRunError::CycleAccountingOverflow)
            &&& pending >= 0 && total >= cycles_before ==> session.total_fault(cycles_before)
                is None
            &&& quiet ==> session.settled(shutdown) == paid(session)
            &&& quiet ==> session.settling_fault(shutdown, cycles_before) == session.total_fault(
                cycles_before,
            )
            &&& !quiet ==> session.settled(shutdown) == paid(entered)
            &&& !quiet ==> session.settling_fault(shutdown, cycles_before) == entered.total_fault(
                cycles_before,
            )
        }),
{
}

/// An access to an unmapped address is kept as the reason to stop, with the address of the
/// instruction that made it. Nothing else changes, and without such an access nothing does.
pub proof fn law_memory_fault_is_kept(session: SessionView)
    ensures
        session.host.machine.mem_out_of_bounds is None ==> session.concluded() == session,
        session.host.machine.mem_out_of_bounds matches Some(address) ==> session.concluded() == (
        SessionView {
            host: session.host,
            terminal_stop: Some(
                StopReason::MemoryFault {
                    address,
                    instruction_pc: session.host.machine.last_pc,
                },
            ),
        }),
{
}

} // verus!
