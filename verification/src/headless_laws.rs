//! What holds of running one program more than once.
use crate::address::code_span;
use crate::execution::HostView;
use crate::headless::{
    advanced_by, advances, begin_refused, begun, can_begin, law_run_of_stopped_guest_executes_nothing,
    law_stopped_guest_is_left_alone, lemma_time_passes, HeadlessBoot, HeadlessRunError,
    HeadlessRunOutcome, HeadlessStepOutcome, LoadImage, RoundPolls, RunLimits, SessionView,
    StepPolls, StopReason,
};
use crate::images::{law_refusal_is_unique, LoadView};
use crate::machine::{MachineView, StorageAddress};
use crate::prefix::{CodeView, PrefixPhase};
use crate::processor::{can_execute, code_at, CpuView};
use std::sync::atomic::AtomicBool;
use std::sync::Arc;
use vstd::prelude::*;

verus! {

impl MachineView {
    /// The same machine with another shutdown flag.
    pub open spec fn with_flag(self, flag: Arc<AtomicBool>) -> MachineView {
        MachineView { emulator_shutdown: flag, ..self }
    }
}

impl HostView {
    /// The same machine and CPU with another shutdown flag.
    pub open spec fn with_flag(self, flag: Arc<AtomicBool>) -> HostView {
        HostView { machine: self.machine.with_flag(flag), ..self }
    }
}

impl SessionView {
    /// The same session with another shutdown flag.
    pub open spec fn with_flag(self, flag: Arc<AtomicBool>) -> SessionView {
        SessionView { host: self.host.with_flag(flag), ..self }
    }
}

/// Whether the shutdown flag was never raised while it was polled.
pub open spec fn undisturbed(polls: Seq<RoundPolls>) -> bool {
    forall|i: int| 0 <= i < polls.len() ==> #[trigger] polls[i] == quiet()
}

/// A round in which the shutdown flag was not raised.
pub open spec fn quiet() -> RoundPolls {
    RoundPolls { entry: false, step: StepPolls { before: false, after: false, end: false } }
}

/// Whether a session that was just begun runs to a result without a request to stop.
pub open spec fn runs_undisturbed(
    machine: MachineView,
    boot: HeadlessBoot,
    images: Seq<LoadImage>,
    limits: RunLimits,
    result: Result<HeadlessRunOutcome, HeadlessRunError>,
) -> bool {
    exists|start: SessionView, polls: Seq<RoundPolls>, end: SessionView|
        {
            &&& begun(machine, boot, images, start)
            &&& undisturbed(polls)
            &&& #[trigger] start.runs(limits, polls, end, result)
        }
}

/// Whether a reason to stop is a limit.
pub open spec fn is_limit(reason: StopReason) -> bool {
    reason == StopReason::InstructionLimit || reason == StopReason::CycleLimit
}

/// A guest that has not stopped and takes a step takes some time.
proof fn lemma_step_takes_time(session: SessionView, polls: StepPolls)
    requires
        session.terminal_reason(polls.before) is None,
        session.step_taken(polls).1 is Ok,
    ensures
        session.step_taken(polls).0.host.machine.total_cycles_elapsed
            > session.host.machine.total_cycles_elapsed,
{
    reveal(SessionView::step_taken);
    reveal(advances);
    let total: u64 = session.host.machine.total_cycles_elapsed;
    let ran: SessionView = session.after_instruction();
    let between: SessionView = session.instructed();
    let after: SessionView = between.after_interrupt(polls.after);
    let end: SessionView = between.settled(polls.after);
    assert(ran.host.machine.total_cycles_elapsed == total);
    assert(advanced_by(
        total,
        between.host.machine.total_cycles_elapsed,
        ran.host.machine.cycle_counter as int,
    ));
    assert(after.host.machine.total_cycles_elapsed == between.host.machine.total_cycles_elapsed);
    assert(advanced_by(
        between.host.machine.total_cycles_elapsed,
        end.host.machine.total_cycles_elapsed,
        after.host.machine.cycle_counter as int,
    ));
    lemma_time_passes(
        total,
        between.host.machine.total_cycles_elapsed,
        end.host.machine.total_cycles_elapsed,
    );
}

/// A round after which a run goes on takes some time, and finds the guest running at its end.
proof fn lemma_round_goes_on(session: SessionView, limits: RunLimits, polls: RoundPolls)
    requires
        session.goes_on(limits, polls),
    ensures
        session.terminal_reason(polls.step.before) is None,
        session.step_taken(polls.step).0.terminal_reason(false) is None,
        session.step_taken(polls.step).0.host.machine.guest_exit_status is None,
        session.step_taken(polls.step).0.terminal_stop is None,
        session.step_taken(polls.step).0.host.machine.total_cycles_elapsed
            > session.host.machine.total_cycles_elapsed,
        session.step_taken(polls.step).1->Ok_0.cycles == session.step_taken(
            polls.step,
        ).0.host.machine.total_cycles_elapsed,
{
    assert(session.terminal_reason(polls.step.before) is None) by {
        reveal(SessionView::step_taken);
    }
    lemma_step_takes_time(session, polls.step);
    reveal(SessionView::step_taken);
}

/// Time does not go back between rounds after which a run goes on.
proof fn lemma_rounds_take_time(
    start: SessionView,
    limits: RunLimits,
    polls: Seq<RoundPolls>,
    from: int,
    to: int,
)
    requires
        0 <= from <= to <= polls.len(),
        forall|i: int|
            #![trigger polls[i]]
            0 <= i < to ==> start.after(polls.take(i)).goes_on(limits, polls[i]),
    ensures
        start.after(polls.take(from)).host.machine.total_cycles_elapsed <= start.after(
            polls.take(to),
        ).host.machine.total_cycles_elapsed,
    decreases to - from,
{
    if from < to {
        lemma_rounds_take_time(start, limits, polls, from, to - 1);
        assert(polls[to - 1] == polls[to - 1]);
        lemma_round_goes_on(start.after(polls.take(to - 1)), limits, polls[to - 1]);
        assert(polls.take(to).drop_last() =~= polls.take(to - 1));
        assert(polls.take(to).last() == polls[to - 1]);
    }
}

/// An event that stops the guest is what a run reports even if the cycle limit is just what the run
/// took: under that limit, the same run ends in the same way. A request to stop counts as such an
/// event where it is seen before all else, or behind the last instruction.
pub proof fn law_terminal_event_wins_at_exact_cycle_limit(
    start: SessionView,
    limits: RunLimits,
    polls: Seq<RoundPolls>,
    end: SessionView,
    outcome: HeadlessRunOutcome,
    exact: RunLimits,
)
    requires
        start.runs(limits, polls, end, Ok(outcome)),
        !is_limit(outcome.reason),
        outcome.reason == StopReason::RequestedShutdown ==> (polls.len() == 1 && polls[0].entry)
            || (!polls.last().entry && !polls.last().step.before),
        exact.max_cycles@ == outcome.cycles,
        exact.max_instructions@ >= limits.max_instructions@,
    ensures
        start.runs(exact, polls, end, Ok(outcome)),
{
    let count: int = polls.len() as int;
    let last: RoundPolls = polls.last();
    let before: SessionView = start.after(polls.drop_last());
    assert(polls.drop_last() =~= polls.take(count - 1));
    assert forall|i: int|
        #![trigger polls[i]]
        0 <= i < count - 1 implies start.after(polls.take(i)).goes_on(limits, polls[i]) by {}
    if count > 1 {
        let previous: SessionView = start.after(polls.take(count - 2));
        assert(polls[count - 2] == polls[count - 2]);
        lemma_round_goes_on(previous, limits, polls[count - 2]);
        assert(polls.take(count - 1).drop_last() =~= polls.take(count - 2));
        assert(polls.take(count - 1).last() == polls[count - 2]);
        assert(before.terminal_reason(false) is None);
        assert(before.stop_before(limits, last.entry) is None);
    }
    if before.stop_before(limits, last.entry) is None {
        assert(before.terminal_reason(last.step.before) is None) by {
            reveal(SessionView::step_taken);
        }
        lemma_step_takes_time(before, last.step);
        assert(before.step_taken(last.step).1->Ok_0.cycles == end.host.machine.total_cycles_elapsed)
            by {
            reveal(SessionView::step_taken);
        }
        assert(before.stop_before(exact, last.entry) is None);
    }
    assert(!before.goes_on(exact, last));
    assert(before.last_step(exact, last) == (end, Ok::<_, HeadlessRunError>(outcome)));
    assert forall|i: int| #![trigger polls[i]] 0 <= i < count - 1 implies start.after(
        polls.take(i),
    ).goes_on(exact, polls[i]) by {
        let here: SessionView = start.after(polls.take(i));
        lemma_round_goes_on(here, limits, polls[i]);
        assert(polls.take(i + 1).drop_last() =~= polls.take(i));
        assert(polls.take(i + 1).last() == polls[i]);
        lemma_rounds_take_time(start, limits, polls, i + 1, count - 1);
    }
}

/// Whether the shutdown flag read alike in two runs, as long as both of them went on.
pub open spec fn read_alike(polls: Seq<RoundPolls>, other: Seq<RoundPolls>) -> bool {
    forall|i: int|
        #![trigger polls[i]]
        #![trigger other[i]]
        0 <= i < polls.len() && i < other.len() ==> polls[i] == other[i]
}

/// A run is determined by the session it starts from, the limits, and what the shutdown flag reads
/// as: two runs that have these in common end in the same session with the same result.
pub proof fn law_run_is_determined(
    start: SessionView,
    limits: RunLimits,
    polls: Seq<RoundPolls>,
    end: SessionView,
    result: Result<HeadlessRunOutcome, HeadlessRunError>,
    other_polls: Seq<RoundPolls>,
    other_end: SessionView,
    other: Result<HeadlessRunOutcome, HeadlessRunError>,
)
    requires
        read_alike(polls, other_polls),
        start.runs(limits, polls, end, result),
        start.runs(limits, other_polls, other_end, other),
    ensures
        result == other,
        end == other_end,
{
    let a: int = polls.len() as int;
    let b: int = other_polls.len() as int;
    if a < b {
        assert(polls.drop_last() =~= other_polls.take(a - 1));
        assert(other_polls[a - 1] == polls[a - 1]);
    } else if b < a {
        assert(other_polls.drop_last() =~= polls.take(b - 1));
        assert(polls[b - 1] == other_polls[b - 1]);
    } else {
        assert(polls =~= other_polls);
    }
}

/// Where prefixes end depends on nothing but the bytes of the code.
proof fn lemma_phase_end_of_bytes(
    code: CodeView,
    other: CodeView,
    phase: PrefixPhase,
    from: int,
    limit: int,
)
    requires
        forall|offset: int| #[trigger] code.byte(offset) == other.byte(offset),
    ensures
        code.phase_end(phase, from, limit) == other.phase_end(phase, from, limit),
    decreases limit - from,
{
    if from < limit {
        lemma_phase_end_of_bytes(code, other, phase, from + 1, limit);
    }
}

/// Whether a CPU can execute does not depend on the shutdown flag.
proof fn lemma_can_execute_ignores_flag(cpu: CpuView, machine: MachineView, flag: Arc<AtomicBool>)
    ensures
        can_execute(cpu, machine.with_flag(flag)) == can_execute(cpu, machine),
{
    let code: CodeView = code_at(cpu, machine);
    let other: CodeView = code_at(cpu, machine.with_flag(flag));
    let span: int = code_span(code.adl);
    assert forall|offset: int| #[trigger] code.byte(offset) == other.byte(offset) by {}
    lemma_phase_end_of_bytes(code, other, PrefixPhase::Size, 0, span);
    lemma_phase_end_of_bytes(
        code,
        other,
        PrefixPhase::Index,
        code.size_end(),
        code.size_end() + span,
    );
    assert(code.byte(code.size_end()) == other.byte(code.size_end()));
    assert(code.byte(code.index_end()) == other.byte(code.index_end()));
}

/// Executing does not depend on which flag asks the emulator to stop.
proof fn lemma_execution_ignores_flag(host: HostView, flag: Arc<AtomicBool>)
    ensures
        host.with_flag(flag).executed() == host.executed().with_flag(flag),
        host.with_flag(flag).interrupted() == host.interrupted().with_flag(flag),
        host.with_flag(flag).cycles_applied() == host.cycles_applied().with_flag(flag),
{
    lemma_can_execute_ignores_flag(host.cpu, host.noted(), flag);
    assert(host.with_flag(flag).noted() == host.noted().with_flag(flag));
    assert(host.noted().with_flag(flag).bus() == host.noted().bus());
}

/// Executing an instruction and accounting for it does not depend on the flag.
proof fn lemma_instruction_ignores_flag(session: SessionView, flag: Arc<AtomicBool>)
    ensures
        session.with_flag(flag).instructed() == session.instructed().with_flag(flag),
        session.with_flag(flag).instruction_fault() == session.instruction_fault(),
{
    let other: SessionView = session.with_flag(flag);
    let ran: SessionView = session.after_instruction();
    assert(other.cleared() == session.cleared().with_flag(flag));
    assert(other.after_instruction() == ran.with_flag(flag)) by {
        lemma_execution_ignores_flag(session.cleared(), flag);
    }
    assert(ran.with_flag(flag).host.cycles_applied() == ran.host.cycles_applied().with_flag(flag));
}

/// Taking an interrupt and accounting for it does not depend on the flag.
proof fn lemma_settling_ignores_flag(
    session: SessionView,
    flag: Arc<AtomicBool>,
    shutdown: bool,
    cycles_before: u64,
)
    ensures
        session.with_flag(flag).settled(shutdown) == session.settled(shutdown).with_flag(flag),
        session.with_flag(flag).settling_fault(shutdown, cycles_before) == session.settling_fault(
            shutdown,
            cycles_before,
        ),
{
    let other: SessionView = session.with_flag(flag);
    let after: SessionView = session.after_interrupt(shutdown);
    assert(other.after_interrupt(shutdown) == after.with_flag(flag)) by {
        lemma_execution_ignores_flag(session.host, flag);
    }
    assert(after.with_flag(flag).host.cycles_applied() == after.host.cycles_applied().with_flag(
        flag,
    ));
}

/// A step does not depend on which flag was polled, but only on what it read as.
proof fn lemma_step_ignores_flag(session: SessionView, flag: Arc<AtomicBool>, polls: StepPolls)
    ensures
        session.with_flag(flag).step_taken(polls) == (
            session.step_taken(polls).0.with_flag(flag),
            session.step_taken(polls).1,
        ),
{
    reveal(SessionView::step_taken);
    let between: SessionView = session.instructed();
    let end: SessionView = between.settled(polls.after);
    lemma_instruction_ignores_flag(session, flag);
    lemma_settling_ignores_flag(
        between,
        flag,
        polls.after,
        session.host.machine.total_cycles_elapsed,
    );
    assert(end.with_flag(flag).concluded() == end.concluded().with_flag(flag));
}

/// Steps do not depend on which flag was polled.
proof fn lemma_steps_ignore_flag(
    session: SessionView,
    flag: Arc<AtomicBool>,
    polls: Seq<RoundPolls>,
)
    ensures
        session.with_flag(flag).after(polls) == session.after(polls).with_flag(flag),
    decreases polls.len(),
{
    if polls.len() > 0 {
        lemma_steps_ignore_flag(session, flag, polls.drop_last());
        lemma_step_ignores_flag(session.after(polls.drop_last()), flag, polls.last().step);
    }
}

/// A run does not depend on which flag was polled.
proof fn lemma_run_ignores_flag(
    start: SessionView,
    flag: Arc<AtomicBool>,
    limits: RunLimits,
    polls: Seq<RoundPolls>,
    end: SessionView,
    result: Result<HeadlessRunOutcome, HeadlessRunError>,
)
    requires
        start.runs(limits, polls, end, result),
    ensures
        start.with_flag(flag).runs(limits, polls, end.with_flag(flag), result),
{
    let other: SessionView = start.with_flag(flag);
    assert forall|i: int| #![trigger polls[i]] 0 <= i < polls.len() - 1 implies other.after(
        polls.take(i),
    ).goes_on(limits, polls[i]) by {
        lemma_steps_ignore_flag(start, flag, polls.take(i));
        lemma_step_ignores_flag(start.after(polls.take(i)), flag, polls[i].step);
    }
    lemma_steps_ignore_flag(start, flag, polls.drop_last());
    lemma_step_ignores_flag(start.after(polls.drop_last()), flag, polls.last().step);
}

/// What a session begins with follows from the machine, the images and the entry point.
proof fn lemma_begun_is_unique(
    machine: MachineView,
    other_machine: MachineView,
    boot: HeadlessBoot,
    images: Seq<LoadImage>,
    session: SessionView,
    other: SessionView,
)
    requires
        machine.internal.len() <= usize::MAX,
        machine.external.len() <= usize::MAX,
        other_machine == machine.with_flag(other_machine.emulator_shutdown),
        begun(machine, boot, images, session),
        begun(other_machine, boot, images, other),
    ensures
        other == session.with_flag(other_machine.emulator_shutdown),
{
    let load: LoadView = LoadView { machine, images };
    let other_load: LoadView = LoadView { machine: other_machine, images };
    let ram: MachineView = session.host.machine;
    let other_ram: MachineView = other.host.machine;
    let count: int = images.len() as int;
    assert forall|cell: StorageAddress| machine.has_cell(cell) implies #[trigger] ram.cell(cell)
        == other_ram.cell(cell) by {
        if load.reached(cell, count, 0) {
            let (i, j): (int, int) = choose|i: int, j: int|
                #[trigger] load.before(i, j, count, 0) && load.target(i, j) == cell;
            assert(other_load.before(i, j, count, 0));
            assert(other_load.target(i, j) == cell);
        } else {
            if other_load.reached(cell, count, 0) {
                let (i, j): (int, int) = choose|i: int, j: int|
                    #[trigger] other_load.before(i, j, count, 0) && other_load.target(i, j) == cell;
                assert(load.before(i, j, count, 0));
                assert(load.target(i, j) == cell);
            }
            assert(other_machine.has_cell(cell));
        }
    }
    assert(ram.internal =~= other_ram.internal) by {
        assert forall|i: int| 0 <= i < ram.internal.len() implies ram.internal[i]
            == other_ram.internal[i] by {
            lemma_cell_equal(machine, ram, other_ram, StorageAddress::Internal(i as usize));
        }
    }
    assert(ram.external =~= other_ram.external) by {
        assert forall|i: int| 0 <= i < ram.external.len() implies ram.external[i]
            == other_ram.external[i] by {
            lemma_cell_equal(machine, ram, other_ram, StorageAddress::External(i as usize));
        }
    }
}

/// Cells that the machine has are equal where all of them are.
proof fn lemma_cell_equal(
    machine: MachineView,
    ram: MachineView,
    other: MachineView,
    cell: StorageAddress,
)
    requires
        forall|c: StorageAddress|
            machine.has_cell(c) ==> #[trigger] ram.cell(c) == other.cell(c),
        machine.has_cell(cell),
    ensures
        ram.cell(cell) == other.cell(cell),
{
}

/// A program that is run again on a machine like the first one, with the cycle limit set to just
/// what the first run took, ends as it did: with the same event that stopped the guest, at the same
/// place and in the same time. Neither run is asked to stop. The machines may have different flags,
/// and RAM of any size that a machine can have.
pub proof fn law_program_run_again_at_exact_cycle_limit(
    machine: MachineView,
    again: MachineView,
    boot: HeadlessBoot,
    images: Seq<LoadImage>,
    limits: RunLimits,
    outcome: HeadlessRunOutcome,
    exact: RunLimits,
    result: Result<HeadlessRunOutcome, HeadlessRunError>,
)
    requires
        machine.internal.len() <= usize::MAX,
        machine.external.len() <= usize::MAX,
        again == machine.with_flag(again.emulator_shutdown),
        runs_undisturbed(machine, boot, images, limits, Ok(outcome)),
        !is_limit(outcome.reason),
        exact.max_cycles@ == outcome.cycles,
        exact.max_instructions@ >= limits.max_instructions@,
        runs_undisturbed(again, boot, images, exact, result),
    ensures
        result == Ok::<_, HeadlessRunError>(outcome),
{
    let (start, polls, end): (SessionView, Seq<RoundPolls>, SessionView) =
        choose|start: SessionView, polls: Seq<RoundPolls>, end: SessionView|
        {
            &&& begun(machine, boot, images, start)
            &&& undisturbed(polls)
            &&& #[trigger] start.runs(limits, polls, end, Ok(outcome))
        };
    let (second, second_polls, second_end): (SessionView, Seq<RoundPolls>, SessionView) =
        choose|start: SessionView, polls: Seq<RoundPolls>, end: SessionView|
        {
            &&& begun(again, boot, images, start)
            &&& undisturbed(polls)
            &&& #[trigger] start.runs(exact, polls, end, result)
        };
    let flag: Arc<AtomicBool> = again.emulator_shutdown;
    assert(polls[polls.len() - 1] == quiet());
    law_terminal_event_wins_at_exact_cycle_limit(start, limits, polls, end, outcome, exact);
    lemma_begun_is_unique(machine, again, boot, images, start, second);
    lemma_run_ignores_flag(start, flag, exact, polls, end, Ok(outcome));
    assert(read_alike(polls, second_polls)) by {
        assert forall|i: int|
            #![trigger polls[i]]
            #![trigger second_polls[i]]
            0 <= i < polls.len() && i < second_polls.len() implies polls[i] == second_polls[i] by {
            assert(polls[i] == quiet() && second_polls[i] == quiet());
        }
    }
    law_run_is_determined(
        second,
        exact,
        polls,
        end.with_flag(flag),
        Ok(outcome),
        second_polls,
        second_end,
        result,
    );
}

/// What is said of the bytes of images does not depend on the shutdown flag.
proof fn lemma_load_ignores_flag(
    machine: MachineView,
    flag: Arc<AtomicBool>,
    images: Seq<LoadImage>,
)
    ensures
        ({
            let load: LoadView = LoadView { machine, images };
            let other: LoadView = LoadView { machine: machine.with_flag(flag), images };
            &&& forall|i: int, j: int| #[trigger] load.target(i, j) == other.target(i, j)
            &&& forall|i: int, j: int| #[trigger] load.placeable(i, j) == other.placeable(i, j)
            &&& forall|i: int, j: int, error: HeadlessRunError|
                #[trigger] load.byte_fault(i, j, error) ==> other.byte_fault(i, j, error)
        }),
{
    let load: LoadView = LoadView { machine, images };
    let other: LoadView = LoadView { machine: machine.with_flag(flag), images };
    assert forall|i: int, j: int| #[trigger] load.target(i, j) == other.target(i, j) by {}
    assert forall|i: int, j: int| #[trigger] load.placeable(i, j) == other.placeable(i, j) by {
        assert forall|k: int, l: int|
            #![trigger load.aliases(i, j, k, l)]
            #![trigger other.aliases(i, j, k, l)]
            load.aliases(i, j, k, l) == other.aliases(i, j, k, l) by {
            assert(load.target(i, j) == other.target(i, j));
            assert(load.target(k, l) == other.target(k, l));
        }
        assert(load.target(i, j) == other.target(i, j));
        assert(load.target(i, j - 1) == other.target(i, j - 1));
    }
    assert forall|i: int, j: int, error: HeadlessRunError| #[trigger]
        load.byte_fault(i, j, error) implies other.byte_fault(i, j, error) by {
        assert(load.target(i, j) == other.target(i, j));
        assert(load.target(i, j - 1) == other.target(i, j - 1));
        if load.machine.writable(i, load.address(i, j)) is Ok && !load.wrapped(i, j) {
            let (k, l): (int, int) = choose|k: int, l: int|
                {
                    &&& #[trigger] load.aliases(i, j, k, l)
                    &&& error == (HeadlessRunError::AliasedAddress {
                        image: i as usize,
                        address: load.address(i, j) as u32,
                        previous_image: k as usize,
                        previous_address: load.address(k, l) as u32,
                    })
                };
            assert(load.target(k, l) == other.target(k, l));
            assert(other.aliases(i, j, k, l));
        }
    }
}

/// Whether images are refused does not depend on the shutdown flag.
proof fn lemma_refusal_ignores_flag(
    machine: MachineView,
    flag: Arc<AtomicBool>,
    images: Seq<LoadImage>,
    error: HeadlessRunError,
)
    ensures
        (LoadView { machine, images }).refused(error) ==> (LoadView {
            machine: machine.with_flag(flag),
            images,
        }).refused(error),
        (LoadView { machine, images }).accepted() ==> (LoadView {
            machine: machine.with_flag(flag),
            images,
        }).accepted(),
{
    let load: LoadView = LoadView { machine, images };
    let other: LoadView = LoadView { machine: machine.with_flag(flag), images };
    lemma_load_ignores_flag(machine, flag, images);
    assert forall|i: int| #[trigger] other.extent_fault(i) == load.extent_fault(i) by {}
    assert forall|image: int, offset: int| #[trigger] load.placeable_before(image, offset) implies
        other.placeable_before(image, offset) by {
        assert forall|i: int, j: int| other.before(i, j, image, offset) implies #[trigger]
            other.placeable(i, j) by {
            assert(load.before(i, j, image, offset));
            assert(load.placeable(i, j));
        }
    }
    assert forall|count: int| #[trigger] load.extents_fit(count) implies other.extents_fit(
        count,
    ) by {
        assert forall|i: int| 0 <= i < count implies (#[trigger] other.extent_fault(i)) is None by {
            assert(load.extent_fault(i) is None);
        }
    }
    if exists|image: int| load.refused_at_image(image, error) {
        let image: int = choose|image: int| load.refused_at_image(image, error);
        assert(other.refused_at_image(image, error));
    } else if exists|image: int, offset: int| load.refused_at_byte(image, offset, error) {
        let (image, offset): (int, int) = choose|image: int, offset: int|
            load.refused_at_byte(image, offset, error);
        assert(other.refused_at_byte(image, offset, error));
    }
}

/// Running a program on a machine begins where a session on a like machine does: where the one is
/// refused, so is the other, and with the same error. The machines may have different flags.
pub proof fn law_run_is_refused_as_its_session_is(
    machine: MachineView,
    again: MachineView,
    boot: HeadlessBoot,
    images: Seq<LoadImage>,
    error: HeadlessRunError,
    other: HeadlessRunError,
)
    requires
        again == machine.with_flag(again.emulator_shutdown),
    ensures
        can_begin(machine, boot, images) == can_begin(again, boot, images),
        !can_begin(machine, boot, images) && begin_refused(machine, boot, images, error)
            && begin_refused(again, boot, images, other) ==> error == other,
{
    let load: LoadView = LoadView { machine, images };
    let flag: Arc<AtomicBool> = again.emulator_shutdown;
    assert(machine == again.with_flag(machine.emulator_shutdown));
    lemma_refusal_ignores_flag(machine, flag, images, error);
    lemma_refusal_ignores_flag(again, machine.emulator_shutdown, images, other);
    if !machine.used() && !load.accepted() && begin_refused(machine, boot, images, error)
        && begin_refused(again, boot, images, other) {
        law_refusal_is_unique(load, error, other);
    }
}

/// Running a program on a machine gives what beginning a session on a like machine and running that
/// gives, where the shutdown flags read alike. The machines have RAM of any size that a machine can
/// have.
pub proof fn law_run_gives_what_its_session_gives(
    machine: MachineView,
    again: MachineView,
    boot: HeadlessBoot,
    images: Seq<LoadImage>,
    limits: RunLimits,
    start: SessionView,
    polls: Seq<RoundPolls>,
    end: SessionView,
    result: Result<HeadlessRunOutcome, HeadlessRunError>,
    session: SessionView,
    session_polls: Seq<RoundPolls>,
    session_end: SessionView,
    session_result: Result<HeadlessRunOutcome, HeadlessRunError>,
)
    requires
        machine.internal.len() <= usize::MAX,
        machine.external.len() <= usize::MAX,
        again == machine.with_flag(again.emulator_shutdown),
        begun(machine, boot, images, start),
        start.runs(limits, polls, end, result),
        begun(again, boot, images, session),
        session.runs(limits, session_polls, session_end, session_result),
        read_alike(polls, session_polls),
    ensures
        session == start.with_flag(again.emulator_shutdown),
        session_end == end.with_flag(again.emulator_shutdown),
        session_result == result,
{
    let flag: Arc<AtomicBool> = again.emulator_shutdown;
    lemma_begun_is_unique(machine, again, boot, images, start, session);
    lemma_run_ignores_flag(start, flag, limits, polls, end, result);
    law_run_is_determined(
        session,
        limits,
        polls,
        end.with_flag(flag),
        result,
        session_polls,
        session_end,
        session_result,
    );
}

impl SessionView {
    /// What the shutdown flag read as when it was last polled during a step.
    pub open spec fn last_reading(self, polls: StepPolls) -> bool {
        if self.terminal_reason(polls.before) is Some {
            polls.before
        } else {
            polls.end
        }
    }

    /// What the shutdown flag read as when it was last polled during the last round of a run.
    pub open spec fn last_round_reading(self, limits: RunLimits, polls: RoundPolls) -> bool {
        if self.stop_before(limits, polls.entry) is Some {
            polls.entry
        } else {
            self.last_reading(polls.step)
        }
    }
}

/// While the shutdown flag reads as it last did, a guest that a step found stopped stays so, whatever
/// stopped it: another step gives the same outcome, a run under any limits gives the same reason,
/// and neither executes anything.
pub proof fn law_stop_is_repeated(
    session: SessionView,
    polls: StepPolls,
    outcome: HeadlessStepOutcome,
    later: StepPolls,
    limits: RunLimits,
    rounds: Seq<RoundPolls>,
    end: SessionView,
    result: Result<HeadlessRunOutcome, HeadlessRunError>,
)
    requires
        session.stepped(polls).1 == Ok::<_, HeadlessRunError>(outcome),
        outcome.reason is Some,
        later.before == session.last_reading(polls),
        session.stepped(polls).0.runs(limits, rounds, end, result),
        rounds[0].entry == session.last_reading(polls),
    ensures
        session.stepped(polls).0.stepped(later) == session.stepped(polls),
        end == session.stepped(polls).0,
        result == Ok::<_, HeadlessRunError>(end.run_outcome(outcome.reason->0)),
        end.host.cpu.instructions_executed == outcome.instructions,
{
    let stopped: SessionView = session.stepped(polls).0;
    assert(stopped.terminal_reason(session.last_reading(polls)) == outcome.reason);
    law_stopped_guest_is_left_alone(stopped, later);
    law_run_of_stopped_guest_executes_nothing(stopped, limits, rounds, end, result);
}

/// Limits count from the start of the session. So a second run under the same limits, with the
/// shutdown flag reading as it last did, executes nothing and gives the same outcome, unless the
/// cycle limit ended the first one.
pub proof fn law_second_run_executes_nothing(
    start: SessionView,
    limits: RunLimits,
    polls: Seq<RoundPolls>,
    end: SessionView,
    outcome: HeadlessRunOutcome,
    later: Seq<RoundPolls>,
    later_end: SessionView,
    result: Result<HeadlessRunOutcome, HeadlessRunError>,
)
    requires
        start.runs(limits, polls, end, Ok(outcome)),
        outcome.reason != StopReason::CycleLimit,
        end.runs(limits, later, later_end, result),
        later[0].entry == start.after(polls.drop_last()).last_round_reading(limits, polls.last()),
    ensures
        later_end == end,
        result == Ok::<_, HeadlessRunError>(outcome),
{
    let before: SessionView = start.after(polls.drop_last());
    let last: RoundPolls = polls.last();
    assert(end.stop_before(limits, later[0].entry) == Some(outcome.reason)) by {
        reveal(SessionView::step_taken);
    }
    assert(later.take(0) =~= Seq::<RoundPolls>::empty());
    assert(end.after(later.take(0)) == end);
    assert(!end.goes_on(limits, later[0]));
    assert(later.len() == 1);
    assert(later.drop_last() =~= Seq::<RoundPolls>::empty());
    assert(outcome == end.run_outcome(outcome.reason));
}

} // verus!
