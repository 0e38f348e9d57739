//! Running a guest program without a host: loading it, stepping it and stopping it.
use crate::address::{bank_byte, bank_of, MAX_ADDRESS};
use crate::execution::HostView;
use crate::images::{targets_match, LoadView};
use crate::machine::{AgonMachine, MachineView, StorageAddress};
use crate::processor::{
    cpu_enter, cpu_instructions_executed, cpu_is_halted, cpu_registers, CpuView, Registers,
};
use std::sync::atomic::Ordering;
use vstd::prelude::*;

pub use crate::images::{HeadlessRunError, LoadImage};

verus! {

/// A number that is not zero.
#[derive(Debug, Clone, Copy, PartialEq, Eq)]
pub struct NonZeroU64 {
    value: u64,
}

impl View for NonZeroU64 {
    type V = u64;

    closed spec fn view(&self) -> u64 {
        self.value
    }
}

impl NonZeroU64 {
    #[verifier::type_invariant]
    spec fn is_not_zero(self) -> bool {
        self.value != 0
    }

    pub fn new(value: u64) -> (number: Option<Self>)
        ensures
            number is Some <==> value != 0,
            number matches Some(n) ==> n@ == value,
    {
        if value == 0 {
            None
        } else {
            Some(NonZeroU64 { value })
        }
    }

    pub fn get(self) -> (value: u64)
        ensures
            value == self@,
            value != 0,
    {
        proof {
            use_type_invariant(self);
        }
        self.value
    }
}

/// Where and in which mode a program starts.
#[derive(Debug, Clone, Copy, PartialEq, Eq, Structural)]
pub struct DirectEntry {
    pub pc: u32,
    pub adl: bool,
    pub madl: bool,
    pub mbase: u8,
}

#[derive(Debug, Clone, Copy, PartialEq, Eq, Structural)]
pub enum HeadlessBoot {
    Direct(DirectEntry),
}

/// How long a run may take. Limits count from the start of the session.
#[derive(Debug, Clone, Copy, PartialEq, Eq)]
pub struct RunLimits {
    pub max_instructions: NonZeroU64,
    pub max_cycles: NonZeroU64,
}

#[derive(Debug, Clone, PartialEq, Eq)]
pub struct HeadlessSessionConfig {
    pub boot: HeadlessBoot,
    pub images: Vec<LoadImage>,
}

#[derive(Debug, Clone, PartialEq, Eq)]
pub struct HeadlessRunConfig {
    pub boot: HeadlessBoot,
    pub images: Vec<LoadImage>,
    pub limits: RunLimits,
}

/// Why a guest stopped.
#[derive(Debug, Clone, Copy, PartialEq, Eq, Structural)]
pub enum StopReason {
    GuestExit(u8),
    RequestedShutdown,
    Halted,
    MemoryFault { address: u32, instruction_pc: u32 },
    InstructionLimit,
    CycleLimit,
}

#[derive(Debug, Clone, Copy, PartialEq, Eq, Structural)]
pub struct HeadlessStepOutcome {
    pub reason: Option<StopReason>,
    pub guest_status: Option<u8>,
    pub pc: u32,
    pub instructions: u64,
    pub cycles: u64,
}

#[derive(Debug, Clone, Copy, PartialEq, Eq, Structural)]
pub struct HeadlessRunOutcome {
    pub reason: StopReason,
    pub guest_status: Option<u8>,
    pub pc: u32,
    pub instructions: u64,
    pub cycles: u64,
}

/// A guest that was loaded and can be run.
pub struct HeadlessSession {
    pub machine: AgonMachine,
    pub cpu: ez80::Cpu,
    /// A reason to stop that no longer shows in the machine.
    pub terminal_stop: Option<StopReason>,
}

/// A session as mathematics.
#[verifier::ext_equal]
pub struct SessionView {
    pub host: HostView,
    pub terminal_stop: Option<StopReason>,
}

/// What the shutdown flag read as when it was polled during a step: before the instruction, after
/// it, and at the end.
pub struct StepPolls {
    pub before: bool,
    pub after: bool,
    pub end: bool,
}

/// What the shutdown flag read as during one round of a run: before the limits were looked at, and
/// during the step.
pub struct RoundPolls {
    pub entry: bool,
    pub step: StepPolls,
}

impl View for HeadlessSession {
    type V = SessionView;

    open spec fn view(&self) -> SessionView {
        SessionView {
            host: self.machine.host(self.cpu),
            terminal_stop: self.terminal_stop,
        }
    }
}

impl MachineView {
    /// Whether a machine has run, or has something to report from before.
    pub open spec fn used(self) -> bool {
        ||| self.cycle_counter != 0
        ||| self.total_cycles_elapsed != 0
        ||| self.mem_out_of_bounds is Some
        ||| self.io_unhandled is Some
        ||| self.guest_exit_status is Some
    }

    /// The machine as a headless guest finds it, with the given RAM.
    pub open spec fn headless(self, internal: Seq<u8>, external: Seq<u8>) -> MachineView {
        MachineView {
            internal,
            external,
            headless_mode: true,
            enable_hostfs: false,
            guest_exit_status: None,
            ..self
        }
    }
}

impl LoadView {
    /// Whether a machine's RAM holds the bytes before a place in their cells and zeros in all
    /// others.
    pub open spec fn filled(self, ram: MachineView, image: int, offset: int) -> bool {
        &&& ram.internal.len() == self.machine.internal.len()
        &&& ram.external.len() == self.machine.external.len()
        &&& forall|i: int, j: int|
            #![trigger self.before(i, j, image, offset)]
            self.before(i, j, image, offset) ==> ram.cell(self.target(i, j)) == self.byte(i, j)
        &&& forall|cell: StorageAddress|
            self.machine.has_cell(cell) && !self.reached(cell, image, offset)
                ==> #[trigger] ram.cell(cell) == 0
    }

    /// Whether one of the bytes before a place goes to a cell.
    pub open spec fn reached(self, cell: StorageAddress, image: int, offset: int) -> bool {
        exists|i: int, j: int|
            #[trigger] self.before(i, j, image, offset) && self.target(i, j) == cell
    }

    /// Whether a machine's RAM holds exactly the images, and zeros elsewhere.
    pub open spec fn loaded(self, ram: MachineView) -> bool {
        self.filled(ram, self.images.len() as int, 0)
    }
}

/// What is wrong with an entry point. Outside ADL mode it must lie in the bank that MBASE selects.
pub open spec fn entry_fault(entry: DirectEntry) -> Option<HeadlessRunError> {
    if entry.pc > MAX_ADDRESS {
        Some(HeadlessRunError::EntryOutOfRange { entry: entry.pc })
    } else if !entry.adl && bank_of(entry.pc as int) != entry.mbase {
        Some(HeadlessRunError::EntryMbaseMismatch { entry: entry.pc, mbase: entry.mbase })
    } else {
        None
    }
}

/// The CPU that a program finds at its entry point.
pub open spec fn entered(entry: DirectEntry) -> CpuView {
    CpuView {
        registers: Registers {
            pc: entry.pc,
            adl: entry.adl,
            madl: entry.madl,
            mbase: entry.mbase,
            ..Registers::power_on()
        },
        ..CpuView::power_on()
    }
}

impl HeadlessBoot {
    /// The entry point.
    pub open spec fn entry(self) -> DirectEntry {
        match self {
            HeadlessBoot::Direct(entry) => entry,
        }
    }
}

/// Whether a session can begin.
pub open spec fn can_begin(machine: MachineView, boot: HeadlessBoot, images: Seq<LoadImage>) -> bool {
    &&& !machine.used()
    &&& (LoadView { machine, images }).accepted()
    &&& entry_fault(boot.entry()) is None
}

/// Whether a session is refused with the given error. The machine is looked at first, then the
/// images, then the entry point.
pub open spec fn begin_refused(
    machine: MachineView,
    boot: HeadlessBoot,
    images: Seq<LoadImage>,
    error: HeadlessRunError,
) -> bool {
    let load: LoadView = LoadView { machine, images };
    if machine.used() {
        error == HeadlessRunError::MachineAlreadyUsed
    } else if !load.accepted() {
        load.refused(error)
    } else {
        entry_fault(boot.entry()) == Some(error)
    }
}

/// Whether a session has just begun: the images are loaded, and the CPU stands at the entry point.
pub open spec fn begun(
    machine: MachineView,
    boot: HeadlessBoot,
    images: Seq<LoadImage>,
    session: SessionView,
) -> bool {
    let ram: MachineView = session.host.machine;
    &&& (LoadView { machine, images }).loaded(ram)
    &&& ram == machine.headless(ram.internal, ram.external)
    &&& session.host.cpu == entered(boot.entry())
    &&& session.terminal_stop is None
}

/// Checks an entry point.
pub fn validate_entry(entry: DirectEntry) -> (checked: Result<(), HeadlessRunError>)
    ensures
        checked is Ok <==> entry_fault(entry) is None,
        checked matches Err(error) ==> entry_fault(entry) == Some(error),
        checked is Ok <==> entry.pc < 0x100_0000 && (entry.adl || entry.pc / 0x1_0000
            == entry.mbase),
        checked matches Err(error) ==> if entry.pc >= 0x100_0000 {
            error == HeadlessRunError::EntryOutOfRange { entry: entry.pc }
        } else {
            error == HeadlessRunError::EntryMbaseMismatch { entry: entry.pc, mbase: entry.mbase }
        },
{
    if entry.pc > MAX_ADDRESS {
        return Err(HeadlessRunError::EntryOutOfRange { entry: entry.pc });
    }
    if !entry.adl && bank_byte(entry.pc) != entry.mbase {
        return Err(HeadlessRunError::EntryMbaseMismatch { entry: entry.pc, mbase: entry.mbase });
    }
    Ok(())
}

/// Storing a byte in its cell takes what is filled one byte further.
proof fn lemma_filled_further(load: LoadView, ram: MachineView, image: int, offset: int)
    requires
        load.accepted(),
        load.has_byte(image, offset),
        load.filled(ram, image, offset),
    ensures
        load.machine.has_cell(load.target(image, offset)),
        load.filled(
            ram.with_cell(load.target(image, offset), load.byte(image, offset)),
            image,
            offset + 1,
        ),
{
    let cell: StorageAddress = load.target(image, offset);
    let value: u8 = load.byte(image, offset);
    let after: MachineView = ram.with_cell(cell, value);
    assert(load.before(image, offset, load.images.len() as int, 0));
    assert(load.placeable(image, offset));
    assert(load.extent_fault(image) is None);
    crate::machine::lemma_storage_exists(load.machine, load.address(image, offset) as u32);
    assert forall|i: int, j: int|
        #![trigger load.before(i, j, image, offset + 1)]
        load.before(i, j, image, offset + 1) implies after.cell(load.target(i, j)) == load.byte(
        i,
        j,
    ) by {
        if !(i == image && j == offset) {
            assert(load.before(i, j, image, offset));
            assert(!load.aliases(image, offset, i, j));
            assert(load.before(i, j, load.images.len() as int, 0));
            assert(load.placeable(i, j));
            assert(load.extent_fault(i) is None);
            crate::machine::lemma_storage_exists(load.machine, load.address(i, j) as u32);
        }
    }
    assert forall|other: StorageAddress|
        load.machine.has_cell(other) && !load.reached(other, image, offset + 1) implies #[trigger]
        after.cell(other) == 0 by {
        assert(load.before(image, offset, image, offset + 1));
        assert(other != cell);
        if load.reached(other, image, offset) {
            let (i, j): (int, int) = choose|i: int, j: int|
                #[trigger] load.before(i, j, image, offset) && load.target(i, j) == other;
            assert(load.before(i, j, image, offset + 1));
        }
        assert(ram.cell(other) == 0);
    }
}

/// What is filled up to the end of an image is filled up to the start of the next.
proof fn lemma_filled_next(load: LoadView, ram: MachineView, image: int)
    requires
        0 <= image < load.images.len(),
        load.filled(ram, image, load.images[image].bytes@.len() as int),
    ensures
        load.filled(ram, image + 1, 0),
{
    let len: int = load.images[image].bytes@.len() as int;
    assert forall|i: int, j: int|
        #![trigger load.before(i, j, image + 1, 0)]
        load.before(i, j, image + 1, 0) implies ram.cell(load.target(i, j)) == load.byte(i, j) by {
        assert(load.before(i, j, image, len));
    }
    assert forall|cell: StorageAddress|
        load.machine.has_cell(cell) && !load.reached(cell, image + 1, 0) implies #[trigger]
        ram.cell(cell) == 0 by {
        if load.reached(cell, image, len) {
            let (i, j): (int, int) = choose|i: int, j: int|
                #[trigger] load.before(i, j, image, len) && load.target(i, j) == cell;
            assert(load.before(i, j, image + 1, 0));
        }
    }
}

/// Whether RAM is filled does not depend on anything but RAM.
proof fn lemma_filled_is_about_ram(
    load: LoadView,
    ram: MachineView,
    other: MachineView,
    image: int,
    offset: int,
)
    requires
        load.filled(ram, image, offset),
        ram.internal == other.internal,
        ram.external == other.external,
    ensures
        load.filled(other, image, offset),
{
    assert forall|cell: StorageAddress| #[trigger] other.cell(cell) == ram.cell(cell) by {}
}

impl AgonMachine {
    /// Clears the RAM and puts the bytes of some images in the cells that were found for them.
    fn load_images(&mut self, images: &Vec<LoadImage>, targets: &Vec<Vec<StorageAddress>>)
        requires
            (LoadView { machine: old(self)@, images: images@ }).accepted(),
            targets_match((LoadView { machine: old(self)@, images: images@ }), targets@),
        ensures
            (LoadView { machine: old(self)@, images: images@ }).loaded(final(self)@),
            final(self)@ == (MachineView {
                internal: final(self)@.internal,
                external: final(self)@.external,
                ..old(self)@
            }),
    {
        let ghost load: LoadView = LoadView { machine: self@, images: images@ };
        self.initialize_ram();
        let mut image: usize = 0;
        while image < images.len()
            invariant
                load == (LoadView { machine: old(self)@, images: images@ }),
                load.accepted(),
                targets_match(load, targets@),
                image <= images@.len(),
                load.filled(self@, image as int, 0),
                self@ == (MachineView {
                    internal: self@.internal,
                    external: self@.external,
                    ..old(self)@
                }),
            decreases images@.len() - image,
        {
            let len: usize = images[image].bytes.len();
            let image_targets = &targets[image];
            assert(crate::images::image_targets_match(load, image as int, targets@[image as int]@));
            let mut offset: usize = 0;
            while offset < len
                invariant
                    load == (LoadView { machine: old(self)@, images: images@ }),
                    load.accepted(),
                    image < images@.len(),
                    len == images@[image as int].bytes@.len(),
                    offset <= len,
                    crate::images::image_targets_match(load, image as int, image_targets@),
                    load.filled(self@, image as int, offset as int),
                    self@ == (MachineView {
                        internal: self@.internal,
                        external: self@.external,
                        ..old(self)@
                    }),
                decreases len - offset,
            {
                let value: u8 = images[image].bytes[offset];
                proof {
                    lemma_filled_further(load, self@, image as int, offset as int);
                }
                match image_targets[offset] {
                    StorageAddress::Internal(address) => self.mem_internal.set(address, value),
                    StorageAddress::External(address) => self.mem_external.set(address, value),
                }
                offset += 1;
            }
            proof {
                lemma_filled_next(load, self@, image as int);
            }
            image += 1;
        }
    }

    /// Loads some images into a machine that was not used yet, and puts a CPU at the entry point.
    pub fn begin_headless(self, config: HeadlessSessionConfig) -> (session: Result<
        HeadlessSession,
        HeadlessRunError,
    >)
        ensures
            session is Ok <==> can_begin(self@, config.boot, config.images@),
            session matches Ok(s) ==> s.wf() && begun(self@, config.boot, config.images@, s@),
            session matches Ok(s) ==> match config.boot {
                HeadlessBoot::Direct(entry) => {
                    let registers: Registers = s@.host.cpu.registers;
                    &&& registers.adl == entry.adl
                    &&& registers.madl == entry.madl
                    &&& registers.mbase == entry.mbase
                    &&& entry.pc == (if entry.adl {
                        registers.pc as int
                    } else {
                        registers.mbase * 0x1_0000 + registers.pc % 0x1_0000
                    })
                },
            },
            session matches Err(error) ==> begin_refused(
                self@,
                config.boot,
                config.images@,
                error,
            ),
    {
        if self.cycle_counter != 0 || self.total_cycles_elapsed != 0
            || self.mem_out_of_bounds.is_some() || self.io_unhandled.is_some()
            || self.guest_exit_status.is_some() {
            return Err(HeadlessRunError::MachineAlreadyUsed);
        }
        let targets = match self.validate_images(&config.images) {
            Ok(targets) => targets,
            Err(error) => return Err(error),
        };
        let HeadlessBoot::Direct(entry) = config.boot;
        if let Err(error) = validate_entry(entry) {
            return Err(error);
        }
        let mut machine = self;
        machine.load_images(&config.images, &targets);
        let ghost ram: MachineView = machine@;
        machine.headless_mode = true;
        machine.enable_hostfs = false;
        machine.guest_exit_status = None;

        let mut cpu = ez80::Cpu::new_ez80();
        cpu_enter(&mut cpu, entry.pc, entry.adl, entry.madl, entry.mbase);
        proof {
            lemma_filled_is_about_ram(
                LoadView { machine: self@, images: config.images@ },
                ram,
                machine@,
                config.images@.len() as int,
                0,
            );
        }
        Ok(HeadlessSession { machine, cpu, terminal_stop: None })
    }

    /// Loads some images and runs them.
    pub fn run_headless(self, config: HeadlessRunConfig) -> (outcome: Result<
        HeadlessRunOutcome,
        HeadlessRunError,
    >)
        ensures
            can_begin(self@, config.boot, config.images@) ==> ran_headless(
                self@,
                config,
                outcome,
            ),
            !can_begin(self@, config.boot, config.images@) ==> (outcome matches Err(error)
                && begin_refused(self@, config.boot, config.images@, error)),
            keeps_instruction_limit(outcome, config.limits),
    {
        let session_config = HeadlessSessionConfig { boot: config.boot, images: config.images };
        match self.begin_headless(session_config) {
            Ok(session) => {
                let mut session = session;
                let ghost start: SessionView = session@;
                let outcome = session.run(config.limits);
                assert(begun(self@, config.boot, config.images@, start));
                outcome
            },
            Err(error) => Err(error),
        }
    }
}

/// Whether a session that was just begun with a configuration runs to a result.
pub open spec fn ran_headless(
    machine: MachineView,
    config: HeadlessRunConfig,
    result: Result<HeadlessRunOutcome, HeadlessRunError>,
) -> bool {
    exists|start: SessionView, polls: Seq<RoundPolls>, end: SessionView|
        {
            &&& begun(machine, config.boot, config.images@, start)
            &&& #[trigger] start.runs(config.limits, polls, end, result)
        }
}

impl SessionView {
    /// Whether a session can go on: its CPU stands between two instructions, and only an access to
    /// an unmapped address has stopped it for good.
    pub open spec fn wf(self) -> bool {
        &&& self.host.cpu.ready
        &&& self.terminal_stop matches Some(reason) ==> reason is MemoryFault
    }

    /// The same session with another machine and CPU.
    pub open spec fn with_host(self, host: HostView) -> SessionView {
        SessionView { host, ..self }
    }

    /// The reason for which the guest can do no more. What no longer shows in the machine comes
    /// first, then the guest's own exit, then a requested shutdown, then a halted CPU.
    pub open spec fn terminal_reason(self, shutdown: bool) -> Option<StopReason> {
        if self.terminal_stop is Some {
            self.terminal_stop
        } else if self.host.machine.guest_exit_status is Some {
            Some(StopReason::GuestExit(self.host.machine.guest_exit_status->0))
        } else if shutdown {
            Some(StopReason::RequestedShutdown)
        } else if self.host.cpu.halted {
            Some(StopReason::Halted)
        } else {
            None
        }
    }

    /// What a step reports.
    pub open spec fn step_outcome(self, reason: Option<StopReason>) -> HeadlessStepOutcome {
        HeadlessStepOutcome {
            reason,
            guest_status: self.host.machine.guest_exit_status,
            pc: self.host.cpu.registers.code_pc() as u32,
            instructions: self.host.cpu.instructions_executed,
            cycles: self.host.machine.total_cycles_elapsed,
        }
    }

    /// What a run reports.
    pub open spec fn run_outcome(self, reason: StopReason) -> HeadlessRunOutcome {
        HeadlessRunOutcome {
            reason,
            guest_status: self.host.machine.guest_exit_status,
            pc: self.host.cpu.registers.code_pc() as u32,
            instructions: self.host.cpu.instructions_executed,
            cycles: self.host.machine.total_cycles_elapsed,
        }
    }

    /// The session after its instruction ran, the cycles still pending.
    pub open spec fn after_instruction(self) -> SessionView {
        self.with_host(self.cleared().executed())
    }

    /// The machine and the CPU before an instruction, with no fault remembered.
    pub open spec fn cleared(self) -> HostView {
        HostView {
            machine: MachineView { mem_out_of_bounds: None, ..self.host.machine },
            ..self.host
        }
    }

    /// What is wrong with the accounts after an instruction, given how many were counted before it:
    /// not exactly one more was counted, or it took no time.
    pub open spec fn count_fault(self, before: u64) -> Option<HeadlessRunError> {
        let after: u64 = self.host.cpu.instructions_executed;
        let pending: i32 = self.host.machine.cycle_counter;
        if after != before + 1 {
            Some(HeadlessRunError::InstructionAccountingInvariant { before, after })
        } else if pending <= 0 {
            Some(HeadlessRunError::CycleAccountingInvariant { pending })
        } else {
            None
        }
    }

    /// The session after an instruction was accounted for. A miscounted instruction leaves its
    /// cycles pending.
    pub open spec fn accounted(self, before: u64) -> SessionView {
        if self.count_fault(before) matches Some(
            HeadlessRunError::InstructionAccountingInvariant { .. },
        ) {
            self
        } else {
            self.with_host(self.host.cycles_applied())
        }
    }

    /// What is wrong with the accounts after the next instruction.
    pub open spec fn instruction_fault(self) -> Option<HeadlessRunError> {
        self.after_instruction().count_fault(self.host.cpu.instructions_executed)
    }

    /// The session after its instruction ran and was accounted for.
    pub open spec fn instructed(self) -> SessionView {
        self.after_instruction().accounted(self.host.cpu.instructions_executed)
    }

    /// The session after interrupts were looked at. They are left alone once the guest has stopped
    /// or has accessed an unmapped address.
    pub open spec fn after_interrupt(self, shutdown: bool) -> SessionView {
        if self.terminal_reason(shutdown) is None && self.host.machine.mem_out_of_bounds is None {
            self.with_host(self.host.interrupted())
        } else {
            self
        }
    }

    /// The session after the interrupt was accounted for.
    pub open spec fn settled(self, shutdown: bool) -> SessionView {
        let after: SessionView = self.after_interrupt(shutdown);
        after.with_host(after.host.cycles_applied())
    }

    /// What is wrong with the accounts after an interrupt, in a step that began at the given total.
    pub open spec fn total_fault(self, cycles_before: u64) -> Option<HeadlessRunError> {
        let pending: i32 = self.host.machine.cycle_counter;
        if pending < 0 {
            Some(HeadlessRunError::CycleAccountingInvariant { pending })
        } else if self.host.cycles_applied().machine.total_cycles_elapsed < cycles_before {
            Some(HeadlessRunError::CycleAccountingOverflow)
        } else {
            None
        }
    }

    /// What is wrong with the accounts after interrupts were looked at.
    pub open spec fn settling_fault(self, shutdown: bool, cycles_before: u64) -> Option<
        HeadlessRunError,
    > {
        self.after_interrupt(shutdown).total_fault(cycles_before)
    }

    /// The session after a step was looked at as a whole: an access to an unmapped address is for
    /// good.
    pub open spec fn concluded(self) -> SessionView {
        match self.host.machine.mem_out_of_bounds {
            Some(address) => SessionView {
                terminal_stop: Some(
                    StopReason::MemoryFault { address, instruction_pc: self.host.machine.last_pc },
                ),
                ..self
            },
            None => self,
        }
    }

    /// Whether an outcome reports this session, one step after another one. A guest that had stopped
    /// was left alone, and the reason is given. Otherwise one more instruction was executed in some
    /// time, and no cycle is pending. A step never reports a limit.
    pub open spec fn reports_step(
        self,
        earlier: SessionView,
        polls: StepPolls,
        outcome: HeadlessStepOutcome,
    ) -> bool {
        &&& outcome == self.step_outcome(outcome.reason)
        &&& outcome.reason != Some(StopReason::InstructionLimit)
        &&& outcome.reason != Some(StopReason::CycleLimit)
        &&& if earlier.terminal_reason(polls.before) is Some {
            &&& self == earlier
            &&& outcome.reason == earlier.terminal_reason(polls.before)
        } else {
            &&& outcome.instructions == earlier.host.cpu.instructions_executed + 1
            &&& outcome.cycles > earlier.host.machine.total_cycles_elapsed
            &&& self.host.machine.cycle_counter == 0
        }
    }

    /// The session after one step, and what the step returns.
    pub open spec fn stepped(self, polls: StepPolls) -> (
        SessionView,
        Result<HeadlessStepOutcome, HeadlessRunError>,
    ) {
        let ran: SessionView = self.instructed();
        let settled: SessionView = ran.settled(polls.after);
        let cycles_before: u64 = self.host.machine.total_cycles_elapsed;
        if self.terminal_reason(polls.before) is Some {
            (self, Ok(self.step_outcome(self.terminal_reason(polls.before))))
        } else if self.instruction_fault() is Some {
            (ran, Err(self.instruction_fault()->0))
        } else if ran.settling_fault(polls.after, cycles_before) is Some {
            (settled, Err(ran.settling_fault(polls.after, cycles_before)->0))
        } else {
            let end: SessionView = settled.concluded();
            (end, Ok(end.step_outcome(end.terminal_reason(polls.end))))
        }
    }
}

impl SessionView {
    /// The reason to end a run before another step: the guest can do no more, or a limit is
    /// reached.
    pub open spec fn stop_before(self, limits: RunLimits, shutdown: bool) -> Option<StopReason> {
        if self.terminal_reason(shutdown) is Some {
            self.terminal_reason(shutdown)
        } else if self.host.cpu.instructions_executed >= limits.max_instructions@ {
            Some(StopReason::InstructionLimit)
        } else if self.host.machine.total_cycles_elapsed >= limits.max_cycles@ {
            Some(StopReason::CycleLimit)
        } else {
            None
        }
    }

    /// The session after one step and what the step returns, kept shut for proofs about many
    /// steps.
    #[verifier::opaque]
    pub open spec fn step_taken(self, polls: StepPolls) -> (
        SessionView,
        Result<HeadlessStepOutcome, HeadlessRunError>,
    ) {
        self.stepped(polls)
    }

    /// Whether a run goes on after a step.
    pub open spec fn goes_on(self, limits: RunLimits, polls: RoundPolls) -> bool {
        &&& self.stop_before(limits, polls.entry) is None
        &&& self.step_taken(polls.step).1 matches Ok(outcome) && outcome.stop_after(limits) is None
    }

    /// The session after a run that ends with this step, and what the run returns.
    pub open spec fn last_step(self, limits: RunLimits, polls: RoundPolls) -> (
        SessionView,
        Result<HeadlessRunOutcome, HeadlessRunError>,
    ) {
        match self.stop_before(limits, polls.entry) {
            Some(reason) => (self, Ok(self.run_outcome(reason))),
            None => {
                let end: SessionView = self.step_taken(polls.step).0;
                match self.step_taken(polls.step).1 {
                    Ok(outcome) => (end, Ok(end.run_outcome(outcome.stop_after(limits)->0))),
                    Err(error) => (end, Err(error)),
                }
            },
        }
    }

    /// The session after some steps.
    pub open spec fn after(self, polls: Seq<RoundPolls>) -> SessionView
        decreases polls.len(),
    {
        if polls.len() == 0 {
            self
        } else {
            self.after(polls.drop_last()).step_taken(polls.last().step).0
        }
    }

    /// Whether a run takes these steps and no others, ends in the given session and returns the
    /// given result: it goes on after every step but the last.
    pub open spec fn runs(
        self,
        limits: RunLimits,
        polls: Seq<RoundPolls>,
        end: SessionView,
        result: Result<HeadlessRunOutcome, HeadlessRunError>,
    ) -> bool {
        &&& polls.len() > 0
        &&& forall|i: int|
            #![trigger polls[i]]
            0 <= i < polls.len() - 1 ==> self.after(polls.take(i)).goes_on(limits, polls[i])
        &&& !self.after(polls.drop_last()).goes_on(limits, polls.last())
        &&& self.after(polls.drop_last()).last_step(limits, polls.last()) == (end, result)
    }
}

/// Whether a cycle total is another one some cycles later. Totals wrap at 64 bits.
pub open spec fn advanced_by(before: u64, after: u64, cycles: int) -> bool {
    after == (before + cycles) % 0x1_0000_0000_0000_0000
}

/// Whether a cycle total is another one after at least so many pending cycles were added.
#[verifier::opaque]
pub open spec fn advances(before: u64, after: u64, least: int) -> bool {
    exists|cycles: int| least <= cycles <= i32::MAX && #[trigger] advanced_by(before, after, cycles)
}

/// An instruction takes time, unless so much of it passes that the total wraps.
pub(crate) proof fn lemma_time_passes(before: u64, between: u64, after: u64)
    requires
        advances(before, between, 1),
        advances(between, after, 0),
        after >= before,
    ensures
        after > before,
{
    reveal(advances);
    let first: int = choose|cycles: int|
        1 <= cycles <= i32::MAX && #[trigger] advanced_by(before, between, cycles);
    let second: int = choose|cycles: int|
        0 <= cycles <= i32::MAX && #[trigger] advanced_by(between, after, cycles);
    assert(after == (before + first + second) % 0x1_0000_0000_0000_0000);
}

/// Whether a run that succeeded kept its instruction limit, and reached it where that is what
/// ended it.
pub open spec fn keeps_instruction_limit(
    result: Result<HeadlessRunOutcome, HeadlessRunError>,
    limits: RunLimits,
) -> bool {
    result matches Ok(outcome) ==> {
        &&& outcome.instructions <= limits.max_instructions@
        &&& outcome.reason == StopReason::InstructionLimit ==> outcome.instructions
            == limits.max_instructions@
    }
}

impl HeadlessStepOutcome {
    /// The reason to end a run after a step: going beyond the cycle limit before anything else,
    /// then what stopped the guest, then a limit that was just reached.
    pub open spec fn stop_after(self, limits: RunLimits) -> Option<StopReason> {
        if self.cycles > limits.max_cycles@ {
            Some(StopReason::CycleLimit)
        } else if self.reason is Some {
            self.reason
        } else if self.instructions >= limits.max_instructions@ {
            Some(StopReason::InstructionLimit)
        } else if self.cycles >= limits.max_cycles@ {
            Some(StopReason::CycleLimit)
        } else {
            None
        }
    }

    /// The reason to end a run after a step.
    pub fn stop_reason(&self, limits: RunLimits) -> (reason: Option<StopReason>)
        ensures
            reason == self.stop_after(limits),
    {
        if self.cycles > limits.max_cycles.get() {
            return Some(StopReason::CycleLimit);
        }
        if let Some(reason) = self.reason {
            return Some(reason);
        }
        if self.instructions >= limits.max_instructions.get() {
            return Some(StopReason::InstructionLimit);
        }
        if self.cycles >= limits.max_cycles.get() {
            return Some(StopReason::CycleLimit);
        }
        None
    }
}

/// A run that went on so far and does not go on after one more step ends with it.
proof fn lemma_run_ends(
    start: SessionView,
    limits: RunLimits,
    polls: Seq<RoundPolls>,
    last: RoundPolls,
)
    requires
        forall|i: int|
            #![trigger polls[i]]
            0 <= i < polls.len() ==> start.after(polls.take(i)).goes_on(limits, polls[i]),
        !start.after(polls).goes_on(limits, last),
    ensures
        start.runs(
            limits,
            polls.push(last),
            start.after(polls).last_step(limits, last).0,
            start.after(polls).last_step(limits, last).1,
        ),
{
    let all: Seq<RoundPolls> = polls.push(last);
    assert(all.drop_last() =~= polls);
    assert forall|i: int| #![trigger all[i]] 0 <= i < all.len() - 1 implies start.after(
        all.take(i),
    ).goes_on(limits, all[i]) by {
        assert(all.take(i) =~= polls.take(i));
        assert(all[i] == polls[i]);
    }
}

/// A run that went on so far and goes on after one more step has gone on so far.
proof fn lemma_run_goes_on(
    start: SessionView,
    limits: RunLimits,
    polls: Seq<RoundPolls>,
    last: RoundPolls,
)
    requires
        forall|i: int|
            #![trigger polls[i]]
            0 <= i < polls.len() ==> start.after(polls.take(i)).goes_on(limits, polls[i]),
        start.after(polls).goes_on(limits, last),
    ensures
        start.after(polls.push(last)) == start.after(polls).step_taken(last.step).0,
        forall|i: int|
            #![trigger polls.push(last)[i]]
            0 <= i < polls.len() + 1 ==> start.after(polls.push(last).take(i)).goes_on(
                limits,
                polls.push(last)[i],
            ),
{
    let all: Seq<RoundPolls> = polls.push(last);
    assert(all.drop_last() =~= polls);
    assert forall|i: int| #![trigger all[i]] 0 <= i < all.len() implies start.after(
        all.take(i),
    ).goes_on(limits, all[i]) by {
        assert(all.take(i) =~= polls.take(i));
        if i < polls.len() {
            assert(all[i] == polls[i]);
        } else {
            assert(all.take(i) =~= polls);
        }
    }
}

impl HeadlessSession {
    /// Whether the session can go on.
    pub open spec fn wf(self) -> bool {
        self@.wf()
    }

    /// Executes the next instruction of a guest that has not stopped, whatever the shutdown flag
    /// says.
    pub fn execute_step(&mut self) -> (executed: Result<(), HeadlessRunError>)
        requires
            old(self).wf(),
        ensures
            final(self).wf(),
            final(self)@ == old(self)@.instructed(),
            executed is Ok <==> old(self)@.instruction_fault() is None,
            executed matches Err(error) ==> old(self)@.instruction_fault() == Some(error),
            executed is Ok ==> final(self)@.host.cpu.instructions_executed
                == old(self)@.host.cpu.instructions_executed + 1,
            executed matches Err(HeadlessRunError::InstructionAccountingInvariant { .. }) ==> !old(
                self,
            )@.cleared().executes(),
            executed is Ok ==> advances(
                old(self)@.host.machine.total_cycles_elapsed,
                final(self)@.host.machine.total_cycles_elapsed,
                1,
            ),
    {
        self.machine.mem_out_of_bounds = None;
        let before: u64 = cpu_instructions_executed(&self.cpu);
        self.machine.execute_instruction(&mut self.cpu);
        self.account_instruction(before)
    }

    /// Accounts for an instruction that was executed, given how many were counted before it.
    pub fn account_instruction(&mut self, before: u64) -> (accounted: Result<(), HeadlessRunError>)
        ensures
            final(self)@ == old(self)@.accounted(before),
            accounted is Ok <==> old(self)@.count_fault(before) is None,
            accounted matches Err(error) ==> old(self)@.count_fault(before) == Some(error),
            accounted is Ok ==> advances(
                old(self)@.host.machine.total_cycles_elapsed,
                final(self)@.host.machine.total_cycles_elapsed,
                1,
            ),
    {
        let after: u64 = cpu_instructions_executed(&self.cpu);
        if before == u64::MAX || after != before + 1 {
            return Err(HeadlessRunError::InstructionAccountingInvariant { before, after });
        }
        let ghost total: u64 = self.machine.total_cycles_elapsed;
        let pending: i32 = self.machine.apply_elapsed_cycles();
        if pending <= 0 {
            return Err(HeadlessRunError::CycleAccountingInvariant { pending });
        }
        assert(advances(total, self.machine.total_cycles_elapsed, 1)) by {
            reveal(advances);
            assert(advanced_by(total, self.machine.total_cycles_elapsed, pending as int));
        }
        Ok(())
    }

    /// Takes a requested interrupt after an instruction, unless the guest has stopped, and
    /// accounts for its cycles.
    pub fn settle_step(&mut self, shutdown: bool, cycles_before: u64) -> (settled: Result<
        (),
        HeadlessRunError,
    >)
        requires
            old(self).wf(),
        ensures
            final(self).wf(),
            final(self)@ == old(self)@.settled(shutdown),
            settled is Ok <==> old(self)@.settling_fault(shutdown, cycles_before) is None,
            settled matches Err(error) ==> old(self)@.settling_fault(shutdown, cycles_before)
                == Some(error),
            final(self)@.host.cpu.instructions_executed
                == old(self)@.host.cpu.instructions_executed,
            settled is Ok ==> advances(
                old(self)@.host.machine.total_cycles_elapsed,
                final(self)@.host.machine.total_cycles_elapsed,
                0,
            ),
    {
        if self.terminal_reason_when(shutdown).is_none() && self.machine.mem_out_of_bounds.is_none() {
            self.machine.do_interrupts(&mut self.cpu);
        }
        self.account_interrupt(cycles_before)
    }

    /// Accounts for an interrupt, in a step that began at the given total.
    pub fn account_interrupt(&mut self, cycles_before: u64) -> (accounted: Result<
        (),
        HeadlessRunError,
    >)
        ensures
            final(self)@ == old(self)@.with_host(old(self)@.host.cycles_applied()),
            accounted is Ok <==> old(self)@.total_fault(cycles_before) is None,
            accounted matches Err(error) ==> old(self)@.total_fault(cycles_before) == Some(error),
            accounted is Ok ==> advances(
                old(self)@.host.machine.total_cycles_elapsed,
                final(self)@.host.machine.total_cycles_elapsed,
                0,
            ),
    {
        let ghost total: u64 = self.machine.total_cycles_elapsed;
        let pending: i32 = self.machine.apply_elapsed_cycles();
        if pending < 0 {
            return Err(HeadlessRunError::CycleAccountingInvariant { pending });
        }
        assert(advances(total, self.machine.total_cycles_elapsed, 0)) by {
            reveal(advances);
            assert(advanced_by(total, self.machine.total_cycles_elapsed, pending as int));
        }
        if self.machine.total_cycles_elapsed < cycles_before {
            return Err(HeadlessRunError::CycleAccountingOverflow);
        }
        Ok(())
    }

    /// Makes an access to an unmapped address a reason to stop for good.
    pub fn conclude_step(&mut self)
        ensures
            final(self)@ == old(self)@.concluded(),
            old(self).wf() ==> final(self).wf(),
    {
        if let Some(address) = self.machine.mem_out_of_bounds {
            self.terminal_stop =
            Some(StopReason::MemoryFault { address, instruction_pc: self.machine.last_pc });
        }
    }

    /// Executes one instruction and the interrupt behind it. A guest that has stopped is left as
    /// it is. The shutdown flag, which other threads may raise, is polled before the instruction,
    /// after it and at the end.
    pub fn step(&mut self) -> (outcome: Result<HeadlessStepOutcome, HeadlessRunError>)
        requires
            old(self).wf(),
        ensures
            final(self).wf(),
            exists|polls: StepPolls|
                {
                    &&& #[trigger] old(self)@.stepped(polls) == (final(self)@, outcome)
                    &&& outcome matches Ok(o) ==> final(self)@.reports_step(old(self)@, polls, o)
                },
            outcome matches Err(HeadlessRunError::InstructionAccountingInvariant { .. }) ==> !old(
                self,
            )@.cleared().executes(),
    {
        let before: bool = self.shutdown_requested();
        let ghost start: SessionView = self@;
        if let Some(reason) = self.terminal_reason_when(before) {
            proof {
                let polls: StepPolls = StepPolls {
                    before,
                    after: false,
                    end: false,
                };
                assert(start.stepped(polls) == (
                    self@,
                    Ok::<_, HeadlessRunError>(start.step_outcome(Some(reason))),
                ));
            }
            return Ok(self.step_outcome(Some(reason)));
        }
        let cycles_before: u64 = self.machine.total_cycles_elapsed;
        if let Err(error) = self.execute_step() {
            proof {
                let polls: StepPolls = StepPolls {
                    before,
                    after: false,
                    end: false,
                };
                assert(start.stepped(polls) == (
                    self@,
                    Err::<HeadlessStepOutcome, HeadlessRunError>(error),
                ));
            }
            return Err(error);
        }
        let ghost between: u64 = self.machine.total_cycles_elapsed;
        let after: bool = self.shutdown_requested();
        if let Err(error) = self.settle_step(after, cycles_before) {
            proof {
                let polls: StepPolls = StepPolls {
                    before,
                    after,
                    end: false,
                };
                assert(start.stepped(polls) == (
                    self@,
                    Err::<HeadlessStepOutcome, HeadlessRunError>(error),
                ));
            }
            return Err(error);
        }
        proof {
            lemma_time_passes(cycles_before, between, self.machine.total_cycles_elapsed);
        }
        self.conclude_step();
        let end: bool = self.shutdown_requested();
        let reason = self.terminal_reason_when(end);
        proof {
            let polls: StepPolls = StepPolls { before, after, end };
            assert(start.stepped(polls) == (
                self@,
                Ok::<_, HeadlessRunError>(self@.step_outcome(reason)),
            ));
        }
        Ok(self.step_outcome(reason))
    }

    /// Takes one step of a run.
    fn take_step(&mut self) -> (outcome: Result<HeadlessStepOutcome, HeadlessRunError>)
        requires
            old(self).wf(),
        ensures
            final(self).wf(),
            exists|polls: StepPolls|
                {
                    &&& #[trigger] old(self)@.step_taken(polls) == (final(self)@, outcome)
                    &&& outcome matches Ok(o) ==> final(self)@.reports_step(old(self)@, polls, o)
                },
    {
        let outcome = self.step();
        proof {
            reveal(SessionView::step_taken);
            let polls: StepPolls = choose|polls: StepPolls|
                {
                    &&& #[trigger] old(self)@.stepped(polls) == (self@, outcome)
                    &&& outcome matches Ok(o) ==> self@.reports_step(old(self)@, polls, o)
                };
            assert(old(self)@.step_taken(polls) == (self@, outcome));
        }
        outcome
    }

    /// The reason to end a run before another step, given what the shutdown flag reads as.
    pub fn stop_reason_when(&self, limits: RunLimits, shutdown: bool) -> (reason: Option<StopReason>)
        ensures
            reason == self@.stop_before(limits, shutdown),
    {
        if let Some(reason) = self.terminal_reason_when(shutdown) {
            return Some(reason);
        }
        if self.instructions_executed() >= limits.max_instructions.get() {
            return Some(StopReason::InstructionLimit);
        }
        if self.total_cycles_elapsed() >= limits.max_cycles.get() {
            return Some(StopReason::CycleLimit);
        }
        None
    }

    /// Steps the guest until it stops or reaches a limit. The shutdown flag is polled before each
    /// step and during it.
    pub fn run(&mut self, limits: RunLimits) -> (outcome: Result<
        HeadlessRunOutcome,
        HeadlessRunError,
    >)
        requires
            old(self).wf(),
        ensures
            final(self).wf(),
            exists|polls: Seq<RoundPolls>|
                #[trigger] old(self)@.runs(limits, polls, final(self)@, outcome),
            old(self)@.host.cpu.instructions_executed <= limits.max_instructions@
                ==> keeps_instruction_limit(outcome, limits),
    {
        let ghost start: SessionView = self@;
        let ghost mut polls: Seq<RoundPolls> = Seq::empty();
        loop
            invariant
                start == old(self)@,
                self.wf(),
                self@ == start.after(polls),
                forall|i: int|
                    #![trigger polls[i]]
                    0 <= i < polls.len() ==> start.after(polls.take(i)).goes_on(limits, polls[i]),
                start.host.cpu.instructions_executed <= limits.max_instructions@
                    ==> self@.host.cpu.instructions_executed <= limits.max_instructions@,
            decreases u64::MAX - self@.host.cpu.instructions_executed,
        {
            let ghost here: SessionView = self@;
            let entry: bool = self.shutdown_requested();
            if let Some(reason) = self.stop_reason_when(limits, entry) {
                proof {
                    let step: StepPolls = StepPolls { before: false, after: false, end: false };
                    let last: RoundPolls = RoundPolls { entry, step };
                    lemma_run_ends(start, limits, polls, last);
                    assert(start.runs(
                        limits,
                        polls.push(last),
                        self@,
                        Ok(self@.run_outcome(reason)),
                    ));
                }
                return Ok(self.run_outcome(reason));
            }
            let result = self.take_step();
            let ghost step: StepPolls = choose|step: StepPolls|
                {
                    &&& #[trigger] here.step_taken(step) == (self@, result)
                    &&& result matches Ok(o) ==> self@.reports_step(here, step, o)
                };
            let ghost last: RoundPolls = RoundPolls { entry, step };
            let outcome = match result {
                Ok(outcome) => outcome,
                Err(error) => {
                    proof {
                        lemma_run_ends(start, limits, polls, last);
                        assert(start.runs(limits, polls.push(last), self@, Err(error)));
                    }
                    return Err(error);
                },
            };
            if let Some(reason) = outcome.stop_reason(limits) {
                proof {
                    lemma_run_ends(start, limits, polls, last);
                    assert(start.runs(
                        limits,
                        polls.push(last),
                        self@,
                        Ok(self@.run_outcome(reason)),
                    ));
                }
                return Ok(self.run_outcome(reason));
            }
            proof {
                lemma_run_goes_on(start, limits, polls, last);
                polls = polls.push(last);
            }
        }
    }

    /// Whether another thread asks the emulator to stop. Nothing is said of the answer, which
    /// may change at any time.
    fn shutdown_requested(&self) -> (requested: bool) {
        self.machine.emulator_shutdown.load(Ordering::Relaxed)
    }

    /// The reason for which the guest can do no more, given what the shutdown flag reads as.
    pub fn terminal_reason_when(&self, shutdown: bool) -> (reason: Option<StopReason>)
        ensures
            reason == self@.terminal_reason(shutdown),
    {
        if let Some(reason) = self.terminal_stop {
            Some(reason)
        } else if let Some(status) = self.machine.guest_exit_status {
            Some(StopReason::GuestExit(status))
        } else if shutdown {
            Some(StopReason::RequestedShutdown)
        } else if cpu_is_halted(&self.cpu) {
            Some(StopReason::Halted)
        } else {
            None
        }
    }

    /// The reason for which the guest can do no more.
    pub fn terminal_reason(&self) -> (reason: Option<StopReason>)
        ensures
            exists|shutdown: bool| reason == #[trigger] self@.terminal_reason(shutdown),
    {
        let shutdown: bool = self.shutdown_requested();
        self.terminal_reason_when(shutdown)
    }

    /// The address of the next instruction.
    pub fn pc(&self) -> (pc: u32)
        ensures
            pc == self@.host.cpu.registers.code_pc(),
    {
        cpu_registers(&self.cpu).next_pc()
    }

    pub fn instructions_executed(&self) -> (count: u64)
        ensures
            count == self@.host.cpu.instructions_executed,
    {
        cpu_instructions_executed(&self.cpu)
    }

    pub fn total_cycles_elapsed(&self) -> (cycles: u64)
        ensures
            cycles == self@.host.machine.total_cycles_elapsed,
    {
        self.machine.total_cycles_elapsed
    }

    pub fn registers(&self) -> (registers: Registers)
        ensures
            registers == self@.host.cpu.registers,
    {
        cpu_registers(&self.cpu)
    }

    /// What a step reports.
    pub fn step_outcome(&self, reason: Option<StopReason>) -> (outcome: HeadlessStepOutcome)
        ensures
            outcome == self@.step_outcome(reason),
    {
        HeadlessStepOutcome {
            reason,
            guest_status: self.machine.guest_exit_status,
            pc: self.pc(),
            instructions: self.instructions_executed(),
            cycles: self.total_cycles_elapsed(),
        }
    }

    /// What a run reports.
    pub fn run_outcome(&self, reason: StopReason) -> (outcome: HeadlessRunOutcome)
        ensures
            outcome == self@.run_outcome(reason),
    {
        HeadlessRunOutcome {
            reason,
            guest_status: self.machine.guest_exit_status,
            pc: self.pc(),
            instructions: self.instructions_executed(),
            cycles: self.total_cycles_elapsed(),
        }
    }
}

/// Every byte of an image is read back from the address it was meant for, and RAM that no image
/// reaches reads as zero.
pub proof fn law_images_are_read_back(
    machine: MachineView,
    boot: HeadlessBoot,
    images: Seq<LoadImage>,
    session: SessionView,
)
    requires
        can_begin(machine, boot, images),
        begun(machine, boot, images, session),
    ensures
        forall|image: int, offset: int|
            (LoadView { machine, images }).has_byte(image, offset) ==> session.host.machine.observed(
                #[trigger] (LoadView { machine, images }).address(image, offset),
            ) == Some((LoadView { machine, images }).byte(image, offset)),
        forall|address: u32|
            machine.storage(address as int) is Some && !(LoadView { machine, images }).reached(
                machine.storage(address as int)->0,
                images.len() as int,
                0,
            ) ==> #[trigger] session.host.machine.observed(address as int) == Some(0u8),
{
    let load: LoadView = LoadView { machine, images };
    let ram: MachineView = session.host.machine;
    assert forall|image: int, offset: int| load.has_byte(image, offset) implies ram.observed(
        #[trigger] load.address(image, offset),
    ) == Some(load.byte(image, offset)) by {
        assert(load.before(image, offset, images.len() as int, 0));
        assert(load.placeable(image, offset));
        assert(load.extent_fault(image) is None);
        let address: u32 = load.address(image, offset) as u32;
        assert(ram.storage(address as int) == machine.storage(address as int));
        crate::machine::lemma_storage_exists(ram, address);
    }
    assert forall|address: u32|
        machine.storage(address as int) is Some && !load.reached(
            machine.storage(address as int)->0,
            images.len() as int,
            0,
        ) implies #[trigger] ram.observed(address as int) == Some(0u8) by {
        assert(ram.storage(address as int) == machine.storage(address as int));
        crate::machine::lemma_storage_exists(ram, address);
        crate::machine::lemma_storage_exists(machine, address);
    }
}

/// A guest that has stopped is left as it is by every later step, which gives the reason again.
pub proof fn law_stopped_guest_is_left_alone(session: SessionView, polls: StepPolls)
    requires
        session.terminal_reason(polls.before) is Some,
    ensures
        session.stepped(polls) == (
            session,
            Ok::<_, HeadlessRunError>(
                session.step_outcome(session.terminal_reason(polls.before)),
            ),
        ),
{
}

/// A run that finds the guest stopped executes nothing and gives the reason.
pub proof fn law_run_of_stopped_guest_executes_nothing(
    session: SessionView,
    limits: RunLimits,
    polls: Seq<RoundPolls>,
    end: SessionView,
    result: Result<HeadlessRunOutcome, HeadlessRunError>,
)
    requires
        session.runs(limits, polls, end, result),
        session.terminal_reason(polls[0].entry) is Some,
    ensures
        end == session,
        result == Ok::<_, HeadlessRunError>(
            session.run_outcome(session.terminal_reason(polls[0].entry)->0),
        ),
{
    assert(polls.take(0) =~= Seq::<RoundPolls>::empty());
    assert(session.after(polls.take(0)) == session);
    assert(!session.goes_on(limits, polls[0]));
    assert(polls.len() == 1);
    assert(polls.drop_last() =~= Seq::<RoundPolls>::empty());
}

/// A shutdown that is requested before a run begins stops it before anything is executed.
pub proof fn law_requested_shutdown_stops_before_execution(
    session: SessionView,
    limits: RunLimits,
    polls: Seq<RoundPolls>,
    end: SessionView,
    result: Result<HeadlessRunOutcome, HeadlessRunError>,
)
    requires
        session.runs(limits, polls, end, result),
        session.terminal_stop is None,
        session.host.machine.guest_exit_status is None,
        polls[0].entry,
    ensures
        end == session,
        result == Ok::<_, HeadlessRunError>(session.run_outcome(StopReason::RequestedShutdown)),
{
    law_run_of_stopped_guest_executes_nothing(session, limits, polls, end, result);
}

/// An access to an unmapped address stops the guest for good: whatever the shutdown flag says,
/// later steps and runs execute nothing and report it again.
pub proof fn law_memory_fault_is_sticky(
    session: SessionView,
    first: StepPolls,
    address: u32,
    instruction_pc: u32,
    later: StepPolls,
    limits: RunLimits,
    rounds: Seq<RoundPolls>,
    end: SessionView,
    result: Result<HeadlessRunOutcome, HeadlessRunError>,
)
    requires
        session.stepped(first).1 matches Ok(outcome) && outcome.reason == Some(
            StopReason::MemoryFault { address, instruction_pc },
        ),
        session.stepped(first).0.runs(limits, rounds, end, result),
    ensures
        session.stepped(first).0.stepped(later) == session.stepped(first),
        end == session.stepped(first).0,
        result matches Ok(outcome) && outcome.reason == (StopReason::MemoryFault {
            address,
            instruction_pc,
        }) && outcome.instructions == session.stepped(first).0.host.cpu.instructions_executed,
{
    let faulted: SessionView = session.stepped(first).0;
    assert(faulted.terminal_stop == Some(StopReason::MemoryFault { address, instruction_pc }));
    law_stopped_guest_is_left_alone(faulted, later);
    law_run_of_stopped_guest_executes_nothing(faulted, limits, rounds, end, result);
}

/// What stops the guest at the very cycle limit is what the run reports, and so it is at the
/// instruction limit. Going beyond the cycle limit is reported before all else.
pub proof fn law_limits_and_terminal_events(outcome: HeadlessStepOutcome, limits: RunLimits)
    ensures
        outcome.cycles > limits.max_cycles@ ==> outcome.stop_after(limits) == Some(
            StopReason::CycleLimit,
        ),
        outcome.cycles <= limits.max_cycles@ && outcome.reason is Some ==> outcome.stop_after(
            limits,
        ) == outcome.reason,
        outcome.stop_after(limits) is None <==> outcome.reason is None && outcome.cycles
            < limits.max_cycles@ && outcome.instructions < limits.max_instructions@,
{
}

/// Some steps after others come to the same as all of them together.
proof fn lemma_steps_after_steps(
    session: SessionView,
    first: Seq<RoundPolls>,
    second: Seq<RoundPolls>,
)
    ensures
        session.after(first + second) == session.after(first).after(second),
    decreases second.len(),
{
    if second.len() == 0 {
        assert(first + second =~= first);
    } else {
        lemma_steps_after_steps(session, first, second.drop_last());
        assert((first + second).drop_last() =~= first + second.drop_last());
    }
}

/// A round after which a run goes on is one after which it goes on under higher limits.
proof fn lemma_goes_on_under_higher_limits(
    session: SessionView,
    low: RunLimits,
    high: RunLimits,
    polls: RoundPolls,
)
    requires
        session.goes_on(low, polls),
        low.max_instructions@ <= high.max_instructions@,
        low.max_cycles@ <= high.max_cycles@,
    ensures
        session.goes_on(high, polls),
{
}

/// A step of a guest that has not stopped does not report a limit, and counts as the CPU does.
proof fn lemma_step_reports_no_limit(session: SessionView, limits: RunLimits, polls: RoundPolls)
    requires
        session.stop_before(limits, polls.entry) is None,
        session.step_taken(polls.step).1 is Ok,
    ensures
        session.step_taken(polls.step).1->Ok_0.reason != Some(StopReason::InstructionLimit),
        session.step_taken(polls.step).1->Ok_0.instructions == session.step_taken(
            polls.step,
        ).0.host.cpu.instructions_executed,
{
    reveal(SessionView::step_taken);
}

/// A run that reached its instruction limit can be resumed under higher limits, and then ends as a
/// single run under these would.
pub proof fn law_run_in_slices_is_one_run(
    start: SessionView,
    low: RunLimits,
    first: Seq<RoundPolls>,
    middle: SessionView,
    outcome: HeadlessRunOutcome,
    high: RunLimits,
    second: Seq<RoundPolls>,
    end: SessionView,
    result: Result<HeadlessRunOutcome, HeadlessRunError>,
)
    requires
        start.runs(low, first, middle, Ok(outcome)),
        outcome.reason == StopReason::InstructionLimit,
        outcome.instructions < high.max_instructions@,
        low.max_instructions@ <= high.max_instructions@,
        low.max_cycles@ < high.max_cycles@,
        middle.runs(high, second, end, result),
    ensures
        exists|polls: Seq<RoundPolls>| #[trigger] start.runs(high, polls, end, result),
{
    let last: RoundPolls = first.last();
    let before: SessionView = start.after(first.drop_last());
    let stepped: bool = before.stop_before(low, last.entry) is None;
    let prefix: Seq<RoundPolls> = if stepped {
        first
    } else {
        first.drop_last()
    };
    assert(middle == start.after(prefix));
    if stepped {
        lemma_step_reports_no_limit(before, low, last);
        assert(before.goes_on(high, last));
    }
    assert forall|i: int| #![trigger prefix[i]] 0 <= i < prefix.len() implies start.after(
        prefix.take(i),
    ).goes_on(high, prefix[i]) by {
        assert(prefix[i] == first[i]);
        assert(prefix.take(i) =~= first.take(i));
        if i < first.len() - 1 {
            lemma_goes_on_under_higher_limits(start.after(first.take(i)), low, high, first[i]);
        } else {
            assert(first.take(i) =~= first.drop_last());
        }
    }
    let polls: Seq<RoundPolls> = prefix + second;
    assert forall|i: int| #![trigger polls[i]] 0 <= i < polls.len() - 1 implies start.after(
        polls.take(i),
    ).goes_on(high, polls[i]) by {
        if i < prefix.len() {
            assert(polls.take(i) =~= prefix.take(i));
            assert(polls[i] == prefix[i]);
        } else {
            let k: int = i - prefix.len();
            assert(polls.take(i) =~= prefix + second.take(k));
            lemma_steps_after_steps(start, prefix, second.take(k));
            assert(polls[i] == second[k]);
        }
    }
    assert(polls.drop_last() =~= prefix + second.drop_last());
    lemma_steps_after_steps(start, prefix, second.drop_last());
    assert(start.runs(high, polls, end, result));
}

} // verus!
