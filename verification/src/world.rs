//! What a debugger does to the world: what each command and each event changes, and what is
//! answered.
use crate::address::{fetch_address, ADDRESS_SPACE_SIZE, MAX_ADDRESS};
use crate::disassembly::{listed, Allocations};
use crate::execution::HostView;
use crate::machine::{read_or_default, MachineView, UNMAPPED_BYTE};
use crate::prefix::{CodeView, PrefixScan, PrefixScanError};
use crate::processor::{code_at, CpuView, Reg16};
use crate::protocol::{CmdView, PauseReason, RespView, TriggerView};
use crate::text::hexadecimal;
use vstd::prelude::*;

verus! {

/// The most that one memory reply holds.
pub const MAX_DEBUGGER_MEMORY_BYTES: u32 = 4096;

/// The world of a debugger: the triggers that are set, the fault that was already reported, and the
/// machine with its CPU.
#[verifier::ext_equal]
pub struct World {
    pub triggers: Seq<TriggerView>,
    pub reported: Option<u32>,
    pub host: HostView,
}

/// What the allocator decides while one command or event is answered.
pub struct Chances {
    /// For the listing that is asked for.
    pub listing: Allocations,
    /// For the listing of the next instruction.
    pub state: Allocations,
}

/// One thing that happens in a tick.
pub enum TickStep {
    /// A fault of the last instruction is looked at.
    Fault,
    /// An access to an I/O port without a peripheral is looked at.
    Io,
    /// A command is carried out, be it an action of a trigger or from the controller.
    Command(CmdView),
    /// The one-shot triggers at an address are removed.
    Disarm(u32),
}

impl MachineView {
    /// The memory that is sent for a range. What is unmapped or lies behind the address space reads
    /// as the bus leaves it, and no more is sent than the limit.
    pub open spec fn memory_response(self, start: u32, len: u32) -> RespView {
        let count: u32 = if len < MAX_DEBUGGER_MEMORY_BYTES {
            len
        } else {
            MAX_DEBUGGER_MEMORY_BYTES
        };
        RespView::Memory {
            start,
            data: Seq::new(
                count as nat,
                |offset: int|
                    if start + offset <= MAX_ADDRESS {
                        read_or_default(self.observed(start + offset))
                    } else {
                        UNMAPPED_BYTE
                    },
            ),
        }
    }
}

impl HostView {
    /// The listing that is sent for a range.
    pub open spec fn disassembly_response(
        self,
        adl: Option<bool>,
        start: u32,
        end: u32,
        allocations: Allocations,
    ) -> RespView {
        RespView::Disassembly {
            pc: self.cpu.registers.code_pc() as u32,
            adl: if adl is Some {
                adl->0
            } else {
                self.cpu.registers.adl
            },
            disasm: listed(
                self.machine,
                self.cpu.registers.adl,
                adl,
                start,
                end,
                allocations,
            ),
        }
    }

    /// The sixteen bytes on the stack, in the order of fetching.
    pub open spec fn stack(self) -> Seq<u8> {
        let registers = self.cpu.registers;
        Seq::new(
            16,
            |offset: int|
                read_or_default(
                    self.machine.observed(
                        fetch_address(
                            registers.pointer(Reg16::SP),
                            offset,
                            registers.adl,
                            registers.mbase as int,
                        ),
                    ),
                ),
        )
    }

    /// The text of the next instruction.
    pub open spec fn pc_instruction(self, allocations: Allocations) -> Seq<char> {
        let pc: u32 = self.cpu.registers.code_pc() as u32;
        let listing = listed(
            self.machine,
            self.cpu.registers.adl,
            None,
            pc,
            next_in_space(pc, 1),
            allocations,
        );
        if listing.len() > 0 {
            listing[0].text
        } else {
            Seq::empty()
        }
    }

    /// The state that is sent.
    pub open spec fn state_response(self, allocations: Allocations) -> RespView {
        RespView::State {
            registers: self.cpu.registers,
            instructions_executed: self.cpu.instructions_executed,
            total_cycles_elapsed: self.machine.total_cycles_elapsed,
            stack: self.stack(),
            pc_instruction: self.pc_instruction(allocations),
        }
    }

    /// What is sent when the machine stops by itself: the reason, the last instruction and the
    /// state.
    pub open spec fn stop_report(self, reason: PauseReason, chances: Chances) -> Seq<RespView> {
        let registers = self.cpu.registers;
        let last: u32 = self.machine.last_pc;
        let end: int = fetch_address(last as int, 1, registers.adl, registers.mbase as int);
        seq![
            RespView::Paused(reason),
            self.disassembly_response(None, last, end as u32, chances.listing),
            self.state_response(chances.state),
        ]
    }

    /// What is sent when a program asks for the state through an I/O port.
    pub open spec fn state_dump(self, port: u16, allocations: Allocations) -> Seq<RespView> {
        seq![
            RespView::Message(
                "State dump triggered by IO 0x"@ + hexadecimal(port as nat, 0)
                    + " access at PC=$"@ + hexadecimal(self.machine.last_pc as nat, 0),
            ),
            self.state_response(allocations),
        ]
    }

    /// The same machine, paused or running.
    pub open spec fn paused(self, paused: bool) -> HostView {
        HostView { machine: MachineView { paused, ..self.machine }, ..self }
    }
}

/// An address some bytes on, but no further than the end of the address space.
pub open spec fn next_in_space(address: u32, bytes: int) -> u32 {
    if address + bytes < ADDRESS_SPACE_SIZE {
        (address + bytes) as u32
    } else {
        ADDRESS_SPACE_SIZE as u32
    }
}

/// Whether an opcode is one of the restarts.
pub open spec fn is_restart(opcode: u8) -> bool {
    opcode == 0xc7 || opcode == 0xd7 || opcode == 0xe7 || opcode == 0xf7 || opcode == 0xcf || opcode
        == 0xdf || opcode == 0xef || opcode == 0xff
}

/// Whether an opcode is one of the calls.
pub open spec fn is_call(opcode: u8) -> bool {
    opcode == 0xc4 || opcode == 0xd4 || opcode == 0xe4 || opcode == 0xf4 || opcode == 0xcc || opcode
        == 0xcd || opcode == 0xdc || opcode == 0xec || opcode == 0xfc
}

/// The length of a call or restart, from what its prefixes say.
pub open spec fn call_len(scan: PrefixScan) -> int {
    if is_restart(scan.opcode) {
        scan.prefix_len + 1
    } else if scan.immediate_long {
        scan.prefix_len + 4
    } else {
        scan.prefix_len + 3
    }
}

/// The trigger that pauses the machine once behind a call or restart.
pub open spec fn return_trigger(address: u32, text: Seq<char>) -> TriggerView {
    TriggerView {
        address,
        once: true,
        actions: seq![
            CmdView::Pause(PauseReason::DebuggerRequested),
            CmdView::Message(text),
            CmdView::GetState,
        ],
    }
}

impl World {
    /// The world after a fault was taken note of.
    pub open spec fn acknowledged(self) -> World {
        World {
            reported: None,
            host: HostView {
                machine: MachineView { mem_out_of_bounds: None, ..self.host.machine },
                ..self.host
            },
            ..self
        }
    }

    /// The world with the machine paused or running.
    pub open spec fn paused(self, paused: bool) -> World {
        World { host: self.host.paused(paused), ..self }
    }

    /// The world after a fault was acknowledged and the machine set running.
    pub open spec fn resumed(self) -> World {
        self.acknowledged().paused(false)
    }

    /// The world after a fault was acknowledged and one instruction executed.
    pub open spec fn stepped(self) -> World {
        let acknowledged: World = self.acknowledged();
        (World { host: acknowledged.host.settled_step(), ..acknowledged }).paused(true)
    }

    /// Whether a command executes an instruction: a step does, and stepping over what is neither a
    /// call nor a restart, where the CPU executes at all.
    pub open spec fn executes_for(self, cmd: CmdView) -> bool {
        &&& self.acknowledged().host.executes()
        &&& match cmd {
            CmdView::Step => true,
            CmdView::StepOver => match self.code().scan() {
                Ok(scan) => !is_restart(scan.opcode) && !is_call(scan.opcode),
                Err(error) => error is Unmapped,
            },
            _ => false,
        }
    }

    /// The code at the program counter.
    pub open spec fn code(self) -> CodeView {
        code_at(self.host.cpu, self.host.machine)
    }

    /// What stepping over the next instruction does. A call or restart is left to run until it
    /// returns; anything else is a single step. Where only prefixes can be fetched nothing is done.
    pub open spec fn stepped_over(self, chances: Chances) -> (World, Seq<RespView>) {
        match self.code().scan() {
            Ok(scan) if is_restart(scan.opcode) || is_call(scan.opcode) => {
                let text: Seq<char> = if is_restart(scan.opcode) {
                    "Stepped over RST"@
                } else {
                    "Stepped over CALL"@
                };
                let successor: u32 = self.code().address(call_len(scan)) as u32;
                let resumed: World = self.resumed();
                (
                    World {
                        triggers: self.triggers.push(return_trigger(successor, text)),
                        ..resumed
                    },
                    seq![RespView::Resumed],
                )
            },
            Err(PrefixScanError::FullSpan) => (
                self.paused(true),
                seq![
                    RespView::Message(
                        "StepOver refused: the complete code-address span contains only eZ80 prefixes"@,
                    ),
                ],
            ),
            _ => (self.stepped(), seq![self.stepped().host.state_response(chances.state)]),
        }
    }

    /// The world after a command, and what is answered.
    pub open spec fn handled(self, cmd: CmdView, chances: Chances) -> (World, Seq<RespView>) {
        match cmd {
            CmdView::Ping => (self, seq![RespView::Pong]),
            CmdView::Pause(reason) => (self.paused(true), seq![RespView::Paused(reason)]),
            CmdView::Continue => (self.resumed(), seq![RespView::Resumed]),
            CmdView::Step => (
                self.stepped(),
                seq![self.stepped().host.state_response(chances.state)],
            ),
            CmdView::StepOver => self.stepped_over(chances),
            CmdView::SetTrace(trace) => (
                World {
                    host: HostView {
                        cpu: CpuView { trace, ..self.host.cpu },
                        ..self.host
                    },
                    ..self
                },
                seq![RespView::Pong],
            ),
            CmdView::Message(text) => (self, seq![RespView::Message(text)]),
            CmdView::AddTrigger(trigger) => (
                World { triggers: self.triggers.push(trigger), ..self },
                seq![RespView::Pong],
            ),
            CmdView::DeleteTrigger(address) => (
                World {
                    triggers: self.triggers.filter(survives(address, false)),
                    ..self
                },
                seq![RespView::Pong],
            ),
            CmdView::ListTriggers => (self, seq![RespView::Triggers(self.triggers)]),
            CmdView::GetMemory { start, len } => (
                self,
                seq![self.host.machine.memory_response(start, len)],
            ),
            CmdView::GetMemoryAtReg { reg, len } => (
                self,
                seq![self.host.machine.memory_response(self.host.cpu.registers.pointer(reg) as u32, len)],
            ),
            CmdView::GetRegisters => (self, seq![RespView::Registers(self.host.cpu.registers)]),
            CmdView::GetState => (self, seq![self.host.state_response(chances.state)]),
            CmdView::DisassemblePc { adl } => {
                let pc: u32 = self.host.cpu.registers.code_pc() as u32;
                (
                    self,
                    seq![
                        self.host.disassembly_response(
                            adl,
                            pc,
                            next_in_space(pc, 0x20),
                            chances.listing,
                        ),
                    ],
                )
            },
            CmdView::Disassemble { adl, start, end } => (
                self,
                seq![
                    self.host.disassembly_response(
                        adl,
                        start,
                        if end <= start {
                            next_in_space(start, 0x20)
                        } else {
                            end
                        },
                        chances.listing,
                    ),
                ],
            ),
        }
    }

    /// The world after a fault of the last instruction was looked at. It pauses the machine and is
    /// reported once, until it is acknowledged or another one takes its place.
    pub open spec fn fault_noted(self, chances: Chances) -> (World, Seq<RespView>) {
        match self.host.machine.mem_out_of_bounds {
            None => (World { reported: None, ..self }, Seq::empty()),
            Some(address) => {
                let stopped: World = World { reported: Some(address), ..self.paused(true) };
                (
                    stopped,
                    if self.reported == Some(address) {
                        Seq::empty()
                    } else {
                        stopped.host.stop_report(
                            PauseReason::OutOfBoundsMemAccess(address),
                            chances,
                        )
                    },
                )
            },
        }
    }

    /// The world after an access to an I/O port without a peripheral was looked at. Some of these
    /// ports pause the machine, and some ask for the state.
    pub open spec fn io_noted(self, chances: Chances) -> (World, Seq<RespView>) {
        let idle: World = World {
            host: HostView {
                machine: MachineView { io_unhandled: None, ..self.host.machine },
                ..self.host
            },
            ..self
        };
        match self.host.machine.io_unhandled {
            Some(address) if 0x10 <= address % 0x100 < 0x20 => (
                idle.paused(true),
                idle.paused(true).host.stop_report(
                    PauseReason::IOBreakpoint((address % 0x100) as u8),
                    chances,
                ),
            ),
            Some(address) if 0x20 <= address % 0x100 < 0x30 => (
                idle,
                idle.host.state_dump(address % 0x100, chances.state),
            ),
            _ => (idle, Seq::empty()),
        }
    }

    /// The world after the one-shot triggers at an address were removed.
    pub open spec fn disarmed(self, address: u32) -> World {
        World {
            triggers: self.triggers.filter(survives(address, true)),
            ..self
        }
    }

    /// The world after one step of a tick, and what is answered.
    pub open spec fn performed_step(self, step: TickStep, chances: Chances) -> (
        World,
        Seq<RespView>,
    ) {
        match step {
            TickStep::Fault => self.fault_noted(chances),
            TickStep::Io => self.io_noted(chances),
            TickStep::Command(cmd) => self.handled(cmd, chances),
            TickStep::Disarm(address) => (self.disarmed(address), Seq::empty()),
        }
    }

    /// The same, kept shut for proofs about many steps.
    #[verifier::opaque]
    pub open spec fn step_taken(self, step: TickStep, chances: Chances) -> (World, Seq<RespView>) {
        self.performed_step(step, chances)
    }

    /// The world after some steps, and all that is answered.
    pub open spec fn performed(self, steps: Seq<TickStep>, chances: Seq<Chances>) -> (
        World,
        Seq<RespView>,
    )
        decreases steps.len(),
    {
        if steps.len() == 0 {
            (self, Seq::empty())
        } else {
            let (world, answers) = self.performed(steps.drop_last(), chances);
            let (after, more) = world.step_taken(steps.last(), chances[steps.len() - 1]);
            (after, answers + more)
        }
    }

    /// Whether a tick looks at the triggers: only while the machine runs, and neither a fault nor a
    /// port access pauses it.
    pub open spec fn dispatches(self) -> bool {
        &&& !self.host.machine.paused
        &&& self.host.machine.mem_out_of_bounds is None
        &&& self.host.machine.io_unhandled matches Some(address) ==> !(0x10 <= address % 0x100
            < 0x20)
    }

    /// The steps of a tick in which some commands come from the controller. Events come first, then
    /// the triggers at the program counter, then the commands.
    pub open spec fn tick_steps(self, commands: Seq<CmdView>) -> Seq<TickStep> {
        event_steps() + self.trigger_steps() + command_steps(commands)
    }

    /// The steps that triggers take in a tick.
    pub open spec fn trigger_steps(self) -> Seq<TickStep> {
        let pc: u32 = self.host.cpu.registers.code_pc() as u32;
        dispatch_steps(self.triggers, pc, !self.dispatches())
    }
}

/// The steps that triggers at an address take: none while the machine is paused.
pub open spec fn dispatch_steps(triggers: Seq<TriggerView>, address: u32, paused: bool) -> Seq<
    TickStep,
> {
    if paused {
        Seq::empty()
    } else {
        command_steps(fired_actions(triggers, address)) + seq![TickStep::Disarm(address)]
    }
}

/// The steps in which events are looked at.
pub open spec fn event_steps() -> Seq<TickStep> {
    seq![TickStep::Fault, TickStep::Io]
}

/// Tells the triggers that are left when those at an address are removed, or only the one-shots
/// among them.
pub open spec fn survives(address: u32, one_shots_only: bool) -> spec_fn(TriggerView) -> bool {
    |trigger: TriggerView| trigger.address != address || (one_shots_only && !trigger.once)
}

/// Commands as steps of a tick.
pub open spec fn command_steps(commands: Seq<CmdView>) -> Seq<TickStep> {
    commands.map_values(|cmd: CmdView| TickStep::Command(cmd))
}

/// The actions of the triggers at an address, in the order in which they were set.
pub open spec fn fired_actions(triggers: Seq<TriggerView>, address: u32) -> Seq<CmdView>
    decreases triggers.len(),
{
    if triggers.len() == 0 {
        Seq::empty()
    } else if triggers.last().address == address {
        fired_actions(triggers.drop_last(), address) + triggers.last().actions
    } else {
        fired_actions(triggers.drop_last(), address)
    }
}

/// What some steps come to depends on no chances beyond theirs.
pub proof fn lemma_performed_prefix(
    world: World,
    steps: Seq<TickStep>,
    chances: Seq<Chances>,
    other: Seq<Chances>,
)
    requires
        forall|i: int| 0 <= i < steps.len() ==> #[trigger] chances[i] == other[i],
    ensures
        world.performed(steps, chances) == world.performed(steps, other),
    decreases steps.len(),
{
    if steps.len() > 0 {
        lemma_performed_prefix(world, steps.drop_last(), chances, other);
    }
}

/// Some steps after others come to the same as all of them together.
pub proof fn lemma_performed_on(
    world: World,
    first: Seq<TickStep>,
    second: Seq<TickStep>,
    first_chances: Seq<Chances>,
    second_chances: Seq<Chances>,
)
    requires
        first_chances.len() == first.len(),
        second_chances.len() >= second.len(),
    ensures
        world.performed(first + second, first_chances + second_chances) == {
            let (between, answers) = world.performed(first, first_chances);
            let (after, more) = between.performed(second, second_chances);
            (after, answers + more)
        },
    decreases second.len(),
{
    let chances: Seq<Chances> = first_chances + second_chances;
    let (between, answers) = world.performed(first, first_chances);
    if second.len() == 0 {
        assert(first + second =~= first);
        lemma_performed_prefix(world, first, chances, first_chances);
        assert(answers + Seq::<RespView>::empty() =~= answers);
    } else {
        lemma_performed_on(world, first, second.drop_last(), first_chances, second_chances);
        assert((first + second).drop_last() =~= first + second.drop_last());
        assert((first + second).last() == second.last());
        assert(chances[first.len() + second.len() - 1] == second_chances[second.len() - 1]);
        let (before, some) = between.performed(second.drop_last(), second_chances);
        let (after, more) = before.step_taken(
            second.last(),
            second_chances[second.len() - 1],
        );
        assert(answers + some + more =~= answers + (some + more));
    }
}

} // verus!
