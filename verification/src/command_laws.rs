//! What each command and each event does, told in the numbers of the registers and of memory.
use crate::channel::Offer;
use crate::code_laws::{
    covers, law_listing_covers_its_range, law_listing_reaches_its_end,
    law_nothing_is_listed_behind_the_space, reaches,
};
use crate::debugger::{answered, delivered, performs, refused_at, DebuggerResult, ServerView};
use crate::disassembly::{listed, Allocations, DisasmView, ListingView};
use crate::execution::HostView;
use crate::machine::MachineView;
use crate::prefix::{CodeView, PrefixScan, PrefixScanError};
use crate::processor::{disassembled, CpuView, Reg16, Registers};
use crate::protocol::{CmdView, PauseReason, RespView, TriggerView};
use crate::text::hexadecimal;
use crate::world::{
    call_len, is_call, is_restart, next_in_space, return_trigger, survives, Chances, TickStep, World,
};
use vstd::prelude::*;

verus! {

/// Whether responses were handed to the controller in order, behind those from before: all of them,
/// each of which it took, or only up to the first that it did not take.
pub open spec fn handed_over(
    before: Seq<Offer>,
    after: Seq<Offer>,
    responses: Seq<RespView>,
    result: DebuggerResult,
) -> bool {
    let sent: int = after.len() - before.len();
    &&& 0 <= sent <= responses.len()
    &&& result is Ok ==> sent == responses.len()
    &&& result is Err ==> sent > 0
    &&& forall|i: int| 0 <= i < before.len() ==> #[trigger] after[i] == before[i]
    &&& forall|i: int|
        before.len() <= i < after.len() ==> (#[trigger] after[i]).response == responses[i
            - before.len()] && after[i].accepted == (result is Ok || i < after.len() - 1)
}

/// Responses go to the controller in order, and none behind one that it does not take.
pub proof fn law_responses_go_in_order(
    before: Seq<Offer>,
    after: Seq<Offer>,
    responses: Seq<RespView>,
    result: DebuggerResult,
)
    ensures
        answered(before, after, responses, result) <==> handed_over(
            before,
            after,
            responses,
            result,
        ),
{
    if answered(before, after, responses, result) {
        if result is Err {
            let count: int = choose|count: int|
                0 <= count < responses.len() && after == before + #[trigger] refused_at(
                    responses,
                    count,
                );
            assert(after.len() == before.len() + count + 1);
        }
        assert(handed_over(before, after, responses, result));
    }
    if handed_over(before, after, responses, result) {
        if result is Ok {
            assert(after =~= before + delivered(responses));
        } else {
            let count: int = after.len() - before.len() - 1;
            assert(after =~= before + refused_at(responses, count));
        }
    }
}

/// A debugger does with a command what the command does to its world, and hands over its responses
/// in order. It does so whether the controller takes them or not, and looks for no other command.
pub proof fn law_command_is_carried_out(
    before: ServerView,
    host: HostView,
    cmd: CmdView,
    chances: Chances,
    after: ServerView,
    host_after: HostView,
    result: DebuggerResult,
)
    requires
        performs(before, host, TickStep::Command(cmd), chances, after, host_after, result),
    ensures
        ({
            let world: World = World {
                triggers: before.triggers,
                reported: before.reported,
                host,
            };
            let (done, responses) = world.handled(cmd, chances);
            &&& done.triggers == after.triggers
            &&& done.reported == after.reported
            &&& done.host == host_after
            &&& after.polls == before.polls
            &&& handed_over(before.offers, after.offers, responses, result)
        }),
{
    law_responses_go_in_order(
        before.offers,
        after.offers,
        before.world(host).handled(cmd, chances).1,
        result,
    );
}

/// The same for the events of a tick: a fault, an access to a port without a peripheral, and one-shot
/// triggers to be removed.
pub proof fn law_event_is_carried_out(
    before: ServerView,
    host: HostView,
    step: TickStep,
    chances: Chances,
    after: ServerView,
    host_after: HostView,
    result: DebuggerResult,
)
    requires
        performs(before, host, step, chances, after, host_after, result),
    ensures
        ({
            let world: World = World {
                triggers: before.triggers,
                reported: before.reported,
                host,
            };
            let (done, responses) = match step {
                TickStep::Fault => world.fault_noted(chances),
                TickStep::Io => world.io_noted(chances),
                TickStep::Command(cmd) => world.handled(cmd, chances),
                TickStep::Disarm(address) => (world.disarmed(address), Seq::empty()),
            };
            &&& done.triggers == after.triggers
            &&& done.reported == after.reported
            &&& done.host == host_after
            &&& after.polls == before.polls
            &&& handed_over(before.offers, after.offers, responses, result)
        }),
{
    law_responses_go_in_order(
        before.offers,
        after.offers,
        before.world(host).performed_step(step, chances).1,
        result,
    );
}

/// The commands that only talk change nothing. A ping is answered with a pong, a message with
/// itself, and the registers and the triggers are told as they are.
pub proof fn law_talk_changes_nothing(world: World, text: Seq<char>, chances: Chances)
    ensures
        world.handled(CmdView::Ping, chances) == (world, seq![RespView::Pong]),
        world.handled(CmdView::Message(text), chances) == (world, seq![RespView::Message(text)]),
        world.handled(CmdView::GetRegisters, chances) == (
            world,
            seq![RespView::Registers(world.host.cpu.registers)],
        ),
        world.handled(CmdView::ListTriggers, chances) == (
            world,
            seq![RespView::Triggers(world.triggers)],
        ),
{
}

/// Pausing pauses the machine and tells the reason that was given; nothing else changes.
pub proof fn law_pause_only_pauses(world: World, reason: PauseReason, chances: Chances)
    ensures
        world.handled(CmdView::Pause(reason), chances) == (
            World {
                host: HostView {
                    machine: MachineView { paused: true, ..world.host.machine },
                    cpu: world.host.cpu,
                },
                ..world
            },
            seq![RespView::Paused(reason)],
        ),
{
}

/// Continuing sets the machine running and forgets a fault, in the machine and in the debugger;
/// nothing else changes.
pub proof fn law_continue_only_resumes(world: World, chances: Chances)
    ensures
        world.handled(CmdView::Continue, chances) == (
            World {
                triggers: world.triggers,
                reported: None,
                host: HostView {
                    machine: MachineView {
                        paused: false,
                        mem_out_of_bounds: None,
                        ..world.host.machine
                    },
                    cpu: world.host.cpu,
                },
            },
            seq![RespView::Resumed],
        ),
{
}

/// Tracing is set as asked; nothing else changes.
pub proof fn law_trace_is_set(world: World, trace: bool, chances: Chances)
    ensures
        world.handled(CmdView::SetTrace(trace), chances) == (
            World {
                host: HostView {
                    machine: world.host.machine,
                    cpu: CpuView { trace, ..world.host.cpu },
                },
                ..world
            },
            seq![RespView::Pong],
        ),
{
}

/// A trigger is set behind those that are set already. Deleting removes the triggers at an address,
/// one-shot or not, and keeps all others in their order. Nothing else changes.
pub proof fn law_triggers_are_set_and_deleted(
    world: World,
    trigger: TriggerView,
    address: u32,
    chances: Chances,
)
    ensures
        world.handled(CmdView::AddTrigger(trigger), chances) == (
            World { triggers: world.triggers.push(trigger), ..world },
            seq![RespView::Pong],
        ),
        world.handled(CmdView::DeleteTrigger(address), chances) == (
            World {
                triggers: world.triggers.filter(
                    |trigger: TriggerView| trigger.address != address,
                ),
                ..world
            },
            seq![RespView::Pong],
        ),
{
    assert(survives(address, false) =~= (|trigger: TriggerView| trigger.address != address));
}

/// Disarming removes the one-shot triggers at an address and keeps all others in their order;
/// nothing else changes.
pub proof fn law_one_shots_are_disarmed(world: World, address: u32)
    ensures
        world.disarmed(address) == (World {
            triggers: world.triggers.filter(
                |trigger: TriggerView| !(trigger.address == address && trigger.once),
            ),
            ..world
        }),
{
    assert(survives(address, true) =~= (|trigger: TriggerView|
        !(trigger.address == address && trigger.once)));
}

/// Whether memory is told byte by byte from an address on: what each address reads as, $F5 where it
/// is unmapped or lies behind the address space. As many bytes are told as were asked for, up to
/// 4096.
pub open spec fn tells_memory(machine: MachineView, from: int, len: u32, response: RespView) -> bool {
    &&& response matches RespView::Memory { start, data }
    &&& start == from
    &&& data.len() == (if len < 4096 {
        len as int
    } else {
        4096
    })
    &&& forall|i: int|
        0 <= i < data.len() ==> #[trigger] data[i] == (if from + i >= 0x100_0000 {
            0xf5u8
        } else {
            match machine.observed(from + i) {
                Some(byte) => byte,
                None => 0xf5u8,
            }
        })
}

/// What is sent as memory tells it.
proof fn lemma_memory_is_told(machine: MachineView, start: u32, len: u32)
    ensures
        tells_memory(machine, start as int, len, machine.memory_response(start, len)),
{
}

/// Asking for memory tells it from the start that was asked for; nothing changes.
pub proof fn law_memory_is_told(world: World, start: u32, len: u32, chances: Chances)
    ensures
        ({
            let (after, responses) = world.handled(CmdView::GetMemory { start, len }, chances);
            &&& after == world
            &&& responses.len() == 1
            &&& tells_memory(world.host.machine, start as int, len, responses[0])
        }),
{
}

/// Asking for memory at a register pair tells it from the address that the pair holds: in ADL mode
/// the whole register, otherwise its low 16 bits in the bank of MBASE. SP is the stack pointer of
/// the mode. Nothing changes.
pub proof fn law_memory_at_register_is_told(world: World, reg: Reg16, len: u32, chances: Chances)
    ensures
        ({
            let (after, responses) = world.handled(CmdView::GetMemoryAtReg { reg, len }, chances);
            let registers: Registers = world.host.cpu.registers;
            let value: int = match reg {
                Reg16::AF => registers.af as int,
                Reg16::BC => registers.bc as int,
                Reg16::DE => registers.de as int,
                Reg16::HL => registers.hl as int,
                Reg16::IX => registers.ix as int,
                Reg16::IY => registers.iy as int,
                Reg16::SP => if registers.adl {
                    registers.spl as int
                } else {
                    registers.sps as int
                },
            };
            let from: int = if registers.adl {
                value
            } else {
                registers.mbase * 0x1_0000 + value % 0x1_0000
            };
            &&& after == world
            &&& responses.len() == 1
            &&& tells_memory(world.host.machine, from, len, responses[0])
        }),
{
    let registers: Registers = world.host.cpu.registers;
    lemma_pointer(registers, reg);
    let from: u32 = registers.pointer(reg) as u32;
    lemma_memory_is_told(world.host.machine, from, len);
    let (after, responses) = world.handled(CmdView::GetMemoryAtReg { reg, len }, chances);
    assert(responses[0] == world.host.machine.memory_response(from, len));
}

/// The address that a register pair holds.
proof fn lemma_pointer(registers: Registers, reg: Reg16)
    ensures
        0 <= registers.pointer(reg) <= u32::MAX,
        registers.pointer(reg) == {
            let value: int = match reg {
                Reg16::AF => registers.af as int,
                Reg16::BC => registers.bc as int,
                Reg16::DE => registers.de as int,
                Reg16::HL => registers.hl as int,
                Reg16::IX => registers.ix as int,
                Reg16::IY => registers.iy as int,
                Reg16::SP => if registers.adl {
                    registers.spl as int
                } else {
                    registers.sps as int
                },
            };
            if registers.adl {
                value
            } else {
                registers.mbase * 0x1_0000 + value % 0x1_0000
            }
        },
{
}

/// Whether a response tells the state of a machine and its CPU: the registers and the counts as they
/// are; the sixteen bytes from the stack pointer of the mode on, which in ADL mode lie at SPL and
/// wrap at 24 bits, and otherwise at SPS and wrap inside the bank of MBASE, $F5 where unmapped; and
/// the instruction at the program counter, or why there is none. Where the memory for its bytes was
/// not had, that is told instead of an instruction.
pub open spec fn tells_state(host: HostView, allocations: Allocations, response: RespView) -> bool {
    let now: Registers = host.cpu.registers;
    let pc: int = if now.adl {
        now.pc as int
    } else {
        now.mbase * 0x1_0000 + now.pc % 0x1_0000
    };
    let code: CodeView = CodeView {
        machine: host.machine,
        start: pc as u32,
        adl: now.adl,
        mbase: (pc / 0x1_0000) as u8,
    };
    &&& response matches RespView::State {
        registers,
        instructions_executed,
        total_cycles_elapsed,
        stack,
        pc_instruction,
    }
    &&& registers == now
    &&& instructions_executed == host.cpu.instructions_executed
    &&& total_cycles_elapsed == host.machine.total_cycles_elapsed
    &&& stack.len() == 16
    &&& now.adl ==> forall|i: int|
        0 <= i < 16 ==> #[trigger] stack[i] == (match host.machine.observed(
            (now.spl + i) % 0x100_0000,
        ) {
            Some(byte) => byte,
            None => 0xf5u8,
        })
    &&& !now.adl ==> forall|i: int|
        0 <= i < 16 ==> #[trigger] stack[i] == (match host.machine.observed(
            now.mbase * 0x1_0000 + (now.sps + i) % 0x1_0000,
        ) {
            Some(byte) => byte,
            None => 0xf5u8,
        })
    &&& pc >= 0x100_0000 ==> pc_instruction.len() == 0
    &&& pc < 0x100_0000 ==> pc_instruction == (match code.scan() {
        Ok(_) => if allocations == Some(0nat) {
            "<debugger could not allocate instruction bytes>"@
        } else {
            disassembled(host.machine, code.start, code.adl, code.mbase).0
        },
        Err(PrefixScanError::Unmapped { address }) => "<unmapped instruction byte $"@
            + hexadecimal(address as nat, 6) + ">"@,
        Err(PrefixScanError::FullSpan) => "<full address span contains only eZ80 prefixes>"@,
    })
}

/// The bytes on the stack in ADL mode.
proof fn lemma_long_stack(host: HostView)
    requires
        host.cpu.registers.adl,
    ensures
        host.stack().len() == 16,
        forall|i: int|
            0 <= i < 16 ==> #[trigger] host.stack()[i] == (match host.machine.observed(
                (host.cpu.registers.spl + i) % 0x100_0000,
            ) {
                Some(byte) => byte,
                None => 0xf5u8,
            }),
{
}

/// The bytes on the stack outside ADL mode.
proof fn lemma_short_stack(host: HostView)
    requires
        !host.cpu.registers.adl,
    ensures
        host.stack().len() == 16,
        forall|i: int|
            0 <= i < 16 ==> #[trigger] host.stack()[i] == (match host.machine.observed(
                host.cpu.registers.mbase * 0x1_0000 + (host.cpu.registers.sps + i) % 0x1_0000,
            ) {
                Some(byte) => byte,
                None => 0xf5u8,
            }),
{
    let now: Registers = host.cpu.registers;
    assert forall|i: int| 0 <= i < 16 implies #[trigger] host.stack()[i] == (
    match host.machine.observed(now.mbase * 0x1_0000 + (now.sps + i) % 0x1_0000) {
        Some(byte) => byte,
        None => 0xf5u8,
    }) by {
        assert((now.pointer(Reg16::SP) + i) % 0x1_0000 == (now.sps + i) % 0x1_0000);
    }
}

/// The text of the next instruction.
proof fn lemma_next_instruction(host: HostView, allocations: Allocations)
    ensures
        ({
            let pc: u32 = host.cpu.registers.code_pc() as u32;
            let code: CodeView = CodeView {
                machine: host.machine,
                start: pc,
                adl: host.cpu.registers.adl,
                mbase: (pc / 0x1_0000) as u8,
            };
            let text: Seq<char> = host.pc_instruction(allocations);
            &&& pc >= 0x100_0000 ==> text.len() == 0
            &&& pc < 0x100_0000 ==> text == (match code.scan() {
                Ok(_) => if allocations == Some(0nat) {
                    "<debugger could not allocate instruction bytes>"@
                } else {
                    disassembled(host.machine, pc, code.adl, code.mbase).0
                },
                Err(PrefixScanError::Unmapped { address }) => "<unmapped instruction byte $"@
                    + hexadecimal(address as nat, 6) + ">"@,
                Err(PrefixScanError::FullSpan) =>
                    "<full address span contains only eZ80 prefixes>"@,
            })
        }),
{
    let pc: u32 = host.cpu.registers.code_pc() as u32;
    if pc < 0x100_0000 {
        let listing: ListingView = ListingView {
            machine: host.machine,
            adl: host.cpu.registers.adl,
            mbase: (pc / 0x1_0000) as u8,
            end: pc + 1,
        };
        assert(crate::address::bank_of(pc as int) as u8 == listing.mbase);
        assert(listed(
            host.machine,
            host.cpu.registers.adl,
            None,
            pc,
            (pc + 1) as u32,
            allocations,
        ) == listing.entries(pc, allocations));
        let entries: Seq<DisasmView> = listing.entries(pc, allocations);
        assert(entries.len() > 0);
    }
}

/// What is sent as the state of a machine tells it.
pub(crate) proof fn lemma_state_is_told(host: HostView, allocations: Allocations)
    ensures
        tells_state(host, allocations, host.state_response(allocations)),
{
    if host.cpu.registers.adl {
        lemma_long_stack(host);
    } else {
        lemma_short_stack(host);
    }
    lemma_next_instruction(host, allocations);
}

/// Asking for the state tells it; nothing changes.
pub proof fn law_state_is_told(world: World, chances: Chances)
    ensures
        ({
            let (after, responses) = world.handled(CmdView::GetState, chances);
            &&& after == world
            &&& responses.len() == 1
            &&& tells_state(world.host, chances.state, responses[0])
        }),
{
    lemma_state_is_told(world.host, chances.state);
}

/// Whether a response tells a listing from a start to an end: the program counter, the fetching
/// mode, and entries that reach the end, or tell that the memory for their bytes was not had. Where
/// it always was, they cover the range. Nothing is listed from behind the address space on.
pub open spec fn tells_listing(
    host: HostView,
    asked: Option<bool>,
    start: u32,
    end: int,
    allocations: Allocations,
    response: RespView,
) -> bool {
    let now: Registers = host.cpu.registers;
    let mode: bool = match asked {
        Some(adl) => adl,
        None => now.adl,
    };
    &&& response matches RespView::Disassembly { pc, adl, disasm }
    &&& pc == (if now.adl {
        now.pc as int
    } else {
        now.mbase * 0x1_0000 + now.pc % 0x1_0000
    })
    &&& adl == mode
    &&& start >= 0x100_0000 ==> disasm.len() == 0
    &&& start < 0x100_0000 ==> reaches(mode, start, end, disasm)
    &&& start < 0x100_0000 && allocations is None ==> covers(
        host.machine,
        mode,
        start,
        end,
        disasm,
    )
}

/// What is sent as a listing tells it.
pub(crate) proof fn lemma_listing_is_told(
    host: HostView,
    adl: Option<bool>,
    start: u32,
    end: u32,
    allocations: Allocations,
)
    ensures
        tells_listing(
            host,
            adl,
            start,
            if end > start {
                end as int
            } else {
                start + 32
            },
            allocations,
            host.disassembly_response(adl, start, end, allocations),
        ),
{
    let cpu_adl: bool = host.cpu.registers.adl;
    if start < 0x100_0000 {
        law_listing_covers_its_range(host.machine, cpu_adl, adl, start, end);
        law_listing_reaches_its_end(host.machine, cpu_adl, adl, start, end, allocations);
    } else {
        law_nothing_is_listed_behind_the_space(
            host.machine,
            cpu_adl,
            adl,
            start,
            end,
            allocations,
        );
    }
}

/// A listing that ends behind the address space is the one that ends with it.
proof fn lemma_listing_ends_with_the_space(
    host: HostView,
    adl: Option<bool>,
    start: u32,
    end: int,
    allocations: Allocations,
    response: RespView,
)
    requires
        start < 0x100_0000 <= end,
        tells_listing(host, adl, start, 0x100_0000, allocations, response),
    ensures
        tells_listing(host, adl, start, end, allocations, response),
{
}

/// Asking for a listing tells the code from the start to the end that were asked for, or to 32 bytes
/// behind the start where the end does not lie behind it; nothing changes.
pub proof fn law_asked_range_is_listed(
    world: World,
    adl: Option<bool>,
    start: u32,
    end: u32,
    chances: Chances,
)
    ensures
        ({
            let (after, responses) = world.handled(
                CmdView::Disassemble { adl, start, end },
                chances,
            );
            &&& after == world
            &&& responses.len() == 1
            &&& tells_listing(
                world.host,
                adl,
                start,
                if end > start {
                    end as int
                } else {
                    start + 32
                },
                chances.listing,
                responses[0],
            )
        }),
{
    let until: u32 = if end <= start {
        next_in_space(start, 0x20)
    } else {
        end
    };
    let response: RespView = world.host.disassembly_response(adl, start, until, chances.listing);
    let (after, responses) = world.handled(CmdView::Disassemble { adl, start, end }, chances);
    assert(responses[0] == response);
    lemma_listing_is_told(world.host, adl, start, until, chances.listing);
    if end <= start && start < 0x100_0000 && start + 32 >= 0x100_0000 {
        lemma_listing_ends_with_the_space(
            world.host,
            adl,
            start,
            start + 32,
            chances.listing,
            response,
        );
    }
}

/// Asking for a listing at the program counter tells 32 bytes of code from there on; nothing
/// changes.
pub proof fn law_code_at_pc_is_listed(world: World, adl: Option<bool>, chances: Chances)
    ensures
        ({
            let (after, responses) = world.handled(CmdView::DisassemblePc { adl }, chances);
            let now: Registers = world.host.cpu.registers;
            let pc: int = if now.adl {
                now.pc as int
            } else {
                now.mbase * 0x1_0000 + now.pc % 0x1_0000
            };
            &&& after == world
            &&& responses.len() == 1
            &&& tells_listing(
                world.host,
                adl,
                pc as u32,
                pc + 32,
                chances.listing,
                responses[0],
            )
        }),
{
    let pc: u32 = world.host.cpu.registers.code_pc() as u32;
    let until: u32 = next_in_space(pc, 0x20);
    let response: RespView = world.host.disassembly_response(adl, pc, until, chances.listing);
    let (after, responses) = world.handled(CmdView::DisassemblePc { adl }, chances);
    assert(responses[0] == response);
    lemma_listing_is_told(world.host, adl, pc, until, chances.listing);
    if pc < 0x100_0000 && pc + 32 >= 0x100_0000 {
        lemma_listing_ends_with_the_space(
            world.host,
            adl,
            pc,
            pc + 32,
            chances.listing,
            response,
        );
    }
}

/// A step forgets a fault, executes one instruction with the interrupt behind it, leaves the machine
/// paused and tells the state; the triggers stay.
pub proof fn law_step_executes_and_tells(world: World, chances: Chances)
    ensures
        ({
            let (after, responses) = world.handled(CmdView::Step, chances);
            let cleared: HostView = HostView {
                machine: MachineView { mem_out_of_bounds: None, ..world.host.machine },
                cpu: world.host.cpu,
            };
            let ran: HostView = cleared.settled_step();
            &&& after.host.cpu == ran.cpu
            &&& after.host.machine == (MachineView { paused: true, ..ran.machine })
            &&& after.reported is None
            &&& after.triggers == world.triggers
            &&& responses.len() == 1
            &&& tells_state(after.host, chances.state, responses[0])
        }),
{
    let (after, responses) = world.handled(CmdView::Step, chances);
    lemma_state_is_told(after.host, chances.state);
    assert(responses[0] == after.host.state_response(chances.state));
}

/// The code that a CPU is about to execute.
pub open spec fn next_code(host: HostView) -> CodeView {
    let now: Registers = host.cpu.registers;
    CodeView {
        machine: host.machine,
        start: if now.adl {
            now.pc
        } else {
            (now.mbase * 0x1_0000 + now.pc % 0x1_0000) as u32
        },
        adl: now.adl,
        mbase: now.mbase,
    }
}

/// Stepping over a call, conditional or not, or over a restart sets a one-shot trigger where fetching
/// goes on behind it and sets the machine running, with a fault forgotten. A call is as long as its
/// prefixes, its opcode and its target, which takes three bytes where immediates are long and two
/// otherwise; a restart is as long as its prefixes and its opcode. When the trigger fires, the
/// machine is paused, a message tells what was stepped over, and the state is told.
pub proof fn law_step_over_arms_behind_the_call(world: World, scan: PrefixScan, chances: Chances)
    requires
        next_code(world.host).scan() == Ok::<_, PrefixScanError>(scan),
        scan.opcode >= 0xc0,
        scan.opcode % 8 == 4 || scan.opcode % 8 == 7 || scan.opcode == 0xcd,
    ensures
        ({
            let (after, responses) = world.handled(CmdView::StepOver, chances);
            let armed: TriggerView = after.triggers.last();
            let now: Registers = world.host.cpu.registers;
            let target: int = if scan.opcode % 8 == 7 {
                0
            } else if scan.immediate_long {
                3
            } else {
                2
            };
            let behind: int = now.pc + scan.prefix_len + 1 + target;
            &&& after.triggers == world.triggers.push(armed)
            &&& now.adl ==> armed.address == behind % 0x100_0000
            &&& !now.adl ==> armed.address == now.mbase * 0x1_0000 + behind % 0x1_0000
            &&& armed.once
            &&& armed.actions.len() == 3
            &&& armed.actions[0] == CmdView::Pause(PauseReason::DebuggerRequested)
            &&& armed.actions[1] == CmdView::Message(
                if scan.opcode % 8 == 7 {
                    "Stepped over RST"@
                } else {
                    "Stepped over CALL"@
                },
            )
            &&& armed.actions[2] == CmdView::GetState
            &&& after.reported is None
            &&& after.host.cpu == world.host.cpu
            &&& after.host.machine == (MachineView {
                paused: false,
                mem_out_of_bounds: None,
                ..world.host.machine
            })
            &&& responses == seq![RespView::Resumed]
        }),
{
    let address: u32 = lemma_address_behind_call(world, scan);
    lemma_calls_and_restarts(scan.opcode);
    let text: Seq<char> = if scan.opcode % 8 == 7 {
        "Stepped over RST"@
    } else {
        "Stepped over CALL"@
    };
    lemma_step_over_arms(world, scan, chances);
    assert(return_trigger(address, text).actions.len() == 3);
    let after: World = world.handled(CmdView::StepOver, chances).0;
    assert(after.triggers.last() == return_trigger(address, text));
}

/// The address behind a call or restart.
proof fn lemma_address_behind_call(world: World, scan: PrefixScan) -> (address: u32)
    requires
        next_code(world.host).scan() == Ok::<_, PrefixScanError>(scan),
        scan.opcode >= 0xc0,
        scan.opcode % 8 == 4 || scan.opcode % 8 == 7 || scan.opcode == 0xcd,
    ensures
        address == world.code().address(call_len(scan)),
        ({
            let now: Registers = world.host.cpu.registers;
            let target: int = if scan.opcode % 8 == 7 {
                0
            } else if scan.immediate_long {
                3
            } else {
                2
            };
            let behind: int = now.pc + scan.prefix_len + 1 + target;
            &&& now.adl ==> address == behind % 0x100_0000
            &&& !now.adl ==> address == now.mbase * 0x1_0000 + behind % 0x1_0000
        }),
{
    let now: Registers = world.host.cpu.registers;
    let code: CodeView = next_code(world.host);
    assert(code == world.code());
    lemma_calls_and_restarts(scan.opcode);
    let target: int = if scan.opcode % 8 == 7 {
        0
    } else if scan.immediate_long {
        3
    } else {
        2
    };
    let len: int = scan.prefix_len + 1 + target;
    assert(call_len(scan) == len);
    lemma_address_behind(now, code, len);
    code.address(len) as u32
}

/// The address some bytes behind the program counter.
proof fn lemma_address_behind(now: Registers, code: CodeView, len: int)
    requires
        code.adl == now.adl,
        code.mbase == now.mbase,
        code.start == (if now.adl {
            now.pc as int
        } else {
            now.mbase * 0x1_0000 + now.pc % 0x1_0000
        }),
    ensures
        now.adl ==> code.address(len) == (now.pc + len) % 0x100_0000,
        !now.adl ==> code.address(len) == now.mbase * 0x1_0000 + (now.pc + len) % 0x1_0000,
        0 <= code.address(len) <= 0xff_ffff,
{
    if !now.adl {
        assert((now.mbase * 0x1_0000 + now.pc % 0x1_0000 + len) % 0x1_0000 == (now.pc + len)
            % 0x1_0000);
    }
}

/// What stepping over a call or restart comes to.
proof fn lemma_step_over_arms(world: World, scan: PrefixScan, chances: Chances)
    requires
        next_code(world.host).scan() == Ok::<_, PrefixScanError>(scan),
        is_call(scan.opcode) || is_restart(scan.opcode),
    ensures
        world.handled(CmdView::StepOver, chances) == (
            World {
                triggers: world.triggers.push(
                    return_trigger(
                        world.code().address(call_len(scan)) as u32,
                        if is_restart(scan.opcode) {
                            "Stepped over RST"@
                        } else {
                            "Stepped over CALL"@
                        },
                    ),
                ),
                reported: None,
                host: HostView {
                    machine: MachineView {
                        paused: false,
                        mem_out_of_bounds: None,
                        ..world.host.machine
                    },
                    cpu: world.host.cpu,
                },
            },
            seq![RespView::Resumed],
        ),
{
    assert(next_code(world.host) == world.code());
}

/// The calls are $CD and the opcodes from $C0 on that leave 4 when divided by 8; the restarts are
/// those that leave 7.
proof fn lemma_calls_and_restarts(opcode: u8)
    ensures
        is_restart(opcode) == (opcode >= 0xc0 && opcode % 8 == 7),
        is_call(opcode) == (opcode == 0xcd || (opcode >= 0xc0 && opcode % 8 == 4)),
{
}

/// Stepping over any other opcode, or where the opcode cannot be read, is a single step.
pub proof fn law_step_over_others_is_a_step(world: World, chances: Chances)
    requires
        match next_code(world.host).scan() {
            Ok(scan) => scan.opcode < 0xc0 || (scan.opcode != 0xcd && scan.opcode % 8 != 4
                && scan.opcode % 8 != 7),
            Err(error) => error != PrefixScanError::FullSpan,
        },
    ensures
        world.handled(CmdView::StepOver, chances) == world.handled(CmdView::Step, chances),
{
    assert(next_code(world.host) == world.code());
    if next_code(world.host).scan() is Ok {
        lemma_calls_and_restarts(next_code(world.host).scan()->Ok_0.opcode);
    }
}

/// Where only prefixes can be fetched, stepping over pauses the machine and tells why; nothing else
/// changes.
pub proof fn law_step_over_endless_prefixes_pauses(world: World, chances: Chances)
    requires
        next_code(world.host).scan() == Err::<PrefixScan, _>(PrefixScanError::FullSpan),
    ensures
        world.handled(CmdView::StepOver, chances) == (
            World {
                host: HostView {
                    machine: MachineView { paused: true, ..world.host.machine },
                    cpu: world.host.cpu,
                },
                ..world
            },
            seq![
                RespView::Message(
                    "StepOver refused: the complete code-address span contains only eZ80 prefixes"@,
                ),
            ],
        ),
{
    assert(next_code(world.host) == world.code());
}

/// Only a step, and stepping over what is no call and no restart, executes an instruction, and only
/// where the CPU executes at all.
pub proof fn law_other_commands_execute_nothing(world: World, cmd: CmdView)
    ensures
        ({
            let cleared: HostView = HostView {
                machine: MachineView { mem_out_of_bounds: None, ..world.host.machine },
                cpu: world.host.cpu,
            };
            world.executes_for(cmd) <==> {
                &&& cleared.executes()
                &&& cmd is Step || (cmd is StepOver && match next_code(world.host).scan() {
                    Ok(scan) => scan.opcode < 0xc0 || (scan.opcode != 0xcd && scan.opcode % 8 != 4
                        && scan.opcode % 8 != 7),
                    Err(error) => error != PrefixScanError::FullSpan,
                })
            }
        }),
{
    assert(next_code(world.host) == world.code());
    if next_code(world.host).scan() is Ok {
        lemma_calls_and_restarts(next_code(world.host).scan()->Ok_0.opcode);
    }
}

/// Whether a response tells a listing, whatever memory was had for it.
pub open spec fn lists(
    host: HostView,
    adl: Option<bool>,
    start: u32,
    end: int,
    response: RespView,
) -> bool {
    exists|allocations: Allocations|
        #[trigger] tells_listing(host, adl, start, end, allocations, response)
}

/// Whether a response tells the state, whatever memory was had for the listing of the next
/// instruction.
pub open spec fn shows(host: HostView, response: RespView) -> bool {
    exists|allocations: Allocations| #[trigger] tells_state(host, allocations, response)
}

/// Whether a response answers a command that was carried out on a machine.
#[verifier::opaque]
pub open spec fn is_answer(
    triggers: Seq<TriggerView>,
    host: HostView,
    cmd: CmdView,
    host_after: HostView,
    response: RespView,
) -> bool {
    let now: Registers = host.cpu.registers;
    match cmd {
        CmdView::Ping => response == RespView::Pong,
        CmdView::SetTrace(_) => response == RespView::Pong,
        CmdView::AddTrigger(_) => response == RespView::Pong,
        CmdView::DeleteTrigger(_) => response == RespView::Pong,
        CmdView::Pause(reason) => response == RespView::Paused(reason),
        CmdView::Continue => response == RespView::Resumed,
        CmdView::Message(text) => response == RespView::Message(text),
        CmdView::ListTriggers => response == RespView::Triggers(triggers),
        CmdView::GetRegisters => response == RespView::Registers(now),
        CmdView::GetMemory { start, len } => tells_memory(
            host.machine,
            start as int,
            len,
            response,
        ),
        CmdView::GetMemoryAtReg { reg, len } => {
            let value: int = match reg {
                Reg16::AF => now.af as int,
                Reg16::BC => now.bc as int,
                Reg16::DE => now.de as int,
                Reg16::HL => now.hl as int,
                Reg16::IX => now.ix as int,
                Reg16::IY => now.iy as int,
                Reg16::SP => if now.adl {
                    now.spl as int
                } else {
                    now.sps as int
                },
            };
            tells_memory(
                host.machine,
                if now.adl {
                    value
                } else {
                    now.mbase * 0x1_0000 + value % 0x1_0000
                },
                len,
                response,
            )
        },
        CmdView::GetState => shows(host, response),
        CmdView::Step => shows(host_after, response),
        CmdView::StepOver => match next_code(host).scan() {
            Ok(scan) => if scan.opcode >= 0xc0 && (scan.opcode % 8 == 4 || scan.opcode % 8 == 7
                || scan.opcode == 0xcd) {
                response == RespView::Resumed
            } else {
                shows(host_after, response)
            },
            Err(PrefixScanError::Unmapped { .. }) => shows(host_after, response),
            Err(PrefixScanError::FullSpan) => response == RespView::Message(
                "StepOver refused: the complete code-address span contains only eZ80 prefixes"@,
            ),
        },
        CmdView::DisassemblePc { adl } => {
            let pc: int = if now.adl {
                now.pc as int
            } else {
                now.mbase * 0x1_0000 + now.pc % 0x1_0000
            };
            lists(host, adl, pc as u32, pc + 32, response)
        },
        CmdView::Disassemble { adl, start, end } => {
            let until: int = if end > start {
                end as int
            } else {
                start + 32
            };
            lists(host, adl, start, until, response)
        },
    }
}

/// The commands that tell memory are answered.
proof fn lemma_memory_is_answered(world: World, cmd: CmdView, chances: Chances)
    requires
        cmd is GetMemory || cmd is GetMemoryAtReg,
    ensures
        is_answer(
            world.triggers,
            world.host,
            cmd,
            world.handled(cmd, chances).0.host,
            world.handled(cmd, chances).1[0],
        ),
{
    reveal(is_answer);
    match cmd {
        CmdView::GetMemory { start, len } => {
            law_memory_is_told(world, start, len, chances);
        },
        CmdView::GetMemoryAtReg { reg, len } => {
            law_memory_at_register_is_told(world, reg, len, chances);
        },
        _ => {},
    }
}

/// The commands that tell the state are answered.
proof fn lemma_state_is_answered(world: World, cmd: CmdView, chances: Chances)
    requires
        cmd is GetState || cmd is Step,
    ensures
        is_answer(
            world.triggers,
            world.host,
            cmd,
            world.handled(cmd, chances).0.host,
            world.handled(cmd, chances).1[0],
        ),
{
    reveal(is_answer);
    if cmd is GetState {
        law_state_is_told(world, chances);
    } else {
        law_step_executes_and_tells(world, chances);
    }
}

/// Stepping over is answered.
proof fn lemma_step_over_is_answered(world: World, chances: Chances)
    ensures
        is_answer(
            world.triggers,
            world.host,
            CmdView::StepOver,
            world.handled(CmdView::StepOver, chances).0.host,
            world.handled(CmdView::StepOver, chances).1[0],
        ),
{
    reveal(is_answer);
    match next_code(world.host).scan() {
        Ok(scan) => {
            if scan.opcode >= 0xc0 && (scan.opcode % 8 == 4 || scan.opcode % 8 == 7 || scan.opcode
                == 0xcd) {
                law_step_over_arms_behind_the_call(world, scan, chances);
            } else {
                law_step_over_others_is_a_step(world, chances);
                law_step_executes_and_tells(world, chances);
            }
        },
        Err(PrefixScanError::Unmapped { .. }) => {
            law_step_over_others_is_a_step(world, chances);
            law_step_executes_and_tells(world, chances);
        },
        Err(PrefixScanError::FullSpan) => {
            law_step_over_endless_prefixes_pauses(world, chances);
        },
    }
}

/// The commands that list code are answered.
proof fn lemma_listing_is_answered(world: World, cmd: CmdView, chances: Chances)
    requires
        cmd is DisassemblePc || cmd is Disassemble,
    ensures
        is_answer(
            world.triggers,
            world.host,
            cmd,
            world.handled(cmd, chances).0.host,
            world.handled(cmd, chances).1[0],
        ),
{
    reveal(is_answer);
    match cmd {
        CmdView::DisassemblePc { adl } => {
            law_code_at_pc_is_listed(world, adl, chances);
        },
        CmdView::Disassemble { adl, start, end } => {
            law_asked_range_is_listed(world, adl, start, end, chances);
        },
        _ => {},
    }
}

/// The commands that tell nothing of the machine but its registers are answered.
proof fn lemma_talk_is_answered(world: World, cmd: CmdView, chances: Chances)
    requires
        cmd is Ping || cmd is Pause || cmd is Continue || cmd is SetTrace || cmd is Message
            || cmd is AddTrigger || cmd is DeleteTrigger || cmd is ListTriggers
            || cmd is GetRegisters,
    ensures
        is_answer(
            world.triggers,
            world.host,
            cmd,
            world.handled(cmd, chances).0.host,
            world.handled(cmd, chances).1[0],
        ),
{
    reveal(is_answer);
}

/// Every command has exactly one response, and it answers the command.
pub proof fn law_commands_are_answered(world: World, cmd: CmdView, chances: Chances)
    ensures
        world.handled(cmd, chances).1.len() == 1,
        is_answer(
            world.triggers,
            world.host,
            cmd,
            world.handled(cmd, chances).0.host,
            world.handled(cmd, chances).1[0],
        ),
{
    crate::debugging_laws::law_every_command_is_answered_once(world, cmd, chances);
    match cmd {
        CmdView::GetMemory { .. } => {
            lemma_memory_is_answered(world, cmd, chances);
        },
        CmdView::GetMemoryAtReg { .. } => {
            lemma_memory_is_answered(world, cmd, chances);
        },
        CmdView::GetState => {
            lemma_state_is_answered(world, cmd, chances);
        },
        CmdView::Step => {
            lemma_state_is_answered(world, cmd, chances);
        },
        CmdView::StepOver => {
            lemma_step_over_is_answered(world, chances);
        },
        CmdView::DisassemblePc { .. } => {
            lemma_listing_is_answered(world, cmd, chances);
        },
        CmdView::Disassemble { .. } => {
            lemma_listing_is_answered(world, cmd, chances);
        },
        _ => {
            lemma_talk_is_answered(world, cmd, chances);
        },
    }
}

} // verus!
