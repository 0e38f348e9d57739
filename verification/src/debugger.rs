//! The debugger that a controller talks to.
use crate::address::{code_address, fetch_address, ADDRESS_SPACE_SIZE, MAX_ADDRESS};
use crate::channel::{offers_made, polls_made, send_response, Offer, PollView};
use crate::command_laws::{is_answer, law_commands_are_answered, law_responses_go_in_order};
use crate::disassembly::{listing_view, neutral_disassemble, Allocations};
use crate::execution::HostView;
use crate::machine::{AgonMachine, MachineView, UNMAPPED_BYTE};
use crate::prefix::{scan_ez80_prefixes, CodeView, PrefixScanError};
use crate::processor::{
    cpu_contents, cpu_instructions_executed, cpu_registers, cpu_set_trace,
};
use crate::protocol::{copy_triggers, triggers_view, CmdView, RespView, TriggerView};
use crate::text::append_hexadecimal;
use crate::world::{
    is_call, is_restart, next_in_space, return_trigger, survives, Chances, TickStep, World,
    MAX_DEBUGGER_MEMORY_BYTES,
};
use vstd::prelude::*;

pub use crate::channel::DebuggerConnection;
pub use crate::processor::{Reg16, Registers};
pub use crate::protocol::{DebugCmd, DebugResp, DebuggerError, PauseReason, Trigger};

verus! {

/// The result of something that may fail because the controller has gone.
pub type DebuggerResult = Result<(), DebuggerError>;

/// A debugger: its connection, the triggers that are set, and the fault that was already reported.
pub struct DebuggerServer {
    pub con: DebuggerConnection,
    pub triggers: Vec<Trigger>,
    pub reported_memory_fault: Option<u32>,
}

/// A debugger as mathematics.
#[verifier::ext_equal]
pub struct ServerView {
    pub triggers: Seq<TriggerView>,
    pub reported: Option<u32>,
    /// The responses that were handed to the controller so far.
    pub offers: Seq<Offer>,
    /// What looking for commands has come to so far.
    pub polls: Seq<PollView>,
}

impl View for DebuggerServer {
    type V = ServerView;

    open spec fn view(&self) -> ServerView {
        ServerView {
            triggers: triggers_view(self.triggers@),
            reported: self.reported_memory_fault,
            offers: offers_made(self.con.tx),
            polls: polls_made(self.con.rx),
        }
    }
}

impl ServerView {
    /// The world of the debugger.
    pub open spec fn world(self, host: HostView) -> World {
        World { triggers: self.triggers, reported: self.reported, host }
    }
}

/// Answers that the controller took.
pub open spec fn delivered(answers: Seq<RespView>) -> Seq<Offer> {
    answers.map_values(|response: RespView| Offer { response, accepted: true })
}

/// Answers that the controller took up to one that it did not take.
pub open spec fn refused_at(answers: Seq<RespView>, count: int) -> Seq<Offer> {
    delivered(answers.take(count)).push(Offer { response: answers[count], accepted: false })
}

/// Whether answers were handed to the controller one after the other: all of them, or up to the
/// first that it did not take.
pub open spec fn answered(
    before: Seq<Offer>,
    after: Seq<Offer>,
    answers: Seq<RespView>,
    result: DebuggerResult,
) -> bool {
    match result {
        Ok(_) => after == before + delivered(answers),
        Err(_) => exists|count: int|
            0 <= count < answers.len() && after == before + #[trigger] refused_at(answers, count),
    }
}

/// Whether a debugger and its machine go through one step of a tick. All that the step changes
/// changes even if the controller does not take all of the answers.
pub open spec fn performs(
    before: ServerView,
    host: HostView,
    step: TickStep,
    chances: Chances,
    after: ServerView,
    host_after: HostView,
    result: DebuggerResult,
) -> bool {
    let (world, answers) = before.world(host).performed_step(step, chances);
    &&& after.world(host_after) == world
    &&& after.polls == before.polls
    &&& answered(before.offers, after.offers, answers, result)
}

/// A result without its value.
pub open spec fn forget(result: Result<bool, DebuggerError>) -> DebuggerResult {
    match result {
        Ok(_) => Ok(()),
        Err(error) => Err(error),
    }
}

/// Answers that were delivered one after the other were delivered together.
pub(crate) proof fn lemma_delivered_on(first: Seq<RespView>, second: Seq<RespView>)
    ensures
        delivered(first + second) == delivered(first) + delivered(second),
        forall|count: int|
            0 <= count < second.len() ==> #[trigger] refused_at(
                first + second,
                first.len() + count,
            ) == delivered(first) + refused_at(second, count),
        forall|count: int|
            0 <= count < first.len() ==> refused_at(first + second, count) == #[trigger] refused_at(
                first,
                count,
            ),
{
    assert(delivered(first + second) =~= delivered(first) + delivered(second));
    assert forall|count: int| 0 <= count < second.len() implies #[trigger] refused_at(
        first + second,
        first.len() + count,
    ) == delivered(first) + refused_at(second, count) by {
        assert(refused_at(first + second, first.len() + count) =~= delivered(first) + refused_at(
            second,
            count,
        ));
    }
    assert forall|count: int| 0 <= count < first.len() implies refused_at(first + second, count)
        == #[trigger] refused_at(first, count) by {
        assert(refused_at(first + second, count) =~= refused_at(first, count));
    }
}

/// Answers that follow others were handed over after them.
proof fn lemma_answered_on(
    before: Seq<Offer>,
    between: Seq<Offer>,
    after: Seq<Offer>,
    first: Seq<RespView>,
    second: Seq<RespView>,
    result: DebuggerResult,
)
    requires
        answered(before, between, first, Ok(())),
        answered(between, after, second, result),
    ensures
        answered(before, after, first + second, result),
{
    lemma_delivered_on(first, second);
    match result {
        Ok(_) => {
            assert(before + delivered(first) + delivered(second) =~= before + (delivered(first)
                + delivered(second)));
        },
        Err(_) => {
            let count: int = choose|count: int|
                0 <= count < second.len() && after == between + #[trigger] refused_at(
                    second,
                    count,
                );
            assert(after =~= before + refused_at(first + second, first.len() + count));
        },
    }
}

/// Where answers were not taken, those that would have followed were not handed over.
proof fn lemma_answers_broken_off(
    before: Seq<Offer>,
    after: Seq<Offer>,
    first: Seq<RespView>,
    second: Seq<RespView>,
    error: DebuggerError,
)
    requires
        answered(before, after, first, Err(error)),
    ensures
        answered(before, after, first + second, Err(error)),
{
    lemma_delivered_on(first, second);
    let count: int = choose|count: int|
        0 <= count < first.len() && after == before + #[trigger] refused_at(first, count);
    assert(after == before + refused_at(first + second, count));
}

/// An address some bytes on, but no further than the end of the address space.
fn address_after(address: u32, bytes: u32) -> (next: u32)
    requires
        bytes < 0x100,
    ensures
        next == next_in_space(address, bytes as int),
{
    if address as u64 + (bytes as u64) < ADDRESS_SPACE_SIZE {
        address + bytes
    } else {
        0x100_0000
    }
}

impl DebuggerServer {
    /// A debugger without triggers.
    pub fn new(con: DebuggerConnection) -> (server: Self)
        ensures
            server@ == (ServerView {
                triggers: Seq::empty(),
                reported: None,
                offers: offers_made(con.tx),
                polls: polls_made(con.rx),
            }),
    {
        let server = DebuggerServer { con, triggers: Vec::new(), reported_memory_fault: None };
        assert(server@.triggers =~= Seq::<TriggerView>::empty());
        server
    }

    /// Sends a response.
    pub fn send(&mut self, response: DebugResp) -> (result: DebuggerResult)
        ensures
            final(self)@ == (ServerView { offers: final(self)@.offers, ..old(self)@ }),
            answered(old(self)@.offers, final(self)@.offers, seq![response@], result),
    {
        let ghost before: Seq<Offer> = self@.offers;
        let ghost view: RespView = response@;
        if send_response(&mut self.con.tx, response) {
            assert(self@.offers =~= before + delivered(seq![view]));
            Ok(())
        } else {
            assert(self@.offers =~= before + refused_at(seq![view], 0));
            Err(DebuggerError::ControllerDisconnected)
        }
    }

    /// Takes note of a fault: neither the machine nor the debugger remembers it.
    pub fn acknowledge_memory_fault(&mut self, machine: &mut AgonMachine)
        ensures
            final(self)@ == (ServerView { reported: None, ..old(self)@ }),
            final(machine)@ == (MachineView { mem_out_of_bounds: None, ..old(machine)@ }),
    {
        machine.mem_out_of_bounds = None;
        self.reported_memory_fault = None;
    }

    /// Sends a listing.
    pub fn send_disassembly(
        &mut self,
        machine: &AgonMachine,
        cpu: &ez80::Cpu,
        adl_override: Option<bool>,
        start: u32,
        end: u32,
    ) -> (result: DebuggerResult)
        requires
            cpu_contents(*cpu).ready,
        ensures
            final(self)@ == (ServerView { offers: final(self)@.offers, ..old(self)@ }),
            exists|allocations: Allocations|
                answered(
                    old(self)@.offers,
                    final(self)@.offers,
                    seq![
                        #[trigger] machine.host(*cpu).disassembly_response(
                            adl_override,
                            start,
                            end,
                            allocations,
                        ),
                    ],
                    result,
                ),
    {
        let disasm = neutral_disassemble(machine, cpu, adl_override, start, end);
        let registers = cpu_registers(cpu);
        let adl: bool = match adl_override {
            Some(adl) => adl,
            None => registers.adl,
        };
        let response = DebugResp::Disassembly { pc: registers.next_pc(), adl, disasm };
        proof {
            let allocations: Allocations = choose|allocations: Allocations|
                listing_view(disasm@) == #[trigger] crate::disassembly::listed(
                    machine@,
                    cpu_contents(*cpu).registers.adl,
                    adl_override,
                    start,
                    end,
                    allocations,
                );
            assert(response@ == machine.host(*cpu).disassembly_response(
                adl_override,
                start,
                end,
                allocations,
            ));
        }
        self.send(response)
    }

    /// Sends some memory.
    pub fn send_mem(&mut self, machine: &AgonMachine, start: u32, len: u32) -> (result:
        DebuggerResult)
        ensures
            final(self)@ == (ServerView { offers: final(self)@.offers, ..old(self)@ }),
            answered(
                old(self)@.offers,
                final(self)@.offers,
                seq![machine@.memory_response(start, len)],
                result,
            ),
    {
        let count: u32 = if len < MAX_DEBUGGER_MEMORY_BYTES {
            len
        } else {
            MAX_DEBUGGER_MEMORY_BYTES
        };
        let mut data: Vec<u8> = Vec::new();
        let mut offset: u32 = 0;
        while offset < count
            invariant
                offset <= count <= MAX_DEBUGGER_MEMORY_BYTES,
                data@.len() == offset,
                forall|i: int|
                    0 <= i < offset ==> #[trigger] data@[i] == (if start + i <= MAX_ADDRESS {
                        crate::machine::read_or_default(machine@.observed(start + i))
                    } else {
                        UNMAPPED_BYTE
                    }),
            decreases count - offset,
        {
            let value: u8 = if start <= MAX_ADDRESS && start + offset <= MAX_ADDRESS {
                match machine.observed_byte(start + offset) {
                    Some(value) => value,
                    None => UNMAPPED_BYTE,
                }
            } else {
                UNMAPPED_BYTE
            };
            data.push(value);
            offset += 1;
        }
        let response = DebugResp::Memory { start, data };
        assert(response@ =~= machine@.memory_response(start, len));
        self.send(response)
    }

    /// Sends the state.
    pub fn send_state(&mut self, machine: &AgonMachine, cpu: &ez80::Cpu) -> (result: DebuggerResult)
        requires
            cpu_contents(*cpu).ready,
        ensures
            final(self)@ == (ServerView { offers: final(self)@.offers, ..old(self)@ }),
            exists|allocations: Allocations|
                answered(
                    old(self)@.offers,
                    final(self)@.offers,
                    seq![#[trigger] machine.host(*cpu).state_response(allocations)],
                    result,
                ),
    {
        let ghost host: HostView = machine.host(*cpu);
        let registers = cpu_registers(cpu);
        let sp: u32 = registers.address_in(Reg16::SP);
        let mut stack: [u8; 16] = [0; 16];
        let mut offset: usize = 0;
        while offset < 16
            invariant
                host == machine.host(*cpu),
                registers == host.cpu.registers,
                sp == registers.pointer(Reg16::SP),
                offset <= 16,
                forall|i: int| 0 <= i < offset ==> #[trigger] stack@[i] == host.stack()[i],
            decreases 16 - offset,
        {
            let address: u32 = code_address(sp, offset as u32, registers.adl, registers.mbase);
            stack[offset] =
            match machine.observed_byte(address) {
                Some(value) => value,
                None => UNMAPPED_BYTE,
            };
            offset += 1;
        }
        assert(stack@ =~= host.stack());
        let pc: u32 = registers.next_pc();
        let mut listing = neutral_disassemble(machine, cpu, None, pc, address_after(pc, 1));
        let ghost all = listing_view(listing@);
        let pc_instruction = if listing.len() > 0 {
            let first = listing.remove(0);
            assert(first@ == all[0]);
            first.text
        } else {
            String::new()
        };
        let response = DebugResp::State {
            registers,
            instructions_executed: cpu_instructions_executed(cpu),
            total_cycles_elapsed: machine.total_cycles_elapsed,
            stack,
            pc_instruction,
        };
        proof {
            let allocations: Allocations = choose|allocations: Allocations|
                all == #[trigger] crate::disassembly::listed(
                    machine@,
                    registers.adl,
                    None,
                    pc,
                    next_in_space(pc, 1),
                    allocations,
                );
            assert(pc_instruction@ =~= host.pc_instruction(allocations));
            assert(response@ == host.state_response(allocations));
        }
        self.send(response)
    }

    /// Sends the registers.
    pub fn send_registers(&mut self, cpu: &ez80::Cpu) -> (result: DebuggerResult)
        ensures
            final(self)@ == (ServerView { offers: final(self)@.offers, ..old(self)@ }),
            answered(
                old(self)@.offers,
                final(self)@.offers,
                seq![RespView::Registers(cpu_contents(*cpu).registers)],
                result,
            ),
    {
        self.send(DebugResp::Registers(cpu_registers(cpu)))
    }
}

/// The answers of a step that stops the machine were sent one after the other.
proof fn lemma_stop_reported(
    before: Seq<Offer>,
    after: Seq<Offer>,
    host: HostView,
    reason: PauseReason,
    chances: Chances,
    result: DebuggerResult,
)
    requires
        answered(
            before,
            after,
            seq![RespView::Paused(reason)] + (seq![
                host.disassembly_response(
                    None,
                    host.machine.last_pc,
                    fetch_address(
                        host.machine.last_pc as int,
                        1,
                        host.cpu.registers.adl,
                        host.cpu.registers.mbase as int,
                    ) as u32,
                    chances.listing,
                ),
            ] + seq![host.state_response(chances.state)]),
            result,
        ),
    ensures
        answered(before, after, host.stop_report(reason, chances), result),
{
    assert(host.stop_report(reason, chances) =~= seq![RespView::Paused(reason)] + (seq![
        host.disassembly_response(
            None,
            host.machine.last_pc,
            fetch_address(
                host.machine.last_pc as int,
                1,
                host.cpu.registers.adl,
                host.cpu.registers.mbase as int,
            ) as u32,
            chances.listing,
        ),
    ] + seq![host.state_response(chances.state)]));
}

impl DebuggerServer {
    /// Reports that the machine has stopped by itself: the reason, the last instruction and the
    /// state.
    fn report_stop(&mut self, reason: PauseReason, machine: &AgonMachine, cpu: &ez80::Cpu) -> (result:
        DebuggerResult)
        requires
            cpu_contents(*cpu).ready,
        ensures
            final(self)@ == (ServerView { offers: final(self)@.offers, ..old(self)@ }),
            exists|chances: Chances|
                answered(
                    old(self)@.offers,
                    final(self)@.offers,
                    #[trigger] machine.host(*cpu).stop_report(reason, chances),
                    result,
                ),
    {
        let ghost host: HostView = machine.host(*cpu);
        let ghost s0: Seq<Offer> = self@.offers;
        let registers = cpu_registers(cpu);
        let end: u32 = code_address(machine.last_pc, 1, registers.adl, registers.mbase);
        let ghost first: Seq<RespView> = seq![RespView::Paused(reason)];
        if let Err(error) = self.send(DebugResp::Paused(reason)) {
            proof {
                let chances: Chances = Chances { listing: None, state: None };
                lemma_answers_broken_off(
                    s0,
                    self@.offers,
                    first,
                    seq![
                        host.disassembly_response(None, machine.last_pc, end, chances.listing),
                    ] + seq![host.state_response(chances.state)],
                    error,
                );
                lemma_stop_reported(s0, self@.offers, host, reason, chances, Err(error));
            }
            return Err(error);
        }
        let ghost s1: Seq<Offer> = self@.offers;
        let listed = self.send_disassembly(machine, cpu, None, machine.last_pc, end);
        let ghost listing: Allocations = choose|allocations: Allocations|
            answered(
                s1,
                self@.offers,
                seq![
                    #[trigger] host.disassembly_response(None, machine.last_pc, end, allocations),
                ],
                listed,
            );
        let ghost second: Seq<RespView> = seq![
            host.disassembly_response(None, machine.last_pc, end, listing),
        ];
        if let Err(error) = listed {
            proof {
                let chances: Chances = Chances { listing, state: None };
                lemma_answers_broken_off(
                    s1,
                    self@.offers,
                    second,
                    seq![host.state_response(chances.state)],
                    error,
                );
                lemma_answered_on(
                    s0,
                    s1,
                    self@.offers,
                    first,
                    second + seq![host.state_response(chances.state)],
                    Err(error),
                );
                lemma_stop_reported(s0, self@.offers, host, reason, chances, Err(error));
            }
            return Err(error);
        }
        let ghost s2: Seq<Offer> = self@.offers;
        let result = self.send_state(machine, cpu);
        proof {
            let state: Allocations = choose|allocations: Allocations|
                answered(
                    s2,
                    self@.offers,
                    seq![#[trigger] host.state_response(allocations)],
                    result,
                );
            let chances: Chances = Chances { listing, state };
            let third: Seq<RespView> = seq![host.state_response(state)];
            lemma_answered_on(s1, s2, self@.offers, second, third, result);
            lemma_answered_on(s0, s1, self@.offers, first, second + third, result);
            lemma_stop_reported(s0, self@.offers, host, reason, chances, result);
        }
        result
    }

    /// Sends the state because a program asked for it.
    fn dump_state(&mut self, port: u16, machine: &AgonMachine, cpu: &ez80::Cpu) -> (result:
        DebuggerResult)
        requires
            cpu_contents(*cpu).ready,
        ensures
            final(self)@ == (ServerView { offers: final(self)@.offers, ..old(self)@ }),
            exists|allocations: Allocations|
                answered(
                    old(self)@.offers,
                    final(self)@.offers,
                    #[trigger] machine.host(*cpu).state_dump(port, allocations),
                    result,
                ),
    {
        let ghost host: HostView = machine.host(*cpu);
        let ghost s0: Seq<Offer> = self@.offers;
        let mut text = String::from_str("State dump triggered by IO 0x");
        append_hexadecimal(&mut text, port as u32, 0);
        text.append(" access at PC=$");
        append_hexadecimal(&mut text, machine.last_pc, 0);
        let ghost first: Seq<RespView> = seq![RespView::Message(text@)];
        if let Err(error) = self.send(DebugResp::Message(text)) {
            proof {
                let none: Allocations = None;
                lemma_answers_broken_off(
                    s0,
                    self@.offers,
                    first,
                    seq![host.state_response(none)],
                    error,
                );
                assert(first + seq![host.state_response(none)] =~= host.state_dump(port, none));
            }
            return Err(error);
        }
        let ghost s1: Seq<Offer> = self@.offers;
        let result = self.send_state(machine, cpu);
        proof {
            let state: Allocations = choose|allocations: Allocations|
                answered(
                    s1,
                    self@.offers,
                    seq![#[trigger] host.state_response(allocations)],
                    result,
                );
            lemma_answered_on(s0, s1, self@.offers, first, seq![host.state_response(state)], result);
            assert(first + seq![host.state_response(state)] =~= host.state_dump(port, state));
        }
        result
    }

    /// Looks at a fault of the last instruction, and says whether there is one.
    pub fn on_out_of_bounds(&mut self, machine: &mut AgonMachine, cpu: &ez80::Cpu) -> (result: Result<
        bool,
        DebuggerError,
    >)
        requires
            cpu_contents(*cpu).ready,
        ensures
            exists|chances: Chances|
                #[trigger] performs(
                    old(self)@,
                    old(machine).host(*cpu),
                    TickStep::Fault,
                    chances,
                    final(self)@,
                    final(machine).host(*cpu),
                    forget(result),
                ),
            result matches Ok(faulted) ==> faulted == old(machine)@.mem_out_of_bounds is Some,
    {
        let ghost before: ServerView = self@;
        let ghost host: HostView = machine.host(*cpu);
        let ghost idle: Chances = Chances { listing: None, state: None };
        let address: u32 = match machine.mem_out_of_bounds {
            Some(address) => address,
            None => {
                self.reported_memory_fault = None;
                proof {
                    assert(self@.offers =~= before.offers + delivered(Seq::<RespView>::empty()));
                    assert(performs(
                        before,
                        host,
                        TickStep::Fault,
                        idle,
                        self@,
                        machine.host(*cpu),
                        Ok(()),
                    ));
                }
                return Ok(false);
            },
        };
        machine.set_paused(true);
        if let Some(reported) = self.reported_memory_fault {
            if reported == address {
                proof {
                    assert(self@.offers =~= before.offers + delivered(Seq::<RespView>::empty()));
                    assert(performs(
                        before,
                        host,
                        TickStep::Fault,
                        idle,
                        self@,
                        machine.host(*cpu),
                        Ok(()),
                    ));
                }
                return Ok(true);
            }
        }
        self.reported_memory_fault = Some(address);
        let reason = PauseReason::OutOfBoundsMemAccess(address);
        let result = self.report_stop(reason, machine, cpu);
        proof {
            let chances: Chances = choose|chances: Chances|
                answered(
                    before.offers,
                    self@.offers,
                    #[trigger] machine.host(*cpu).stop_report(reason, chances),
                    result,
                );
            assert(performs(
                before,
                host,
                TickStep::Fault,
                chances,
                self@,
                machine.host(*cpu),
                result,
            ));
        }
        match result {
            Ok(done) => {
                assert(done == ());
                Ok(true)
            },
            Err(error) => Err(error),
        }
    }

    /// Looks at an access to an I/O port without a peripheral. Programs can pause themselves or
    /// dump the state through these.
    pub fn on_unhandled_io(&mut self, machine: &mut AgonMachine, cpu: &ez80::Cpu) -> (result:
        DebuggerResult)
        requires
            cpu_contents(*cpu).ready,
        ensures
            exists|chances: Chances|
                #[trigger] performs(
                    old(self)@,
                    old(machine).host(*cpu),
                    TickStep::Io,
                    chances,
                    final(self)@,
                    final(machine).host(*cpu),
                    result,
                ),
    {
        let ghost before: ServerView = self@;
        let ghost host: HostView = machine.host(*cpu);
        let ghost idle: Chances = Chances { listing: None, state: None };
        let unhandled = machine.io_unhandled;
        machine.io_unhandled = None;
        if let Some(address) = unhandled {
            let port: u16 = address % 0x100;
            if 0x10 <= port && port <= 0x1f {
                machine.set_paused(true);
                let reason = PauseReason::IOBreakpoint(port as u8);
                let result = self.report_stop(reason, machine, cpu);
                proof {
                    let chances: Chances = choose|chances: Chances|
                        answered(
                            before.offers,
                            self@.offers,
                            #[trigger] machine.host(*cpu).stop_report(reason, chances),
                            result,
                        );
                    assert(performs(
                        before,
                        host,
                        TickStep::Io,
                        chances,
                        self@,
                        machine.host(*cpu),
                        result,
                    ));
                }
                return result;
            }
            if 0x20 <= port && port <= 0x2f {
                let result = self.dump_state(port, machine, cpu);
                proof {
                    let state: Allocations = choose|allocations: Allocations|
                        answered(
                            before.offers,
                            self@.offers,
                            #[trigger] machine.host(*cpu).state_dump(port, allocations),
                            result,
                        );
                    let chances: Chances = Chances { listing: None, state };
                    assert(performs(
                        before,
                        host,
                        TickStep::Io,
                        chances,
                        self@,
                        machine.host(*cpu),
                        result,
                    ));
                }
                return result;
            }
        }
        proof {
            assert(self@.offers =~= before.offers + delivered(Seq::<RespView>::empty()));
            assert(performs(before, host, TickStep::Io, idle, self@, machine.host(*cpu), Ok(())));
        }
        Ok(())
    }
}

/// The triggers that are left when those at an address are removed, or only the one-shots among
/// them.
pub(crate) fn surviving_triggers(triggers: &Vec<Trigger>, address: u32, one_shots_only: bool) -> (left: Vec<
    Trigger,
>)
    ensures
        triggers_view(left@) == triggers_view(triggers@).filter(survives(address, one_shots_only)),
{
    let ghost all: Seq<TriggerView> = triggers_view(triggers@);
    let ghost keep: spec_fn(TriggerView) -> bool = survives(address, one_shots_only);
    let mut left: Vec<Trigger> = Vec::new();
    let mut i: usize = 0;
    reveal(Seq::filter);
    assert(triggers_view(left@) =~= all.take(0).filter(keep));
    while i < triggers.len()
        invariant
            all == triggers_view(triggers@),
            keep == survives(address, one_shots_only),
            i <= triggers@.len(),
            triggers_view(left@) == all.take(i as int).filter(keep),
        decreases triggers@.len() - i,
    {
        let ghost before: Seq<TriggerView> = triggers_view(left@);
        let ghost next: Seq<TriggerView> = all.take(i + 1);
        proof {
            reveal(Seq::filter);
            assert(next.drop_last() =~= all.take(i as int));
            assert(next.last() == triggers@[i as int]@);
        }
        let trigger = &triggers[i];
        if trigger.address != address || (one_shots_only && !trigger.once) {
            let copy = trigger.clone();
            left.push(copy);
            assert(triggers_view(left@) =~= before.push(copy@));
        }
        i += 1;
    }
    assert(all.take(i as int) =~= all);
    left
}

/// The trigger that pauses the machine once behind a call or restart.
fn return_to(address: u32, text: &str) -> (trigger: Trigger)
    ensures
        trigger@ == return_trigger(address, text@),
{
    let mut actions: Vec<DebugCmd> = Vec::new();
    actions.push(DebugCmd::Pause(PauseReason::DebuggerRequested));
    actions.push(DebugCmd::Message(String::from_str(text)));
    actions.push(DebugCmd::GetState);
    let trigger = Trigger { address, once: true, actions };
    assert(trigger@.actions =~= return_trigger(address, text@).actions);
    trigger
}

/// Whether an opcode is one of the restarts.
pub fn opcode_restarts(opcode: u8) -> (restarts: bool)
    ensures
        restarts == is_restart(opcode),
        restarts == (opcode >= 0xc0 && opcode % 8 == 7),
{
    match opcode {
        0xc7 | 0xd7 | 0xe7 | 0xf7 | 0xcf | 0xdf | 0xef | 0xff => true,
        _ => false,
    }
}

/// Whether an opcode is one of the calls.
pub fn opcode_calls(opcode: u8) -> (calls: bool)
    ensures
        calls == is_call(opcode),
        calls == (opcode == 0xcd || (opcode >= 0xc0 && opcode % 8 == 4)),
{
    match opcode {
        0xc4 | 0xd4 | 0xe4 | 0xf4 | 0xcc | 0xcd | 0xdc | 0xec | 0xfc => true,
        _ => false,
    }
}

impl DebuggerServer {
    /// Sets a trigger.
    fn add_trigger(&mut self, trigger: Trigger)
        ensures
            final(self)@ == (ServerView {
                triggers: old(self)@.triggers.push(trigger@),
                ..old(self)@
            }),
    {
        self.triggers.push(trigger);
        assert(self@.triggers =~= old(self)@.triggers.push(trigger@));
    }

    /// Acknowledges a fault, executes one instruction, and sends the state.
    fn step_and_report(&mut self, machine: &mut AgonMachine, cpu: &mut ez80::Cpu) -> (result:
        DebuggerResult)
        requires
            cpu_contents(*old(cpu)).ready,
        ensures
            cpu_contents(*final(cpu)).ready,
            cpu_contents(*final(cpu)).instructions_executed == cpu_contents(
                *old(cpu),
            ).instructions_executed + (if old(self)@.world(
                old(machine).host(*old(cpu)),
            ).acknowledged().host.executes() {
                1int
            } else {
                0int
            }),
            final(self)@.world(final(machine).host(*final(cpu))) == old(self)@.world(
                old(machine).host(*old(cpu)),
            ).stepped(),
            final(self)@.polls == old(self)@.polls,
            exists|allocations: Allocations|
                answered(
                    old(self)@.offers,
                    final(self)@.offers,
                    seq![
                        #[trigger] final(machine).host(*final(cpu)).state_response(allocations),
                    ],
                    result,
                ),
    {
        self.acknowledge_memory_fault(machine);
        machine.execute_and_settle_instruction(cpu);
        machine.set_paused(true);
        self.send_state(machine, cpu)
    }

    /// Steps over the next instruction.
    pub fn step_over(&mut self, machine: &mut AgonMachine, cpu: &mut ez80::Cpu) -> (result:
        DebuggerResult)
        requires
            cpu_contents(*old(cpu)).ready,
        ensures
            cpu_contents(*final(cpu)).ready,
            cpu_contents(*final(cpu)).instructions_executed == cpu_contents(
                *old(cpu),
            ).instructions_executed + (if old(self)@.world(
                old(machine).host(*old(cpu)),
            ).executes_for(CmdView::StepOver) {
                1int
            } else {
                0int
            }),
            exists|chances: Chances|
                #[trigger] performs(
                    old(self)@,
                    old(machine).host(*old(cpu)),
                    TickStep::Command(CmdView::StepOver),
                    chances,
                    final(self)@,
                    final(machine).host(*final(cpu)),
                    result,
                ),
    {
        let ghost before: ServerView = self@;
        let ghost host: HostView = machine.host(*cpu);
        let ghost idle: Chances = Chances { listing: None, state: None };
        let ghost code: CodeView = before.world(host).code();
        let registers = cpu_registers(cpu);
        let pc: u32 = registers.next_pc();
        match scan_ez80_prefixes(machine, pc, registers.adl, registers.mbase) {
            Ok(scan) => {
                proof {
                    crate::prefix::law_scan_is_bounded(code);
                }
                let restarts: bool = opcode_restarts(scan.opcode);
                if restarts || opcode_calls(scan.opcode) {
                    let len: u32 = if restarts {
                        scan.prefix_len + 1
                    } else if scan.immediate_long {
                        scan.prefix_len + 4
                    } else {
                        scan.prefix_len + 3
                    };
                    let successor: u32 = code_address(pc, len, registers.adl, registers.mbase);
                    let text = if restarts {
                        "Stepped over RST"
                    } else {
                        "Stepped over CALL"
                    };
                    self.add_trigger(return_to(successor, text));
                    self.acknowledge_memory_fault(machine);
                    machine.set_paused(false);
                    let result = self.send(DebugResp::Resumed);
                    assert(performs(
                        before,
                        host,
                        TickStep::Command(CmdView::StepOver),
                        idle,
                        self@,
                        machine.host(*cpu),
                        result,
                    ));
                    return result;
                }
            },
            Err(PrefixScanError::FullSpan) => {
                machine.set_paused(true);
                let text = String::from_str(
                    "StepOver refused: the complete code-address span contains only eZ80 prefixes",
                );
                let result = self.send(DebugResp::Message(text));
                assert(performs(
                    before,
                    host,
                    TickStep::Command(CmdView::StepOver),
                    idle,
                    self@,
                    machine.host(*cpu),
                    result,
                ));
                return result;
            },
            Err(PrefixScanError::Unmapped { .. }) => {},
        }
        // Anything else is executed by the machine itself, so that a fault is an ordinary one.
        let result = self.step_and_report(machine, cpu);
        proof {
            let state: Allocations = choose|allocations: Allocations|
                answered(
                    before.offers,
                    self@.offers,
                    seq![#[trigger] machine.host(*cpu).state_response(allocations)],
                    result,
                );
            let chances: Chances = Chances { listing: None, state };
            assert(performs(
                before,
                host,
                TickStep::Command(CmdView::StepOver),
                chances,
                self@,
                machine.host(*cpu),
                result,
            ));
        }
        result
    }
}

impl DebuggerServer {
    /// Carries out a command and answers it.
    pub fn handle_debug_cmd(
        &mut self,
        cmd: &DebugCmd,
        machine: &mut AgonMachine,
        cpu: &mut ez80::Cpu,
    ) -> (result: DebuggerResult)
        requires
            cpu_contents(*old(cpu)).ready,
        ensures
            cpu_contents(*final(cpu)).ready,
            cpu_contents(*final(cpu)).instructions_executed == cpu_contents(
                *old(cpu),
            ).instructions_executed + (if old(self)@.world(
                old(machine).host(*old(cpu)),
            ).executes_for(cmd@) {
                1int
            } else {
                0int
            }),
            exists|chances: Chances|
                #[trigger] performs(
                    old(self)@,
                    old(machine).host(*old(cpu)),
                    TickStep::Command(cmd@),
                    chances,
                    final(self)@,
                    final(machine).host(*final(cpu)),
                    result,
                ),
            final(self)@.offers.len() == old(self)@.offers.len() + 1,
            final(self)@.offers.last().accepted == (result is Ok),
            is_answer(
                old(self)@.triggers,
                old(machine).host(*old(cpu)),
                cmd@,
                final(machine).host(*final(cpu)),
                final(self)@.offers.last().response,
            ),
    {
        let ghost before: ServerView = self@;
        let ghost host: HostView = machine.host(*cpu);
        let result = self.carry_out(cmd, machine, cpu);
        proof {
            let chances: Chances = choose|chances: Chances|
                #[trigger] performs(
                    before,
                    host,
                    TickStep::Command(cmd@),
                    chances,
                    self@,
                    machine.host(*cpu),
                    result,
                );
            law_commands_are_answered(before.world(host), cmd@, chances);
            law_responses_go_in_order(
                before.offers,
                self@.offers,
                before.world(host).handled(cmd@, chances).1,
                result,
            );
        }
        result
    }

    /// Carries out a command and hands its response to the controller.
    fn carry_out(
        &mut self,
        cmd: &DebugCmd,
        machine: &mut AgonMachine,
        cpu: &mut ez80::Cpu,
    ) -> (result: DebuggerResult)
        requires
            cpu_contents(*old(cpu)).ready,
        ensures
            cpu_contents(*final(cpu)).ready,
            cpu_contents(*final(cpu)).instructions_executed == cpu_contents(
                *old(cpu),
            ).instructions_executed + (if old(self)@.world(
                old(machine).host(*old(cpu)),
            ).executes_for(cmd@) {
                1int
            } else {
                0int
            }),
            exists|chances: Chances|
                #[trigger] performs(
                    old(self)@,
                    old(machine).host(*old(cpu)),
                    TickStep::Command(cmd@),
                    chances,
                    final(self)@,
                    final(machine).host(*final(cpu)),
                    result,
                ),
    {
        let ghost before: ServerView = self@;
        let ghost host: HostView = machine.host(*cpu);
        let ghost idle: Chances = Chances { listing: None, state: None };
        match cmd {
            DebugCmd::Ping => {
                let result = self.send(DebugResp::Pong);
                assert(performs(
                    before,
                    host,
                    TickStep::Command(cmd@),
                    idle,
                    self@,
                    machine.host(*cpu),
                    result,
                ));
                result
            },
            DebugCmd::Message(text) => {
                let result = self.send(DebugResp::Message(text.clone()));
                assert(performs(
                    before,
                    host,
                    TickStep::Command(cmd@),
                    idle,
                    self@,
                    machine.host(*cpu),
                    result,
                ));
                result
            },
            DebugCmd::SetTrace(trace) => {
                cpu_set_trace(cpu, *trace);
                let result = self.send(DebugResp::Pong);
                assert(performs(
                    before,
                    host,
                    TickStep::Command(cmd@),
                    idle,
                    self@,
                    machine.host(*cpu),
                    result,
                ));
                result
            },
            DebugCmd::ListTriggers => {
                let triggers = copy_triggers(&self.triggers);
                let result = self.send(DebugResp::Triggers(triggers));
                assert(performs(
                    before,
                    host,
                    TickStep::Command(cmd@),
                    idle,
                    self@,
                    machine.host(*cpu),
                    result,
                ));
                result
            },
            DebugCmd::Pause(reason) => {
                machine.set_paused(true);
                let result = self.send(DebugResp::Paused(*reason));
                assert(performs(
                    before,
                    host,
                    TickStep::Command(cmd@),
                    idle,
                    self@,
                    machine.host(*cpu),
                    result,
                ));
                result
            },
            DebugCmd::Continue => {
                self.acknowledge_memory_fault(machine);
                machine.set_paused(false);
                let result = self.send(DebugResp::Resumed);
                assert(performs(
                    before,
                    host,
                    TickStep::Command(cmd@),
                    idle,
                    self@,
                    machine.host(*cpu),
                    result,
                ));
                result
            },
            DebugCmd::AddTrigger(trigger) => {
                self.add_trigger(trigger.clone());
                let result = self.send(DebugResp::Pong);
                assert(performs(
                    before,
                    host,
                    TickStep::Command(cmd@),
                    idle,
                    self@,
                    machine.host(*cpu),
                    result,
                ));
                result
            },
            DebugCmd::DeleteTrigger(address) => {
                self.triggers = surviving_triggers(&self.triggers, *address, false);
                let result = self.send(DebugResp::Pong);
                assert(performs(
                    before,
                    host,
                    TickStep::Command(cmd@),
                    idle,
                    self@,
                    machine.host(*cpu),
                    result,
                ));
                result
            },
            DebugCmd::GetRegisters => {
                let result = self.send_registers(cpu);
                assert(performs(
                    before,
                    host,
                    TickStep::Command(cmd@),
                    idle,
                    self@,
                    machine.host(*cpu),
                    result,
                ));
                result
            },
            DebugCmd::GetMemory { start, len } => {
                let result = self.send_mem(machine, *start, *len);
                assert(performs(
                    before,
                    host,
                    TickStep::Command(cmd@),
                    idle,
                    self@,
                    machine.host(*cpu),
                    result,
                ));
                result
            },
            DebugCmd::GetMemoryAtReg { reg, len } => {
                let address: u32 = cpu_registers(cpu).address_in(*reg);
                let result = self.send_mem(machine, address, *len);
                assert(performs(
                    before,
                    host,
                    TickStep::Command(cmd@),
                    idle,
                    self@,
                    machine.host(*cpu),
                    result,
                ));
                result
            },
            DebugCmd::GetState => {
                let result = self.send_state(machine, cpu);
                proof {
                    let state: Allocations = choose|allocations: Allocations|
                        answered(
                            before.offers,
                            self@.offers,
                            seq![#[trigger] machine.host(*cpu).state_response(allocations)],
                            result,
                        );
                    let chances: Chances = Chances { listing: None, state };
                    assert(performs(
                        before,
                        host,
                        TickStep::Command(cmd@),
                        chances,
                        self@,
                        machine.host(*cpu),
                        result,
                    ));
                }
                result
            },
            DebugCmd::Step => {
                let result = self.step_and_report(machine, cpu);
                proof {
                    let state: Allocations = choose|allocations: Allocations|
                        answered(
                            before.offers,
                            self@.offers,
                            seq![#[trigger] machine.host(*cpu).state_response(allocations)],
                            result,
                        );
                    let chances: Chances = Chances { listing: None, state };
                    assert(performs(
                        before,
                        host,
                        TickStep::Command(cmd@),
                        chances,
                        self@,
                        machine.host(*cpu),
                        result,
                    ));
                }
                result
            },
            DebugCmd::StepOver => self.step_over(machine, cpu),
            DebugCmd::DisassemblePc { adl } => {
                let start: u32 = cpu_registers(cpu).next_pc();
                let end: u32 = address_after(start, 0x20);
                let result = self.send_disassembly(machine, cpu, *adl, start, end);
                proof {
                    let listing: Allocations = choose|allocations: Allocations|
                        answered(
                            before.offers,
                            self@.offers,
                            seq![
                                #[trigger] host.disassembly_response(*adl, start, end, allocations),
                            ],
                            result,
                        );
                    let chances: Chances = Chances { listing, state: None };
                    assert(performs(
                        before,
                        host,
                        TickStep::Command(cmd@),
                        chances,
                        self@,
                        machine.host(*cpu),
                        result,
                    ));
                }
                result
            },
            DebugCmd::Disassemble { adl, start, end } => {
                let start: u32 = *start;
                let end: u32 = if *end <= start {
                    address_after(start, 0x20)
                } else {
                    *end
                };
                let result = self.send_disassembly(machine, cpu, *adl, start, end);
                proof {
                    let listing: Allocations = choose|allocations: Allocations|
                        answered(
                            before.offers,
                            self@.offers,
                            seq![
                                #[trigger] host.disassembly_response(*adl, start, end, allocations),
                            ],
                            result,
                        );
                    let chances: Chances = Chances { listing, state: None };
                    assert(performs(
                        before,
                        host,
                        TickStep::Command(cmd@),
                        chances,
                        self@,
                        machine.host(*cpu),
                        result,
                    ));
                }
                result
            },
        }
    }
}

/// A debugger is told in full: its triggers in their order, the fault it has reported, and what its
/// two channels have seen.
pub proof fn law_debugger_is_told_in_full(server: DebuggerServer)
    ensures
        server@.triggers.len() == server.triggers@.len(),
        forall|i: int|
            0 <= i < server.triggers@.len() ==> #[trigger] server@.triggers[i]
                == server.triggers@[i]@,
        server@.reported == server.reported_memory_fault,
        server@.offers == offers_made(server.con.tx),
        server@.polls == polls_made(server.con.rx),
{
}

} // verus!
