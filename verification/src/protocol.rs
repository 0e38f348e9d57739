//! What a debugger and its controller say to each other.
use crate::disassembly::{listing_view, Disasm, DisasmView};
use crate::processor::{Reg16, Registers};
use vstd::prelude::*;

verus! {

/// Why talking to the controller failed.
#[derive(Debug, Clone, Copy, PartialEq, Eq, Structural)]
pub enum DebuggerError {
    ControllerDisconnected,
}

impl DebuggerError {
    /// The message that tells the error.
    pub fn message(&self) -> (message: String)
        ensures
            message@ == "debugger controller disconnected"@,
    {
        String::from_str("debugger controller disconnected")
    }
}

/// Why the machine was paused.
#[derive(Debug, Clone, Copy, PartialEq, Eq, Structural)]
pub enum PauseReason {
    DebuggerRequested,
    /// An access to an unmapped address.
    OutOfBoundsMemAccess(u32),
    DebuggerBreakpoint,
    IOBreakpoint(u8),
}

/// What a controller asks for.
#[derive(Debug)]
pub enum DebugCmd {
    Ping,
    Pause(PauseReason),
    Continue,
    Step,
    StepOver,
    SetTrace(bool),
    Message(String),
    AddTrigger(Trigger),
    DeleteTrigger(u32),
    ListTriggers,
    GetMemory { start: u32, len: u32 },
    GetMemoryAtReg { reg: Reg16, len: u32 },
    GetRegisters,
    GetState,
    DisassemblePc { adl: Option<bool> },
    Disassemble { adl: Option<bool>, start: u32, end: u32 },
}

/// What a debugger answers.
#[derive(Debug)]
pub enum DebugResp {
    Resumed,
    Paused(PauseReason),
    Pong,
    Message(String),
    Registers(Registers),
    State {
        registers: Registers,
        instructions_executed: u64,
        total_cycles_elapsed: u64,
        stack: [u8; 16],
        pc_instruction: String,
    },
    Memory { start: u32, data: Vec<u8> },
    Disassembly { pc: u32, adl: bool, disasm: Vec<Disasm> },
    Triggers(Vec<Trigger>),
}

/// Commands to be run when the program counter reaches an address.
#[derive(Debug)]
pub struct Trigger {
    pub address: u32,
    pub once: bool,
    pub actions: Vec<DebugCmd>,
}

/// A command as mathematics.
pub enum CmdView {
    Ping,
    Pause(PauseReason),
    Continue,
    Step,
    StepOver,
    SetTrace(bool),
    Message(Seq<char>),
    AddTrigger(TriggerView),
    DeleteTrigger(u32),
    ListTriggers,
    GetMemory { start: u32, len: u32 },
    GetMemoryAtReg { reg: Reg16, len: u32 },
    GetRegisters,
    GetState,
    DisassemblePc { adl: Option<bool> },
    Disassemble { adl: Option<bool>, start: u32, end: u32 },
}

/// A trigger as mathematics.
#[verifier::ext_equal]
pub struct TriggerView {
    pub address: u32,
    pub once: bool,
    pub actions: Seq<CmdView>,
}

/// A response as mathematics.
#[verifier::ext_equal]
pub enum RespView {
    Resumed,
    Paused(PauseReason),
    Pong,
    Message(Seq<char>),
    Registers(Registers),
    State {
        registers: Registers,
        instructions_executed: u64,
        total_cycles_elapsed: u64,
        stack: Seq<u8>,
        pc_instruction: Seq<char>,
    },
    Memory { start: u32, data: Seq<u8> },
    Disassembly { pc: u32, adl: bool, disasm: Seq<DisasmView> },
    Triggers(Seq<TriggerView>),
}

/// A command as mathematics.
pub open spec fn cmd_view(cmd: DebugCmd) -> CmdView
    decreases cmd,
{
    match cmd {
        DebugCmd::Ping => CmdView::Ping,
        DebugCmd::Pause(reason) => CmdView::Pause(reason),
        DebugCmd::Continue => CmdView::Continue,
        DebugCmd::Step => CmdView::Step,
        DebugCmd::StepOver => CmdView::StepOver,
        DebugCmd::SetTrace(trace) => CmdView::SetTrace(trace),
        DebugCmd::Message(text) => CmdView::Message(text@),
        DebugCmd::AddTrigger(trigger) => CmdView::AddTrigger(trigger_view(trigger)),
        DebugCmd::DeleteTrigger(address) => CmdView::DeleteTrigger(address),
        DebugCmd::ListTriggers => CmdView::ListTriggers,
        DebugCmd::GetMemory { start, len } => CmdView::GetMemory { start, len },
        DebugCmd::GetMemoryAtReg { reg, len } => CmdView::GetMemoryAtReg { reg, len },
        DebugCmd::GetRegisters => CmdView::GetRegisters,
        DebugCmd::GetState => CmdView::GetState,
        DebugCmd::DisassemblePc { adl } => CmdView::DisassemblePc { adl },
        DebugCmd::Disassemble { adl, start, end } => CmdView::Disassemble { adl, start, end },
    }
}

/// Commands as mathematics.
pub open spec fn cmds_view(cmds: Seq<DebugCmd>) -> Seq<CmdView>
    decreases cmds,
{
    Seq::new(
        cmds.len(),
        |i: int|
            if 0 <= i < cmds.len() {
                cmd_view(cmds[i])
            } else {
                CmdView::Ping
            },
    )
}

/// A trigger as mathematics.
pub open spec fn trigger_view(trigger: Trigger) -> TriggerView
    decreases trigger,
{
    TriggerView {
        address: trigger.address,
        once: trigger.once,
        actions: cmds_view(trigger.actions@),
    }
}

/// Triggers as mathematics.
pub open spec fn triggers_view(triggers: Seq<Trigger>) -> Seq<TriggerView> {
    triggers.map_values(|trigger: Trigger| trigger_view(trigger))
}

impl View for DebugCmd {
    type V = CmdView;

    open spec fn view(&self) -> CmdView {
        cmd_view(*self)
    }
}

impl View for Trigger {
    type V = TriggerView;

    open spec fn view(&self) -> TriggerView {
        trigger_view(*self)
    }
}

impl View for DebugResp {
    type V = RespView;

    open spec fn view(&self) -> RespView {
        match *self {
            DebugResp::Resumed => RespView::Resumed,
            DebugResp::Paused(reason) => RespView::Paused(reason),
            DebugResp::Pong => RespView::Pong,
            DebugResp::Message(text) => RespView::Message(text@),
            DebugResp::Registers(registers) => RespView::Registers(registers),
            DebugResp::State {
                registers,
                instructions_executed,
                total_cycles_elapsed,
                stack,
                pc_instruction,
            } => RespView::State {
                registers,
                instructions_executed,
                total_cycles_elapsed,
                stack: stack@,
                pc_instruction: pc_instruction@,
            },
            DebugResp::Memory { start, data } => RespView::Memory { start, data: data@ },
            DebugResp::Disassembly { pc, adl, disasm } => RespView::Disassembly {
                pc,
                adl,
                disasm: listing_view(disasm@),
            },
            DebugResp::Triggers(triggers) => RespView::Triggers(triggers_view(triggers@)),
        }
    }
}

/// A copy of a command.
fn copy_cmd(cmd: &DebugCmd) -> (copy: DebugCmd)
    ensures
        copy@ == cmd@,
    decreases *cmd,
{
    match cmd {
        DebugCmd::Ping => DebugCmd::Ping,
        DebugCmd::Pause(reason) => DebugCmd::Pause(*reason),
        DebugCmd::Continue => DebugCmd::Continue,
        DebugCmd::Step => DebugCmd::Step,
        DebugCmd::StepOver => DebugCmd::StepOver,
        DebugCmd::SetTrace(trace) => DebugCmd::SetTrace(*trace),
        DebugCmd::Message(text) => DebugCmd::Message(text.clone()),
        DebugCmd::AddTrigger(trigger) => DebugCmd::AddTrigger(copy_trigger(trigger)),
        DebugCmd::DeleteTrigger(address) => DebugCmd::DeleteTrigger(*address),
        DebugCmd::ListTriggers => DebugCmd::ListTriggers,
        DebugCmd::GetMemory { start, len } => DebugCmd::GetMemory { start: *start, len: *len },
        DebugCmd::GetMemoryAtReg { reg, len } => DebugCmd::GetMemoryAtReg { reg: *reg, len: *len },
        DebugCmd::GetRegisters => DebugCmd::GetRegisters,
        DebugCmd::GetState => DebugCmd::GetState,
        DebugCmd::DisassemblePc { adl } => DebugCmd::DisassemblePc { adl: *adl },
        DebugCmd::Disassemble { adl, start, end } => DebugCmd::Disassemble {
            adl: *adl,
            start: *start,
            end: *end,
        },
    }
}

/// A copy of a trigger.
fn copy_trigger(trigger: &Trigger) -> (copy: Trigger)
    ensures
        copy@ == trigger@,
    decreases *trigger,
{
    proof {
        assert(decreases_to!(*trigger => trigger.actions));
        assert(decreases_to!(trigger.actions => trigger.actions@));
    }
    Trigger {
        address: trigger.address,
        once: trigger.once,
        actions: copy_cmds(&trigger.actions),
    }
}

/// A copy of some commands.
fn copy_cmds(cmds: &Vec<DebugCmd>) -> (copy: Vec<DebugCmd>)
    ensures
        cmds_view(copy@) == cmds_view(cmds@),
    decreases cmds@,
{
    let mut copy: Vec<DebugCmd> = Vec::new();
    let mut i: usize = 0;
    while i < cmds.len()
        invariant
            i <= cmds@.len(),
            copy@.len() == i,
            forall|j: int| 0 <= j < i ==> cmd_view(#[trigger] copy@[j]) == cmd_view(cmds@[j]),
        decreases cmds@.len() - i,
    {
        proof {
            assert(decreases_to!(cmds@ => cmds@[i as int]));
        }
        copy.push(copy_cmd(&cmds[i]));
        i += 1;
    }
    assert(cmds_view(copy@) =~= cmds_view(cmds@));
    copy
}

/// A copy of some triggers.
pub fn copy_triggers(triggers: &Vec<Trigger>) -> (copy: Vec<Trigger>)
    ensures
        triggers_view(copy@) == triggers_view(triggers@),
{
    let mut copy: Vec<Trigger> = Vec::new();
    let mut i: usize = 0;
    while i < triggers.len()
        invariant
            i <= triggers@.len(),
            copy@.len() == i,
            forall|j: int| 0 <= j < i ==> (#[trigger] copy@[j])@ == triggers@[j]@,
        decreases triggers@.len() - i,
    {
        copy.push(triggers[i].clone());
        i += 1;
    }
    assert(triggers_view(copy@) =~= triggers_view(triggers@));
    copy
}

impl Clone for DebugCmd {
    fn clone(&self) -> (copy: Self)
        ensures
            copy@ == self@,
    {
        copy_cmd(self)
    }
}

impl Clone for Trigger {
    fn clone(&self) -> (copy: Self)
        ensures
            copy@ == self@,
    {
        copy_trigger(self)
    }
}

/// A trigger is told in full: its address, whether it fires once, and its actions in their order.
pub proof fn law_trigger_is_told_in_full(trigger: Trigger)
    ensures
        trigger@.address == trigger.address,
        trigger@.once == trigger.once,
        trigger@.actions.len() == trigger.actions@.len(),
        forall|i: int|
            0 <= i < trigger.actions@.len() ==> #[trigger] trigger@.actions[i]
                == trigger.actions@[i]@,
{
}

/// A command is told in full: which one it is, and all that it carries.
pub proof fn law_command_is_told_in_full(cmd: DebugCmd)
    ensures
        cmd is Ping <==> cmd@ is Ping,
        cmd is Continue <==> cmd@ is Continue,
        cmd is Step <==> cmd@ is Step,
        cmd is StepOver <==> cmd@ is StepOver,
        cmd is ListTriggers <==> cmd@ is ListTriggers,
        cmd is GetRegisters <==> cmd@ is GetRegisters,
        cmd is GetState <==> cmd@ is GetState,
        cmd matches DebugCmd::Pause(reason) ==> cmd@ == CmdView::Pause(reason),
        cmd matches DebugCmd::SetTrace(trace) ==> cmd@ == CmdView::SetTrace(trace),
        cmd matches DebugCmd::Message(text) ==> cmd@ == CmdView::Message(text@),
        cmd matches DebugCmd::AddTrigger(trigger) ==> cmd@ == CmdView::AddTrigger(trigger@),
        cmd matches DebugCmd::DeleteTrigger(address) ==> cmd@ == CmdView::DeleteTrigger(address),
        cmd matches DebugCmd::GetMemory { start, len } ==> cmd@ == (CmdView::GetMemory {
            start,
            len,
        }),
        cmd matches DebugCmd::GetMemoryAtReg { reg, len } ==> cmd@ == (CmdView::GetMemoryAtReg {
            reg,
            len,
        }),
        cmd matches DebugCmd::DisassemblePc { adl } ==> cmd@ == (CmdView::DisassemblePc { adl }),
        cmd matches DebugCmd::Disassemble { adl, start, end } ==> cmd@ == (CmdView::Disassemble {
            adl,
            start,
            end,
        }),
{
}

/// A response is told in full: which one it is, and all that it carries.
pub proof fn law_response_is_told_in_full(response: DebugResp)
    ensures
        response is Resumed <==> response@ is Resumed,
        response is Pong <==> response@ is Pong,
        response matches DebugResp::Paused(reason) ==> response@ == RespView::Paused(reason),
        response matches DebugResp::Message(text) ==> response@ == RespView::Message(text@),
        response matches DebugResp::Registers(registers) ==> response@ == RespView::Registers(
            registers,
        ),
        response matches DebugResp::State {
            registers,
            instructions_executed,
            total_cycles_elapsed,
            stack,
            pc_instruction,
        } ==> response@ == (RespView::State {
            registers,
            instructions_executed,
            total_cycles_elapsed,
            stack: stack@,
            pc_instruction: pc_instruction@,
        }),
        response matches DebugResp::Memory { start, data } ==> response@ == (RespView::Memory {
            start,
            data: data@,
        }),
        response matches DebugResp::Disassembly { pc, adl, disasm } ==> {
            &&& response@ matches RespView::Disassembly { pc: at, adl: mode, disasm: entries }
            &&& at == pc
            &&& mode == adl
            &&& entries.len() == disasm@.len()
            &&& forall|i: int|
                0 <= i < disasm@.len() ==> (#[trigger] entries[i]).loc == disasm@[i].loc
                    && entries[i].text == disasm@[i].text@ && entries[i].bytes == disasm@[i].bytes@
        },
        response matches DebugResp::Triggers(triggers) ==> {
            &&& response@ matches RespView::Triggers(told)
            &&& told.len() == triggers@.len()
            &&& forall|i: int| 0 <= i < told.len() ==> #[trigger] told[i] == triggers@[i]@
        },
{
}

} // verus!
