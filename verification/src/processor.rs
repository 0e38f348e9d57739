//! The eZ80 itself: what the library reads of it, and the calls into the `ez80` crate.
use crate::address::{bank_of, code_address, MAX_ADDRESS};
use crate::machine::{read_or_default, AgonMachine, BusView, MachineView, UNMAPPED_BYTE};
use crate::prefix::{CodeView, PrefixScan, PrefixScanError};
use std::cell::Cell;
use vstd::prelude::*;

verus! {

/// The CPU of the `ez80` crate.
#[verifier::external_type_specification]
#[verifier::external_body]
pub struct ExCpu(ez80::Cpu);

/// The standard library's cell, which the bus needs because the CPU reads through a shared
/// reference.
#[verifier::external_type_specification]
#[verifier::external_body]
#[verifier::reject_recursive_types(T)]
pub struct ExCell<T: ?Sized>(Cell<T>);

/// `std::cell::Cell::get`. What a cell holds is not tracked, so nothing is claimed of the result.
pub assume_specification<T: Copy>[ Cell::<T>::get ](cell: &Cell<T>) -> T;

/// `std::cell::Cell::set`. What a cell holds is not tracked, so nothing is claimed.
pub assume_specification<T>[ Cell::<T>::set ](cell: &Cell<T>, value: T);

/// The register pairs by which memory can be addressed.
#[derive(Debug, Clone, Copy, PartialEq, Eq, Structural)]
pub enum Reg16 {
    AF,
    BC,
    DE,
    HL,
    IX,
    IY,
    SP,
}

/// The register values of a CPU, as far as the `ez80` crate gives them out.
#[derive(Debug, Clone, Copy, PartialEq, Eq, Structural)]
pub struct Registers {
    pub af: u16,
    pub bc: u32,
    pub de: u32,
    pub hl: u32,
    pub ix: u32,
    pub iy: u32,
    /// The stack pointer of non-ADL mode.
    pub sps: u16,
    /// The stack pointer of ADL mode.
    pub spl: u32,
    pub i: u8,
    pub r: u8,
    pub pc: u32,
    pub iff1: bool,
    pub iff2: bool,
    pub adl: bool,
    pub madl: bool,
    pub mbase: u8,
}

/// A CPU as mathematics.
#[verifier::ext_equal]
pub struct CpuView {
    pub registers: Registers,
    pub instructions_executed: u64,
    pub halted: bool,
    pub trace: bool,
    /// Whether the CPU decodes the eZ80 instruction set and stands between two instructions, with
    /// no index prefix, reset or non-maskable interrupt pending.
    pub ready: bool,
    /// How what the crate keeps to itself (the shadow registers, the interrupt mode and the like)
    /// differs from what it is at power-on.
    pub hidden: Seq<u8>,
}

impl CpuView {
    /// A CPU that was just powered on.
    pub open spec fn power_on() -> CpuView {
        CpuView {
            registers: Registers::power_on(),
            instructions_executed: 0,
            halted: false,
            trace: false,
            ready: true,
            hidden: Seq::empty(),
        }
    }
}

/// What the CPU did on the bus: the cycles it used, and the last unmapped address it accessed.
#[derive(Debug, Clone, Copy, PartialEq, Eq, Structural)]
pub struct BusActivity {
    pub cycles: i32,
    pub fault: Option<u32>,
}

impl BusActivity {
    /// The activity after some more cycles. The count wraps.
    pub open spec fn after_cycles(self, cycles: i32) -> BusActivity {
        BusActivity { cycles: self.cycles.wrapping_add(cycles), ..self }
    }

    /// The activity after an access to memory: it takes a cycle, and an unmapped address replaces an
    /// earlier one.
    pub open spec fn after_access(self, address: u32, mapped: bool) -> BusActivity {
        BusActivity {
            cycles: self.cycles.wrapping_add(1),
            fault: if mapped {
                self.fault
            } else {
                Some(address)
            },
        }
    }

    /// Adds some cycles.
    pub fn used(self, cycles: i32) -> (activity: BusActivity)
        ensures
            activity == self.after_cycles(cycles),
    {
        BusActivity { cycles: self.cycles.wrapping_add(cycles), fault: self.fault }
    }

    /// Adds an access to memory.
    pub fn accessed(self, address: u32, mapped: bool) -> (activity: BusActivity)
        ensures
            activity == self.after_access(address, mapped),
    {
        BusActivity {
            cycles: self.cycles.wrapping_add(1),
            fault: if mapped {
                self.fault
            } else {
                Some(address)
            },
        }
    }
}

/// What a CPU holds.
pub uninterp spec fn cpu_contents(cpu: ez80::Cpu) -> CpuView;

/// What executing one instruction makes of a CPU and of what it sees of its machine, and what it
/// does on the bus.
pub uninterp spec fn executed(cpu: CpuView, bus: BusView) -> (
    CpuView,
    BusView,
    BusActivity,
);

/// What entering an interrupt makes of a CPU and of what it sees of its machine, and what it does on
/// the bus.
pub uninterp spec fn interrupted(cpu: CpuView, bus: BusView, vector: u8) -> (
    CpuView,
    BusView,
    BusActivity,
);

/// The text of the instruction at an address, and the address behind it.
pub uninterp spec fn disassembled(machine: MachineView, start: u32, adl: bool, mbase: u8) -> (
    Seq<char>,
    u32,
);

impl Registers {
    /// The registers of a CPU that was just powered on.
    pub open spec fn power_on() -> Registers {
        Registers {
            af: 0xffff,
            bc: 0,
            de: 0,
            hl: 0,
            ix: 0,
            iy: 0,
            sps: 0,
            spl: 0,
            i: 0,
            r: 0,
            pc: 0,
            iff1: false,
            iff2: false,
            adl: false,
            madl: false,
            mbase: 0,
        }
    }

    /// The 24-bit value of a register pair; AF has 16 bits only.
    pub open spec fn long(self, pair: Reg16) -> int {
        match pair {
            Reg16::AF => self.af as int,
            Reg16::BC => self.bc as int,
            Reg16::DE => self.de as int,
            Reg16::HL => self.hl as int,
            Reg16::IX => self.ix as int,
            Reg16::IY => self.iy as int,
            Reg16::SP => self.spl as int,
        }
    }

    /// The 16-bit value of a register pair.
    pub open spec fn word(self, pair: Reg16) -> int {
        match pair {
            Reg16::SP => self.sps as int,
            _ => self.long(pair) % 0x1_0000,
        }
    }

    /// The address that a register pair holds in the current mode: all of it in ADL mode, and its
    /// low 16 bits in the bank of `mbase` otherwise.
    pub open spec fn pointer(self, pair: Reg16) -> int {
        if self.adl {
            self.long(pair)
        } else {
            self.mbase * 0x1_0000 + self.word(pair)
        }
    }

    /// The address of the next instruction.
    pub open spec fn code_pc(self) -> int {
        if self.adl {
            self.pc as int
        } else {
            self.mbase * 0x1_0000 + self.pc % 0x1_0000
        }
    }

    /// The 24-bit value of a register pair.
    pub fn get24(&self, pair: Reg16) -> (value: u32)
        ensures
            value == self.long(pair),
    {
        match pair {
            Reg16::AF => self.af as u32,
            Reg16::BC => self.bc,
            Reg16::DE => self.de,
            Reg16::HL => self.hl,
            Reg16::IX => self.ix,
            Reg16::IY => self.iy,
            Reg16::SP => self.spl,
        }
    }

    /// The 16-bit value of a register pair, with `mbase` above it.
    pub fn get16_mbase(&self, pair: Reg16) -> (value: u32)
        ensures
            value == self.mbase * 0x1_0000 + self.word(pair),
    {
        let low: u32 = match pair {
            Reg16::SP => self.sps as u32,
            _ => self.get24(pair) % 0x1_0000,
        };
        self.mbase as u32 * 0x1_0000 + low
    }

    /// The address that a register pair holds in the current mode.
    pub fn address_in(&self, pair: Reg16) -> (value: u32)
        ensures
            value == self.pointer(pair),
    {
        if self.adl {
            self.get24(pair)
        } else {
            self.get16_mbase(pair)
        }
    }

    /// The address of the next instruction.
    pub fn next_pc(&self) -> (pc: u32)
        ensures
            pc == self.code_pc(),
    {
        if self.adl {
            self.pc
        } else {
            self.mbase as u32 * 0x1_0000 + self.pc % 0x1_0000
        }
    }
}

/// The code that a CPU is about to execute on a machine.
pub open spec fn code_at(cpu: CpuView, machine: MachineView) -> CodeView {
    CodeView {
        machine,
        start: cpu.registers.code_pc() as u32,
        adl: cpu.registers.adl,
        mbase: cpu.registers.mbase,
    }
}

/// Whether an address is where an instruction ends: its prefixes, its opcode and at most seven
/// bytes more lie before it.
pub open spec fn ends_instruction(code: CodeView, next: u32) -> bool {
    exists|len: int|
        {
            &&& code.index_end() < len <= code.index_end() + 8
            &&& next == #[trigger] code.address(len)
        }
}

/// Whether executing an instruction comes to an end: not where nothing but prefixes can be
/// fetched, nor where the instruction counter has run out.
pub open spec fn can_execute(cpu: CpuView, machine: MachineView) -> bool {
    &&& cpu.instructions_executed < u64::MAX
    &&& code_at(cpu, machine).scan() != Err::<PrefixScan, _>(PrefixScanError::FullSpan)
}

/// Reads a byte for the CPU. Addresses wrap at 24 bits.
pub fn bus_read(machine: &AgonMachine, activity: BusActivity, address: u32) -> (read: (
    u8,
    BusActivity,
))
    ensures
        read.0 == read_or_default(machine@.observed((address % 0x100_0000) as int)),
        read.1 == activity.after_access(
            address % 0x100_0000,
            machine@.observed((address % 0x100_0000) as int) is Some,
        ),
{
    let wrapped: u32 = address % 0x100_0000;
    match machine.observed_byte(wrapped) {
        Some(value) => (value, activity.accessed(wrapped, true)),
        None => (UNMAPPED_BYTE, activity.accessed(wrapped, false)),
    }
}

/// Stores a byte for the CPU. Addresses wrap at 24 bits.
pub fn bus_write(machine: &mut AgonMachine, activity: BusActivity, address: u32, value: u8) -> (after:
    BusActivity)
    ensures
        final(machine)@ == old(machine)@.stored((address % 0x100_0000) as int, value),
        after == activity.after_access(
            address % 0x100_0000,
            old(machine)@.observed((address % 0x100_0000) as int) is Some,
        ),
{
    let wrapped: u32 = address % 0x100_0000;
    let mapped: bool = machine.store_byte(wrapped, value);
    activity.accessed(wrapped, mapped)
}

/// The machine as the CPU sees it while it executes. What the CPU does is kept in a cell, because
/// the CPU reads through a shared reference. What the cell holds is not tracked; each method puts
/// there what [`bus_read`], [`bus_write`] or [`BusActivity::used`] makes of what it held.
pub struct CpuBus<'a> {
    machine: &'a mut AgonMachine,
    activity: Cell<BusActivity>,
}

impl<'a> View for CpuBus<'a> {
    type V = MachineView;

    closed spec fn view(&self) -> MachineView {
        self.machine@
    }
}

impl<'a> ez80::Machine for CpuBus<'a> {
    fn peek(&self, address: u32) -> (value: u8)
        ensures
            value == read_or_default(self@.observed((address % 0x100_0000) as int)),
    {
        let (value, activity) = bus_read(self.machine, self.activity.get(), address);
        self.activity.set(activity);
        value
    }

    fn poke(&mut self, address: u32, value: u8)
        ensures
            final(self)@ == old(self)@.stored(
                (address % 0x100_0000) as int,
                value,
            ),
    {
        let activity = bus_write(self.machine, self.activity.get(), address, value);
        self.activity.set(activity);
    }

    fn use_cycles(&self, cycles: i32) {
        self.activity.set(self.activity.get().used(cycles));
    }

    fn port_in(&mut self, address: u16) -> (value: u8)
        ensures
            value == old(self)@.port_value(address),
            final(self)@ == old(self)@.port_read(address),
    {
        self.activity.set(self.activity.get().used(1));
        self.machine.port_in(address)
    }

    fn port_out(&mut self, address: u16, value: u8)
        ensures
            final(self)@ == old(self)@.port_written(address, value),
    {
        self.activity.set(self.activity.get().used(1));
        self.machine.port_out(address, value);
    }
}

/// Code as it is fed to the disassembler: one byte after the other in the order of fetching,
/// whatever address is asked for. Operands would otherwise be read at addresses that wrap by the
/// operand's width and not as fetching does.
pub struct DebuggerObservationMachine<'a> {
    machine: &'a AgonMachine,
    start: u32,
    next_offset: Cell<u32>,
    adl: bool,
    mbase: u8,
}

impl<'a> View for DebuggerObservationMachine<'a> {
    type V = CodeView;

    closed spec fn view(&self) -> CodeView {
        CodeView {
            machine: self.machine@,
            start: self.start,
            adl: self.adl,
            mbase: self.mbase,
        }
    }
}

impl<'a> DebuggerObservationMachine<'a> {
    /// The byte of the code at an offset, and the offset of the next one.
    pub fn fetch(&self, offset: u32) -> (fetched: (u8, u32))
        ensures
            fetched.0 == read_or_default(self@.byte(offset as int)),
            fetched.1 == offset.wrapping_add(1),
    {
        let address: u32 = code_address(self.start, offset, self.adl, self.mbase);
        let value: u8 = match self.machine.observed_byte(address) {
            Some(value) => value,
            None => UNMAPPED_BYTE,
        };
        (value, offset.wrapping_add(1))
    }
}

impl<'a> ez80::Machine for DebuggerObservationMachine<'a> {
    /// Reads the next byte of the code. It is one of the bytes in the order of fetching, unmapped
    /// ones reading as the bus leaves them; which one, only the cell knows that counts them.
    fn peek(&self, _address: u32) -> (value: u8)
        ensures
            exists|offset: u32|
                value == read_or_default(#[trigger] self@.byte(offset as int)),
    {
        let (value, next_offset) = self.fetch(self.next_offset.get());
        self.next_offset.set(next_offset);
        value
    }

    fn poke(&mut self, _address: u32, _value: u8) {
    }

    fn use_cycles(&self, _cycles: i32) {
    }

    fn port_in(&mut self, _address: u16) -> (value: u8)
        ensures
            value == 0xff,
    {
        0xff
    }

    fn port_out(&mut self, _address: u16, _value: u8) {
    }
}

/// `ez80::Cpu::new_ez80`: AF is all ones and every other register zero, nothing was executed, and
/// the CPU stands before its first instruction.
pub assume_specification[ ez80::Cpu::new_ez80 ]() -> (cpu: ez80::Cpu)
    ensures
        cpu_contents(cpu) == CpuView::power_on(),
;

/// Reads the registers with `ez80::Registers::get8`, `get16` and `get24` and from its fields.
#[verifier::external_body]
pub(crate) fn cpu_registers(cpu: &ez80::Cpu) -> (registers: Registers)
    ensures
        registers == cpu_contents(*cpu).registers,
{
    let reg = &cpu.state.reg;
    Registers {
        af: reg.get16(ez80::Reg16::AF),
        bc: reg.get24(ez80::Reg16::BC), de: reg.get24(ez80::Reg16::DE),
        hl: reg.get24(ez80::Reg16::HL), ix: reg.get24(ez80::Reg16::IX),
        iy: reg.get24(ez80::Reg16::IY), sps: reg.get16(ez80::Reg16::SP),
        spl: reg.get24(ez80::Reg16::SP),
        i: reg.get8(ez80::Reg8::I), r: reg.get8(ez80::Reg8::R),
        pc: reg.pc, iff1: reg.iff1, iff2: reg.iff2,
        adl: reg.adl, madl: reg.madl, mbase: reg.mbase,
    }
}

/// Reads `ez80::State::instructions_executed`.
#[verifier::external_body]
pub(crate) fn cpu_instructions_executed(cpu: &ez80::Cpu) -> (count: u64)
    ensures
        count == cpu_contents(*cpu).instructions_executed,
{
    cpu.state.instructions_executed
}

/// `ez80::Cpu::is_halted`.
#[verifier::external_body]
pub(crate) fn cpu_is_halted(cpu: &ez80::Cpu) -> (halted: bool)
    ensures
        halted == cpu_contents(*cpu).halted,
{
    cpu.is_halted()
}

/// Sets the mode bits and MBASE, and the program counter with `ez80::State::set_pc`, which keeps
/// 24 bits of it. Nothing else changes.
#[verifier::external_body]
pub(crate) fn cpu_enter(cpu: &mut ez80::Cpu, pc: u32, adl: bool, madl: bool, mbase: u8)
    ensures
        cpu_contents(*final(cpu)) == (CpuView {
            registers: Registers {
                pc: pc % 0x100_0000,
                adl,
                madl,
                mbase,
                ..cpu_contents(*old(cpu)).registers
            },
            ..cpu_contents(*old(cpu))
        }),
{
    cpu.state.reg.adl = adl;
    cpu.state.reg.madl = madl;
    cpu.state.reg.mbase = mbase;
    cpu.state.set_pc(pc);
}

/// `ez80::Cpu::set_trace`. Nothing else changes.
#[verifier::external_body]
pub(crate) fn cpu_set_trace(cpu: &mut ez80::Cpu, trace: bool)
    ensures
        cpu_contents(*final(cpu)) == (CpuView { trace, ..cpu_contents(*old(cpu)) }),
{
    cpu.set_trace(trace);
}

/// Clears `ez80::State::halted`, as an interrupt does to a halted CPU. Nothing else changes.
#[verifier::external_body]
pub(crate) fn cpu_resume(cpu: &mut ez80::Cpu)
    ensures
        cpu_contents(*final(cpu)) == (CpuView { halted: false, ..cpu_contents(*old(cpu)) }),
{
    cpu.state.halted = false;
}

/// `ez80::Cpu::execute_instruction` on the machine's bus. What it makes of the CPU and of what the
/// bus shows of the machine, and the cycles and the fault it leaves on the bus, follow from that CPU
/// and that view of the machine alone. It counts one instruction, unless the CPU is halted. It
/// leaves the CPU between two instructions, and what is not on the bus as it was. It does not return
/// where only prefixes can be fetched.
#[verifier::external_body]
pub(crate) fn cpu_execute(cpu: &mut ez80::Cpu, machine: &mut AgonMachine) -> (activity: BusActivity)
    requires
        cpu_contents(*old(cpu)).ready,
        can_execute(cpu_contents(*old(cpu)), old(machine)@),
    ensures
        (cpu_contents(*final(cpu)), final(machine)@.bus(), activity) == executed(
            cpu_contents(*old(cpu)),
            old(machine)@.bus(),
        ),
        cpu_contents(*final(cpu)).ready,
        cpu_contents(*final(cpu)).instructions_executed == cpu_contents(
            *old(cpu),
        ).instructions_executed + (if cpu_contents(*old(cpu)).halted {
            0int
        } else {
            1int
        }),
        final(machine)@.agrees_off_bus(old(machine)@),
{
    let mut bus = CpuBus { machine, activity: Cell::new(BusActivity { cycles: 0, fault: None }) };
    cpu.execute_instruction(&mut bus);
    bus.activity.get()
}

/// `ez80::Environment::interrupt` on the machine's bus. What it makes of the CPU and of what the bus
/// shows of the machine, and the cycles and the fault it leaves on the bus, follow from that CPU,
/// that view of the machine and the vector alone. It executes no instruction, and leaves the CPU between two of them and what is
/// not on the bus as it was.
#[verifier::external_body]
pub(crate) fn cpu_interrupt(cpu: &mut ez80::Cpu, machine: &mut AgonMachine, vector: u8) -> (activity:
    BusActivity)
    requires
        cpu_contents(*old(cpu)).ready,
    ensures
        (cpu_contents(*final(cpu)), final(machine)@.bus(), activity) == interrupted(
            cpu_contents(*old(cpu)),
            old(machine)@.bus(),
            vector,
        ),
        cpu_contents(*final(cpu)).ready,
        cpu_contents(*final(cpu)).instructions_executed == cpu_contents(
            *old(cpu),
        ).instructions_executed,
        final(machine)@.agrees_off_bus(old(machine)@),
{
    let mut bus = CpuBus { machine, activity: Cell::new(BusActivity { cycles: 0, fault: None }) };
    ez80::Environment::new(&mut cpu.state, &mut bus).interrupt(u32::from(vector));
    bus.activity.get()
}

/// `ez80::Cpu::disasm_instruction` on a fresh CPU that is about to fetch at `start`. The text and
/// the address behind the instruction follow from the code alone. That address is reached by
/// fetching all prefixes, the opcode and at most seven bytes more. The call does not return where
/// only prefixes can be fetched.
#[verifier::external_body]
pub(crate) fn disassemble_instruction(machine: &AgonMachine, start: u32, adl: bool, mbase: u8) -> (listed:
    (String, u32))
    requires
        start <= MAX_ADDRESS,
        !adl ==> bank_of(start as int) == mbase,
        (CodeView { machine: machine@, start, adl, mbase }).scan() is Ok,
    ensures
        (listed.0@, listed.1) == disassembled(machine@, start, adl, mbase),
        ends_instruction((CodeView { machine: machine@, start, adl, mbase }), listed.1),
{
    let next_offset = Cell::new(0);
    let mut observed = DebuggerObservationMachine { machine, start, next_offset, adl, mbase };
    let mut scratch = ez80::Cpu::new_ez80();
    scratch.state.reg.adl = adl;
    scratch.state.reg.mbase = mbase;
    scratch.state.set_pc(start);
    let text = scratch.disasm_instruction(&mut observed);
    (text, scratch.state.pc())
}

} // verus!
