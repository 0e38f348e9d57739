//! What holds of the machine, the bus and the registers, told in numbers.
use crate::execution::HostView;
use crate::machine::{
    read_or_default, AgonMachine, BusView, MachineView, StorageAddress, ONCHIP_RAM_SIZE, ROM_SIZE,
};
use crate::prefix::{CodeView, PrefixScan, PrefixScanError};
use crate::processor::{
    cpu_contents, executed, interrupted, BusActivity, CpuView, Reg16, Registers,
};
use std::sync::atomic::AtomicBool;
use std::sync::Arc;
use vstd::prelude::*;

verus! {

/// On-chip RAM starts at $E000 of its bank and hides flash, flash starts at its bank and hides
/// external RAM, and external RAM repeats throughout the banks of chip select 0. Every other address
/// is unmapped. Only RAM can be stored to.
pub proof fn law_memory_map(machine: MachineView, address: int)
    requires
        machine.internal.len() <= usize::MAX,
        machine.external.len() <= usize::MAX,
    ensures
        ({
            let base: int = machine.onchip_mem_segment * 0x1_0000 + 0xe000;
            let flash: int = machine.flash_addr_u * 0x1_0000;
            let onchip: bool = machine.onchip_mem_enable && base <= address && address < base
                + machine.internal.len();
            let rom: bool = !onchip && flash <= address && address < flash + machine.rom.len();
            let ram: bool = !onchip && !rom && machine.external.len() > 0 && machine.cs0_lbr
                * 0x1_0000 <= address && address < (machine.cs0_ubr + 1) * 0x1_0000;
            let repeated: int = address % (machine.external.len() as int);
            &&& onchip ==> machine.observed(address) == Some(machine.internal[address - base])
            &&& onchip ==> machine.storage(address) == Some(
                StorageAddress::Internal((address - base) as usize),
            )
            &&& rom ==> machine.observed(address) == Some(machine.rom[address - flash])
            &&& rom ==> machine.storage(address) is None
            &&& ram ==> machine.observed(address) == Some(machine.external[repeated])
            &&& ram ==> machine.storage(address) == Some(
                StorageAddress::External(repeated as usize),
            )
            &&& !onchip && !rom && !ram ==> machine.observed(address) is None && machine.storage(
                address,
            ) is None
        }),
{
}

/// A store changes the one byte of RAM that the address decodes to, and nothing else; a store to
/// flash or to an unmapped address changes nothing.
pub proof fn law_store_changes_one_byte(machine: MachineView, address: u32, value: u8)
    requires
        machine.internal.len() <= usize::MAX,
        machine.external.len() <= usize::MAX,
    ensures
        ({
            let after: MachineView = machine.stored(address as int, value);
            let base: int = machine.onchip_mem_segment * 0x1_0000 + 0xe000;
            let flash: int = machine.flash_addr_u * 0x1_0000;
            let onchip: bool = machine.onchip_mem_enable && base <= address && address < base
                + machine.internal.len();
            let rom: bool = !onchip && flash <= address && address < flash + machine.rom.len();
            let ram: bool = !onchip && !rom && machine.external.len() > 0 && machine.cs0_lbr
                * 0x1_0000 <= address && address < (machine.cs0_ubr + 1) * 0x1_0000;
            &&& after == (MachineView {
                internal: after.internal,
                external: after.external,
                ..machine
            })
            &&& after.internal == if onchip {
                machine.internal.update(address - base, value)
            } else {
                machine.internal
            }
            &&& after.external == if ram {
                machine.external.update(address as int % (machine.external.len() as int), value)
            } else {
                machine.external
            }
        }),
{
    let len: int = machine.external.len() as int;
    if len > 0 {
        vstd::arithmetic::div_mod::lemma_mod_bound(address as int, len);
    }
}

/// What the bus carries for an unmapped byte is $F5.
pub proof fn law_unmapped_bytes_read_as_f5(byte: Option<u8>)
    ensures
        byte is None ==> read_or_default(byte) == 0xf5,
        byte matches Some(value) ==> read_or_default(byte) == value,
{
}

/// A write to an I/O port. The low byte of the address selects the port: $A8 and $A9 set the first
/// and the last bank of chip select 0, port 0 ends a headless guest, and any other access, to a port
/// without a peripheral, marks the whole address. Nothing else changes.
pub proof fn law_port_write(machine: MachineView, address: u16, value: u8)
    ensures
        ({
            let after: MachineView = machine.port_written(address, value);
            let lower: bool = address % 256 == 168;
            let upper: bool = address % 256 == 169;
            let exit: bool = address % 256 == 0 && machine.headless_mode;
            &&& after == (MachineView {
                cs0_lbr: after.cs0_lbr,
                cs0_ubr: after.cs0_ubr,
                guest_exit_status: after.guest_exit_status,
                io_unhandled: after.io_unhandled,
                ..machine
            })
            &&& after.cs0_lbr == if lower {
                value
            } else {
                machine.cs0_lbr
            }
            &&& after.cs0_ubr == if upper {
                value
            } else {
                machine.cs0_ubr
            }
            &&& after.guest_exit_status == if exit {
                Some(value)
            } else {
                machine.guest_exit_status
            }
            &&& after.io_unhandled == if lower || upper || exit {
                machine.io_unhandled
            } else {
                Some(address)
            }
        }),
{
}

/// A read from an I/O port gives back what was last written to a chip select register. Any other
/// port reads as all ones, and its whole address is marked. Nothing else changes.
pub proof fn law_port_read(machine: MachineView, address: u16, other: u16, value: u8)
    ensures
        address % 256 == 168 || address % 256 == 169 ==> {
            &&& machine.port_written(address, value).port_value(address) == value
            &&& machine.port_read(address) == machine
        },
        (address % 256 == 168 || address % 256 == 169) && other % 256 != address % 256 ==>
            machine.port_written(other, value).port_value(address) == machine.port_value(address),
        address % 256 == 168 ==> machine.port_value(address) == machine.cs0_lbr,
        address % 256 == 169 ==> machine.port_value(address) == machine.cs0_ubr,
        address % 256 != 168 && address % 256 != 169 ==> {
            &&& machine.port_value(address) == 255
            &&& machine.port_read(address) == (MachineView {
                io_unhandled: Some(address),
                ..machine
            })
        },
{
}

/// Applying the cycles moves all that are pending to the total, which wraps at 64 bits, and changes
/// nothing else.
pub proof fn law_cycles_move_to_the_total(machine: MachineView)
    ensures
        ({
            let after: MachineView = machine.cycles_applied();
            &&& after.cycle_counter == 0
            &&& (after.total_cycles_elapsed - machine.total_cycles_elapsed - machine.cycle_counter)
                % 0x1_0000_0000_0000_0000 == 0
            &&& after == (MachineView {
                cycle_counter: 0,
                total_cycles_elapsed: after.total_cycles_elapsed,
                ..machine
            })
        }),
{
}

/// Cycles are counted in 32 bits. An access to memory takes one, and to an unmapped address leaves
/// that address as the fault.
pub proof fn law_bus_activity(activity: BusActivity, cycles: i32, address: u32, mapped: bool)
    ensures
        (activity.after_cycles(cycles).cycles - activity.cycles - cycles) % 0x1_0000_0000 == 0,
        activity.after_cycles(cycles).fault == activity.fault,
        (activity.after_access(address, mapped).cycles - activity.cycles - 1) % 0x1_0000_0000 == 0,
        mapped ==> activity.after_access(address, mapped).fault == activity.fault,
        !mapped ==> activity.after_access(address, mapped).fault == Some(address),
{
}

/// What the CPU did on the bus is added to the machine: the cycles are pending, and a fault takes
/// the place of an earlier one. Nothing else changes.
pub proof fn law_activity_is_entered(machine: MachineView, activity: BusActivity)
    ensures
        ({
            let after: MachineView = machine.recorded(activity);
            &&& (after.cycle_counter - machine.cycle_counter - activity.cycles) % 0x1_0000_0000 == 0
            &&& activity.fault is Some ==> after.mem_out_of_bounds == activity.fault
            &&& activity.fault is None ==> after.mem_out_of_bounds == machine.mem_out_of_bounds
            &&& after == (MachineView {
                cycle_counter: after.cycle_counter,
                mem_out_of_bounds: after.mem_out_of_bounds,
                ..machine
            })
        }),
{
}

/// The address that a register pair holds: in ADL mode the whole register, with the stack pointer of
/// ADL mode, and otherwise the low 16 bits, with the stack pointer of the other mode, in the bank of
/// MBASE.
pub proof fn law_registers_as_addresses(registers: Registers)
    ensures
        registers.adl ==> {
            &&& registers.pointer(Reg16::AF) == registers.af
            &&& registers.pointer(Reg16::BC) == registers.bc
            &&& registers.pointer(Reg16::DE) == registers.de
            &&& registers.pointer(Reg16::HL) == registers.hl
            &&& registers.pointer(Reg16::IX) == registers.ix
            &&& registers.pointer(Reg16::IY) == registers.iy
            &&& registers.pointer(Reg16::SP) == registers.spl
            &&& registers.code_pc() == registers.pc
        },
        !registers.adl ==> {
            let bank: int = registers.mbase * 0x1_0000;
            &&& registers.pointer(Reg16::AF) == bank + registers.af
            &&& registers.pointer(Reg16::BC) == bank + registers.bc % 0x1_0000
            &&& registers.pointer(Reg16::DE) == bank + registers.de % 0x1_0000
            &&& registers.pointer(Reg16::HL) == bank + registers.hl % 0x1_0000
            &&& registers.pointer(Reg16::IX) == bank + registers.ix % 0x1_0000
            &&& registers.pointer(Reg16::IY) == bank + registers.iy % 0x1_0000
            &&& registers.pointer(Reg16::SP) == bank + registers.sps
            &&& registers.code_pc() == bank + registers.pc % 0x1_0000
        },
{
}

/// Clearing RAM leaves a zero in every byte of it, as many as before, and nothing else changed.
pub proof fn law_cleared_ram_is_zero(machine: MachineView)
    ensures
        ({
            let after: MachineView = machine.ram_cleared();
            &&& after.internal.len() == machine.internal.len()
            &&& after.external.len() == machine.external.len()
            &&& forall|i: int| 0 <= i < machine.internal.len() ==> #[trigger] after.internal[i] == 0
            &&& forall|i: int| 0 <= i < machine.external.len() ==> #[trigger] after.external[i] == 0
            &&& after == (MachineView {
                internal: after.internal,
                external: after.external,
                ..machine
            })
        }),
{
}

/// Whether an instruction can be executed at the place that is noted on a machine.
pub open spec fn finds_opcode(cpu: CpuView, noted: MachineView) -> bool {
    let code: CodeView = CodeView {
        machine: noted,
        start: noted.last_pc,
        adl: cpu.registers.adl,
        mbase: cpu.registers.mbase,
    };
    code.scan() != Err::<PrefixScan, _>(PrefixScanError::FullSpan)
}

/// What a CPU left on the bus, and its cycles and fault, taken over by a machine.
pub open spec fn takes_over(
    before: MachineView,
    bus: BusView,
    activity: BusActivity,
    after: MachineView,
) -> bool {
    &&& after == (MachineView {
        internal: bus.internal,
        external: bus.external,
        cs0_lbr: bus.cs0_lbr,
        cs0_ubr: bus.cs0_ubr,
        io_unhandled: bus.io_unhandled,
        guest_exit_status: bus.guest_exit_status,
        cycle_counter: after.cycle_counter,
        mem_out_of_bounds: if activity.fault is Some {
            activity.fault
        } else {
            before.mem_out_of_bounds
        },
        ..before
    })
    &&& (after.cycle_counter - before.cycle_counter - activity.cycles) % 0x1_0000_0000 == 0
}

/// What a CPU sees of a machine.
pub open spec fn seen(machine: MachineView) -> BusView {
    BusView {
        rom: machine.rom,
        internal: machine.internal,
        external: machine.external,
        onchip_mem_enable: machine.onchip_mem_enable,
        onchip_mem_segment: machine.onchip_mem_segment,
        flash_addr_u: machine.flash_addr_u,
        cs0_lbr: machine.cs0_lbr,
        cs0_ubr: machine.cs0_ubr,
        io_unhandled: machine.io_unhandled,
        headless_mode: machine.headless_mode,
        guest_exit_status: machine.guest_exit_status,
    }
}

/// Executing notes the place of the instruction and hands the CPU to the bus, once. Where only
/// prefixes are found there, or where the counter of instructions is full, nothing more happens.
pub proof fn law_one_instruction_is_executed(host: HostView)
    ensures
        ({
            let after: HostView = host.executed();
            let registers: Registers = host.cpu.registers;
            let pc: int = if registers.adl {
                registers.pc as int
            } else {
                registers.mbase * 0x1_0000 + registers.pc % 0x1_0000
            };
            let noted: MachineView = MachineView { last_pc: pc as u32, ..host.machine };
            let (cpu, bus, activity) = executed(host.cpu, seen(noted));
            let runs: bool = host.cpu.instructions_executed < 0xffff_ffff_ffff_ffff && finds_opcode(
                host.cpu,
                noted,
            );
            &&& after.machine.last_pc == pc
            &&& runs ==> after.cpu == cpu && takes_over(noted, bus, activity, after.machine)
            &&& !runs ==> after.cpu == host.cpu && after.machine == noted
            &&& host.executes() == (runs && !host.cpu.halted)
        }),
{
}

/// An interrupt is taken exactly where one is requested and the CPU accepts interrupts. It is no
/// longer requested then, and a halted CPU goes on. Otherwise nothing changes.
pub proof fn law_interrupt_is_taken_if_accepted(host: HostView)
    ensures
        host.machine.interrupt_request is None || !host.cpu.registers.iff1 ==> host.interrupted()
            == host,
        host.cpu.registers.iff1 ==> (host.machine.interrupt_request matches Some(vector) ==> {
            let after: HostView = host.interrupted();
            let idle: MachineView = MachineView { interrupt_request: None, ..host.machine };
            let (cpu, bus, activity) = interrupted(
                CpuView { halted: false, ..host.cpu },
                seen(idle),
                vector,
            );
            &&& after.machine.interrupt_request is None
            &&& after.cpu == cpu
            &&& takes_over(idle, bus, activity, after.machine)
        }),
{
}

/// A settled step is one instruction, its cycles added to the total, and then an interrupt if one is
/// taken, its cycles added as well.
pub proof fn law_step_is_settled(host: HostView)
    ensures
        ({
            let ran: HostView = host.executed();
            let after: HostView = host.settled_step();
            let accounted: HostView = HostView { machine: ran.machine.cycles_applied(), ..ran };
            let quiet: bool = ran.machine.interrupt_request is None || !ran.cpu.registers.iff1;
            let entered: HostView = accounted.interrupted();
            &&& after.machine.cycle_counter == 0
            &&& quiet ==> after == accounted
            &&& !quiet ==> after.cpu == entered.cpu && after.machine == (MachineView {
                cycle_counter: 0,
                total_cycles_elapsed: after.machine.total_cycles_elapsed,
                ..entered.machine
            })
            &&& !quiet ==> (after.machine.total_cycles_elapsed
                - entered.machine.total_cycles_elapsed - entered.machine.cycle_counter)
                % 0x1_0000_0000_0000_0000 == 0
        }),
{
    let ran: HostView = host.executed();
    let applied: MachineView = ran.machine.cycles_applied();
    assert(applied.cycles_applied() == applied);
}

/// A machine and its CPU are told in full.
pub proof fn law_machine_is_told_in_full(machine: AgonMachine, cpu: ez80::Cpu)
    ensures
        machine.host(cpu) == (HostView {
            machine: MachineView {
                rom: machine.mem_rom@,
                internal: machine.mem_internal@,
                external: machine.mem_external@,
                onchip_mem_enable: machine.onchip_mem_enable,
                onchip_mem_segment: machine.onchip_mem_segment,
                flash_addr_u: machine.flash_addr_u,
                cs0_lbr: machine.cs0_lbr,
                cs0_ubr: machine.cs0_ubr,
                cycle_counter: machine.cycle_counter,
                total_cycles_elapsed: machine.total_cycles_elapsed,
                last_pc: machine.last_pc,
                mem_out_of_bounds: machine.mem_out_of_bounds,
                io_unhandled: machine.io_unhandled,
                interrupt_request: machine.interrupt_request,
                paused: machine.paused,
                headless_mode: machine.headless_mode,
                enable_hostfs: machine.enable_hostfs,
                guest_exit_status: machine.guest_exit_status,
                emulator_shutdown: machine.emulator_shutdown,
            },
            cpu: cpu_contents(cpu),
        }),
{
}

/// The flash holds 128 KiB and the on-chip RAM 8 KiB.
pub proof fn law_memory_sizes()
    ensures
        ROM_SIZE == 0x2_0000,
        ONCHIP_RAM_SIZE == 0x2000,
{
}

/// At reset the flash reads from address 0 on as what it was given, and as zero behind that; on-chip
/// RAM takes the last 8 KiB of the address space; every other address reads from external RAM, or is
/// unmapped where there is none. All RAM is zero, and nothing is marked, pending or counted.
pub proof fn law_memory_at_reset(mos: Seq<u8>, size: nat, flag: Arc<AtomicBool>, address: int)
    requires
        0 <= address < 0x100_0000,
        size <= usize::MAX,
    ensures
        ({
            let machine: MachineView = MachineView::reset(mos, size, flag);
            let byte: Option<u8> = machine.observed(address);
            &&& address < 0x2_0000 && address < mos.len() ==> byte == Some(mos[address])
            &&& address < 0x2_0000 && address >= mos.len() ==> byte == Some(0u8)
            &&& address < 0x2_0000 ==> machine.storage(address) is None
            &&& address >= 0xff_e000 ==> byte == Some(0u8) && machine.storage(address) == Some(
                StorageAddress::Internal((address - 0xff_e000) as usize),
            )
            &&& 0x2_0000 <= address < 0xff_e000 && size > 0 ==> byte == Some(0u8)
                && machine.storage(address) == Some(
                StorageAddress::External((address % (size as int)) as usize),
            )
            &&& 0x2_0000 <= address < 0xff_e000 && size == 0 ==> byte is None && machine.storage(
                address,
            ) is None
            &&& machine.cycle_counter == 0 && machine.total_cycles_elapsed == 0
            &&& machine.last_pc == 0
            &&& machine.mem_out_of_bounds is None && machine.io_unhandled is None
            &&& machine.interrupt_request is None && machine.guest_exit_status is None
            &&& !machine.paused && !machine.headless_mode && machine.enable_hostfs
            &&& machine.emulator_shutdown == flag
        }),
{
    let machine: MachineView = MachineView::reset(mos, size, flag);
    law_memory_map(machine, address);
    if size > 0 {
        vstd::arithmetic::div_mod::lemma_mod_bound(address, size as int);
    }
}

/// A byte that the CPU stores takes one cycle. It changes the byte of RAM that the address decodes
/// to, and an unmapped address is marked instead.
pub proof fn law_poke_takes_a_cycle(machine: MachineView, address: u32, value: u8)
    ensures
        ({
            let after: MachineView = machine.poked(address, value);
            &&& (after.cycle_counter - machine.cycle_counter - 1) % 0x1_0000_0000 == 0
            &&& machine.observed(address as int) is None ==> after.mem_out_of_bounds == Some(
                address,
            )
            &&& machine.observed(address as int) is Some ==> after.mem_out_of_bounds
                == machine.mem_out_of_bounds
            &&& after == (MachineView {
                cycle_counter: after.cycle_counter,
                mem_out_of_bounds: after.mem_out_of_bounds,
                ..machine.stored(address as int, value)
            })
        }),
{
}

} // verus!
