//! The Agon's memory, its address decoding and the markers that the debugger and the headless
//! runner read.
use std::sync::atomic::AtomicBool;
use std::sync::Arc;
use vstd::prelude::*;

verus! {

/// The size of the on-chip flash.
pub const ROM_SIZE: usize = 0x2_0000;

/// The size of the on-chip RAM.
pub const ONCHIP_RAM_SIZE: usize = 0x2000;

/// The byte that an access to an unmapped address reads.
pub const UNMAPPED_BYTE: u8 = 0xf5;

/// What a machine is built from.
pub struct AgonMachineConfig {
    /// The contents of the flash; what lies beyond it reads as zero.
    pub mos: Vec<u8>,
    /// The size of the external RAM in bytes.
    pub external_ram_size: usize,
    /// Raised by another thread to ask the emulator to stop.
    pub emulator_shutdown: Arc<AtomicBool>,
}

/// Where in the machine's RAM a byte is kept.
#[derive(Debug, Clone, Copy, PartialEq, Eq, Structural)]
pub enum StorageAddress {
    Internal(usize),
    External(usize),
}

/// The machine that hosts the CPU.
pub struct AgonMachine {
    pub mem_rom: Vec<u8>,
    pub mem_internal: Vec<u8>,
    pub mem_external: Vec<u8>,
    /// Whether the on-chip RAM is decoded, and in which bank it ends.
    pub onchip_mem_enable: bool,
    pub onchip_mem_segment: u8,
    /// The bank at which the flash starts.
    pub flash_addr_u: u8,
    /// The first and the last bank that chip select 0 decodes to external RAM.
    pub cs0_lbr: u8,
    pub cs0_ubr: u8,
    /// Cycles used since they were last added to `total_cycles_elapsed`.
    pub cycle_counter: i32,
    pub total_cycles_elapsed: u64,
    /// The address of the instruction executed last.
    pub last_pc: u32,
    /// The last unmapped address that was accessed.
    pub mem_out_of_bounds: Option<u32>,
    /// The last I/O address accessed that belongs to no peripheral.
    pub io_unhandled: Option<u16>,
    /// The vector of an interrupt that a peripheral has requested.
    pub interrupt_request: Option<u8>,
    pub paused: bool,
    pub headless_mode: bool,
    pub enable_hostfs: bool,
    /// What the guest wrote to the exit port in headless mode.
    pub guest_exit_status: Option<u8>,
    pub emulator_shutdown: Arc<AtomicBool>,
}

/// A machine as mathematics. Of the shutdown flag it tells which one it is, but not what it reads
/// as, since other threads change that.
#[verifier::ext_equal]
pub struct MachineView {
    pub rom: Seq<u8>,
    pub internal: Seq<u8>,
    pub external: Seq<u8>,
    pub onchip_mem_enable: bool,
    pub onchip_mem_segment: u8,
    pub flash_addr_u: u8,
    pub cs0_lbr: u8,
    pub cs0_ubr: u8,
    pub cycle_counter: i32,
    pub total_cycles_elapsed: u64,
    pub last_pc: u32,
    pub mem_out_of_bounds: Option<u32>,
    pub io_unhandled: Option<u16>,
    pub interrupt_request: Option<u8>,
    pub paused: bool,
    pub headless_mode: bool,
    pub enable_hostfs: bool,
    pub guest_exit_status: Option<u8>,
    pub emulator_shutdown: Arc<AtomicBool>,
}

/// What a CPU can see of a machine over its bus.
#[verifier::ext_equal]
pub struct BusView {
    pub rom: Seq<u8>,
    pub internal: Seq<u8>,
    pub external: Seq<u8>,
    pub onchip_mem_enable: bool,
    pub onchip_mem_segment: u8,
    pub flash_addr_u: u8,
    pub cs0_lbr: u8,
    pub cs0_ubr: u8,
    pub io_unhandled: Option<u16>,
    pub headless_mode: bool,
    pub guest_exit_status: Option<u8>,
}

impl View for AgonMachine {
    type V = MachineView;

    open spec fn view(&self) -> MachineView {
        MachineView {
            rom: self.mem_rom@,
            internal: self.mem_internal@,
            external: self.mem_external@,
            onchip_mem_enable: self.onchip_mem_enable,
            onchip_mem_segment: self.onchip_mem_segment,
            flash_addr_u: self.flash_addr_u,
            cs0_lbr: self.cs0_lbr,
            cs0_ubr: self.cs0_ubr,
            cycle_counter: self.cycle_counter,
            total_cycles_elapsed: self.total_cycles_elapsed,
            last_pc: self.last_pc,
            mem_out_of_bounds: self.mem_out_of_bounds,
            io_unhandled: self.io_unhandled,
            interrupt_request: self.interrupt_request,
            paused: self.paused,
            headless_mode: self.headless_mode,
            enable_hostfs: self.enable_hostfs,
            guest_exit_status: self.guest_exit_status,
            emulator_shutdown: self.emulator_shutdown,
        }
    }
}

impl MachineView {
    /// The first address of the on-chip RAM: the top of its bank.
    pub open spec fn internal_base(self) -> int {
        self.onchip_mem_segment * 0x1_0000 + 0xe000
    }

    /// The offset in on-chip RAM that an address decodes to.
    pub open spec fn internal_offset(self, address: int) -> Option<int> {
        if self.onchip_mem_enable && 0 <= address - self.internal_base() < self.internal.len() {
            Some(address - self.internal_base())
        } else {
            None
        }
    }

    /// The offset in flash that an address decodes to.
    pub open spec fn rom_offset(self, address: int) -> Option<int> {
        if 0 <= address - self.flash_addr_u * 0x1_0000 < self.rom.len() {
            Some(address - self.flash_addr_u * 0x1_0000)
        } else {
            None
        }
    }

    /// The offset in external RAM that an address decodes to. The RAM repeats throughout the
    /// banks of chip select 0.
    pub open spec fn external_offset(self, address: int) -> Option<int> {
        if self.external.len() > 0 && self.cs0_lbr * 0x1_0000 <= address <= self.cs0_ubr * 0x1_0000
            + 0xffff {
            Some(address % (self.external.len() as int))
        } else {
            None
        }
    }

    /// The byte that an address reads as, or nothing where it is unmapped. On-chip RAM hides
    /// flash, and flash hides external RAM.
    pub open spec fn observed(self, address: int) -> Option<u8> {
        if self.internal_offset(address) is Some {
            Some(self.internal[self.internal_offset(address)->0])
        } else if self.rom_offset(address) is Some {
            Some(self.rom[self.rom_offset(address)->0])
        } else if self.external_offset(address) is Some {
            Some(self.external[self.external_offset(address)->0])
        } else {
            None
        }
    }

    /// The RAM cell that a store to an address changes, if there is one.
    pub open spec fn storage(self, address: int) -> Option<StorageAddress> {
        if self.internal_offset(address) is Some {
            Some(StorageAddress::Internal(self.internal_offset(address)->0 as usize))
        } else if self.rom_offset(address) is Some {
            None
        } else if self.external_offset(address) is Some {
            Some(StorageAddress::External(self.external_offset(address)->0 as usize))
        } else {
            None
        }
    }

    /// The machine after one RAM cell was changed.
    pub open spec fn with_cell(self, cell: StorageAddress, value: u8) -> MachineView {
        match cell {
            StorageAddress::Internal(offset) => MachineView {
                internal: self.internal.update(offset as int, value),
                ..self
            },
            StorageAddress::External(offset) => MachineView {
                external: self.external.update(offset as int, value),
                ..self
            },
        }
    }

    /// The contents of one RAM cell.
    pub open spec fn cell(self, cell: StorageAddress) -> u8 {
        match cell {
            StorageAddress::Internal(offset) => self.internal[offset as int],
            StorageAddress::External(offset) => self.external[offset as int],
        }
    }

    /// Whether the machine has such a RAM cell.
    pub open spec fn has_cell(self, cell: StorageAddress) -> bool {
        match cell {
            StorageAddress::Internal(offset) => offset < self.internal.len(),
            StorageAddress::External(offset) => offset < self.external.len(),
        }
    }

    /// The machine after a byte was stored: flash and unmapped addresses keep what they hold.
    pub open spec fn stored(self, address: int, value: u8) -> MachineView {
        match self.storage(address) {
            Some(cell) => self.with_cell(cell, value),
            None => self,
        }
    }

    /// The machine after a byte was written to an I/O port: the chip select registers, the exit
    /// port of a headless guest, or a port that belongs to no peripheral.
    pub open spec fn port_written(self, address: u16, value: u8) -> MachineView {
        let port: u16 = address % 0x100;
        if port == 0xa8 {
            MachineView { cs0_lbr: value, ..self }
        } else if port == 0xa9 {
            MachineView { cs0_ubr: value, ..self }
        } else if port == 0 && self.headless_mode {
            MachineView { guest_exit_status: Some(value), ..self }
        } else {
            MachineView { io_unhandled: Some(address), ..self }
        }
    }

    /// The byte that an I/O port reads as: a chip select register, or all ones where there is no
    /// peripheral.
    pub open spec fn port_value(self, address: u16) -> u8 {
        if address % 0x100 == 0xa8 {
            self.cs0_lbr
        } else if address % 0x100 == 0xa9 {
            self.cs0_ubr
        } else {
            0xff
        }
    }

    /// The machine after an I/O port was read: a port that belongs to no peripheral is marked.
    pub open spec fn port_read(self, address: u16) -> MachineView {
        if address % 0x100 == 0xa8 || address % 0x100 == 0xa9 {
            self
        } else {
            MachineView { io_unhandled: Some(address), ..self }
        }
    }

    /// The machine after the used cycles were added to the total, which wraps at 64 bits.
    pub open spec fn cycles_applied(self) -> MachineView {
        MachineView {
            total_cycles_elapsed: ((self.total_cycles_elapsed + self.cycle_counter)
                % 0x1_0000_0000_0000_0000) as u64,
            cycle_counter: 0,
            ..self
        }
    }

    /// What a CPU can see of the machine over its bus.
    pub open spec fn bus(self) -> BusView {
        BusView {
            rom: self.rom,
            internal: self.internal,
            external: self.external,
            onchip_mem_enable: self.onchip_mem_enable,
            onchip_mem_segment: self.onchip_mem_segment,
            flash_addr_u: self.flash_addr_u,
            cs0_lbr: self.cs0_lbr,
            cs0_ubr: self.cs0_ubr,
            io_unhandled: self.io_unhandled,
            headless_mode: self.headless_mode,
            guest_exit_status: self.guest_exit_status,
        }
    }

    /// The machine after a CPU left the bus in a given state. RAM, the chip select registers and
    /// the marks that port accesses leave are in its reach.
    pub open spec fn reached(self, bus: BusView) -> MachineView {
        MachineView {
            internal: bus.internal,
            external: bus.external,
            cs0_lbr: bus.cs0_lbr,
            cs0_ubr: bus.cs0_ubr,
            io_unhandled: bus.io_unhandled,
            guest_exit_status: bus.guest_exit_status,
            ..self
        }
    }

    /// Whether two machines agree on all that a CPU cannot reach over its bus. RAM, the chip select
    /// registers and the marks that port accesses leave are in its reach.
    pub open spec fn agrees_off_bus(self, other: MachineView) -> bool {
        &&& self.internal.len() == other.internal.len()
        &&& self.external.len() == other.external.len()
        &&& self == (MachineView {
            internal: self.internal,
            external: self.external,
            cs0_lbr: self.cs0_lbr,
            cs0_ubr: self.cs0_ubr,
            io_unhandled: self.io_unhandled,
            guest_exit_status: self.guest_exit_status,
            ..other
        })
    }

    /// A machine at reset, with the given contents of the flash and size of the external RAM.
    pub open spec fn reset(mos: Seq<u8>, external_ram_size: nat, flag: Arc<AtomicBool>) -> MachineView {
        MachineView {
            rom: Seq::new(ROM_SIZE as nat, |i: int| if i < mos.len() { mos[i] } else { 0u8 }),
            internal: Seq::new(ONCHIP_RAM_SIZE as nat, |i: int| 0u8),
            external: Seq::new(external_ram_size, |i: int| 0u8),
            onchip_mem_enable: true,
            onchip_mem_segment: 0xff,
            flash_addr_u: 0,
            cs0_lbr: 0,
            cs0_ubr: 0xff,
            cycle_counter: 0,
            total_cycles_elapsed: 0,
            last_pc: 0,
            mem_out_of_bounds: None,
            io_unhandled: None,
            interrupt_request: None,
            paused: false,
            headless_mode: false,
            enable_hostfs: true,
            guest_exit_status: None,
            emulator_shutdown: flag,
        }
    }

    /// The machine after the CPU stored a byte: it takes a cycle, and an unmapped address is marked.
    pub open spec fn poked(self, address: u32, value: u8) -> MachineView {
        MachineView {
            cycle_counter: self.cycle_counter.wrapping_add(1),
            mem_out_of_bounds: if self.observed(address as int) is Some {
                self.mem_out_of_bounds
            } else {
                Some(address)
            },
            ..self.stored(address as int, value)
        }
    }

    /// The machine with every RAM cell zero.
    pub open spec fn ram_cleared(self) -> MachineView {
        MachineView {
            internal: Seq::new(self.internal.len(), |i: int| 0u8),
            external: Seq::new(self.external.len(), |i: int| 0u8),
            ..self
        }
    }
}

/// What the bus carries for a byte: an unmapped one reads as [`UNMAPPED_BYTE`].
pub open spec fn read_or_default(byte: Option<u8>) -> u8 {
    match byte {
        Some(value) => value,
        None => UNMAPPED_BYTE,
    }
}

impl AgonMachine {
    /// A machine at reset: flash at bank 0, on-chip RAM at the top of the address space, and
    /// external RAM everywhere else.
    pub fn new(config: AgonMachineConfig) -> (machine: Self)
        ensures
            machine@.rom == Seq::new(
                ROM_SIZE as nat,
                |i: int| if i < config.mos@.len() { config.mos@[i] } else { 0u8 },
            ),
            machine@.internal == Seq::new(ONCHIP_RAM_SIZE as nat, |i: int| 0u8),
            machine@.external == Seq::new(config.external_ram_size as nat, |i: int| 0u8),
            machine@ == (MachineView {
                rom: machine@.rom,
                internal: machine@.internal,
                external: machine@.external,
                onchip_mem_enable: true,
                onchip_mem_segment: 0xff,
                flash_addr_u: 0,
                cs0_lbr: 0,
                cs0_ubr: 0xff,
                cycle_counter: 0,
                total_cycles_elapsed: 0,
                last_pc: 0,
                mem_out_of_bounds: None,
                io_unhandled: None,
                interrupt_request: None,
                paused: false,
                headless_mode: false,
                enable_hostfs: true,
                guest_exit_status: None,
                emulator_shutdown: config.emulator_shutdown,
            }),
            machine@ == MachineView::reset(
                config.mos@,
                config.external_ram_size as nat,
                config.emulator_shutdown,
            ),
    {
        let mut mem_rom: Vec<u8> = zeroed(ROM_SIZE);
        let mut i: usize = 0;
        while i < ROM_SIZE && i < config.mos.len()
            invariant
                i <= config.mos@.len(),
                i <= ROM_SIZE,
                mem_rom@ == Seq::new(
                    ROM_SIZE as nat,
                    |k: int| if k < i { config.mos@[k] } else { 0u8 },
                ),
            decreases ROM_SIZE - i,
        {
            mem_rom.set(i, config.mos[i]);
            i += 1;
        }
        AgonMachine {
            mem_rom,
            mem_internal: zeroed(ONCHIP_RAM_SIZE),
            mem_external: zeroed(config.external_ram_size),
            onchip_mem_enable: true,
            onchip_mem_segment: 0xff,
            flash_addr_u: 0,
            cs0_lbr: 0,
            cs0_ubr: 0xff,
            cycle_counter: 0,
            total_cycles_elapsed: 0,
            last_pc: 0,
            mem_out_of_bounds: None,
            io_unhandled: None,
            interrupt_request: None,
            paused: false,
            headless_mode: false,
            enable_hostfs: true,
            guest_exit_status: None,
            emulator_shutdown: config.emulator_shutdown,
        }
    }

    /// The offset in on-chip RAM that an address decodes to.
    pub fn get_internal_ram_address(&self, address: u32) -> (offset: Option<u32>)
        ensures
            offset matches Some(o) ==> self@.internal_offset(address as int) == Some(o as int) && o
                < self.mem_internal@.len(),
            offset is None ==> self@.internal_offset(address as int) is None,
    {
        let base: u32 = self.onchip_mem_segment as u32 * 0x1_0000 + 0xe000;
        if self.onchip_mem_enable && base <= address && ((address - base) as usize)
            < self.mem_internal.len() {
            Some(address - base)
        } else {
            None
        }
    }

    /// The offset in flash that an address decodes to.
    pub fn get_rom_address(&self, address: u32) -> (offset: Option<u32>)
        ensures
            offset matches Some(o) ==> self@.rom_offset(address as int) == Some(o as int) && o
                < self.mem_rom@.len(),
            offset is None ==> self@.rom_offset(address as int) is None,
    {
        let base: u32 = self.flash_addr_u as u32 * 0x1_0000;
        if base <= address && ((address - base) as usize) < self.mem_rom.len() {
            Some(address - base)
        } else {
            None
        }
    }

    /// The offset in external RAM that an address decodes to.
    pub fn get_external_ram_address(&self, address: u32) -> (offset: Option<u32>)
        ensures
            offset matches Some(o) ==> self@.external_offset(address as int) == Some(o as int) && o
                < self.mem_external@.len(),
            offset is None ==> self@.external_offset(address as int) is None,
    {
        let first: u32 = self.cs0_lbr as u32 * 0x1_0000;
        let last: u32 = self.cs0_ubr as u32 * 0x1_0000 + 0xffff;
        let len: usize = self.mem_external.len();
        if len > 0 && first <= address && address <= last {
            let offset: usize = address as usize % len;
            assert(offset <= address) by {
                vstd::arithmetic::div_mod::lemma_mod_decreases(address as nat, len as nat);
            }
            Some(offset as u32)
        } else {
            None
        }
    }

    /// The byte at an address, read without using cycles or leaving a mark.
    pub fn observed_byte(&self, address: u32) -> (byte: Option<u8>)
        ensures
            byte == self@.observed(address as int),
    {
        if let Some(offset) = self.get_internal_ram_address(address) {
            return Some(self.mem_internal[offset as usize]);
        }
        if let Some(offset) = self.get_rom_address(address) {
            return Some(self.mem_rom[offset as usize]);
        }
        if let Some(offset) = self.get_external_ram_address(address) {
            return Some(self.mem_external[offset as usize]);
        }
        None
    }

    /// Stores a byte without using cycles, and says whether the address is mapped.
    pub fn store_byte(&mut self, address: u32, value: u8) -> (mapped: bool)
        ensures
            final(self)@ == old(self)@.stored(address as int, value),
            mapped == old(self)@.observed(address as int) is Some,
    {
        if let Some(offset) = self.get_internal_ram_address(address) {
            self.mem_internal.set(offset as usize, value);
            return true;
        }
        if self.get_rom_address(address).is_some() {
            return true;
        }
        if let Some(offset) = self.get_external_ram_address(address) {
            self.mem_external.set(offset as usize, value);
            return true;
        }
        false
    }

    /// Stores a byte as the CPU does: it takes a cycle, and an unmapped address is marked.
    pub fn poke(&mut self, address: u32, value: u8)
        ensures
            final(self)@ == (MachineView {
                cycle_counter: (old(self)@.cycle_counter as i32).wrapping_add(1),
                mem_out_of_bounds: if old(self)@.observed(address as int) is Some {
                    old(self)@.mem_out_of_bounds
                } else {
                    Some(address)
                },
                ..old(self)@.stored(address as int, value)
            }),
            final(self)@ == old(self)@.poked(address, value),
    {
        let mapped = self.store_byte(address, value);
        self.cycle_counter = self.cycle_counter.wrapping_add(1);
        if !mapped {
            self.mem_out_of_bounds = Some(address);
        }
    }

    /// Writes a byte to an I/O port.
    pub fn port_out(&mut self, address: u16, value: u8)
        ensures
            final(self)@ == old(self)@.port_written(address, value),
    {
        let port: u16 = address % 0x100;
        if port == 0xa8 {
            self.cs0_lbr = value;
        } else if port == 0xa9 {
            self.cs0_ubr = value;
        } else if port == 0 && self.headless_mode {
            self.guest_exit_status = Some(value);
        } else {
            self.io_unhandled = Some(address);
        }
    }

    /// Reads a byte from an I/O port: a chip select register, or a port that belongs to no
    /// peripheral, which is marked.
    pub fn port_in(&mut self, address: u16) -> (value: u8)
        ensures
            value == old(self)@.port_value(address),
            final(self)@ == old(self)@.port_read(address),
    {
        let port: u16 = address % 0x100;
        if port == 0xa8 {
            self.cs0_lbr
        } else if port == 0xa9 {
            self.cs0_ubr
        } else {
            self.io_unhandled = Some(address);
            0xff
        }
    }

    pub fn is_paused(&self) -> (paused: bool)
        ensures
            paused == self@.paused,
    {
        self.paused
    }

    pub fn set_paused(&mut self, paused: bool)
        ensures
            final(self)@ == (MachineView { paused, ..old(self)@ }),
    {
        self.paused = paused;
    }

    /// Fills all RAM with zeros.
    pub fn initialize_ram(&mut self)
        ensures
            final(self)@ == old(self)@.ram_cleared(),
    {
        self.mem_internal = zeroed(self.mem_internal.len());
        self.mem_external = zeroed(self.mem_external.len());
    }

    /// Adds the used cycles to the total and returns how many there were.
    pub fn apply_elapsed_cycles(&mut self) -> (cycles: i32)
        ensures
            cycles == old(self)@.cycle_counter,
            final(self)@ == old(self)@.cycles_applied(),
    {
        let cycles: i32 = self.cycle_counter;
        if cycles >= 0 {
            self.total_cycles_elapsed = self.total_cycles_elapsed.wrapping_add(cycles as u64);
        } else {
            let back: u64 = (-(cycles as i64)) as u64;
            self.total_cycles_elapsed = self.total_cycles_elapsed.wrapping_sub(back);
        }
        self.cycle_counter = 0;
        cycles
    }
}

/// A block of zero bytes.
fn zeroed(len: usize) -> (block: Vec<u8>)
    ensures
        block@ == Seq::new(len as nat, |i: int| 0u8),
{
    vec![0u8; len]
}

/// A RAM address decodes to a cell that the machine has.
pub proof fn lemma_storage_exists(machine: MachineView, address: u32)
    requires
        machine.storage(address as int) is Some,
    ensures
        machine.has_cell(machine.storage(address as int)->0),
        machine.observed(address as int) == Some(
            machine.cell(machine.storage(address as int)->0),
        ),
{
    if machine.internal_offset(address as int) is None {
        vstd::arithmetic::div_mod::lemma_mod_decreases(address as nat, machine.external.len());
    }
}

/// A byte stored at a RAM address is read back from it.
pub proof fn law_store_is_read_back(machine: MachineView, address: u32, value: u8)
    requires
        machine.storage(address as int) is Some,
    ensures
        machine.stored(address as int, value).observed(address as int) == Some(value),
{
    let after: MachineView = machine.stored(address as int, value);
    lemma_storage_exists(machine, address);
    if machine.internal_offset(address as int) is None {
        vstd::arithmetic::div_mod::lemma_mod_decreases(address as nat, machine.external.len());
        assert(after.external.len() == machine.external.len());
        assert(after.external_offset(address as int) == machine.external_offset(address as int));
    }
    lemma_storage_exists(after, address);
}

/// A store leaves what every address reads as alone, save for the addresses of the same cell.
pub proof fn law_store_leaves_other_cells(
    machine: MachineView,
    address: u32,
    other: u32,
    value: u8,
)
    requires
        machine.storage(other as int) != machine.storage(address as int) || machine.storage(
            other as int,
        ) is None,
    ensures
        machine.stored(address as int, value).observed(other as int) == machine.observed(
            other as int,
        ),
{
}

} // verus!
