use agon_ez80_emulator::address::{bank_byte, code_address, low_word, span_of};
use agon_ez80_emulator::machine::{
    AgonMachine, AgonMachineConfig, ONCHIP_RAM_SIZE, ROM_SIZE, UNMAPPED_BYTE,
};
use agon_ez80_emulator::processor::{bus_read, bus_write, BusActivity};
use agon_ez80_emulator::prefix::{scan_ez80_prefixes, PrefixScan, PrefixScanError};
use std::sync::atomic::AtomicBool;
use std::sync::Arc;

fn machine(mos: Vec<u8>, external_ram_size: usize) -> AgonMachine {
    AgonMachine::new(AgonMachineConfig {
        mos,
        external_ram_size,
        emulator_shutdown: Arc::new(AtomicBool::new(false)),
    })
}

#[test]
fn code_addresses_wrap_by_mode() {
    assert_eq!(code_address(0xffffff, 1, true, 4), 0);
    assert_eq!(code_address(0x04ffff, 1, true, 4), 0x050000);
    assert_eq!(code_address(0x04ffff, 1, false, 4), 0x040000);
    assert_eq!(code_address(0x1234, 0x1_0002, false, 0xab), 0xab1236);
    assert_eq!(low_word(0x12345678), 0x5678);
    assert_eq!(bank_byte(0x12345678), 0x34);
    assert_eq!(span_of(true), 0x100_0000);
    assert_eq!(span_of(false), 0x1_0000);
}

#[test]
fn fetching_repeats_after_a_span_and_composes() {
    for adl in [false, true] {
        let start = 0x04fff0;
        let span = span_of(adl);
        assert_eq!(
            code_address(start, 7, adl, 4),
            code_address(start, 7 + span, adl, 4)
        );
        assert_ne!(
            code_address(start, 7, adl, 4),
            code_address(start, 6 + span, adl, 4)
        );
        let between = code_address(start, 0x20, adl, 4);
        assert_eq!(
            code_address(between, 0x30, adl, 4),
            code_address(start, 0x50, adl, 4)
        );
    }
}

#[test]
fn the_memory_map_of_a_new_machine() {
    let machine = machine(vec![1, 2, 3], 512 * 1024);
    assert_eq!(machine.mem_rom.len(), ROM_SIZE);
    assert_eq!(machine.mem_internal.len(), ONCHIP_RAM_SIZE);
    assert_eq!(machine.observed_byte(0), Some(1));
    assert_eq!(machine.observed_byte(2), Some(3));
    assert_eq!(machine.observed_byte(3), Some(0));
    assert_eq!(machine.get_rom_address(0x01ffff), Some(0x01ffff));
    assert_eq!(machine.get_rom_address(0x020000), None);
    assert_eq!(machine.get_internal_ram_address(0xffdfff), None);
    assert_eq!(machine.get_internal_ram_address(0xffe000), Some(0));
    assert_eq!(machine.get_internal_ram_address(0xffffff), Some(0x1fff));
    assert_eq!(machine.get_external_ram_address(0x040000), Some(0x040000));
    assert_eq!(machine.get_external_ram_address(0x0c0000), Some(0x040000));
}

#[test]
fn a_stored_byte_is_read_back_and_others_stay() {
    let mut machine = machine(vec![], 512 * 1024);
    assert!(machine.store_byte(0x040000, 0x5a));
    assert_eq!(machine.observed_byte(0x040000), Some(0x5a));
    assert_eq!(machine.observed_byte(0x0c0000), Some(0x5a));
    assert_eq!(machine.observed_byte(0x040001), Some(0));
    assert!(machine.store_byte(0xffe001, 0xa5));
    assert_eq!(machine.mem_internal[1], 0xa5);
    assert_eq!(machine.observed_byte(0x040000), Some(0x5a));
    machine.initialize_ram();
    assert_eq!(machine.observed_byte(0x040000), Some(0));
    assert_eq!(machine.observed_byte(0xffe001), Some(0));
}

#[test]
fn flash_keeps_its_contents_and_unmapped_stores_are_marked() {
    let mut machine = machine(vec![7], 512 * 1024);
    machine.poke(0, 9);
    assert_eq!(machine.observed_byte(0), Some(7));
    assert_eq!(machine.mem_out_of_bounds, None);
    assert_eq!(machine.cycle_counter, 1);
    machine.port_out(0xa8, 4);
    machine.port_out(0xa9, 4);
    machine.poke(0x050000, 1);
    assert_eq!(machine.mem_out_of_bounds, Some(0x050000));
    assert_eq!(machine.observed_byte(0x050000), None);
    assert_eq!(machine.cycle_counter, 2);
    assert_eq!(UNMAPPED_BYTE, 0xf5);
}

#[test]
fn ports_reach_the_chip_select_the_exit_and_the_marks() {
    let mut machine = machine(vec![], 16);
    machine.port_out(0x12a8, 3);
    machine.port_out(0xa9, 9);
    assert_eq!(machine.port_in(0xa8), 3);
    assert_eq!(machine.port_in(0xa9), 9);
    assert_eq!(machine.io_unhandled, None);
    assert_eq!(machine.port_in(0x1234), 0xff);
    assert_eq!(machine.io_unhandled, Some(0x1234));
    machine.port_out(0, 5);
    assert_eq!(machine.guest_exit_status, None);
    assert_eq!(machine.io_unhandled, Some(0));
    machine.headless_mode = true;
    machine.port_out(0, 5);
    assert_eq!(machine.guest_exit_status, Some(5));
}

#[test]
fn pending_cycles_are_added_modulo_64_bits() {
    let mut machine = machine(vec![], 16);
    machine.cycle_counter = 12;
    machine.total_cycles_elapsed = 30;
    assert_eq!(machine.apply_elapsed_cycles(), 12);
    assert_eq!(machine.total_cycles_elapsed, 42);
    assert_eq!(machine.cycle_counter, 0);
    machine.cycle_counter = -43;
    assert_eq!(machine.apply_elapsed_cycles(), -43);
    assert_eq!(machine.total_cycles_elapsed, u64::MAX);
    machine.cycle_counter = 3;
    machine.apply_elapsed_cycles();
    assert_eq!(machine.total_cycles_elapsed, 2);
}

#[test]
fn scans_are_bounded_by_one_span() {
    let mut machine = machine(vec![], 512 * 1024);
    for offset in 0..0x1_0000 {
        machine.store_byte(0x040000 + offset, 0xfd);
    }
    assert_eq!(
        scan_ez80_prefixes(&machine, 0x048000, false, 4),
        Err(PrefixScanError::FullSpan)
    );
    machine.store_byte(0x048000, 0x52);
    assert_eq!(
        scan_ez80_prefixes(&machine, 0x048000, false, 4),
        Ok(PrefixScan {
            opcode: 0x52,
            prefix_len: 0x1_0000,
            immediate_long: true,
        })
    );
    machine.store_byte(0x048002, 0x3e);
    assert_eq!(
        scan_ez80_prefixes(&machine, 0x048000, false, 4),
        Ok(PrefixScan {
            opcode: 0x3e,
            prefix_len: 2,
            immediate_long: true,
        })
    );
    machine.cs0_ubr = 0x03;
    assert_eq!(
        scan_ez80_prefixes(&machine, 0x048000, false, 4),
        Err(PrefixScanError::Unmapped { address: 0x048000 })
    );
}

#[test]
fn the_bus_counts_cycles_and_keeps_the_last_fault() {
    let mut machine = machine(vec![7], 512 * 1024);
    machine.cs0_ubr = 4;
    let idle = BusActivity {
        cycles: 0,
        fault: None,
    };
    let (value, activity) = bus_read(&machine, idle, 0x0100_0000);
    assert_eq!(value, 7);
    assert_eq!(activity, idle.used(1));
    let (value, activity) = bus_read(&machine, activity, 0x050000);
    assert_eq!(value, UNMAPPED_BYTE);
    assert_eq!(
        activity,
        BusActivity {
            cycles: 2,
            fault: Some(0x050000)
        }
    );
    let activity = bus_write(&mut machine, activity, 0x0104_0000, 9);
    assert_eq!(machine.observed_byte(0x040000), Some(9));
    assert_eq!(activity.cycles, 3);
    assert_eq!(activity.fault, Some(0x050000));
    let activity = bus_write(&mut machine, activity.used(i32::MAX - 3), 0x060000, 9);
    assert_eq!(
        activity,
        BusActivity {
            cycles: i32::MIN,
            fault: Some(0x060000)
        }
    );
    assert_eq!(idle.accessed(5, true), idle.used(1));
}
