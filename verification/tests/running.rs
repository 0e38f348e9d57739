use agon_ez80_emulator::headless::{
    validate_entry, DirectEntry, HeadlessBoot, HeadlessRunConfig, HeadlessSession,
    HeadlessSessionConfig, HeadlessStepOutcome, NonZeroU64, RunLimits, StopReason,
};
use agon_ez80_emulator::images::{HeadlessRunError, LoadImage};
use agon_ez80_emulator::machine::{AgonMachine, AgonMachineConfig, StorageAddress};
use std::sync::atomic::{AtomicBool, Ordering};
use std::sync::Arc;

const START: u32 = 0x040000;

fn machine() -> AgonMachine {
    AgonMachine::new(AgonMachineConfig {
        mos: vec![],
        external_ram_size: 512 * 1024,
        emulator_shutdown: Arc::new(AtomicBool::new(false)),
    })
}

fn entry(pc: u32, adl: bool, mbase: u8) -> HeadlessBoot {
    HeadlessBoot::Direct(DirectEntry {
        pc,
        adl,
        madl: false,
        mbase,
    })
}

fn image(address: u32, bytes: &[u8]) -> LoadImage {
    LoadImage {
        address,
        bytes: bytes.to_vec(),
    }
}

fn limits(max_instructions: u64, max_cycles: u64) -> RunLimits {
    RunLimits {
        max_instructions: NonZeroU64::new(max_instructions).unwrap(),
        max_cycles: NonZeroU64::new(max_cycles).unwrap(),
    }
}

fn session(program: &[u8]) -> HeadlessSession {
    machine()
        .begin_headless(HeadlessSessionConfig {
            boot: entry(START, true, 0),
            images: vec![image(START, program)],
        })
        .ok()
        .unwrap()
}

fn refusal(machine: AgonMachine, boot: HeadlessBoot, images: Vec<LoadImage>) -> HeadlessRunError {
    machine
        .run_headless(HeadlessRunConfig {
            boot,
            images,
            limits: limits(1, 100),
        })
        .unwrap_err()
}

#[test]
fn zero_is_no_limit() {
    assert_eq!(NonZeroU64::new(0), None);
    assert_eq!(NonZeroU64::new(7).unwrap().get(), 7);
}

#[test]
fn used_machines_are_refused() {
    let boot = entry(START, true, 0);
    for mark in 0..5 {
        let mut machine = machine();
        match mark {
            0 => machine.cycle_counter = 1,
            1 => machine.total_cycles_elapsed = 1,
            2 => machine.mem_out_of_bounds = Some(1),
            3 => machine.io_unhandled = Some(1),
            _ => machine.guest_exit_status = Some(1),
        }
        let error = refusal(machine, boot, vec![]);
        assert_eq!(error, HeadlessRunError::MachineAlreadyUsed);
        assert_eq!(error.message(), "machine has already executed or faulted");
    }
}

#[test]
fn every_refusal_of_images_says_what_is_wrong() {
    let boot = entry(START, true, 0);
    let error = refusal(machine(), boot, vec![]);
    assert_eq!(error, HeadlessRunError::NoImages);
    assert_eq!(
        error.message(),
        "direct headless boot requires at least one image"
    );

    let error = refusal(machine(), boot, vec![image(START, &[1]), image(START, &[])]);
    assert_eq!(error, HeadlessRunError::EmptyImage { image: 1 });
    assert_eq!(error.message(), "image 1 is empty");

    let error = refusal(machine(), boot, vec![image(0x0100_0000, &[1])]);
    assert_eq!(
        error,
        HeadlessRunError::AddressOutOfRange {
            image: 0,
            address: 0x0100_0000
        }
    );
    assert_eq!(
        error.message(),
        "image 0 starts outside 24-bit space at $01000000"
    );

    let error = refusal(machine(), boot, vec![image(0xfffff0, &[0; 17])]);
    assert_eq!(
        error,
        HeadlessRunError::RangeOutOfRange {
            image: 0,
            address: 0xfffff0,
            len: 17
        }
    );
    assert_eq!(
        error.message(),
        "image 0 range $fffff0+17 leaves 24-bit space"
    );

    let error = refusal(machine(), boot, vec![image(0x01ffff, &[1])]);
    assert_eq!(
        error,
        HeadlessRunError::ReadOnlyAddress {
            image: 0,
            address: 0x01ffff
        }
    );
    assert_eq!(
        error.message(),
        "image 0 targets read-only ROM at $01ffff"
    );

    let mut small = machine();
    small.cs0_ubr = 4;
    let error = refusal(small, boot, vec![image(0x04ffff, &[1, 2])]);
    assert_eq!(
        error,
        HeadlessRunError::UnmappedAddress {
            image: 0,
            address: 0x050000
        }
    );
    assert_eq!(
        error.message(),
        "image 0 targets unmapped address $050000"
    );

    let error = refusal(machine(), boot, vec![image(0x07ffff, &[1, 2])]);
    assert_eq!(
        error,
        HeadlessRunError::PhysicalWrap {
            image: 0,
            address: 0x080000
        }
    );
    assert_eq!(
        error.message(),
        "image 0 wraps its physical RAM backing at $080000"
    );

    let error = refusal(
        machine(),
        boot,
        vec![image(START, &[1, 2]), image(0x0c0001, &[3])],
    );
    assert_eq!(
        error,
        HeadlessRunError::AliasedAddress {
            image: 1,
            address: 0x0c0001,
            previous_image: 0,
            previous_address: 0x040001
        }
    );
    assert_eq!(
        error.message(),
        "image 1 address $0c0001 aliases image 0 address $040001"
    );
}

#[test]
fn the_first_thing_wrong_is_the_error() {
    let boot = entry(0x0100_0000, true, 0);
    let error = refusal(
        machine(),
        boot,
        vec![image(START, &[1]), image(0, &[1]), image(START, &[])],
    );
    assert_eq!(
        error,
        HeadlessRunError::ReadOnlyAddress {
            image: 1,
            address: 0
        }
    );
    let error = refusal(machine(), boot, vec![image(START, &[1])]);
    assert_eq!(error, HeadlessRunError::EntryOutOfRange { entry: 0x0100_0000 });
    assert_eq!(
        error.message(),
        "entry PC is outside 24-bit space: $01000000"
    );
}

#[test]
fn entries_outside_adl_mode_lie_in_their_bank() {
    let boot = DirectEntry {
        pc: START,
        adl: false,
        madl: false,
        mbase: 5,
    };
    let error = validate_entry(boot).unwrap_err();
    assert_eq!(
        error,
        HeadlessRunError::EntryMbaseMismatch {
            entry: START,
            mbase: 5
        }
    );
    assert_eq!(
        error.message(),
        "non-ADL entry $040000 does not use declared MBASE $05"
    );
    assert!(validate_entry(DirectEntry { adl: true, ..boot }).is_ok());
    assert!(validate_entry(DirectEntry { mbase: 4, ..boot }).is_ok());
}

#[test]
fn targets_cross_from_external_to_internal_ram() {
    let targets = machine()
        .validate_images(&[image(0xffdfff, &[0xaa, 0xbb])])
        .unwrap();
    assert_eq!(
        targets,
        vec![vec![
            StorageAddress::External(0x07dfff),
            StorageAddress::Internal(0),
        ]]
    );
}

#[test]
fn loaded_images_are_read_back_and_other_ram_is_zero() {
    let mut dirty = machine();
    dirty.store_byte(0x050000, 0x77);
    let session = dirty
        .begin_headless(HeadlessSessionConfig {
            boot: entry(START, true, 0),
            images: vec![image(0xffdfff, &[0xaa, 0xbb]), image(START, &[1, 2, 3])],
        })
        .ok()
        .unwrap();
    assert_eq!(session.machine.observed_byte(0xffdfff), Some(0xaa));
    assert_eq!(session.machine.observed_byte(0xffe000), Some(0xbb));
    assert_eq!(session.machine.observed_byte(START + 2), Some(3));
    assert_eq!(session.machine.observed_byte(START + 3), Some(0));
    assert_eq!(session.machine.observed_byte(0x050000), Some(0));
    assert!(session.machine.headless_mode);
    assert!(!session.machine.enable_hostfs);
    assert_eq!(session.registers().af, 0xffff);
    assert_eq!(session.registers().pc, START);
    assert_eq!(session.terminal_reason(), None);
}

#[test]
fn a_miscounted_instruction_is_an_error() {
    let mut session = session(&[0x00]);
    let error = session.account_instruction(5).unwrap_err();
    assert_eq!(
        error,
        HeadlessRunError::InstructionAccountingInvariant {
            before: 5,
            after: 0
        }
    );
    assert_eq!(
        error.message(),
        "one headless step did not execute exactly one instruction (5 -> 0)"
    );
}

#[test]
fn an_instruction_without_cycles_is_an_error() {
    let mut session = session(&[0x00]);
    session.step().unwrap();
    let error = session.account_instruction(0).unwrap_err();
    assert_eq!(
        error,
        HeadlessRunError::CycleAccountingInvariant { pending: 0 }
    );
    session.machine.cycle_counter = -3;
    let error = session.account_interrupt(0).unwrap_err();
    assert_eq!(
        error,
        HeadlessRunError::CycleAccountingInvariant { pending: -3 }
    );
    assert_eq!(
        error.message(),
        "one headless instruction produced a non-positive cycle count (-3)"
    );
}

#[test]
fn a_wrapped_total_is_an_error() {
    let mut session = session(&[0x00]);
    session.machine.total_cycles_elapsed = u64::MAX;
    let error = session.step().unwrap_err();
    assert_eq!(error, HeadlessRunError::CycleAccountingOverflow);
    assert_eq!(error.message(), "guest cycle counter overflowed");
}

#[test]
fn endless_prefixes_are_not_executed() {
    let mut session = machine()
        .begin_headless(HeadlessSessionConfig {
            boot: entry(START, false, 4),
            images: vec![image(START, &[0x40; 0x1_0000])],
        })
        .ok()
        .unwrap();
    assert_eq!(
        session.step(),
        Err(HeadlessRunError::InstructionAccountingInvariant {
            before: 0,
            after: 0
        })
    );
    assert_eq!(session.instructions_executed(), 0);
}

#[test]
fn a_stopped_guest_is_left_alone() {
    let mut session = session(&[0x76, 0x00]);
    let first = session.step().unwrap();
    assert_eq!(first.reason, Some(StopReason::Halted));
    assert_eq!(session.step().unwrap(), first);
    let outcome = session.run(limits(10, 1000)).unwrap();
    assert_eq!(outcome.reason, StopReason::Halted);
    assert_eq!(outcome.instructions, 1);
    assert_eq!(outcome.cycles, first.cycles);
}

#[test]
fn a_later_shutdown_request_stops_a_session() {
    let mut session = session(&[0x18, 0xfe]);
    assert_eq!(session.step().unwrap().reason, None);
    session
        .machine
        .emulator_shutdown
        .store(true, Ordering::Relaxed);
    let outcome = session.run(limits(10, 1000)).unwrap();
    assert_eq!(outcome.reason, StopReason::RequestedShutdown);
    assert_eq!(outcome.instructions, 1);
    assert_eq!(
        session.terminal_reason(),
        Some(StopReason::RequestedShutdown)
    );
    assert_eq!(session.terminal_reason_when(false), None);
}

#[test]
fn memory_faults_name_the_address_and_the_instruction() {
    // LD A,($050000)
    let mut session = session(&[0x3a, 0x00, 0x00, 0x05]);
    session.machine.cs0_ubr = 4;
    let outcome = session.step().unwrap();
    assert_eq!(
        outcome.reason,
        Some(StopReason::MemoryFault {
            address: 0x050000,
            instruction_pc: START
        })
    );
    assert_eq!(outcome.instructions, 1);
}

#[test]
fn a_run_in_slices_is_one_run() {
    // DJNZ to itself
    let program = [0x10, 0xfe, 0x76];
    let mut whole = session(&program);
    let expected = whole.run(limits(1000, 100_000)).unwrap();
    let mut sliced = session(&program);
    for count in [1, 2, 50] {
        let outcome = sliced.run(limits(count, 100_000)).unwrap();
        assert_eq!(outcome.reason, StopReason::InstructionLimit);
        assert_eq!(outcome.instructions, count);
    }
    assert_eq!(sliced.run(limits(1000, 100_000)).unwrap(), expected);
    assert_eq!(expected.reason, StopReason::Halted);
    assert_eq!(expected.instructions, 257);
}

#[test]
fn limits_that_are_already_reached_stop_a_run() {
    let mut session = session(&[0x00, 0x00, 0x00]);
    session.run(limits(2, 1000)).unwrap();
    let cycles = session.total_cycles_elapsed();
    let outcome = session.run(limits(10, cycles)).unwrap();
    assert_eq!(outcome.reason, StopReason::CycleLimit);
    assert_eq!(outcome.instructions, 2);
    assert_eq!(outcome.cycles, cycles);
}

#[test]
fn reasons_to_end_a_run_have_an_order() {
    let step = HeadlessStepOutcome {
        reason: Some(StopReason::Halted),
        guest_status: None,
        pc: START,
        instructions: 5,
        cycles: 20,
    };
    assert_eq!(
        step.stop_reason(limits(5, 19)),
        Some(StopReason::CycleLimit)
    );
    assert_eq!(step.stop_reason(limits(5, 20)), Some(StopReason::Halted));
    let running = HeadlessStepOutcome {
        reason: None,
        ..step
    };
    assert_eq!(
        running.stop_reason(limits(5, 20)),
        Some(StopReason::InstructionLimit)
    );
    assert_eq!(
        running.stop_reason(limits(6, 20)),
        Some(StopReason::CycleLimit)
    );
    assert_eq!(running.stop_reason(limits(6, 21)), None);
}

#[test]
fn interrupts_are_taken_when_they_are_enabled() {
    // EI
    let mut session = session(&[0xfb, 0x00]);
    session.machine.interrupt_request = Some(0x20);
    let outcome = session.step().unwrap();
    assert_eq!(session.machine.interrupt_request, None);
    assert_ne!(outcome.pc, START + 1);
    assert_eq!(outcome.instructions, 1);
    assert!(!session.registers().iff1);
    assert_eq!(session.machine.cycle_counter, 0);
}

#[test]
fn interrupts_wait_while_they_are_disabled() {
    let mut session = session(&[0x00, 0x00]);
    session.machine.interrupt_request = Some(0x20);
    let outcome = session.step().unwrap();
    assert_eq!(session.machine.interrupt_request, Some(0x20));
    assert_eq!(outcome.pc, START + 1);
}

#[test]
fn an_interrupt_wakes_a_halted_cpu() {
    let mut machine = machine();
    let mut cpu = ez80::Cpu::new_ez80();
    cpu.state.reg.adl = true;
    cpu.state.reg.iff1 = true;
    cpu.state.halted = true;
    machine.interrupt_request = Some(0x20);
    machine.do_interrupts(&mut cpu);
    assert!(!cpu.is_halted());
    assert_eq!(machine.interrupt_request, None);
    assert_eq!(cpu.state.instructions_executed, 0);
}

#[test]
fn a_program_run_again_at_its_own_cycle_limit_ends_alike() {
    // LD A,$2a; OUT ($00),A and DJNZ to itself; HALT
    for program in [vec![0x3e, 0x2a, 0xd3, 0x00], vec![0x10, 0xfe, 0x76]] {
        let first = session(&program).run(limits(1000, 100_000)).unwrap();
        let again = session(&program)
            .run(limits(1000, first.cycles))
            .unwrap();
        assert_eq!(again, first);
        let short = session(&program)
            .run(limits(1000, first.cycles - 1))
            .unwrap();
        assert_eq!(short.reason, StopReason::CycleLimit);
    }
}

#[test]
fn a_second_run_under_the_same_limits_executes_nothing() {
    for (program, count, reason) in [
        (vec![0x18, 0xfe], 3, StopReason::InstructionLimit),
        (vec![0x76], 9, StopReason::Halted),
        (vec![0x3e, 0x2a, 0xd3, 0x00], 9, StopReason::GuestExit(0x2a)),
    ] {
        let mut session = session(&program);
        let first = session.run(limits(count, 1000)).unwrap();
        assert_eq!(first.reason, reason);
        assert_eq!(session.run(limits(count, 1000)).unwrap(), first);
    }
    // The guest exits in an instruction that goes beyond the cycle limit.
    let mut overshot = session(&[0xd3, 0x00]);
    let first = overshot.run(limits(5, 1)).unwrap();
    assert_eq!(first.reason, StopReason::CycleLimit);
    assert_eq!(
        overshot.run(limits(5, 1)).unwrap().reason,
        StopReason::GuestExit(0xff)
    );
}

#[test]
fn a_run_gives_what_its_session_gives() {
    for program in [vec![0x3e, 0x2a, 0xd3, 0x00], vec![0x10, 0xfe, 0x76]] {
        let whole = machine()
            .run_headless(HeadlessRunConfig {
                boot: entry(START, true, 0),
                images: vec![image(START, &program)],
                limits: limits(1000, 100_000),
            })
            .unwrap();
        let apart = session(&program).run(limits(1000, 100_000)).unwrap();
        assert_eq!(whole, apart);
    }
}

#[test]
fn a_stopped_guest_stops_steps_and_runs_under_any_limits() {
    let mut session = session(&[0x3e, 0x2a, 0xd3, 0x00]);
    session.step().unwrap();
    let stopped = session.step().unwrap();
    assert_eq!(stopped.reason, Some(StopReason::GuestExit(0x2a)));
    assert_eq!(session.step().unwrap(), stopped);
    let run = session.run(limits(1, 1)).unwrap();
    assert_eq!(Some(run.reason), stopped.reason);
    assert_eq!(run.instructions, stopped.instructions);
}

#[test]
fn the_first_offending_image_decides() {
    let machine = machine();
    let images = [
        image(START, &[1, 2]),
        image(0x050000, &[3]),
        image(0x0c0001, &[4]),
        image(0, &[5]),
        image(START, &[]),
    ];
    let error = machine.validate_images(&images).unwrap_err();
    assert_eq!(
        error,
        HeadlessRunError::AliasedAddress {
            image: 2,
            address: 0x0c0001,
            previous_image: 0,
            previous_address: 0x040001
        }
    );
    assert_eq!(machine.validate_images(&images[..3]).unwrap_err(), error);
    assert!(machine.validate_images(&images[..2]).is_ok());
}
