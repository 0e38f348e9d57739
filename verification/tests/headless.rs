use agon_ez80_emulator::headless::{
    DirectEntry, HeadlessBoot, HeadlessRunConfig, HeadlessSessionConfig, NonZeroU64, RunLimits,
    StopReason,
};
use agon_ez80_emulator::images::{HeadlessRunError, LoadImage};
use agon_ez80_emulator::machine::{AgonMachine, AgonMachineConfig};
use std::sync::atomic::AtomicBool;
use std::sync::Arc;

const LOAD_ADDRESS: u32 = 0x040000;
const GUEST_42: &[u8] = &[0x3e, 0x2a, 0xd3, 0x00];

fn machine(requested_shutdown: bool) -> AgonMachine {
    AgonMachine::new(AgonMachineConfig {
        mos: vec![],
        external_ram_size: 512 * 1024,
        emulator_shutdown: Arc::new(AtomicBool::new(requested_shutdown)),
    })
}

fn direct(bytes: &[u8], max_instructions: u64, max_cycles: u64) -> HeadlessRunConfig {
    HeadlessRunConfig {
        boot: HeadlessBoot::Direct(DirectEntry {
            pc: LOAD_ADDRESS,
            adl: true,
            madl: false,
            mbase: 0,
        }),
        images: vec![LoadImage {
            address: LOAD_ADDRESS,
            bytes: bytes.to_vec(),
        }],
        limits: RunLimits {
            max_instructions: NonZeroU64::new(max_instructions).unwrap(),
            max_cycles: NonZeroU64::new(max_cycles).unwrap(),
        },
    }
}

#[test]
fn direct_adl_guest_exit_is_finite_and_settled() {
    let outcome = machine(false)
        .run_headless(direct(GUEST_42, 2, 100))
        .unwrap();
    assert_eq!(outcome.reason, StopReason::GuestExit(0x2a));
    assert_eq!(outcome.guest_status, Some(0x2a));
    assert_eq!(outcome.pc, LOAD_ADDRESS + GUEST_42.len() as u32);
    assert_eq!(outcome.instructions, 2);
    assert!(outcome.cycles > 0);
}

#[test]
fn explicit_mode_is_visible_before_the_first_instruction() {
    let mut session = machine(false)
        .begin_headless(HeadlessSessionConfig {
            boot: HeadlessBoot::Direct(DirectEntry {
                pc: LOAD_ADDRESS,
                adl: true,
                madl: true,
                mbase: 0x7a,
            }),
            images: vec![LoadImage {
                address: LOAD_ADDRESS,
                bytes: vec![0x00],
            }],
        })
        .unwrap();
    assert_eq!(session.pc(), LOAD_ADDRESS);
    assert!(session.registers().adl);
    assert!(session.registers().madl);
    assert_eq!(session.registers().mbase, 0x7a);
    assert_eq!(session.instructions_executed(), 0);
    assert_eq!(session.total_cycles_elapsed(), 0);

    let step = session.step().unwrap();
    assert_eq!(step.reason, None);
    assert_eq!(step.instructions, 1);
    assert!(step.cycles > 0);
}

#[test]
fn matching_non_adl_entry_uses_declared_mbase() {
    let outcome = machine(false)
        .run_headless(HeadlessRunConfig {
            boot: HeadlessBoot::Direct(DirectEntry {
                pc: LOAD_ADDRESS,
                adl: false,
                madl: false,
                mbase: 0x04,
            }),
            images: vec![LoadImage {
                address: LOAD_ADDRESS,
                bytes: GUEST_42.to_vec(),
            }],
            limits: direct(GUEST_42, 2, 100).limits,
        })
        .unwrap();
    assert_eq!(outcome.reason, StopReason::GuestExit(0x2a));
    assert_eq!(outcome.pc, LOAD_ADDRESS + GUEST_42.len() as u32);
}

#[test]
fn requested_shutdown_stops_before_execution() {
    let outcome = machine(true).run_headless(direct(&[0x00], 1, 100)).unwrap();
    assert_eq!(outcome.reason, StopReason::RequestedShutdown);
    assert_eq!(outcome.instructions, 0);
    assert_eq!(outcome.cycles, 0);
}

#[test]
fn halt_is_a_typed_terminal_outcome() {
    let outcome = machine(false)
        .run_headless(direct(&[0x76], 4, 100))
        .unwrap();
    assert_eq!(outcome.reason, StopReason::Halted);
    assert_eq!(outcome.instructions, 1);
}

#[test]
fn instruction_limit_is_inclusive() {
    let outcome = machine(false)
        .run_headless(direct(&[0x18, 0xfe], 3, u64::MAX))
        .unwrap();
    assert_eq!(outcome.reason, StopReason::InstructionLimit);
    assert_eq!(outcome.instructions, 3);
}

#[test]
fn terminal_event_wins_at_exact_cycle_limit() {
    let reference = machine(false)
        .run_headless(direct(GUEST_42, 2, 100))
        .unwrap();
    let outcome = machine(false)
        .run_headless(direct(GUEST_42, 2, reference.cycles))
        .unwrap();
    assert_eq!(outcome.reason, StopReason::GuestExit(0x2a));
    assert_eq!(outcome.cycles, reference.cycles);
}

#[test]
fn cycle_overshoot_wins_over_guest_exit() {
    let outcome = machine(false)
        .run_headless(direct(&[0xd3, 0x00], 1, 1))
        .unwrap();
    assert_eq!(outcome.reason, StopReason::CycleLimit);
    assert_eq!(outcome.guest_status, Some(0xff));
    assert_eq!(outcome.instructions, 1);
}

#[test]
fn invalid_loads_and_modes_fail_closed() {
    let no_images = machine(false).run_headless(HeadlessRunConfig {
        boot: HeadlessBoot::Direct(DirectEntry {
            pc: LOAD_ADDRESS,
            adl: true,
            madl: false,
            mbase: 0,
        }),
        images: vec![],
        limits: direct(&[0], 1, 1).limits,
    });
    assert_eq!(no_images.unwrap_err(), HeadlessRunError::NoImages);

    let rom = machine(false).run_headless(HeadlessRunConfig {
        boot: HeadlessBoot::Direct(DirectEntry {
            pc: 0,
            adl: true,
            madl: false,
            mbase: 0,
        }),
        images: vec![LoadImage {
            address: 0,
            bytes: vec![0],
        }],
        limits: direct(&[0], 1, 1).limits,
    });
    assert!(matches!(rom, Err(HeadlessRunError::ReadOnlyAddress { .. })));

    let wrapping = machine(false).run_headless(HeadlessRunConfig {
        boot: HeadlessBoot::Direct(DirectEntry {
            pc: 0xffffff,
            adl: true,
            madl: false,
            mbase: 0,
        }),
        images: vec![LoadImage {
            address: 0xffffff,
            bytes: vec![0, 0],
        }],
        limits: direct(&[0], 1, 1).limits,
    });
    assert!(matches!(
        wrapping,
        Err(HeadlessRunError::RangeOutOfRange { .. })
    ));

    let mismatch = machine(false).run_headless(HeadlessRunConfig {
        boot: HeadlessBoot::Direct(DirectEntry {
            pc: LOAD_ADDRESS,
            adl: false,
            madl: false,
            mbase: 0x05,
        }),
        images: vec![LoadImage {
            address: LOAD_ADDRESS,
            bytes: vec![0],
        }],
        limits: direct(&[0], 1, 1).limits,
    });
    assert!(matches!(
        mismatch,
        Err(HeadlessRunError::EntryMbaseMismatch { .. })
    ));
}

#[test]
fn physical_wrap_and_cross_image_aliases_are_rejected() {
    let crossing_wrap = LoadImage {
        address: LOAD_ADDRESS,
        bytes: vec![0; 0x40001],
    };
    assert!(matches!(
        machine(false).validate_images(&[crossing_wrap]),
        Err(HeadlessRunError::PhysicalWrap { .. })
    ));

    let aliases = [
        LoadImage {
            address: LOAD_ADDRESS,
            bytes: vec![0xaa],
        },
        LoadImage {
            address: 0x0c0000,
            bytes: vec![0xbb],
        },
    ];
    assert!(matches!(
        machine(false).validate_images(&aliases),
        Err(HeadlessRunError::AliasedAddress { .. })
    ));

    let crosses_backings = [LoadImage {
        address: 0xffdfff,
        bytes: vec![0xaa, 0xbb],
    }];
    assert!(machine(false).validate_images(&crosses_backings).is_ok());
}

#[test]
fn memory_fault_is_sticky_across_later_step_and_run_calls() {
    let mut session = machine(false)
        .begin_headless(HeadlessSessionConfig {
            boot: HeadlessBoot::Direct(DirectEntry {
                pc: LOAD_ADDRESS,
                adl: true,
                madl: false,
                mbase: 0,
            }),
            images: vec![LoadImage {
                address: LOAD_ADDRESS,
                bytes: vec![0x00],
            }],
        })
        .unwrap();
    session.machine.cs0_lbr = 5;
    session.machine.cs0_ubr = 5;

    let first = session.step().unwrap();
    assert!(matches!(first.reason, Some(StopReason::MemoryFault { .. })));
    let instructions = first.instructions;
    let second = session.step().unwrap();
    assert_eq!(second.reason, first.reason);
    assert_eq!(second.instructions, instructions);
    let run = session
        .run(RunLimits {
            max_instructions: NonZeroU64::new(10).unwrap(),
            max_cycles: NonZeroU64::new(100).unwrap(),
        })
        .unwrap();
    assert_eq!(Some(run.reason), first.reason);
    assert_eq!(run.instructions, instructions);
}

#[test]
fn validation_failure_does_not_mutate_ram_or_accounting() {
    let mut machine = machine(false);
    machine.mem_external[LOAD_ADDRESS as usize] = 0x5a;
    let images = [
        LoadImage {
            address: LOAD_ADDRESS,
            bytes: vec![0xaa],
        },
        LoadImage {
            address: 0,
            bytes: vec![0xbb],
        },
    ];
    assert!(machine.validate_images(&images).is_err());
    assert_eq!(machine.mem_external[LOAD_ADDRESS as usize], 0x5a);
    assert_eq!(machine.cycle_counter, 0);
    assert_eq!(machine.total_cycles_elapsed, 0);
    assert_eq!(machine.mem_out_of_bounds, None);
}
