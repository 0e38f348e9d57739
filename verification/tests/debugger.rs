use agon_ez80_emulator::address::code_address;
use agon_ez80_emulator::channel::DebuggerConnection;
use agon_ez80_emulator::debugger::DebuggerServer;
use agon_ez80_emulator::disassembly::neutral_disassemble;
use agon_ez80_emulator::machine::{AgonMachine, AgonMachineConfig};
use agon_ez80_emulator::prefix::{scan_ez80_prefixes, PrefixScan, PrefixScanError};
use agon_ez80_emulator::processor::Reg16;
use agon_ez80_emulator::protocol::{DebugCmd, DebugResp, DebuggerError, PauseReason, Trigger};
use agon_ez80_emulator::world::MAX_DEBUGGER_MEMORY_BYTES;
use std::sync::atomic::AtomicBool;
use std::sync::mpsc;
use std::sync::mpsc::{Receiver, Sender};
use std::sync::Arc;

const LOAD_ADDRESS: u32 = 0x040000;

fn machine() -> AgonMachine {
    AgonMachine::new(AgonMachineConfig {
        mos: vec![],
        external_ram_size: 512 * 1024,
        emulator_shutdown: Arc::new(AtomicBool::new(false)),
    })
}

fn machine_and_cpu(program: &[u8]) -> (AgonMachine, ez80::Cpu) {
    let mut machine = machine();
    for (offset, value) in program.iter().copied().enumerate() {
        machine.poke(LOAD_ADDRESS + offset as u32, value);
    }
    machine.cycle_counter = 0;
    machine.total_cycles_elapsed = 0;
    machine.mem_out_of_bounds = None;

    let mut cpu = ez80::Cpu::new_ez80();
    cpu.state.reg.adl = true;
    cpu.state.set_pc(LOAD_ADDRESS);
    (machine, cpu)
}

fn debugger_channels() -> (DebuggerServer, Sender<DebugCmd>, Receiver<DebugResp>) {
    let (response_tx, response_rx) = mpsc::channel();
    let (command_tx, command_rx) = mpsc::channel();
    (
        DebuggerServer::new(DebuggerConnection {
            tx: response_tx,
            rx: command_rx,
        }),
        command_tx,
        response_rx,
    )
}

fn write_code(machine: &mut AgonMachine, start: u32, adl: bool, mbase: u8, bytes: &[u8]) {
    for (offset, value) in bytes.iter().copied().enumerate() {
        machine.poke(code_address(start, offset as u32, adl, mbase), value);
    }
    machine.cycle_counter = 0;
    machine.total_cycles_elapsed = 0;
    machine.mem_out_of_bounds = None;
}

fn step_over_successor(program: &[u8], start: u32, adl: bool, mbase: u8) -> u32 {
    let (mut machine, mut cpu) = machine_and_cpu(&[]);
    write_code(&mut machine, start, adl, mbase, program);
    cpu.state.reg.adl = adl;
    cpu.state.reg.mbase = mbase;
    cpu.state.set_pc(start);
    machine.set_paused(true);
    let (mut debugger, _command_tx, response_rx) = debugger_channels();

    debugger
        .handle_debug_cmd(&DebugCmd::StepOver, &mut machine, &mut cpu)
        .unwrap();
    assert!(matches!(response_rx.recv().unwrap(), DebugResp::Resumed));
    assert!(!machine.is_paused());
    assert_eq!(machine.cycle_counter, 0);
    assert_eq!(machine.total_cycles_elapsed, 0);
    assert_eq!(machine.mem_out_of_bounds, None);
    assert_eq!(debugger.triggers.len(), 1);
    debugger.triggers[0].address
}

#[test]
fn debugger_observations_preserve_cpu_cycles_and_markers() {
    let (mut machine, mut cpu) = machine_and_cpu(&[0x3e, 0x2a, 0x00]);
    cpu.state.reg.set24(ez80::Reg16::SP, LOAD_ADDRESS + 0x100);
    machine.poke(LOAD_ADDRESS + 0x100, 0xaa);
    machine.poke(LOAD_ADDRESS + 0x101, 0xbb);
    machine.cycle_counter = 7;
    machine.total_cycles_elapsed = 11;
    machine.mem_out_of_bounds = Some(0x123456);
    machine.io_unhandled = Some(0x3456);
    let registers_before = format!("{:?}", cpu.state.reg);
    let pc_before = cpu.state.pc();
    let instructions_before = cpu.state.instructions_executed;

    let (mut debugger, _command_tx, response_rx) = debugger_channels();
    debugger
        .handle_debug_cmd(
            &DebugCmd::GetMemory {
                start: LOAD_ADDRESS,
                len: 3,
            },
            &mut machine,
            &mut cpu,
        )
        .unwrap();
    match response_rx.recv().unwrap() {
        DebugResp::Memory { start, data } => {
            assert_eq!(start, LOAD_ADDRESS);
            assert_eq!(data, [0x3e, 0x2a, 0x00]);
        }
        response => panic!("unexpected response: {response:?}"),
    }

    debugger
        .handle_debug_cmd(&DebugCmd::GetState, &mut machine, &mut cpu)
        .unwrap();
    match response_rx.recv().unwrap() {
        DebugResp::State {
            stack,
            pc_instruction,
            ..
        } => {
            assert_eq!(&stack[..2], &[0xaa, 0xbb]);
            assert!(!pc_instruction.is_empty());
        }
        response => panic!("unexpected response: {response:?}"),
    }

    debugger
        .handle_debug_cmd(
            &DebugCmd::DisassemblePc { adl: None },
            &mut machine,
            &mut cpu,
        )
        .unwrap();
    match response_rx.recv().unwrap() {
        DebugResp::Disassembly { disasm, .. } => {
            assert_eq!(disasm[0].loc, LOAD_ADDRESS);
            assert_eq!(disasm[0].bytes, [0x3e, 0x2a]);
        }
        response => panic!("unexpected response: {response:?}"),
    }

    assert_eq!(format!("{:?}", cpu.state.reg), registers_before);
    assert_eq!(cpu.state.pc(), pc_before);
    assert_eq!(cpu.state.instructions_executed, instructions_before);
    assert_eq!(machine.cycle_counter, 7);
    assert_eq!(machine.total_cycles_elapsed, 11);
    assert_eq!(machine.mem_out_of_bounds, Some(0x123456));
    assert_eq!(machine.io_unhandled, Some(0x3456));
}

#[test]
fn step_and_step_over_fallback_share_settled_execution() {
    fn run(command: DebugCmd) -> (u32, u64, u64, String) {
        let (mut machine, mut cpu) = machine_and_cpu(&[0x00]);
        machine.set_paused(true);
        let (mut debugger, _command_tx, response_rx) = debugger_channels();
        debugger
            .handle_debug_cmd(&command, &mut machine, &mut cpu)
            .unwrap();
        assert!(matches!(
            response_rx.recv().unwrap(),
            DebugResp::State { .. }
        ));
        assert!(machine.is_paused());
        assert_eq!(machine.cycle_counter, 0);
        (
            cpu.state.pc(),
            cpu.state.instructions_executed,
            machine.total_cycles_elapsed,
            format!("{:?}", cpu.state.reg),
        )
    }

    let stepped = run(DebugCmd::Step);
    assert_eq!(stepped, run(DebugCmd::StepOver));
    assert_eq!(stepped.0, LOAD_ADDRESS + 1);
    assert_eq!(stepped.1, 1);
    assert!(stepped.2 > 0);
}

#[test]
fn memory_fault_is_reported_once_and_continue_acknowledges_it() {
    let (mut machine, mut cpu) = machine_and_cpu(&[0x00]);
    machine.last_pc = LOAD_ADDRESS;
    machine.mem_out_of_bounds = Some(0x123456);
    let (mut debugger, command_tx, response_rx) = debugger_channels();

    debugger.tick(&mut machine, &mut cpu).unwrap();
    assert!(matches!(
        response_rx.recv().unwrap(),
        DebugResp::Paused(PauseReason::OutOfBoundsMemAccess(0x123456))
    ));
    assert!(matches!(
        response_rx.recv().unwrap(),
        DebugResp::Disassembly { .. }
    ));
    assert!(matches!(
        response_rx.recv().unwrap(),
        DebugResp::State { .. }
    ));
    assert!(machine.is_paused());
    assert_eq!(machine.mem_out_of_bounds, Some(0x123456));

    debugger.tick(&mut machine, &mut cpu).unwrap();
    assert!(matches!(
        response_rx.try_recv(),
        Err(mpsc::TryRecvError::Empty)
    ));

    command_tx.send(DebugCmd::Continue).unwrap();
    debugger.tick(&mut machine, &mut cpu).unwrap();
    assert!(matches!(response_rx.recv().unwrap(), DebugResp::Resumed));
    assert!(!machine.is_paused());
    assert_eq!(machine.mem_out_of_bounds, None);

    machine.mem_out_of_bounds = Some(0x123456);
    debugger.tick(&mut machine, &mut cpu).unwrap();
    assert!(matches!(
        response_rx.recv().unwrap(),
        DebugResp::Paused(PauseReason::OutOfBoundsMemAccess(0x123456))
    ));
}

#[test]
fn disconnects_are_fallible_and_paused_one_shot_is_retained() {
    let (mut machine, mut cpu) = machine_and_cpu(&[0x00]);
    let (mut debugger, command_tx, response_rx) = debugger_channels();
    debugger.triggers.push(Trigger {
        address: LOAD_ADDRESS,
        once: true,
        actions: vec![DebugCmd::Message("triggered".to_string())],
    });

    machine.set_paused(true);
    debugger.tick(&mut machine, &mut cpu).unwrap();
    assert_eq!(debugger.triggers.len(), 1);
    machine.set_paused(false);
    debugger.tick(&mut machine, &mut cpu).unwrap();
    assert!(matches!(
        response_rx.recv().unwrap(),
        DebugResp::Message(message) if message == "triggered"
    ));
    assert!(debugger.triggers.is_empty());
    drop(command_tx);
    assert_eq!(
        debugger.tick(&mut machine, &mut cpu),
        Err(DebuggerError::ControllerDisconnected)
    );

    let (mut debugger, command_tx, response_rx) = debugger_channels();
    drop(response_rx);
    assert_eq!(
        debugger.handle_debug_cmd(&DebugCmd::Ping, &mut machine, &mut cpu),
        Err(DebuggerError::ControllerDisconnected)
    );
    drop(command_tx);

    let (response_tx, response_rx) = mpsc::channel();
    let (command_tx, command_rx) = mpsc::channel();
    let mut attached = Some(DebuggerServer::new(DebuggerConnection {
        tx: response_tx,
        rx: command_rx,
    }));
    machine.set_paused(true);
    machine.mem_out_of_bounds = Some(0x123456);
    drop(response_rx);
    command_tx.send(DebugCmd::Ping).unwrap();
    machine.debugger_tick(&mut attached, &mut cpu);
    assert!(attached.is_none());
    assert!(!machine.is_paused());
    assert_eq!(machine.mem_out_of_bounds, None);
}

#[test]
fn step_over_inspection_is_neutral_and_wraps_non_adl_pc() {
    assert_eq!(
        step_over_successor(&[0xcd, 0x34, 0x12], 0x04ffff, false, 4),
        0x040002
    );
    assert_eq!(
        step_over_successor(&[0x5b, 0xdd, 0xff], 0xfffffd, true, 0),
        0
    );
}

#[test]
fn disassembly_fetches_immediates_in_pc_mode_across_size_overrides() {
    fn disassemble_case(program: &[u8], start: u32, adl: bool, mbase: u8) -> (String, Vec<u8>) {
        let (mut machine, mut cpu) = machine_and_cpu(&[]);
        write_code(&mut machine, start, adl, mbase, program);
        cpu.state.reg.adl = adl;
        cpu.state.reg.mbase = mbase;
        cpu.state.set_pc(start);

        let disasm = neutral_disassemble(&machine, &cpu, None, start, start + 1);
        assert_eq!(disasm.len(), 1);
        assert_eq!(machine.cycle_counter, 0);
        assert_eq!(machine.total_cycles_elapsed, 0);
        assert_eq!(machine.mem_out_of_bounds, None);
        assert_eq!(cpu.state.instructions_executed, 0);
        assert_eq!(cpu.state.pc(), start);
        (disasm[0].text.clone(), disasm[0].bytes.clone())
    }

    let (text, bytes) = disassemble_case(&[0x5b, 0xcd, 0x11, 0x22, 0x00], 0xfffffc, true, 0);
    assert_eq!(bytes, [0x5b, 0xcd, 0x11, 0x22, 0x00]);
    assert!(text.contains("$2211"));

    let (text, bytes) = disassemble_case(&[0x5b, 0x21, 0x11, 0x22, 0x33], 0x04fffd, false, 4);
    assert_eq!(bytes, [0x5b, 0x21, 0x11, 0x22, 0x33]);
    assert!(text.contains("$332211"));

    let (text, bytes) = disassemble_case(&[0x40, 0x21, 0x11, 0x22], 0x04fffd, true, 0);
    assert_eq!(bytes, [0x40, 0x21, 0x11, 0x22]);
    assert!(text.contains("$2211"));
}

#[test]
fn step_over_scans_size_and_index_prefixes_in_decoder_order() {
    let size_prefixes = [(0x40, false), (0x49, false), (0x52, true), (0x5b, true)];
    for adl in [false, true] {
        let mbase = 4;
        for (prefix, immediate_long) in size_prefixes {
            let program = [prefix, 0xcd, 0x34, 0x12, 0x04];
            let len = 2 + if immediate_long { 3 } else { 2 };
            assert_eq!(
                step_over_successor(&program, LOAD_ADDRESS, adl, mbase),
                code_address(LOAD_ADDRESS, len, adl, mbase)
            );
        }

        assert_eq!(
            step_over_successor(
                &[0x52, 0x40, 0xdd, 0xfd, 0xdd, 0xcd, 0x34, 0x12],
                LOAD_ADDRESS,
                adl,
                mbase,
            ),
            code_address(LOAD_ADDRESS, 8, adl, mbase)
        );
        assert_eq!(
            step_over_successor(
                &[0x40, 0x5b, 0xfd, 0xdd, 0xfd, 0xcd, 0x34, 0x12, 0x04],
                LOAD_ADDRESS,
                adl,
                mbase,
            ),
            code_address(LOAD_ADDRESS, 9, adl, mbase)
        );
        assert_eq!(
            step_over_successor(
                &[0xdd, 0xfd, 0xdd, 0xcd, 0x34, 0x12, 0x04],
                LOAD_ADDRESS,
                adl,
                mbase,
            ),
            code_address(LOAD_ADDRESS, if adl { 7 } else { 6 }, adl, mbase)
        );
    }
}

#[test]
fn repeated_prefix_disassembly_and_full_span_fallback_are_bounded() {
    let (mut machine, mut cpu) = machine_and_cpu(&[]);
    let mut repeated = vec![0x40; 24];
    repeated.push(0x00);
    write_code(&mut machine, LOAD_ADDRESS, true, 0, &repeated);
    cpu.state.reg.adl = true;
    cpu.state.set_pc(LOAD_ADDRESS);
    let disasm = neutral_disassemble(&machine, &cpu, None, LOAD_ADDRESS, LOAD_ADDRESS + 1);
    assert_eq!(disasm.len(), 1);
    assert_eq!(disasm[0].bytes, repeated);

    for offset in 0..0x1_0000 {
        machine.poke(LOAD_ADDRESS + offset, 0x40);
    }
    machine.cycle_counter = 0;
    machine.total_cycles_elapsed = 0;
    machine.mem_out_of_bounds = None;
    cpu.state.reg.adl = false;
    cpu.state.reg.mbase = 4;
    cpu.state.set_pc(LOAD_ADDRESS);
    assert_eq!(
        scan_ez80_prefixes(&machine, LOAD_ADDRESS, false, 4),
        Err(PrefixScanError::FullSpan)
    );
    let disasm = neutral_disassemble(&machine, &cpu, None, LOAD_ADDRESS, LOAD_ADDRESS + 16);
    assert_eq!(disasm.len(), 1);
    assert!(disasm[0].text.contains("full address span"));
    assert!(disasm[0].bytes.is_empty());

    machine.set_paused(true);
    let (mut debugger, _command_tx, response_rx) = debugger_channels();
    debugger
        .handle_debug_cmd(&DebugCmd::StepOver, &mut machine, &mut cpu)
        .unwrap();
    assert!(matches!(
        response_rx.recv().unwrap(),
        DebugResp::Message(message) if message.contains("complete code-address span")
    ));
    assert!(machine.is_paused());
    assert_eq!(cpu.state.instructions_executed, 0);
    assert!(debugger.triggers.is_empty());
}

#[test]
fn mixed_prefix_phases_each_get_a_full_address_span() {
    let (mut machine, mut cpu) = machine_and_cpu(&[]);
    for offset in 0..0x1_0000 {
        machine.poke(LOAD_ADDRESS + offset, 0xdd);
    }
    machine.poke(LOAD_ADDRESS, 0x40);
    machine.cycle_counter = 0;
    machine.total_cycles_elapsed = 0;
    machine.mem_out_of_bounds = None;
    cpu.state.reg.adl = false;
    cpu.state.reg.mbase = 4;
    cpu.state.set_pc(LOAD_ADDRESS);

    assert_eq!(
        scan_ez80_prefixes(&machine, LOAD_ADDRESS, false, 4),
        Ok(PrefixScan {
            opcode: 0x40,
            prefix_len: 0x1_0000,
            immediate_long: false,
        })
    );

    let disasm = neutral_disassemble(&machine, &cpu, None, LOAD_ADDRESS, LOAD_ADDRESS + 1);
    assert_eq!(disasm.len(), 1);
    assert_eq!(disasm[0].bytes.len(), 0x1_0001);
    assert_eq!(disasm[0].bytes.first(), Some(&0x40));
    assert_eq!(disasm[0].bytes.last(), Some(&0x40));
    assert!(!disasm[0].text.contains("full address span"));

    machine.set_paused(true);
    let (mut debugger, _command_tx, response_rx) = debugger_channels();
    debugger
        .handle_debug_cmd(&DebugCmd::StepOver, &mut machine, &mut cpu)
        .unwrap();
    assert!(matches!(
        response_rx.recv().unwrap(),
        DebugResp::State { .. }
    ));
    assert!(machine.is_paused());
    assert_eq!(cpu.state.instructions_executed, 1);
    assert_eq!(cpu.state.pc(), LOAD_ADDRESS + 1);
    assert!(debugger.triggers.is_empty());
}

#[test]
fn unmapped_step_over_executes_through_the_real_fault_path() {
    let (mut machine, mut cpu) = machine_and_cpu(&[]);
    machine.port_out(0xa8, 4);
    machine.port_out(0xa9, 4);
    machine.cycle_counter = 0;
    machine.total_cycles_elapsed = 0;
    machine.mem_out_of_bounds = None;
    cpu.state.reg.adl = true;
    cpu.state.set_pc(0x050000);
    machine.set_paused(true);
    assert_eq!(
        scan_ez80_prefixes(&machine, 0x050000, true, 0),
        Err(PrefixScanError::Unmapped { address: 0x050000 })
    );

    let (mut debugger, _command_tx, response_rx) = debugger_channels();
    debugger
        .handle_debug_cmd(&DebugCmd::StepOver, &mut machine, &mut cpu)
        .unwrap();

    assert!(matches!(
        response_rx.recv().unwrap(),
        DebugResp::State { .. }
    ));
    assert!(machine.is_paused());
    assert_eq!(cpu.state.instructions_executed, 1);
    assert!(machine.mem_out_of_bounds.is_some());
    assert!(debugger.triggers.is_empty());
}

#[test]
fn debugger_caps_memory_handles_adl_af_and_reports_override_mode() {
    let (mut machine, mut cpu) = machine_and_cpu(&[0x00]);
    cpu.state.reg.adl = true;
    cpu.state.reg.mbase = 0xff;
    cpu.state.reg.set16(ez80::Reg16::AF, 0xe000);
    machine.cycle_counter = 0;
    machine.mem_out_of_bounds = None;
    let (mut debugger, _command_tx, response_rx) = debugger_channels();

    debugger
        .handle_debug_cmd(
            &DebugCmd::GetMemoryAtReg {
                reg: Reg16::AF,
                len: 1,
            },
            &mut machine,
            &mut cpu,
        )
        .unwrap();
    assert!(matches!(
        response_rx.recv().unwrap(),
        DebugResp::Memory { start: 0x00e000, data } if data == [0]
    ));

    debugger
        .handle_debug_cmd(
            &DebugCmd::GetMemory {
                start: LOAD_ADDRESS,
                len: u32::MAX,
            },
            &mut machine,
            &mut cpu,
        )
        .unwrap();
    assert!(matches!(
        response_rx.recv().unwrap(),
        DebugResp::Memory { data, .. } if data.len() == MAX_DEBUGGER_MEMORY_BYTES as usize
    ));

    debugger
        .handle_debug_cmd(
            &DebugCmd::DisassemblePc { adl: Some(false) },
            &mut machine,
            &mut cpu,
        )
        .unwrap();
    assert!(matches!(
        response_rx.recv().unwrap(),
        DebugResp::Disassembly { adl: false, .. }
    ));
}
