use agon_ez80_emulator::address::code_address;
use agon_ez80_emulator::channel::{DebuggerConnection, Received};
use agon_ez80_emulator::debugger::{opcode_calls, opcode_restarts, DebuggerServer};
use agon_ez80_emulator::disassembly::{
    instruction_entry, measure_instruction, neutral_disassemble, read_code, MAX_DEBUGGER_DISASSEMBLY_RANGE_BYTES,
};
use agon_ez80_emulator::machine::{AgonMachine, AgonMachineConfig};
use agon_ez80_emulator::processor::Reg16;
use agon_ez80_emulator::protocol::{DebugCmd, DebugResp, DebuggerError, PauseReason, Trigger};
use std::sync::atomic::AtomicBool;
use std::sync::mpsc;
use std::sync::mpsc::{Receiver, Sender};
use std::sync::Arc;

const START: u32 = 0x040000;

struct Bench {
    machine: AgonMachine,
    cpu: ez80::Cpu,
    debugger: DebuggerServer,
    commands: Sender<DebugCmd>,
    responses: Receiver<DebugResp>,
}

impl Bench {
    fn new(program: &[u8]) -> Bench {
        let mut machine = AgonMachine::new(AgonMachineConfig {
            mos: vec![],
            external_ram_size: 512 * 1024,
            emulator_shutdown: Arc::new(AtomicBool::new(false)),
        });
        for (offset, value) in program.iter().copied().enumerate() {
            machine.store_byte(START + offset as u32, value);
        }
        let mut cpu = ez80::Cpu::new_ez80();
        cpu.state.reg.adl = true;
        cpu.state.set_pc(START);
        let (response_tx, responses) = mpsc::channel();
        let (commands, command_rx) = mpsc::channel();
        let debugger = DebuggerServer::new(DebuggerConnection {
            tx: response_tx,
            rx: command_rx,
        });
        Bench {
            machine,
            cpu,
            debugger,
            commands,
            responses,
        }
    }

    fn handle(&mut self, cmd: DebugCmd) -> DebugResp {
        self.debugger
            .handle_debug_cmd(&cmd, &mut self.machine, &mut self.cpu)
            .unwrap();
        let response = self.responses.try_recv().unwrap();
        assert!(self.responses.try_recv().is_err());
        response
    }

    fn tick(&mut self) -> Vec<DebugResp> {
        self.debugger
            .tick(&mut self.machine, &mut self.cpu)
            .unwrap();
        let mut received = vec![];
        while let Ok(response) = self.responses.try_recv() {
            received.push(response);
        }
        received
    }
}

fn message(text: &str) -> DebugCmd {
    DebugCmd::Message(text.to_string())
}

fn trigger(address: u32, once: bool, text: &str) -> Trigger {
    Trigger {
        address,
        once,
        actions: vec![message(text)],
    }
}

fn texts(responses: &[DebugResp]) -> Vec<String> {
    let mut found = vec![];
    for response in responses {
        if let DebugResp::Message(text) = response {
            found.push(text.clone());
        }
    }
    found
}

#[test]
fn errors_have_messages() {
    assert_eq!(
        DebuggerError::ControllerDisconnected.message(),
        "debugger controller disconnected"
    );
}

#[test]
fn plain_commands_are_answered_once() {
    let mut bench = Bench::new(&[0x00]);
    assert!(matches!(bench.handle(DebugCmd::Ping), DebugResp::Pong));
    assert!(matches!(
        bench.handle(message("hello")),
        DebugResp::Message(text) if text == "hello"
    ));
    assert!(matches!(
        bench.handle(DebugCmd::Pause(PauseReason::DebuggerBreakpoint)),
        DebugResp::Paused(PauseReason::DebuggerBreakpoint)
    ));
    assert!(bench.machine.is_paused());
    bench.machine.mem_out_of_bounds = Some(1);
    assert!(matches!(
        bench.handle(DebugCmd::Continue),
        DebugResp::Resumed
    ));
    assert!(!bench.machine.is_paused());
    assert_eq!(bench.machine.mem_out_of_bounds, None);
}

#[test]
fn triggers_are_added_listed_and_deleted() {
    let mut bench = Bench::new(&[0x00]);
    let nested = Trigger {
        address: 2,
        once: false,
        actions: vec![DebugCmd::AddTrigger(trigger(3, true, "inner"))],
    };
    assert!(matches!(
        bench.handle(DebugCmd::AddTrigger(trigger(1, true, "one"))),
        DebugResp::Pong
    ));
    bench.handle(DebugCmd::AddTrigger(nested.clone()));
    match bench.handle(DebugCmd::ListTriggers) {
        DebugResp::Triggers(listed) => {
            assert_eq!(listed.len(), 2);
            assert_eq!(listed[0].address, 1);
            assert!(listed[0].once);
            assert_eq!(format!("{:?}", listed[1]), format!("{:?}", nested));
        }
        response => panic!("unexpected response: {response:?}"),
    }
    bench.handle(DebugCmd::DeleteTrigger(1));
    assert_eq!(bench.debugger.triggers.len(), 1);
    assert_eq!(bench.debugger.triggers[0].address, 2);
    bench.handle(DebugCmd::DeleteTrigger(1));
    assert_eq!(bench.debugger.triggers.len(), 1);
}

#[test]
fn triggers_fire_in_order_and_one_shots_once() {
    let mut bench = Bench::new(&[0x00]);
    bench.handle(DebugCmd::AddTrigger(trigger(START, true, "first")));
    bench.handle(DebugCmd::AddTrigger(trigger(START + 1, true, "elsewhere")));
    bench.handle(DebugCmd::AddTrigger(trigger(START, false, "second")));
    assert_eq!(texts(&bench.tick()), ["first", "second"]);
    assert_eq!(bench.debugger.triggers.len(), 2);
    assert_eq!(texts(&bench.tick()), ["second"]);
    bench.machine.set_paused(true);
    assert!(bench.tick().is_empty());
    assert_eq!(bench.debugger.triggers.len(), 2);
}

#[test]
fn a_trigger_that_pauses_still_lets_the_others_fire() {
    let mut bench = Bench::new(&[0x00]);
    bench.handle(DebugCmd::AddTrigger(Trigger {
        address: START,
        once: true,
        actions: vec![
            DebugCmd::Pause(PauseReason::DebuggerBreakpoint),
            DebugCmd::AddTrigger(trigger(START, true, "never")),
        ],
    }));
    bench.handle(DebugCmd::AddTrigger(trigger(START, true, "also")));
    let responses = bench.tick();
    assert_eq!(responses.len(), 3);
    assert_eq!(texts(&responses), ["also"]);
    assert!(bench.machine.is_paused());
    assert!(bench.debugger.triggers.is_empty());
}

#[test]
fn idle_ticks_change_nothing() {
    let mut bench = Bench::new(&[0x00]);
    bench.handle(DebugCmd::AddTrigger(trigger(START + 1, true, "elsewhere")));
    assert!(bench.tick().is_empty());
    assert_eq!(bench.debugger.triggers.len(), 1);
    assert_eq!(bench.cpu.state.pc(), START);
    assert!(!bench.machine.is_paused());
}

#[test]
fn all_commands_that_came_are_carried_out_in_one_tick() {
    let mut bench = Bench::new(&[0x00]);
    for text in ["one", "two", "three"] {
        bench.commands.send(message(text)).unwrap();
    }
    assert_eq!(texts(&bench.tick()), ["one", "two", "three"]);
}

#[test]
fn what_was_received_decides_what_is_done() {
    let mut bench = Bench::new(&[0x00]);
    let server = &mut bench.debugger;
    assert_eq!(
        server.on_received(
            Received::Command(DebugCmd::Ping),
            &mut bench.machine,
            &mut bench.cpu
        ),
        Ok(true)
    );
    assert_eq!(
        server.on_received(Received::Empty, &mut bench.machine, &mut bench.cpu),
        Ok(false)
    );
    assert_eq!(
        server.on_received(Received::Disconnected, &mut bench.machine, &mut bench.cpu),
        Err(DebuggerError::ControllerDisconnected)
    );
}

#[test]
fn a_command_takes_effect_even_if_its_answer_is_not_taken() {
    let mut bench = Bench::new(&[0x00]);
    let (other, _unused) = mpsc::channel();
    bench.debugger.con.tx = other;
    drop(_unused);
    assert_eq!(
        bench.debugger.handle_debug_cmd(
            &DebugCmd::AddTrigger(trigger(1, false, "set")),
            &mut bench.machine,
            &mut bench.cpu
        ),
        Err(DebuggerError::ControllerDisconnected)
    );
    assert_eq!(bench.debugger.triggers.len(), 1);
}

#[test]
fn an_attached_debugger_is_ticked_and_stays() {
    let bench = Bench::new(&[0x00]);
    let mut machine = bench.machine;
    let mut cpu = bench.cpu;
    let mut attached = Some(bench.debugger);
    bench.commands.send(DebugCmd::Ping).unwrap();
    machine.debugger_tick(&mut attached, &mut cpu);
    assert!(attached.is_some());
    assert!(matches!(
        bench.responses.try_recv().unwrap(),
        DebugResp::Pong
    ));
    let mut none = None;
    machine.set_paused(true);
    machine.debugger_tick(&mut none, &mut cpu);
    assert!(machine.is_paused());
}

#[test]
fn io_breakpoints_pause_and_report() {
    let mut bench = Bench::new(&[0x3e, 0x2a]);
    bench.machine.last_pc = START;
    bench.machine.io_unhandled = Some(0x341f);
    let responses = bench.tick();
    assert_eq!(responses.len(), 3);
    assert!(matches!(
        responses[0],
        DebugResp::Paused(PauseReason::IOBreakpoint(0x1f))
    ));
    match &responses[1] {
        DebugResp::Disassembly { pc, adl, disasm } => {
            assert_eq!(*pc, START);
            assert!(*adl);
            assert_eq!(disasm.len(), 1);
            assert_eq!(disasm[0].bytes, [0x3e, 0x2a]);
        }
        response => panic!("unexpected response: {response:?}"),
    }
    assert!(matches!(responses[2], DebugResp::State { .. }));
    assert!(bench.machine.is_paused());
    assert_eq!(bench.machine.io_unhandled, None);
}

#[test]
fn io_state_dumps_say_where_they_come_from() {
    let mut bench = Bench::new(&[0x00]);
    bench.machine.last_pc = 0x1a2b;
    bench.machine.io_unhandled = Some(0x0020);
    let responses = bench.tick();
    assert_eq!(
        texts(&responses),
        ["State dump triggered by IO 0x20 access at PC=$1a2b"]
    );
    assert!(matches!(responses[1], DebugResp::State { .. }));
    assert!(!bench.machine.is_paused());

    bench.machine.io_unhandled = Some(0x0030);
    assert!(bench.tick().is_empty());
    assert_eq!(bench.machine.io_unhandled, None);
}

#[test]
fn another_fault_is_reported_in_its_turn() {
    let mut bench = Bench::new(&[0x00]);
    bench.machine.mem_out_of_bounds = Some(1);
    assert_eq!(bench.tick().len(), 3);
    assert!(bench.tick().is_empty());
    bench.machine.mem_out_of_bounds = Some(2);
    assert_eq!(bench.tick().len(), 3);
    bench.machine.mem_out_of_bounds = None;
    assert!(bench.tick().is_empty());
    bench.machine.mem_out_of_bounds = Some(2);
    assert_eq!(bench.tick().len(), 3);
}

#[test]
fn registers_and_state_are_those_of_the_cpu() {
    let mut bench = Bench::new(&[0x3e, 0x2a]);
    bench.cpu.state.reg.set24(ez80::Reg16::HL, 0x123456);
    bench.cpu.state.reg.set24(ez80::Reg16::SP, 0xfffffe);
    bench.machine.store_byte(0xffffff, 0x99);
    bench.machine.total_cycles_elapsed = 77;
    match bench.handle(DebugCmd::GetRegisters) {
        DebugResp::Registers(registers) => {
            assert_eq!(registers.hl, 0x123456);
            assert_eq!(registers.spl, 0xfffffe);
            assert_eq!(registers.pc, START);
            assert!(registers.adl);
        }
        response => panic!("unexpected response: {response:?}"),
    }
    match bench.handle(DebugCmd::GetState) {
        DebugResp::State {
            registers,
            instructions_executed,
            total_cycles_elapsed,
            stack,
            pc_instruction,
        } => {
            assert_eq!(registers.hl, 0x123456);
            assert_eq!(instructions_executed, 0);
            assert_eq!(total_cycles_elapsed, 77);
            assert_eq!(stack[..3], [0x00, 0x99, 0x00]);
            assert!(pc_instruction.contains("2a") || pc_instruction.contains("2A"));
        }
        response => panic!("unexpected response: {response:?}"),
    }
}

#[test]
fn memory_behind_the_address_space_reads_as_unmapped() {
    let mut bench = Bench::new(&[]);
    bench.machine.store_byte(0xffffff, 0x42);
    for (start, expected) in [(0xfffffe, [0x00, 0x42, 0xf5]), (u32::MAX, [0xf5; 3])] {
        match bench.handle(DebugCmd::GetMemory { start, len: 3 }) {
            DebugResp::Memory { start: from, data } => {
                assert_eq!(from, start);
                assert_eq!(data, expected);
            }
            response => panic!("unexpected response: {response:?}"),
        }
    }
}

#[test]
fn register_pairs_address_memory_by_mode() {
    let mut bench = Bench::new(&[0x11, 0x22]);
    bench.cpu.state.reg.set24(ez80::Reg16::HL, START + 1);
    assert!(matches!(
        bench.handle(DebugCmd::GetMemoryAtReg { reg: Reg16::HL, len: 1 }),
        DebugResp::Memory { start: 0x040001, data } if data == [0x22]
    ));
    bench.cpu.state.reg.adl = false;
    bench.cpu.state.reg.mbase = 4;
    bench.cpu.state.reg.set24(ez80::Reg16::HL, 0x770000);
    assert!(matches!(
        bench.handle(DebugCmd::GetMemoryAtReg { reg: Reg16::HL, len: 1 }),
        DebugResp::Memory { start: 0x040000, data } if data == [0x11]
    ));
}

#[test]
fn tracing_is_switched_on() {
    // A traced instruction is read again to be printed, which takes time on the bus.
    let mut plain = Bench::new(&[0x00]);
    plain.handle(DebugCmd::Step);
    let mut traced = Bench::new(&[0x00]);
    assert!(matches!(
        traced.handle(DebugCmd::SetTrace(true)),
        DebugResp::Pong
    ));
    traced.handle(DebugCmd::Step);
    assert!(traced.machine.total_cycles_elapsed > plain.machine.total_cycles_elapsed);
}

#[test]
fn calls_and_restarts_are_told_from_other_opcodes() {
    for opcode in 0..=255u8 {
        assert_eq!(opcode_restarts(opcode), opcode & 0xc7 == 0xc7);
        assert_eq!(
            opcode_calls(opcode),
            opcode & 0xc7 == 0xc4 || opcode == 0xcd
        );
    }
}

#[test]
fn stepping_over_a_call_pauses_behind_it() {
    // CALL $040006; HALT; -; RET
    let mut bench = Bench::new(&[0xcd, 0x06, 0x00, 0x04, 0x76, 0x00, 0xc9]);
    bench.cpu.state.reg.set24(ez80::Reg16::SP, START + 0x100);
    bench.machine.set_paused(true);
    assert!(matches!(
        bench.handle(DebugCmd::StepOver),
        DebugResp::Resumed
    ));
    assert!(bench.tick().is_empty());
    bench.machine.execute_and_settle_instruction(&mut bench.cpu);
    assert_eq!(bench.cpu.state.pc(), START + 6);
    assert!(bench.tick().is_empty());
    bench.machine.execute_and_settle_instruction(&mut bench.cpu);
    assert_eq!(bench.cpu.state.pc(), START + 4);
    let responses = bench.tick();
    assert!(matches!(
        responses[0],
        DebugResp::Paused(PauseReason::DebuggerRequested)
    ));
    assert_eq!(texts(&responses), ["Stepped over CALL"]);
    assert!(matches!(responses[2], DebugResp::State { .. }));
    assert!(bench.machine.is_paused());
    assert!(bench.debugger.triggers.is_empty());
}

#[test]
fn lengths_survive_wrapping() {
    assert_eq!(measure_instruction(START, START + 4, true, 0), 4);
    assert_eq!(measure_instruction(0x04ffff, 0x040002, false, 0), 3);
    assert_eq!(measure_instruction(0xfffffe, 2, true, 1), 4);
    assert_eq!(measure_instruction(START, START, false, 0xffff), 0x1_0000);
    assert_eq!(measure_instruction(START, START + 1, false, 0x1_0000), 0x1_0001);
}

#[test]
fn code_is_read_in_the_order_of_fetching() {
    let mut bench = Bench::new(&[]);
    bench.machine.store_byte(0x04ffff, 1);
    bench.machine.store_byte(0x040000, 2);
    bench.machine.store_byte(0x050000, 3);
    assert_eq!(
        read_code(&bench.machine, 0x04ffff, 2, false, 4, vec![]),
        [1, 2]
    );
    assert_eq!(
        read_code(&bench.machine, 0x04ffff, 2, true, 4, vec![]),
        [1, 3]
    );
}

#[test]
fn listings_keep_to_their_range() {
    let bench = Bench::new(&[]);
    let listing = neutral_disassemble(&bench.machine, &bench.cpu, None, START, u32::MAX);
    assert_eq!(listing.len() as u64, MAX_DEBUGGER_DISASSEMBLY_RANGE_BYTES);
    for (index, entry) in listing.iter().enumerate() {
        assert_eq!(entry.loc, START + index as u32);
        assert_eq!(entry.bytes, [0x00]);
    }
    let short = neutral_disassemble(&bench.machine, &bench.cpu, None, START, START);
    assert_eq!(short.len(), 0x20);
    let last = neutral_disassemble(&bench.machine, &bench.cpu, None, 0xffffff, 0xffffff);
    assert_eq!(last.len(), 1);
    assert!(neutral_disassemble(&bench.machine, &bench.cpu, None, 0x0100_0000, 0).is_empty());
}

#[test]
fn a_listing_tells_an_unmapped_byte() {
    let mut bench = Bench::new(&[]);
    bench.machine.store_byte(0x04ffff, 0x40);
    bench.machine.cs0_ubr = 4;
    let listing = neutral_disassemble(&bench.machine, &bench.cpu, None, 0x04fffe, 0x050010);
    assert_eq!(listing.len(), 2);
    assert_eq!(listing[1].loc, 0x04ffff);
    assert_eq!(listing[1].text, "<unmapped instruction byte $050000>");
    assert!(listing[1].bytes.is_empty());
}

#[test]
fn an_asked_for_mode_changes_the_listing() {
    let mut bench = Bench::new(&[0x21, 0x11, 0x22, 0x33]);
    match bench.handle(DebugCmd::Disassemble {
        adl: Some(false),
        start: START,
        end: START + 1,
    }) {
        DebugResp::Disassembly { pc, adl, disasm } => {
            assert_eq!(pc, START);
            assert!(!adl);
            assert_eq!(disasm[0].bytes, [0x21, 0x11, 0x22]);
        }
        response => panic!("unexpected response: {response:?}"),
    }
    match bench.handle(DebugCmd::DisassemblePc { adl: None }) {
        DebugResp::Disassembly { adl, disasm, .. } => {
            assert!(adl);
            assert_eq!(disasm[0].bytes, [0x21, 0x11, 0x22, 0x33]);
        }
        response => panic!("unexpected response: {response:?}"),
    }
}

#[test]
fn the_memory_that_was_had_decides_what_is_listed() {
    let bench = Bench::new(&[0x3e, 0x2a]);
    let text = String::from("LD A, $2a");
    let listed = instruction_entry(
        &bench.machine,
        START,
        true,
        4,
        text.clone(),
        2,
        Some(Vec::new()),
    );
    assert_eq!(listed.loc, START);
    assert_eq!(listed.text, "LD A, $2a");
    assert_eq!(listed.bytes, [0x3e, 0x2a]);
    let refused = instruction_entry(&bench.machine, START, true, 4, text, 2, None);
    assert_eq!(refused.loc, START);
    assert_eq!(
        refused.text,
        "<debugger could not allocate instruction bytes>"
    );
    assert!(refused.bytes.is_empty());
}

#[test]
fn listings_have_neither_gaps_nor_overlaps() {
    let mut bench = Bench::new(&[]);
    let program = [
        0x3e, 0x2a, 0x21, 0x11, 0x22, 0x33, 0xdd, 0x36, 0x05, 0x07, 0x5b, 0xcd, 0x01, 0x02, 0x03,
    ];
    for (offset, value) in program.iter().copied().enumerate() {
        bench.machine.store_byte(0x04fff4 + offset as u32, value);
        bench
            .machine
            .store_byte(0x040000 | ((0xfff4 + offset as u32) & 0xffff), value);
    }
    for adl in [false, true] {
        let listing = neutral_disassemble(
            &bench.machine,
            &bench.cpu,
            Some(adl),
            0x04fff4,
            0x050010,
        );
        assert!(listing.len() > 3);
        for pair in listing.windows(2) {
            assert!(!pair[0].bytes.is_empty());
            assert_eq!(
                pair[1].loc,
                code_address(pair[0].loc, pair[0].bytes.len() as u32, adl, 4)
            );
        }
    }
}

#[test]
fn the_end_of_a_tick_decides_whether_a_debugger_stays() {
    let bench = Bench::new(&[0x00]);
    let mut machine = bench.machine;
    machine.set_paused(true);
    machine.mem_out_of_bounds = Some(7);
    let server = machine.after_tick(bench.debugger, Ok(())).unwrap();
    assert!(machine.is_paused());
    assert_eq!(machine.mem_out_of_bounds, Some(7));
    assert!(machine
        .after_tick(server, Err(DebuggerError::ControllerDisconnected))
        .is_none());
    assert!(!machine.is_paused());
    assert_eq!(machine.mem_out_of_bounds, None);
}

#[test]
fn only_steps_count_instructions() {
    let mut bench = Bench::new(&[0x00, 0x00, 0x76, 0x00]);
    for (cmd, expected) in [
        (DebugCmd::GetState, 0),
        (DebugCmd::Step, 1),
        (DebugCmd::StepOver, 2),
        (DebugCmd::Step, 3),
        (DebugCmd::Step, 3),
        (DebugCmd::Continue, 3),
    ] {
        bench.handle(cmd);
        assert_eq!(bench.cpu.state.instructions_executed, expected);
    }
    assert!(bench.cpu.is_halted());
}
