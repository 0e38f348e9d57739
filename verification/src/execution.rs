//! Executing instructions on the machine and keeping its accounts.
use crate::machine::{AgonMachine, MachineView};
use crate::prefix::{scan_ez80_prefixes, PrefixScanError};
use crate::processor::{
    can_execute, cpu_contents, cpu_execute, cpu_instructions_executed, cpu_interrupt,
    cpu_registers, cpu_resume, executed, interrupted, BusActivity, CpuView,
};
use vstd::prelude::*;

verus! {

/// A machine together with its CPU.
#[verifier::ext_equal]
pub struct HostView {
    pub machine: MachineView,
    pub cpu: CpuView,
}

impl MachineView {
    /// The machine after the CPU's doings on the bus were entered: the cycles are pending, and a
    /// fault replaces an earlier one.
    pub open spec fn recorded(self, activity: BusActivity) -> MachineView {
        MachineView {
            cycle_counter: self.cycle_counter.wrapping_add(activity.cycles),
            mem_out_of_bounds: if activity.fault is Some {
                activity.fault
            } else {
                self.mem_out_of_bounds
            },
            ..self
        }
    }

    /// Whether two machines agree on all that executing leaves alone: memory sizes, flash and its
    /// decoding, the cycles already accounted for, and the modes that the host sets.
    pub open spec fn agrees_off_execution(self, other: MachineView) -> bool {
        self.agrees_off_bus(
            MachineView {
                cycle_counter: self.cycle_counter,
                last_pc: self.last_pc,
                mem_out_of_bounds: self.mem_out_of_bounds,
                interrupt_request: self.interrupt_request,
                ..other
            },
        )
    }
}

impl HostView {
    /// The machine after the place of the next instruction was noted.
    pub open spec fn noted(self) -> MachineView {
        MachineView { last_pc: self.cpu.registers.code_pc() as u32, ..self.machine }
    }

    /// Whether the CPU executes an instruction when it is told to: not while it is halted, nor where
    /// that could not come to an end.
    pub open spec fn executes(self) -> bool {
        !self.cpu.halted && can_execute(self.cpu, self.noted())
    }

    /// The machine after the CPU executed one instruction. Where that could not come to an end,
    /// only the place is noted.
    pub open spec fn executed(self) -> HostView {
        let noted: MachineView = self.noted();
        if can_execute(self.cpu, noted) {
            let (cpu, bus, activity) = executed(self.cpu, noted.bus());
            HostView { machine: noted.reached(bus).recorded(activity), cpu }
        } else {
            HostView { machine: noted, cpu: self.cpu }
        }
    }

    /// The machine after a requested interrupt was taken, if the CPU accepts interrupts.
    pub open spec fn interrupted(self) -> HostView {
        match self.machine.interrupt_request {
            Some(vector) if self.cpu.registers.iff1 => {
                let idle: MachineView = MachineView { interrupt_request: None, ..self.machine };
                let awake: CpuView = CpuView { halted: false, ..self.cpu };
                let (cpu, bus, activity) = interrupted(awake, idle.bus(), vector);
                HostView { machine: idle.reached(bus).recorded(activity), cpu }
            },
            _ => self,
        }
    }

    /// The machine after the pending cycles were added to the total.
    pub open spec fn cycles_applied(self) -> HostView {
        HostView { machine: self.machine.cycles_applied(), cpu: self.cpu }
    }

    /// The machine after one instruction and the interrupt behind it, with all cycles accounted
    /// for.
    pub open spec fn settled_step(self) -> HostView {
        self.executed().cycles_applied().interrupted().cycles_applied()
    }
}

impl AgonMachine {
    /// The machine and the CPU as mathematics.
    pub open spec fn host(self, cpu: ez80::Cpu) -> HostView {
        HostView { machine: self@, cpu: cpu_contents(cpu) }
    }

    /// Enters what the CPU did on the bus.
    pub fn record_activity(&mut self, activity: BusActivity)
        ensures
            final(self)@ == old(self)@.recorded(activity),
    {
        self.cycle_counter = self.cycle_counter.wrapping_add(activity.cycles);
        if activity.fault.is_some() {
            self.mem_out_of_bounds = activity.fault;
        }
    }

    /// Executes the instruction at the program counter. Its cycles are left pending. Nothing is
    /// executed where only prefixes can be fetched, since decoding would never end, or where the
    /// instruction counter has run out.
    pub fn execute_instruction(&mut self, cpu: &mut ez80::Cpu)
        requires
            cpu_contents(*old(cpu)).ready,
        ensures
            final(self).host(*final(cpu)) == old(self).host(*old(cpu)).executed(),
            cpu_contents(*final(cpu)).ready,
            cpu_contents(*final(cpu)).instructions_executed == cpu_contents(
                *old(cpu),
            ).instructions_executed + (if old(self).host(*old(cpu)).executes() {
                1int
            } else {
                0int
            }),
            final(self)@.agrees_off_execution(old(self)@),
    {
        let registers = cpu_registers(cpu);
        let pc: u32 = registers.next_pc();
        self.last_pc = pc;
        if cpu_instructions_executed(cpu) == u64::MAX {
            return;
        }
        if let Err(PrefixScanError::FullSpan) = scan_ez80_prefixes(
            self,
            pc,
            registers.adl,
            registers.mbase,
        ) {
            return;
        }
        let activity = cpu_execute(cpu, self);
        self.record_activity(activity);
    }

    /// Takes a requested interrupt if the CPU accepts interrupts.
    pub fn do_interrupts(&mut self, cpu: &mut ez80::Cpu)
        requires
            cpu_contents(*old(cpu)).ready,
        ensures
            final(self).host(*final(cpu)) == old(self).host(*old(cpu)).interrupted(),
            cpu_contents(*final(cpu)).ready,
            final(self)@.agrees_off_execution(old(self)@),
            cpu_contents(*final(cpu)).instructions_executed == cpu_contents(
                *old(cpu),
            ).instructions_executed,
    {
        if let Some(vector) = self.interrupt_request {
            if cpu_registers(cpu).iff1 {
                self.interrupt_request = None;
                cpu_resume(cpu);
                let activity = cpu_interrupt(cpu, self, vector);
                self.record_activity(activity);
            }
        }
    }

    /// Executes an instruction and takes a requested interrupt, and accounts for the cycles.
    pub fn execute_and_settle_instruction(&mut self, cpu: &mut ez80::Cpu)
        requires
            cpu_contents(*old(cpu)).ready,
        ensures
            final(self).host(*final(cpu)) == old(self).host(*old(cpu)).settled_step(),
            cpu_contents(*final(cpu)).ready,
            cpu_contents(*final(cpu)).instructions_executed == cpu_contents(
                *old(cpu),
            ).instructions_executed + (if old(self).host(*old(cpu)).executes() {
                1int
            } else {
                0int
            }),
            final(self)@.cycle_counter == 0,
            final(self)@.paused == old(self)@.paused,
    {
        self.execute_instruction(cpu);
        self.apply_elapsed_cycles();
        self.do_interrupts(cpu);
        self.apply_elapsed_cycles();
    }
}

} // verus!
