# agon_ez80_emulator

The debugger and the headless runner of an emulator of the Agon Light, an eZ80 computer, with
contracts that Verus proves.

- `address`, `prefix`: the order in which the eZ80 fetches code, and the prefixes in front of an
  opcode.
- `machine`: the memory of the Agon and its decoding, and the marks that the debugger and the runner
  read.
- `processor`: the CPU of the `ez80` crate, as far as the library reads it, and the calls into that
  crate. This is where most of what is trusted stands.
- `execution`: executing instructions and taking interrupts, and the accounts of cycles.
- `images`, `headless`, `headless_laws`: placing load images, beginning a session, stepping and
  running it, and running a program again.
- `disassembly`: listing code without disturbing anything.
- `protocol`, `channel`: what a debugger and its controller say to each other, and how.
- `world`, `debugger`, `tick`, `debugging_laws`: what each command and event does, the debugger that
  does it, how it goes about it before each instruction, and what holds of it as a whole.
- `text`: writing numbers.

`app/` makes the library's errors errors of the standard library.

## What is trusted

The `ez80` crate executes and disassembles instructions; the library only names what comes of it.
Whether the controller takes a response or has sent a command, whether memory for a listing can be
had, and what the shutdown flag reads as are decided elsewhere. The contracts say what is done in
either case: for memory, that of `disassembly::instruction_entry`; for the flag, those of the
functions that take what it reads as.
