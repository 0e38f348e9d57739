//! Reading the prefixes in front of an eZ80 opcode.
use crate::address::{
    code_address, code_span, fetch_address, law_fetch_repeats_after_span, span_of,
};
use crate::machine::{read_or_default, AgonMachine, MachineView};
use vstd::prelude::*;

verus! {

/// What the prefixes in front of an opcode come to.
#[derive(Debug, Clone, Copy, PartialEq, Eq, Structural)]
pub struct PrefixScan {
    pub opcode: u8,
    pub prefix_len: u32,
    pub immediate_long: bool,
}

#[derive(Debug, Clone, Copy, PartialEq, Eq, Structural)]
pub enum PrefixScanError {
    Unmapped { address: u32 },
    FullSpan,
}

/// The two phases of prefixes, in the order in which the decoder reads them.
pub enum PrefixPhase {
    Size,
    Index,
}

/// Code as the CPU fetches it: a machine, a place to start, and the fetching mode.
pub struct CodeView {
    pub machine: MachineView,
    pub start: u32,
    pub adl: bool,
    pub mbase: u8,
}

/// Whether a byte is one of the size prefixes `.SIS`, `.LIS`, `.SIL` and `.LIL`.
pub open spec fn is_size_prefix(byte: u8) -> bool {
    byte == 0x40 || byte == 0x49 || byte == 0x52 || byte == 0x5b
}

/// Whether a size prefix makes immediates 24 bits long.
pub open spec fn is_long_immediate_prefix(byte: u8) -> bool {
    byte == 0x52 || byte == 0x5b
}

/// Whether a byte is one of the prefixes that select IX or IY.
pub open spec fn is_index_prefix(byte: u8) -> bool {
    byte == 0xdd || byte == 0xfd
}

/// Whether a byte is a prefix of the given phase.
pub open spec fn in_phase(phase: PrefixPhase, byte: u8) -> bool {
    match phase {
        PrefixPhase::Size => is_size_prefix(byte),
        PrefixPhase::Index => is_index_prefix(byte),
    }
}

impl CodeView {
    /// The address of the byte fetched `offset` bytes after the start.
    pub open spec fn address(self, offset: int) -> int {
        fetch_address(self.start as int, offset, self.adl, self.mbase as int)
    }

    /// The byte fetched `offset` bytes after the start, if it is mapped.
    pub open spec fn byte(self, offset: int) -> Option<u8> {
        self.machine.observed(self.address(offset))
    }

    /// The first offset, from `from` up to `limit`, at which no prefix of the phase stands;
    /// `limit` where there is none.
    pub open spec fn phase_end(self, phase: PrefixPhase, from: int, limit: int) -> int
        decreases limit - from,
    {
        if from < limit && self.byte(from) is Some && in_phase(phase, self.byte(from)->0) {
            self.phase_end(phase, from + 1, limit)
        } else {
            from
        }
    }

    /// The offset at which the size prefixes end.
    pub open spec fn size_end(self) -> int {
        self.phase_end(PrefixPhase::Size, 0, code_span(self.adl))
    }

    /// The offset at which the index prefixes end. They get a full span of their own after the
    /// size prefixes.
    pub open spec fn index_end(self) -> int {
        self.phase_end(PrefixPhase::Index, self.size_end(), self.size_end() + code_span(self.adl))
    }

    /// The prefixes and the opcode at the start. The last size prefix decides how long an
    /// immediate is; without one, the mode does.
    pub open spec fn scan(self) -> Result<PrefixScan, PrefixScanError> {
        let span: int = code_span(self.adl);
        if self.size_end() == span || (self.byte(self.size_end()) is Some && self.index_end()
            == self.size_end() + span) {
            Err(PrefixScanError::FullSpan)
        } else if self.byte(self.index_end()) is None {
            Err(PrefixScanError::Unmapped { address: self.address(self.index_end()) as u32 })
        } else {
            Ok(
                PrefixScan {
                    opcode: self.byte(self.index_end())->0,
                    prefix_len: self.index_end() as u32,
                    immediate_long: if self.size_end() == 0 {
                        self.adl
                    } else {
                        is_long_immediate_prefix(self.byte(self.size_end() - 1)->0)
                    },
                },
            )
        }
    }

    /// The first `len` bytes of the code; unmapped ones read as the bus leaves them.
    pub open spec fn bytes(self, len: nat) -> Seq<u8> {
        Seq::new(len, |offset: int| read_or_default(self.byte(offset)))
    }
}

/// The end of a phase lies within its bounds, the phase's prefixes fill everything before it,
/// and none stands at it.
pub proof fn lemma_phase_end(code: CodeView, phase: PrefixPhase, from: int, limit: int)
    requires
        from <= limit,
    ensures
        from <= code.phase_end(phase, from, limit) <= limit,
        forall|offset: int|
            from <= offset < code.phase_end(phase, from, limit) ==> #[trigger] code.byte(
                offset,
            ) is Some && in_phase(phase, code.byte(offset)->0),
        code.phase_end(phase, from, limit) < limit ==> {
            let end: int = code.phase_end(phase, from, limit);
            code.byte(end) is None || !in_phase(phase, code.byte(end)->0)
        },
    decreases limit - from,
{
    if from < limit && code.byte(from) is Some && in_phase(phase, code.byte(from)->0) {
        lemma_phase_end(code, phase, from + 1, limit);
    }
}

/// A scan never reads further than one full span, although each phase could have one of its own:
/// a second round would begin with the size prefixes, which end the index prefixes. What it takes
/// for an opcode is never a prefix that the decoder would still have read at that point.
pub proof fn law_scan_is_bounded(code: CodeView)
    ensures
        code.scan() matches Ok(scan) ==> {
            &&& scan.prefix_len <= code_span(code.adl)
            &&& code.byte(scan.prefix_len as int) == Some(scan.opcode)
            &&& !is_index_prefix(scan.opcode)
            &&& scan.prefix_len == 0 ==> !is_size_prefix(scan.opcode)
        },
        code.scan() matches Err(PrefixScanError::Unmapped { address }) ==> code.machine.observed(
            address as int,
        ) is None,
{
    let span: int = code_span(code.adl);
    lemma_phase_end(code, PrefixPhase::Size, 0, span);
    lemma_phase_end(code, PrefixPhase::Index, code.size_end(), code.size_end() + span);
    if code.size_end() > 0 {
        law_fetch_repeats_after_span(code.start as int, 0, span, code.adl, code.mbase);
        assert(code.byte(span) == code.byte(0));
        assert(is_size_prefix(code.byte(0)->0));
        assert(code.index_end() <= span);
    }
}

/// A scan reports that a span holds only prefixes exactly where it does: all of it size prefixes,
/// or, behind the size prefixes, a whole span of index prefixes.
pub proof fn law_full_span_is_all_prefixes(code: CodeView)
    ensures
        code.scan() == Err::<PrefixScan, _>(PrefixScanError::FullSpan) <==> {
            ||| forall|offset: int|
                0 <= offset < code_span(code.adl) ==> (#[trigger] code.byte(offset)) is Some
                    && is_size_prefix(code.byte(offset)->0)
            ||| forall|offset: int|
                code.size_end() <= offset < code.size_end() + code_span(code.adl) ==> (
                #[trigger] code.byte(offset)) is Some && is_index_prefix(code.byte(offset)->0)
        },
{
    let span: int = code_span(code.adl);
    let end: int = code.size_end();
    lemma_phase_end(code, PrefixPhase::Size, 0, span);
    lemma_phase_end(code, PrefixPhase::Index, end, end + span);
    if end < span {
        assert(code.byte(end) is None || !is_size_prefix(code.byte(end)->0));
    }
    let stop: int = code.index_end();
    if stop < end + span {
        assert(code.byte(stop) is None || !is_index_prefix(code.byte(stop)->0));
    }
}

/// The offset at which the prefixes end is small enough to be told exactly.
pub proof fn lemma_scan_is_exact(code: CodeView)
    ensures
        0 <= code.size_end() <= code.index_end() <= 0x200_0000,
{
    let span: int = code_span(code.adl);
    lemma_phase_end(code, PrefixPhase::Size, 0, span);
    lemma_phase_end(code, PrefixPhase::Index, code.size_end(), code.size_end() + span);
}

/// Reads the prefixes in front of the opcode at `start`.
pub fn scan_ez80_prefixes(machine: &AgonMachine, start: u32, adl: bool, mbase: u8) -> (scan: Result<
    PrefixScan,
    PrefixScanError,
>)
    ensures
        scan == (CodeView { machine: machine@, start, adl, mbase }).scan(),
{
    let ghost code: CodeView = CodeView { machine: machine@, start, adl, mbase };
    let span: u32 = span_of(adl);
    let mut offset: u32 = 0;
    let mut immediate_long: bool = adl;
    let mut sizing: bool = true;
    while sizing && offset < span
        invariant
            code == (CodeView { machine: machine@, start, adl, mbase }),
            span == code_span(adl),
            offset <= span,
            code.size_end() == code.phase_end(PrefixPhase::Size, offset as int, span as int),
            !sizing ==> code.size_end() == offset && offset < span && code.byte(
                offset as int,
            ) is Some,
            immediate_long == (if offset == 0 {
                adl
            } else {
                is_long_immediate_prefix(code.byte(offset - 1)->0)
            }),
        decreases span - offset, if sizing { 1int } else { 0int },
    {
        let address: u32 = code_address(start, offset, adl, mbase);
        match machine.observed_byte(address) {
            None => {
                proof {
                    lemma_phase_end(code, PrefixPhase::Index, offset as int, offset + span);
                }
                return Err(PrefixScanError::Unmapped { address });
            },
            Some(byte) => {
                if byte == 0x40 || byte == 0x49 {
                    immediate_long = false;
                    offset += 1;
                } else if byte == 0x52 || byte == 0x5b {
                    immediate_long = true;
                    offset += 1;
                } else {
                    sizing = false;
                }
            },
        }
    }
    if offset == span {
        return Err(PrefixScanError::FullSpan);
    }
    // The decoder never goes back to size prefixes, so the index prefixes are bounded by a full
    // span of their own.

    let ghost size_end: u32 = offset;
    let mut index_prefixes: u32 = 0;
    while index_prefixes < span
        invariant
            code == (CodeView { machine: machine@, start, adl, mbase }),
            span == code_span(adl),
            size_end < span,
            index_prefixes <= span,
            offset == size_end + index_prefixes,
            code.size_end() == size_end,
            code.byte(size_end as int) is Some,
            code.index_end() == code.phase_end(
                PrefixPhase::Index,
                offset as int,
                size_end + span,
            ),
            immediate_long == (if size_end == 0 {
                adl
            } else {
                is_long_immediate_prefix(code.byte(size_end - 1)->0)
            }),
        decreases span - index_prefixes,
    {
        let address: u32 = code_address(start, offset, adl, mbase);
        match machine.observed_byte(address) {
            None => {
                return Err(PrefixScanError::Unmapped { address });
            },
            Some(byte) => {
                if byte == 0xdd || byte == 0xfd {
                    offset += 1;
                    index_prefixes += 1;
                } else {
                    return Ok(PrefixScan { opcode: byte, prefix_len: offset, immediate_long });
                }
            },
        }
    }
    Err(PrefixScanError::FullSpan)
}

} // verus!
