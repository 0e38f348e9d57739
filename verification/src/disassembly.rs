//! Listing code without disturbing the machine.
use crate::address::{
    bank_byte, bank_of, code_address, code_span, fetch_address, span_of, ADDRESS_SPACE_SIZE, MAX_ADDRESS,
};
use crate::machine::{AgonMachine, MachineView, UNMAPPED_BYTE};
use crate::prefix::{scan_ez80_prefixes, CodeView, PrefixScan, PrefixScanError};
use crate::processor::{
    cpu_contents, cpu_registers, disassemble_instruction, disassembled, ends_instruction,
};
use crate::text::{append_hexadecimal, hexadecimal};
use vstd::prelude::*;

verus! {

/// The most that one listing covers, in bytes from its start.
pub const MAX_DEBUGGER_DISASSEMBLY_RANGE_BYTES: u64 = 4096;

/// An instruction in a listing.
#[derive(Debug)]
pub struct Disasm {
    pub loc: u32,
    pub text: String,
    pub bytes: Vec<u8>,
}

/// An instruction in a listing, as mathematics.
#[verifier::ext_equal]
pub struct DisasmView {
    pub loc: u32,
    pub text: Seq<char>,
    pub bytes: Seq<u8>,
}

impl View for Disasm {
    type V = DisasmView;

    open spec fn view(&self) -> DisasmView {
        DisasmView { loc: self.loc, text: self.text@, bytes: self.bytes@ }
    }
}

/// A listing as mathematics.
pub open spec fn listing_view(listing: Seq<Disasm>) -> Seq<DisasmView> {
    listing.map_values(|entry: Disasm| entry@)
}

/// How many more times memory for instruction bytes is had, if it runs out at all.
pub type Allocations = Option<nat>;

/// What is left of so many allocations after some were made.
pub open spec fn allocations_left(allocations: Allocations, made: nat) -> Allocations {
    match allocations {
        Some(count) => Some((count - made) as nat),
        None => None,
    }
}

/// Code that is being listed: the machine, the fetching mode, and where the listing ends.
pub struct ListingView {
    pub machine: MachineView,
    pub adl: bool,
    pub mbase: u8,
    pub end: int,
}

/// Where a listing ends: at the end that was asked for, or 32 bytes on where that is not behind
/// the start; at the end of the address space at the latest, and not beyond the longest range.
pub open spec fn listing_end(start: u32, end: u32) -> int {
    let asked: int = if end <= start {
        start + 0x20
    } else {
        end as int
    };
    let inside: int = if asked < ADDRESS_SPACE_SIZE {
        asked
    } else {
        ADDRESS_SPACE_SIZE as int
    };
    if inside < start + MAX_DEBUGGER_DISASSEMBLY_RANGE_BYTES {
        inside
    } else {
        start + MAX_DEBUGGER_DISASSEMBLY_RANGE_BYTES
    }
}

/// The length of an instruction, from the address behind it. Addresses only tell it modulo the
/// span; the bytes that the prefixes and the opcode need tell whether a span was lost.
pub open spec fn instruction_len(address: u32, next: u32, adl: bool, prefix_len: u32) -> int {
    restored_len((next - address) % code_span(adl), code_span(adl), prefix_len as int)
}

/// The least positive length with a given residue that leaves room for the prefixes, looking no
/// further than two spans.
pub open spec fn restored_len(modular: int, span: int, prefix_len: int) -> int {
    let least: int = if modular == 0 {
        span
    } else {
        modular
    };
    if least < prefix_len + 1 {
        least + span
    } else {
        least
    }
}

/// The entry that tells why there is no instruction at an address.
pub open spec fn refusal(address: u32, error: PrefixScanError) -> DisasmView {
    DisasmView {
        loc: address,
        text: match error {
            PrefixScanError::Unmapped { address } => "<unmapped instruction byte $"@
                + hexadecimal(address as nat, 6) + ">"@,
            PrefixScanError::FullSpan => "<full address span contains only eZ80 prefixes>"@,
        },
        bytes: Seq::empty(),
    }
}

/// The entry that tells that there was no memory for the bytes of an instruction.
pub open spec fn unallocated(address: u32) -> DisasmView {
    DisasmView {
        loc: address,
        text: "<debugger could not allocate instruction bytes>"@,
        bytes: Seq::empty(),
    }
}

impl ListingView {
    /// The code at an address.
    pub open spec fn code(self, address: u32) -> CodeView {
        CodeView { machine: self.machine, start: address, adl: self.adl, mbase: self.mbase }
    }

    /// The length of the instruction at an address.
    pub open spec fn len_at(self, address: u32) -> int {
        instruction_len(
            address,
            disassembled(self.machine, address, self.adl, self.mbase).1,
            self.adl,
            self.code(address).scan()->Ok_0.prefix_len,
        )
    }

    /// The address behind the instruction at an address, where fetching goes on.
    pub open spec fn next(self, address: u32) -> u32 {
        self.code(address).address(self.len_at(address)) as u32
    }

    /// The entry of the instruction at an address.
    pub open spec fn instruction(self, address: u32) -> DisasmView {
        DisasmView {
            loc: address,
            text: disassembled(self.machine, address, self.adl, self.mbase).0,
            bytes: self.code(address).bytes(self.len_at(address) as nat),
        }
    }

    /// The entries from an address on. A listing stops at its end, behind an entry without an
    /// instruction, and where the next instruction does not lie behind this one.
    pub open spec fn entries(self, address: u32, allocations: Allocations) -> Seq<DisasmView>
        decreases u32::MAX - address,
    {
        if address >= self.end {
            Seq::empty()
        } else {
            match self.code(address).scan() {
                Err(error) => seq![refusal(address, error)],
                Ok(_) => if allocations == Some(0nat) {
                    seq![unallocated(address)]
                } else if self.next(address) <= address {
                    seq![self.instruction(address)]
                } else {
                    seq![self.instruction(address)] + self.entries(
                        self.next(address),
                        allocations_left(allocations, 1),
                    )
                },
            }
        }
    }
}

/// The fetching mode of a listing: the one asked for, or else the CPU's.
pub open spec fn listing_adl(cpu_adl: bool, adl_override: Option<bool>) -> bool {
    if adl_override is Some {
        adl_override->0
    } else {
        cpu_adl
    }
}

/// The listing of the code from `start` to `end`. The fetching mode is the one asked for, or else
/// the CPU's; outside ADL mode, the bank is that of the start.
pub open spec fn listed(
    machine: MachineView,
    cpu_adl: bool,
    adl_override: Option<bool>,
    start: u32,
    end: u32,
    allocations: Allocations,
) -> Seq<DisasmView> {
    if start > MAX_ADDRESS {
        Seq::empty()
    } else {
        (ListingView {
            machine,
            adl: listing_adl(cpu_adl, adl_override),
            mbase: bank_of(start as int) as u8,
            end: listing_end(start, end),
        }).entries(start, allocations)
    }
}

/// Whether the entry behind an entry of a listing starts where its bytes end, in the order of
/// fetching. An entry without bytes has none behind it.
pub open spec fn is_followed(listing: Seq<DisasmView>, i: int, adl: bool, bank: int) -> bool {
    &&& listing[i].bytes.len() > 0
    &&& listing[i + 1].loc == fetch_address(
        listing[i].loc as int,
        listing[i].bytes.len() as int,
        adl,
        bank,
    )
}

/// Whether a listing has neither gaps nor overlaps.
pub open spec fn is_gapless(listing: Seq<DisasmView>, adl: bool, bank: int) -> bool {
    forall|i: int| 0 <= i < listing.len() - 1 ==> #[trigger] is_followed(listing, i, adl, bank)
}

/// `Vec::try_reserve_exact` on a new vector, which is handed out empty if the memory was had. That,
/// only the allocator decides.
#[verifier::external_body]
fn reserve_exact(len: usize) -> (buffer: Option<Vec<u8>>)
    ensures
        buffer matches Some(bytes) ==> bytes@.len() == 0,
{
    let mut bytes = Vec::new();
    match bytes.try_reserve_exact(len) {
        Ok(()) => Some(bytes),
        Err(_) => None,
    }
}

/// The length of an instruction, from the address behind it and the number of its prefixes.
pub fn measure_instruction(address: u32, next: u32, adl: bool, prefix_len: u32) -> (len: u32)
    requires
        prefix_len <= code_span(adl),
    ensures
        len == instruction_len(address, next, adl, prefix_len),
{
    let span: u32 = span_of(adl);
    let difference: u32 = next.wrapping_sub(address);
    let modular: u32 = difference % span;
    assert(modular == (next - address) % code_span(adl)) by {
        if adl {
            assert(difference % 0x100_0000 == (next - address) % 0x100_0000);
        } else {
            assert(difference % 0x1_0000 == (next - address) % 0x1_0000);
        }
    }
    let least: u32 = if modular == 0 {
        span
    } else {
        modular
    };
    if least < prefix_len + 1 {
        least + span
    } else {
        least
    }
}

/// Reads the bytes of an instruction in the order of fetching into an empty vector.
pub fn read_code(
    machine: &AgonMachine,
    address: u32,
    len: u32,
    adl: bool,
    mbase: u8,
    buffer: Vec<u8>,
) -> (bytes: Vec<u8>)
    requires
        buffer@.len() == 0,
    ensures
        bytes@ == (CodeView { machine: machine@, start: address, adl, mbase }).bytes(len as nat),
{
    let ghost code: CodeView = CodeView { machine: machine@, start: address, adl, mbase };
    let mut bytes = buffer;
    let mut offset: u32 = 0;
    while offset < len
        invariant
            code == (CodeView { machine: machine@, start: address, adl, mbase }),
            offset <= len,
            bytes@ == code.bytes(offset as nat),
        decreases len - offset,
    {
        let value: u8 = match machine.observed_byte(code_address(address, offset, adl, mbase)) {
            Some(value) => value,
            None => UNMAPPED_BYTE,
        };
        bytes.push(value);
        offset += 1;
        assert(bytes@ =~= code.bytes(offset as nat));
    }
    bytes
}

/// The entry of an instruction, given the memory that was had for its bytes. Without memory, the
/// entry tells that instead.
pub fn instruction_entry(
    machine: &AgonMachine,
    address: u32,
    adl: bool,
    mbase: u8,
    text: String,
    len: u32,
    buffer: Option<Vec<u8>>,
) -> (entry: Disasm)
    requires
        buffer matches Some(bytes) ==> bytes@.len() == 0,
    ensures
        buffer is Some ==> entry@ == (DisasmView {
            loc: address,
            text: text@,
            bytes: (CodeView { machine: machine@, start: address, adl, mbase }).bytes(len as nat),
        }),
        buffer is None ==> entry@ == unallocated(address),
{
    match buffer {
        Some(buffer) => Disasm {
            loc: address,
            text,
            bytes: read_code(machine, address, len, adl, mbase, buffer),
        },
        None => {
            let text = String::from_str("<debugger could not allocate instruction bytes>");
            let entry = Disasm { loc: address, text, bytes: Vec::new() };
            assert(entry@ =~= unallocated(address));
            entry
        },
    }
}

/// The entry that tells why there is no instruction at an address.
fn refusal_entry(address: u32, error: PrefixScanError) -> (entry: Disasm)
    ensures
        entry@ == refusal(address, error),
{
    let text = match error {
        PrefixScanError::Unmapped { address: unmapped } => {
            let mut text = String::from_str("<unmapped instruction byte $");
            append_hexadecimal(&mut text, unmapped, 6);
            text.append(">");
            text
        },
        PrefixScanError::FullSpan => String::from_str(
            "<full address span contains only eZ80 prefixes>",
        ),
    };
    Disasm { loc: address, text, bytes: Vec::new() }
}

/// Where a listing ends.
fn end_of_listing(start: u32, end: u32) -> (limit: u64)
    ensures
        limit == listing_end(start, end),
{
    let asked: u64 = if end <= start {
        start as u64 + 0x20
    } else {
        end as u64
    };
    let inside: u64 = if asked < ADDRESS_SPACE_SIZE {
        asked
    } else {
        ADDRESS_SPACE_SIZE
    };
    if inside < start as u64 + MAX_DEBUGGER_DISASSEMBLY_RANGE_BYTES {
        inside
    } else {
        start as u64 + MAX_DEBUGGER_DISASSEMBLY_RANGE_BYTES
    }
}

/// Whether so many allocations can be made.
spec fn suffices(allocations: Allocations, made: nat) -> bool {
    allocations matches Some(count) ==> made <= count
}

/// Whether a listing from `start` on begins with some entries and goes on at an address, however
/// often memory is still to be had.
spec fn listed_so_far(
    listing: ListingView,
    start: u32,
    result: Seq<DisasmView>,
    address: u32,
) -> bool {
    forall|allocations: Allocations|
        #![trigger listing.entries(start, allocations)]
        suffices(allocations, result.len()) ==> listing.entries(start, allocations) == result
            + listing.entries(address, allocations_left(allocations, result.len()))
}

/// Whether the bytes of the last entry of a listing end at an address.
spec fn leads_to(listing: Seq<DisasmView>, address: u32, adl: bool, bank: int) -> bool {
    listing.len() > 0 ==> listing.last().bytes.len() > 0 && address == fetch_address(
        listing.last().loc as int,
        listing.last().bytes.len() as int,
        adl,
        bank,
    )
}

/// A listing goes on behind an instruction.
proof fn lemma_listed_further(
    listing: ListingView,
    start: u32,
    result: Seq<DisasmView>,
    address: u32,
)
    requires
        listed_so_far(listing, start, result, address),
        address < listing.end,
        listing.code(address).scan() is Ok,
        listing.next(address) > address,
    ensures
        listed_so_far(
            listing,
            start,
            result.push(listing.instruction(address)),
            listing.next(address),
        ),
{
    let more: Seq<DisasmView> = result.push(listing.instruction(address));
    assert forall|allocations: Allocations|
        #![trigger listing.entries(start, allocations)]
        suffices(allocations, more.len()) implies listing.entries(start, allocations) == more
        + listing.entries(listing.next(address), allocations_left(allocations, more.len())) by {
        let left: Allocations = allocations_left(allocations, result.len());
        assert(suffices(allocations, result.len()));
        assert(listing.entries(start, allocations) == result + listing.entries(address, left));
        assert(allocations_left(left, 1) == allocations_left(allocations, more.len()));
        assert(listing.entries(start, allocations) =~= more + listing.entries(
            listing.next(address),
            allocations_left(allocations, more.len()),
        ));
    }
}

/// A listing that went on to an address ends there, if nothing is to be listed any more.
proof fn lemma_listing_ends(
    listing: ListingView,
    start: u32,
    result: Seq<DisasmView>,
    address: u32,
)
    requires
        listed_so_far(listing, start, result, address),
        address >= listing.end,
    ensures
        result == listing.entries(start, None),
{
    let full: Allocations = None;
    assert(listing.entries(start, full) == result + listing.entries(address, full));
    assert(result + listing.entries(address, full) =~= result);
}

/// A listing that went on to an address ends with one more entry, if nothing can follow it.
proof fn lemma_listing_ends_with(
    listing: ListingView,
    start: u32,
    result: Seq<DisasmView>,
    address: u32,
    allocations: Allocations,
    entry: DisasmView,
)
    requires
        listed_so_far(listing, start, result, address),
        suffices(allocations, result.len()),
        listing.entries(address, allocations_left(allocations, result.len())) == seq![entry],
    ensures
        result.push(entry) == listing.entries(start, allocations),
{
    assert(listing.entries(start, allocations) == result + seq![entry]);
    assert(result + seq![entry] =~= result.push(entry));
}

/// Fetching an instruction stays in the address space, and outside ADL mode in the bank.
proof fn lemma_next_in_space(code: CodeView, next: u32)
    requires
        ends_instruction(code, next),
    ensures
        next <= MAX_ADDRESS,
        !code.adl ==> bank_of(next as int) == code.mbase,
{
}

/// An entry that starts where the bytes of the last one end leaves a listing without gaps.
proof fn lemma_gapless_further(listing: Seq<DisasmView>, entry: DisasmView, adl: bool, bank: int)
    requires
        is_gapless(listing, adl, bank),
        listing.len() > 0 ==> is_followed(listing.push(entry), listing.len() - 1, adl, bank),
    ensures
        is_gapless(listing.push(entry), adl, bank),
{
    let more: Seq<DisasmView> = listing.push(entry);
    assert forall|i: int| 0 <= i < more.len() - 1 implies #[trigger] is_followed(
        more,
        i,
        adl,
        bank,
    ) by {
        if i < listing.len() - 1 {
            assert(is_followed(listing, i, adl, bank));
        }
    }
}

/// Lists the code from `start` to `end`. Neither the machine nor the CPU changes. The fetching mode
/// is the CPU's unless another one is asked for; outside ADL mode, the bank is that of the start.
/// Whether memory for the bytes of an instruction is had, only the allocator decides; what is listed
/// in either case, [`instruction_entry`] says.
pub fn neutral_disassemble(
    machine: &AgonMachine,
    cpu: &ez80::Cpu,
    adl_override: Option<bool>,
    start: u32,
    end: u32,
) -> (listing: Vec<Disasm>)
    requires
        cpu_contents(*cpu).ready,
    ensures
        is_gapless(
            listing_view(listing@),
            listing_adl(cpu_contents(*cpu).registers.adl, adl_override),
            bank_of(start as int),
        ),
        exists|allocations: Allocations|
            listing_view(listing@) == #[trigger] listed(
                machine@,
                cpu_contents(*cpu).registers.adl,
                adl_override,
                start,
                end,
                allocations,
            ),
{
    if start > MAX_ADDRESS {
        let empty: Vec<Disasm> = Vec::new();
        proof {
            let none: Allocations = None;
            assert(Seq::<DisasmView>::empty() =~= listed(
                machine@,
                cpu_contents(*cpu).registers.adl,
                adl_override,
                start,
                end,
                none,
            ));
        }
        assert(listing_view(empty@) =~= Seq::<DisasmView>::empty());
        return empty;
    }
    let adl: bool = match adl_override {
        Some(adl) => adl,
        None => cpu_registers(cpu).adl,
    };
    let result = list_code(machine, adl, start, end);
    proof {
        let allocations: Allocations = choose|allocations: Allocations|
            listing_view(result@) == #[trigger] listed(
                machine@,
                adl,
                None,
                start,
                end,
                allocations,
            );
        assert(listing_view(result@) == listed(
            machine@,
            cpu_contents(*cpu).registers.adl,
            adl_override,
            start,
            end,
            allocations,
        ));
    }
    result
}

/// Lists the code from `start` to `end` in the given fetching mode.
fn list_code(machine: &AgonMachine, adl: bool, start: u32, end: u32) -> (result: Vec<Disasm>)
    requires
        start <= MAX_ADDRESS,
    ensures
        is_gapless(listing_view(result@), adl, bank_of(start as int)),
        exists|allocations: Allocations|
            listing_view(result@) == #[trigger] listed(
                machine@,
                adl,
                None,
                start,
                end,
                allocations,
            ),
{
    let limit: u64 = end_of_listing(start, end);
    let mbase: u8 = bank_byte(start);
    let ghost listing: ListingView = ListingView { machine: machine@, adl, mbase, end: limit as int };
    let ghost full: Allocations = None;
    let mut result: Vec<Disasm> = Vec::new();
    let mut address: u32 = start;
    assert(listing_view(result@) =~= Seq::<DisasmView>::empty());
    assert(listed_so_far(listing, start, listing_view(result@), address)) by {
        assert forall|allocations: Allocations|
            #![trigger listing.entries(start, allocations)]
            suffices(allocations, 0) implies listing.entries(start, allocations)
            == Seq::<DisasmView>::empty() + listing.entries(
            start,
            allocations_left(allocations, 0),
        ) by {
            assert(allocations_left(allocations, 0) == allocations);
        }
    }
    while (address as u64) < limit
        invariant
            listing == (ListingView { machine: machine@, adl, mbase, end: limit as int }),
            limit == listing_end(start, end),
            mbase == bank_of(start as int),
            full is None,
            start <= MAX_ADDRESS,
            address <= MAX_ADDRESS,
            !adl ==> bank_of(address as int) == mbase,
            listed_so_far(listing, start, listing_view(result@), address),
            is_gapless(listing_view(result@), adl, mbase as int),
            leads_to(listing_view(result@), address, adl, mbase as int),
        decreases u32::MAX - address,
    {
        let ghost before: Seq<DisasmView> = listing_view(result@);
        let scan = match scan_ez80_prefixes(machine, address, adl, mbase) {
            Ok(scan) => scan,
            Err(error) => {
                let entry = refusal_entry(address, error);
                result.push(entry);
                proof {
                    lemma_gapless_further(before, entry@, adl, mbase as int);
                    lemma_listing_ends_with(listing, start, before, address, full, entry@);
                    assert(listing_view(result@) =~= before.push(entry@));
                    assert(listing_view(result@) == listed(machine@, adl, None, start, end, full));
                }
                return result;
            },
        };
        let (text, next) = disassemble_instruction(machine, address, adl, mbase);
        proof {
            crate::prefix::law_scan_is_bounded(listing.code(address));
            lemma_next_in_space(listing.code(address), next);
        }
        let len: u32 = measure_instruction(address, next, adl, scan.prefix_len);
        let buffer = reserve_exact(len as usize);
        let ghost had: bool = buffer is Some;
        let entry = instruction_entry(machine, address, adl, mbase, text, len, buffer);
        let unlisted: bool = entry.bytes.len() == 0;
        result.push(entry);
        proof {
            assert(listing_view(result@) =~= before.push(entry@));
            law_instruction_length_is_true(listing.code(address), scan, next);
            assert(listing.next(address) == next);
            lemma_gapless_further(before, entry@, adl, mbase as int);
            if had {
                assert(entry@ =~= listing.instruction(address));
            }
            assert(unlisted == !had);
        }
        if unlisted {
            proof {
                let made: Allocations = Some(before.len());
                lemma_listing_ends_with(listing, start, before, address, made, entry@);
                assert(listing_view(result@) == listed(machine@, adl, None, start, end, made));
            }
            return result;
        }
        if next <= address {
            proof {
                lemma_listing_ends_with(listing, start, before, address, full, entry@);
                assert(listing_view(result@) == listed(machine@, adl, None, start, end, full));
            }
            return result;
        }
        proof {
            lemma_listed_further(listing, start, before, address);
        }
        address = next;
    }
    proof {
        lemma_listing_ends(listing, start, listing_view(result@), address);
        assert(listing_view(result@) == listed(machine@, adl, None, start, end, full));
    }
    result
}

/// Addresses tell how many bytes were fetched, modulo the span.
proof fn lemma_modular_length(code: CodeView, len: int)
    requires
        code.start <= MAX_ADDRESS,
        0 <= len,
    ensures
        (code.address(len) - code.start) % code_span(code.adl) == len % code_span(code.adl),
{
    if code.adl {
        assert(((code.start + len) % 0x100_0000 - code.start) % 0x100_0000 == len % 0x100_0000);
    } else {
        assert((code.mbase * 0x1_0000 + (code.start + len) % 0x1_0000 - code.start) % 0x1_0000
            == len % 0x1_0000);
    }
}

/// A length that leaves room for the prefixes, but not for much more, is known from its residue.
proof fn lemma_restored_len(len: int, span: int, prefix_len: int)
    requires
        span == 0x100_0000 || span == 0x1_0000,
        0 <= prefix_len <= span,
        prefix_len < len <= prefix_len + 8,
    ensures
        restored_len(len % span, span, prefix_len) == len,
{
    if span == 0x100_0000 {
        assert(restored_len(len % 0x100_0000, 0x100_0000, prefix_len) == len);
    } else {
        assert(restored_len(len % 0x1_0000, 0x1_0000, prefix_len) == len);
    }
}

/// The length that is worked out for an instruction is the number of bytes that were fetched to
/// reach the address behind it.
pub proof fn law_instruction_length_is_true(code: CodeView, scan: PrefixScan, next: u32)
    requires
        code.scan() == Ok::<_, PrefixScanError>(scan),
        ends_instruction(code, next),
        code.start <= MAX_ADDRESS,
    ensures
        scan.prefix_len < instruction_len(code.start, next, code.adl, scan.prefix_len),
        instruction_len(code.start, next, code.adl, scan.prefix_len) <= scan.prefix_len + 8,
        code.address(instruction_len(code.start, next, code.adl, scan.prefix_len)) == next,
{
    crate::prefix::law_scan_is_bounded(code);
    let len: int = choose|len: int|
        {
            &&& code.index_end() < len <= code.index_end() + 8
            &&& next == #[trigger] code.address(len)
        };
    crate::prefix::lemma_scan_is_exact(code);
    lemma_modular_length(code, len);
    lemma_restored_len(len, code_span(code.adl), scan.prefix_len as int);
}

/// A listing keeps to its range: its entries lie between its start and its end, each behind the
/// one before, and there are no more of them than bytes in the range.
pub proof fn law_listing_is_bounded(listing: ListingView, address: u32, allocations: Allocations)
    ensures
        listing.entries(address, allocations).len() <= (if address < listing.end {
            listing.end - address
        } else {
            0
        }),
        forall|i: int|
            0 <= i < listing.entries(address, allocations).len() ==> address <= (
            #[trigger] listing.entries(address, allocations)[i]).loc < listing.end,
        forall|i: int, j: int|
            0 <= i < j < listing.entries(address, allocations).len() ==> (
            #[trigger] listing.entries(address, allocations)[i]).loc < (
            #[trigger] listing.entries(address, allocations)[j]).loc,
    decreases u32::MAX - address,
{
    if address < listing.end && listing.code(address).scan() is Ok && allocations != Some(0nat)
        && listing.next(address) > address {
        law_listing_is_bounded(listing, listing.next(address), allocations_left(allocations, 1));
        let rest: Seq<DisasmView> = listing.entries(
            listing.next(address),
            allocations_left(allocations, 1),
        );
        let all: Seq<DisasmView> = listing.entries(address, allocations);
        assert(all =~= seq![listing.instruction(address)] + rest);
        assert forall|i: int| 0 <= i < all.len() implies address <= (#[trigger] all[i]).loc
            < listing.end by {
            if i > 0 {
                assert(all[i] == rest[i - 1]);
            }
        }
        assert forall|i: int, j: int| 0 <= i < j < all.len() implies (#[trigger] all[i]).loc < (
        #[trigger] all[j]).loc by {
            assert(all[j] == rest[j - 1]);
            if i > 0 {
                assert(all[i] == rest[i - 1]);
            }
        }
    }
}

} // verus!
