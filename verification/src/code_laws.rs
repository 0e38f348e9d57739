//! What holds of fetching, prefixes and listings, told in addresses and bytes.
use crate::address::{code_span, fetch_address};
use crate::disassembly::{
    allocations_left, instruction_len, law_listing_is_bounded, listed, listing_end, Allocations,
    DisasmView, ListingView,
};
use crate::machine::MachineView;
use crate::prefix::{
    law_scan_is_bounded, lemma_phase_end, CodeView, PrefixPhase, PrefixScan, PrefixScanError,
};
use crate::processor::disassembled;
use crate::text::hexadecimal;
use vstd::prelude::*;

verus! {

/// The byte that is fetched some bytes behind a place, if it is mapped.
pub open spec fn fetched(code: CodeView, offset: int) -> Option<u8> {
    code.machine.observed(
        if code.adl {
            (code.start + offset) % 0x100_0000
        } else {
            code.mbase * 0x1_0000 + (code.start + offset) % 0x1_0000
        },
    )
}

/// Fetching goes on one byte at a time: the address in ADL mode is the one of 24 bits that the sum
/// leaves, and otherwise the one of the selected bank whose low 16 bits the sum leaves. In each mode
/// only that address will do.
pub proof fn law_fetch_keeps_the_residue(start: int, offset: int, mbase: u8, address: int)
    ensures
        address == fetch_address(start, offset, true, mbase as int) <==> {
            &&& 0 <= address < 0x100_0000
            &&& (address - start - offset) % 0x100_0000 == 0
        },
        address == fetch_address(start, offset, false, mbase as int) <==> {
            &&& mbase * 0x1_0000 <= address < mbase * 0x1_0000 + 0x1_0000
            &&& (address - start - offset) % 0x1_0000 == 0
        },
        code_span(true) == 0x100_0000,
        code_span(false) == 0x1_0000,
{
}

/// The bank of an address of 24 bits is the one that holds it.
pub proof fn law_bank_holds_its_addresses(address: int)
    requires
        0 <= address < 0x100_0000,
    ensures
        0 <= crate::address::bank_of(address) < 0x100,
        crate::address::bank_of(address) * 0x1_0000 <= address,
        address < crate::address::bank_of(address) * 0x1_0000 + 0x1_0000,
{
}

/// What the code views call a byte is the byte fetched there.
proof fn lemma_fetched(code: CodeView)
    ensures
        forall|offset: int| #[trigger] code.byte(offset) == fetched(code, offset),
{
}

/// Size prefixes, index prefixes and an opcode behind them are read as just that. The size prefixes
/// are the bytes $40, $49, $52 and $5B, and the last of them decides how long an immediate is: $52
/// and $5B make it long, and without any the mode does. The index prefixes are $DD and $FD.
pub proof fn law_prefixed_opcode_is_read(
    code: CodeView,
    sizes: int,
    indices: int,
    opcode: u8,
)
    requires
        0 <= sizes < (if code.adl {
            0x100_0000int
        } else {
            0x1_0000int
        }),
        0 <= indices < (if code.adl {
            0x100_0000int
        } else {
            0x1_0000int
        }),
        forall|offset: int|
            0 <= offset < sizes ==> {
                let byte = #[trigger] fetched(code, offset);
                byte == Some(0x40u8) || byte == Some(0x49u8) || byte == Some(0x52u8) || byte
                    == Some(0x5bu8)
            },
        forall|offset: int|
            sizes <= offset < sizes + indices ==> {
                let byte = #[trigger] fetched(code, offset);
                byte == Some(0xddu8) || byte == Some(0xfdu8)
            },
        fetched(code, sizes + indices) == Some(opcode),
        opcode != 0xdd && opcode != 0xfd,
        indices == 0 ==> opcode != 0x40 && opcode != 0x49 && opcode != 0x52 && opcode != 0x5b,
    ensures
        code.scan() == Ok::<_, PrefixScanError>(
            PrefixScan {
                opcode,
                prefix_len: (sizes + indices) as u32,
                immediate_long: if sizes == 0 {
                    code.adl
                } else {
                    fetched(code, sizes - 1) == Some(0x52u8) || fetched(code, sizes - 1) == Some(
                        0x5bu8,
                    )
                },
            },
        ),
{
    lemma_ends(code, sizes, indices);
}

/// Where the bytes behind some prefixes cannot be read, the scan tells the first address that is
/// unmapped.
pub proof fn law_unmapped_code_is_told(code: CodeView, sizes: int, indices: int)
    requires
        0 <= sizes < (if code.adl {
            0x100_0000int
        } else {
            0x1_0000int
        }),
        0 <= indices < (if code.adl {
            0x100_0000int
        } else {
            0x1_0000int
        }),
        forall|offset: int|
            0 <= offset < sizes ==> {
                let byte = #[trigger] fetched(code, offset);
                byte == Some(0x40u8) || byte == Some(0x49u8) || byte == Some(0x52u8) || byte
                    == Some(0x5bu8)
            },
        forall|offset: int|
            sizes <= offset < sizes + indices ==> {
                let byte = #[trigger] fetched(code, offset);
                byte == Some(0xddu8) || byte == Some(0xfdu8)
            },
        fetched(code, sizes + indices) is None,
    ensures
        code.scan() == Err::<PrefixScan, _>(
            PrefixScanError::Unmapped {
                address: if code.adl {
                    ((code.start + sizes + indices) % 0x100_0000) as u32
                } else {
                    (code.mbase * 0x1_0000 + (code.start + sizes + indices) % 0x1_0000) as u32
                },
            },
        ),
{
    lemma_ends(code, sizes, indices);
    assert(code.start + (sizes + indices) == code.start + sizes + indices);
}

/// Nothing but size prefixes in a whole span, or nothing but index prefixes in the span behind the
/// size prefixes, and no opcode is ever found.
pub proof fn law_endless_prefixes_are_told(code: CodeView, sizes: int)
    requires
        ({
            let span: int = if code.adl {
                0x100_0000
            } else {
                0x1_0000
            };
            &&& 0 <= sizes <= span
            &&& forall|offset: int|
                0 <= offset < sizes ==> {
                    let byte = #[trigger] fetched(code, offset);
                    byte == Some(0x40u8) || byte == Some(0x49u8) || byte == Some(0x52u8) || byte
                        == Some(0x5bu8)
                }
            &&& sizes < span ==> forall|offset: int|
                sizes <= offset < sizes + span ==> {
                    let byte = #[trigger] fetched(code, offset);
                    byte == Some(0xddu8) || byte == Some(0xfdu8)
                }
        }),
    ensures
        code.scan() == Err::<PrefixScan, _>(PrefixScanError::FullSpan),
{
    let span: int = code_span(code.adl);
    lemma_fetched(code);
    lemma_phase_end(code, PrefixPhase::Size, 0, span);
    if sizes < span {
        assert(fetched(code, sizes) is Some);
    }
    if code.size_end() < sizes {
        assert(fetched(code, code.size_end()) is Some);
        assert(false);
    }
    if sizes < span {
        if code.size_end() > sizes {
            assert(fetched(code, sizes) == code.byte(sizes));
            assert(false);
        }
        lemma_phase_end(code, PrefixPhase::Index, sizes, sizes + span);
        let end: int = code.phase_end(PrefixPhase::Index, sizes, sizes + span);
        if end < sizes + span {
            assert(fetched(code, end) == code.byte(end));
            assert(false);
        }
        assert(code.byte(sizes) == fetched(code, sizes));
    }
}

/// The phases of a scan end where the prefixes do.
proof fn lemma_ends(code: CodeView, sizes: int, indices: int)
    requires
        0 <= sizes < code_span(code.adl),
        0 <= indices < code_span(code.adl),
        forall|offset: int|
            0 <= offset < sizes ==> {
                let byte = #[trigger] fetched(code, offset);
                byte == Some(0x40u8) || byte == Some(0x49u8) || byte == Some(0x52u8) || byte
                    == Some(0x5bu8)
            },
        forall|offset: int|
            sizes <= offset < sizes + indices ==> {
                let byte = #[trigger] fetched(code, offset);
                byte == Some(0xddu8) || byte == Some(0xfdu8)
            },
        fetched(code, sizes + indices) != Some(0xddu8),
        fetched(code, sizes + indices) != Some(0xfdu8),
        indices == 0 ==> fetched(code, sizes) != Some(0x40u8) && fetched(code, sizes) != Some(
            0x49u8,
        ) && fetched(code, sizes) != Some(0x52u8) && fetched(code, sizes) != Some(0x5bu8),
    ensures
        code.size_end() == sizes,
        code.index_end() == sizes + indices,
        code.byte(sizes + indices) == fetched(code, sizes + indices),
        code.byte(sizes) == fetched(code, sizes),
        indices > 0 ==> fetched(code, sizes) is Some,
        sizes > 0 ==> code.byte(sizes - 1) == fetched(code, sizes - 1) && fetched(
            code,
            sizes - 1,
        ) is Some,
{
    let span: int = code_span(code.adl);
    lemma_fetched(code);
    lemma_phase_end(code, PrefixPhase::Size, 0, span);
    let first: int = code.size_end();
    assert(code.byte(first) == fetched(code, first));
    assert(code.byte(sizes) == fetched(code, sizes));
    if first > sizes {
        assert(false);
    }
    lemma_phase_end(code, PrefixPhase::Index, sizes, sizes + span);
    let second: int = code.index_end();
    assert(code.byte(second) == fetched(code, second));
    assert(code.byte(sizes + indices) == fetched(code, sizes + indices));
    if sizes > 0 {
        assert(code.byte(sizes - 1) == fetched(code, sizes - 1));
    }
}

/// The length of an instruction is the least that leaves room for its prefixes and its opcode and
/// leads from its address to the one behind it.
pub proof fn law_length_is_the_least(address: u32, next: u32, adl: bool, prefix_len: u32)
    requires
        prefix_len <= (if adl {
            0x100_0000int
        } else {
            0x1_0000int
        }),
    ensures
        ({
            let len: int = instruction_len(address, next, adl, prefix_len);
            let span: int = if adl {
                0x100_0000
            } else {
                0x1_0000
            };
            &&& prefix_len < len <= prefix_len + span
            &&& adl ==> (address + len - next) % 0x100_0000 == 0
            &&& !adl ==> (address + len - next) % 0x1_0000 == 0
        }),
{
}

/// Whether an entry tells truly what stands at its place: the text and the bytes of the instruction
/// there, or why there is none.
pub open spec fn is_true_entry(machine: MachineView, adl: bool, bank: u8, entry: DisasmView) -> bool {
    let code: CodeView = CodeView { machine, start: entry.loc, adl, mbase: bank };
    match code.scan() {
        Ok(scan) => {
            &&& entry.text == disassembled(machine, entry.loc, adl, bank).0
            &&& entry.bytes.len() > scan.prefix_len
            &&& forall|offset: int|
                0 <= offset < entry.bytes.len() ==> #[trigger] entry.bytes[offset] == (match fetched(
                    code,
                    offset,
                ) {
                    Some(byte) => byte,
                    None => 0xf5,
                })
        },
        Err(PrefixScanError::Unmapped { address }) => {
            &&& entry.bytes.len() == 0
            &&& entry.text == "<unmapped instruction byte $"@ + hexadecimal(address as nat, 6)
                + ">"@
        },
        Err(PrefixScanError::FullSpan) => {
            &&& entry.bytes.len() == 0
            &&& entry.text == "<full address span contains only eZ80 prefixes>"@
        },
    }
}

/// Whether an entry of a listing starts where the bytes of the one before end.
pub open spec fn follows(first: DisasmView, second: DisasmView, adl: bool) -> bool {
    &&& first.bytes.len() > 0
    &&& first.loc < second.loc
    &&& adl ==> (second.loc - first.loc - first.bytes.len()) % 0x100_0000 == 0
    &&& !adl ==> (second.loc - first.loc - first.bytes.len()) % 0x1_0000 == 0 && second.loc
        / 0x1_0000 == first.loc / 0x1_0000
}

/// An instruction in a listing has bytes, and tells truly what stands at its place.
proof fn lemma_instruction_is_true(listing: ListingView, address: u32)
    requires
        listing.code(address).scan() is Ok,
    ensures
        listing.instruction(address).loc == address,
        listing.instruction(address).bytes.len() == listing.len_at(address) > 0,
        is_true_entry(
            listing.machine,
            listing.adl,
            listing.mbase,
            listing.instruction(address),
        ),
{
    let code: CodeView = listing.code(address);
    let entry: DisasmView = listing.instruction(address);
    lemma_fetched(code);
    law_scan_is_bounded(code);
    law_length_is_the_least(
        address,
        disassembled(listing.machine, address, listing.adl, listing.mbase).1,
        listing.adl,
        code.scan()->Ok_0.prefix_len,
    );
    assert forall|offset: int| 0 <= offset < entry.bytes.len() implies #[trigger] entry.bytes[offset]
        == (match fetched(code, offset) {
        Some(byte) => byte,
        None => 0xf5,
    }) by {
        assert(code.byte(offset) == fetched(code, offset));
    }
}

/// Where fetching goes on behind an instruction.
proof fn lemma_next_is_behind(listing: ListingView, address: u32)
    requires
        address < 0x100_0000,
        !listing.adl ==> address / 0x1_0000 == listing.mbase,
        listing.len_at(address) > 0,
    ensures
        ({
            let next: u32 = listing.next(address);
            let len: int = listing.len_at(address);
            &&& next < 0x100_0000
            &&& !listing.adl ==> next / 0x1_0000 == listing.mbase
            &&& next > address ==> next <= address + len
            &&& listing.adl ==> (next - address - len) % 0x100_0000 == 0
            &&& !listing.adl ==> (next - address - len) % 0x1_0000 == 0
            &&& next <= address ==> address + len >= 0x100_0000 || (!listing.adl && address
                % 0x1_0000 + len >= 0x1_0000)
        }),
{
    let next: u32 = listing.next(address);
    let len: int = listing.len_at(address);
    if listing.adl {
        assert(next == (address + len) % 0x100_0000);
    } else {
        assert(next == listing.mbase * 0x1_0000 + (address + len) % 0x1_0000);
    }
}

/// What a listing lists from an address on, where memory does not run out.
proof fn lemma_entries_unfold(listing: ListingView, address: u32)
    requires
        address < listing.end,
    ensures
        ({
            let all: Seq<DisasmView> = listing.entries(address, None);
            match listing.code(address).scan() {
                Err(error) => all == seq![crate::disassembly::refusal(address, error)],
                Ok(_) => if listing.next(address) > address {
                    all == seq![listing.instruction(address)] + listing.entries(
                        listing.next(address),
                        None,
                    )
                } else {
                    all == seq![listing.instruction(address)]
                },
            }
        }),
{
    let none: Allocations = None;
    assert(allocations_left(none, 1) == none);
}

/// The entries from an address on reach the end of a listing, unless the last one has no bytes or
/// fetching goes back to the start of the bank behind it.
proof fn lemma_entries_cover(listing: ListingView, address: u32)
    requires
        address < listing.end,
        address < 0x100_0000,
        !listing.adl ==> address / 0x1_0000 == listing.mbase,
    ensures
        ({
            let disasm: Seq<DisasmView> = listing.entries(address, None);
            let last: DisasmView = disasm.last();
            &&& disasm.len() > 0
            &&& disasm[0].loc == address
            &&& last.bytes.len() == 0 || last.loc + last.bytes.len() >= listing.end || last.loc
                + last.bytes.len() >= 0x100_0000 || (!listing.adl && last.loc % 0x1_0000
                + last.bytes.len() >= 0x1_0000)
        }),
    decreases u32::MAX - address,
{
    let none: Allocations = None;
    let all: Seq<DisasmView> = listing.entries(address, none);
    lemma_entries_unfold(listing, address);
    if listing.code(address).scan() is Ok {
        lemma_instruction_is_true(listing, address);
        lemma_next_is_behind(listing, address);
        let next: u32 = listing.next(address);
        if next > address {
            if next < listing.end {
                lemma_entries_cover(listing, next);
                assert(all.last() == listing.entries(next, none).last());
            } else {
                assert(listing.entries(next, none).len() == 0);
            }
        }
    }
}

/// Every entry from an address on tells truly what stands at its place.
proof fn lemma_entries_are_true(listing: ListingView, address: u32, i: int)
    requires
        0 <= i < listing.entries(address, None).len(),
    ensures
        is_true_entry(
            listing.machine,
            listing.adl,
            listing.mbase,
            listing.entries(address, None)[i],
        ),
    decreases i,
{
    let none: Allocations = None;
    lemma_entries_unfold(listing, address);
    if listing.code(address).scan() is Ok {
        lemma_instruction_is_true(listing, address);
        if i > 0 {
            let next: u32 = listing.next(address);
            lemma_entries_are_true(listing, next, i - 1);
            assert(listing.entries(address, none)[i] == listing.entries(next, none)[i - 1]);
        }
    }
}

/// Every entry from an address on starts where the bytes of the one before end.
proof fn lemma_entries_follow(listing: ListingView, address: u32, i: int)
    requires
        address < 0x100_0000,
        !listing.adl ==> address / 0x1_0000 == listing.mbase,
        0 <= i < listing.entries(address, None).len() - 1,
    ensures
        follows(
            listing.entries(address, None)[i],
            listing.entries(address, None)[i + 1],
            listing.adl,
        ),
    decreases i,
{
    let none: Allocations = None;
    let all: Seq<DisasmView> = listing.entries(address, none);
    let next: u32 = listing.next(address);
    let rest: Seq<DisasmView> = listing.entries(next, none);
    lemma_entries_unfold(listing, address);
    lemma_instruction_is_true(listing, address);
    lemma_next_is_behind(listing, address);
    assert(all[i + 1] == rest[i]);
    if i > 0 {
        lemma_entries_follow(listing, next, i - 1);
        assert(all[i] == rest[i - 1]);
    } else {
        lemma_entries_cover(listing, next);
    }
}

/// Whether entries list the code from a start to an end. They start there and go on, entry behind
/// entry without a gap, and reach the end unless the last one has no bytes, the address space ends,
/// 4096 bytes were listed, or fetching goes back to the start of the bank. None lies behind the end,
/// and each tells truly what stands at its place.
pub open spec fn covers(
    machine: MachineView,
    adl: bool,
    start: u32,
    end: int,
    disasm: Seq<DisasmView>,
) -> bool {
    let last: DisasmView = disasm.last();
    let behind: int = last.loc + last.bytes.len();
    &&& disasm.len() > 0
    &&& disasm[0].loc == start
    &&& last.bytes.len() == 0 || behind >= end || behind >= 0x100_0000 || behind >= start + 4096
        || (!adl && last.loc % 0x1_0000 + last.bytes.len() >= 0x1_0000)
    &&& forall|i: int|
        0 <= i < disasm.len() ==> {
            &&& start <= (#[trigger] disasm[i]).loc < end
            &&& disasm[i].loc < 0x100_0000
            &&& disasm[i].loc < start + 4096
            &&& is_true_entry(machine, adl, (start / 0x1_0000) as u8, disasm[i])
        }
    &&& forall|i: int, j: int|
        0 <= i && j == i + 1 && j < disasm.len() ==> follows(
            #[trigger] disasm[i],
            #[trigger] disasm[j],
            adl,
        )
}

/// A listing covers the range to the end that was asked for, or to 32 bytes on where that is not
/// behind the start, where the memory for its bytes is had.
pub proof fn law_listing_covers_its_range(
    machine: MachineView,
    cpu_adl: bool,
    adl_override: Option<bool>,
    start: u32,
    end: u32,
)
    requires
        start < 0x100_0000,
    ensures
        covers(
            machine,
            match adl_override {
                Some(adl) => adl,
                None => cpu_adl,
            },
            start,
            if end > start {
                end as int
            } else {
                start + 32
            },
            listed(machine, cpu_adl, adl_override, start, end, None),
        ),
{
    let listing: ListingView = ListingView {
        machine,
        adl: crate::disassembly::listing_adl(cpu_adl, adl_override),
        mbase: crate::address::bank_of(start as int) as u8,
        end: listing_end(start, end),
    };
    let none: Allocations = None;
    let disasm: Seq<DisasmView> = listing.entries(start, none);
    lemma_entries_cover(listing, start);
    law_listing_is_bounded(listing, start, none);
    assert(listing.mbase == (start / 0x1_0000) as u8);
    assert forall|i: int| 0 <= i < disasm.len() implies is_true_entry(
        machine,
        listing.adl,
        listing.mbase,
        #[trigger] disasm[i],
    ) by {
        lemma_entries_are_true(listing, start, i);
    }
    assert forall|i: int, j: int| 0 <= i && j == i + 1 && j < disasm.len() implies follows(
        #[trigger] disasm[i],
        #[trigger] disasm[j],
        listing.adl,
    ) by {
        lemma_entries_follow(listing, start, i);
    }
}

/// Whether entries go from a start to an end, entry behind entry without a gap. They reach the end
/// unless the last one has no bytes, the address space ends, 4096 bytes were listed, or fetching
/// goes back to the start of the bank.
pub open spec fn reaches(adl: bool, start: u32, end: int, disasm: Seq<DisasmView>) -> bool {
    let last: DisasmView = disasm.last();
    let behind: int = last.loc + last.bytes.len();
    &&& disasm.len() > 0
    &&& disasm[0].loc == start
    &&& last.bytes.len() == 0 || behind >= end || behind >= 0x100_0000 || behind >= start + 4096
        || (!adl && last.loc % 0x1_0000 + last.bytes.len() >= 0x1_0000)
    &&& forall|i: int, j: int|
        0 <= i && j == i + 1 && j < disasm.len() ==> follows(
            #[trigger] disasm[i],
            #[trigger] disasm[j],
            adl,
        )
}

/// A listing from inside the address space on reaches its end in this sense even where memory runs
/// out: the entry that tells so has no bytes.
pub proof fn law_listing_reaches_its_end(
    machine: MachineView,
    cpu_adl: bool,
    adl_override: Option<bool>,
    start: u32,
    end: u32,
    allocations: Allocations,
)
    requires
        start < 0x100_0000,
    ensures
        reaches(
            match adl_override {
                Some(adl) => adl,
                None => cpu_adl,
            },
            start,
            if end > start {
                end as int
            } else {
                start + 32
            },
            listed(machine, cpu_adl, adl_override, start, end, allocations),
        ),
{
    law_listing_covers_its_range(machine, cpu_adl, adl_override, start, end);
    let listing: ListingView = ListingView {
        machine,
        adl: crate::disassembly::listing_adl(cpu_adl, adl_override),
        mbase: crate::address::bank_of(start as int) as u8,
        end: listing_end(start, end),
    };
    let none: Allocations = None;
    let full: Seq<DisasmView> = listing.entries(start, none);
    let disasm: Seq<DisasmView> = listing.entries(start, allocations);
    if allocations is Some {
        let count: nat = allocations->0;
        law_listing_breaks_off(listing, start, count);
        if disasm != full {
            assert forall|i: int, j: int| 0 <= i && j == i + 1 && j < disasm.len() implies follows(
                #[trigger] disasm[i],
                #[trigger] disasm[j],
                listing.adl,
            ) by {
                assert(follows(full[i], full[j], listing.adl));
            }
        }
    }
}

/// Nothing is listed from behind the address space on.
pub proof fn law_nothing_is_listed_behind_the_space(
    machine: MachineView,
    cpu_adl: bool,
    adl_override: Option<bool>,
    start: u32,
    end: u32,
    allocations: Allocations,
)
    requires
        start >= 0x100_0000,
    ensures
        listed(machine, cpu_adl, adl_override, start, end, allocations).len() == 0,
{
}

/// Where memory runs out after some instructions, the listing is the one that it would have been up
/// to there, with one entry that tells so; where it suffices, the listing is the same.
pub proof fn law_listing_breaks_off(listing: ListingView, address: u32, count: nat)
    ensures
        ({
            let full: Seq<DisasmView> = listing.entries(address, None);
            let short: Seq<DisasmView> = listing.entries(address, Some(count));
            ||| short == full
            ||| {
                &&& count < full.len()
                &&& full[count as int].bytes.len() > 0
                &&& short == full.take(count as int).push(
                    DisasmView {
                        loc: full[count as int].loc,
                        text: "<debugger could not allocate instruction bytes>"@,
                        bytes: Seq::empty(),
                    },
                )
            }
        }),
        listing.entries(address, None).len() > count && listing.entries(
            address,
            None,
        )[count as int].bytes.len() > 0 ==> listing.entries(address, Some(count))
            != listing.entries(address, None),
    decreases u32::MAX - address,
{
    let none: Allocations = None;
    let some: Allocations = Some(count);
    let full: Seq<DisasmView> = listing.entries(address, none);
    let short: Seq<DisasmView> = listing.entries(address, some);
    let code: CodeView = listing.code(address);
    if address < listing.end && code.scan() is Ok {
        law_scan_is_bounded(code);
        law_length_is_the_least(
            address,
            disassembled(listing.machine, address, listing.adl, listing.mbase).1,
            listing.adl,
            code.scan()->Ok_0.prefix_len,
        );
        let entry: DisasmView = listing.instruction(address);
        assert(entry.bytes.len() > 0);
        assert(full[0] == entry);
        if count == 0 {
            assert(short =~= full.take(0).push(crate::disassembly::unallocated(address)));
            assert(short[0].bytes.len() == 0);
        } else if listing.next(address) > address {
            let next: u32 = listing.next(address);
            law_listing_breaks_off(listing, next, (count - 1) as nat);
            let rest: Seq<DisasmView> = listing.entries(next, none);
            let less: Allocations = Some((count - 1) as nat);
            let cut: Seq<DisasmView> = listing.entries(next, less);
            assert(full =~= seq![entry] + rest);
            assert(short =~= seq![entry] + cut);
            if cut != rest {
                assert(full[count as int] == rest[count - 1]);
                assert(short =~= full.take(count as int).push(cut.last()));
            }
            if short == full {
                assert(cut =~= short.subrange(1, short.len() as int));
                assert(rest =~= full.subrange(1, full.len() as int));
            }
        }
    }
}

/// The bytes of code are those fetched one behind the other, $F5 where they are unmapped.
pub proof fn law_code_is_fetched_in_order(code: CodeView, len: nat, offset: int)
    ensures
        code.byte(offset) == fetched(code, offset),
        code.bytes(len).len() == len,
        0 <= offset < len ==> code.bytes(len)[offset] == (match fetched(code, offset) {
            Some(byte) => byte,
            None => 0xf5,
        }),
{
}

} // verus!
