//! What holds of load images, told in addresses and RAM cells.
use crate::headless::{begun, can_begin, HeadlessBoot, HeadlessRunError, LoadImage, SessionView};
use crate::images::{image_targets_match, targets_match, LoadView};
use crate::machine::{MachineView, StorageAddress};
use crate::text::{decimal, hexadecimal};
use vstd::prelude::*;

verus! {

/// The RAM cell that a byte of an image is meant for.
pub open spec fn cell_of(load: LoadView, image: int, offset: int) -> Option<StorageAddress> {
    load.machine.storage(load.images[image].address + offset)
}

/// Whether an image has a byte.
pub open spec fn has(load: LoadView, image: int, offset: int) -> bool {
    0 <= image < load.images.len() && 0 <= offset < load.images[image].bytes@.len()
}

/// Whether an image is not empty and lies in the address space.
pub open spec fn fits(load: LoadView, image: int) -> bool {
    &&& load.images[image].bytes@.len() > 0
    &&& load.images[image].address + load.images[image].bytes@.len() <= 0x100_0000
}

/// Whether two cells are neighbours, or lie in different RAMs.
pub open spec fn adjoin(first: Option<StorageAddress>, second: Option<StorageAddress>) -> bool {
    match (first, second) {
        (Some(StorageAddress::Internal(a)), Some(StorageAddress::Internal(b))) => b == a + 1,
        (Some(StorageAddress::External(a)), Some(StorageAddress::External(b))) => b == a + 1,
        _ => true,
    }
}

/// Whether all bytes before a place go to RAM, each behind the one before it in its image, and no
/// two of them to the same cell.
pub open spec fn in_order(load: LoadView, image: int, offset: int) -> bool {
    &&& forall|i: int, j: int|
        has(load, i, j) && (i < image || (i == image && j < offset)) ==> (#[trigger] cell_of(
            load,
            i,
            j,
        )) is Some
    &&& forall|i: int, j: int, k: int|
        has(load, i, j) && (i < image || (i == image && j < offset)) && 0 <= k && k + 1 == j
            ==> adjoin(#[trigger] cell_of(load, i, k), #[trigger] cell_of(load, i, j))
    &&& forall|i: int, j: int, k: int, l: int|
        has(load, i, j) && (i < image || (i == image && j < offset)) && has(load, k, l) && (k < i
            || (k == i && l < j)) ==> #[trigger] cell_of(load, i, j) != #[trigger] cell_of(
            load,
            k,
            l,
        )
}

/// The bytes before a place may all go where they are meant to exactly where they are in order.
proof fn lemma_in_order(load: LoadView, image: int, offset: int)
    ensures
        load.placeable_before(image, offset) <==> in_order(load, image, offset),
{
    if load.placeable_before(image, offset) {
        assert forall|i: int, j: int|
            has(load, i, j) && (i < image || (i == image && j < offset)) implies (
        #[trigger] cell_of(load, i, j)) is Some by {
            assert(load.before(i, j, image, offset));
            assert(load.placeable(i, j));
        }
        assert forall|i: int, j: int, k: int|
            has(load, i, j) && (i < image || (i == image && j < offset)) && 0 <= k && k + 1
                == j implies adjoin(
            #[trigger] cell_of(load, i, k),
            #[trigger] cell_of(load, i, j),
        ) by {
            assert(load.before(i, j, image, offset));
            assert(load.placeable(i, j));
            assert(has(load, i, k));
        }
        assert forall|i: int, j: int, k: int, l: int|
            has(load, i, j) && (i < image || (i == image && j < offset)) && has(load, k, l) && (k
                < i || (k == i && l < j)) implies #[trigger] cell_of(load, i, j)
            != #[trigger] cell_of(load, k, l) by {
            assert(load.before(i, j, image, offset));
            assert(load.placeable(i, j));
            assert(load.before(k, l, image, offset));
            assert(load.placeable(k, l));
            assert(!load.aliases(i, j, k, l));
            assert(load.before(k, l, i, j));
        }
    }
    if in_order(load, image, offset) {
        assert forall|i: int, j: int| load.before(i, j, image, offset) implies
            #[trigger] load.placeable(i, j) by {
            assert(has(load, i, j));
            assert(cell_of(load, i, j) is Some);
            if j > 0 {
                assert(has(load, i, j - 1));
                assert(adjoin(cell_of(load, i, j - 1), cell_of(load, i, j)));
                assert(cell_of(load, i, j - 1) is Some);
            }
            assert forall|k: int, l: int| !load.aliases(i, j, k, l) by {
                if load.before(k, l, i, j) {
                    assert(has(load, k, l));
                    assert(cell_of(load, i, j) != cell_of(load, k, l));
                    assert(cell_of(load, k, l) is Some);
                }
            }
        }
    }
}

/// The images are in the address space exactly where nothing is wrong with their extents.
proof fn lemma_fits(load: LoadView, count: int)
    requires
        count <= load.images.len(),
    ensures
        load.extents_fit(count) <==> forall|i: int| 0 <= i < count ==> #[trigger] fits(load, i),
{
    if load.extents_fit(count) {
        assert forall|i: int| 0 <= i < count implies #[trigger] fits(load, i) by {
            assert(load.extent_fault(i) is None);
        }
    }
    if forall|i: int| 0 <= i < count ==> #[trigger] fits(load, i) {
        assert forall|i: int| 0 <= i < count implies (#[trigger] load.extent_fault(i)) is None by {
            assert(fits(load, i));
        }
    }
}

/// Images are accepted exactly where there are some, none is empty or leaves the address space, and
/// every byte goes to RAM, behind the byte before it, and to a cell of its own.
pub proof fn law_accepted_images_fit(load: LoadView)
    ensures
        load.accepted() <==> {
            &&& load.images.len() > 0
            &&& forall|i: int| 0 <= i < load.images.len() ==> #[trigger] fits(load, i)
            &&& in_order(load, load.images.len() as int, 0)
        },
{
    lemma_fits(load, load.images.len() as int);
    lemma_in_order(load, load.images.len() as int, 0);
}

/// Whether an error tells truly what is wrong with some images, everything before it being in order.
pub open spec fn is_true_refusal(load: LoadView, error: HeadlessRunError) -> bool {
    match error {
        HeadlessRunError::NoImages => load.images.len() == 0,
        HeadlessRunError::EmptyImage { image } => {
            &&& image < load.images.len()
            &&& forall|i: int| 0 <= i < image ==> #[trigger] fits(load, i)
            &&& in_order(load, image as int, 0)
            &&& load.images[image as int].bytes@.len() == 0
        },
        HeadlessRunError::AddressOutOfRange { image, address } => {
            &&& image < load.images.len()
            &&& forall|i: int| 0 <= i < image ==> #[trigger] fits(load, i)
            &&& in_order(load, image as int, 0)
            &&& load.images[image as int].bytes@.len() > 0
            &&& address == load.images[image as int].address
            &&& address >= 0x100_0000
        },
        HeadlessRunError::RangeOutOfRange { image, address, len } => {
            &&& image < load.images.len()
            &&& forall|i: int| 0 <= i < image ==> #[trigger] fits(load, i)
            &&& in_order(load, image as int, 0)
            &&& len == load.images[image as int].bytes@.len()
            &&& address == load.images[image as int].address
            &&& len > 0 && address < 0x100_0000 && address + len > 0x100_0000
        },
        HeadlessRunError::ReadOnlyAddress { image, address } => {
            let offset: int = address - load.images[image as int].address;
            &&& has(load, image as int, offset)
            &&& forall|i: int| 0 <= i <= image ==> #[trigger] fits(load, i)
            &&& in_order(load, image as int, offset)
            &&& load.machine.observed(address as int) is Some
            &&& load.machine.storage(address as int) is None
        },
        HeadlessRunError::UnmappedAddress { image, address } => {
            let offset: int = address - load.images[image as int].address;
            &&& has(load, image as int, offset)
            &&& forall|i: int| 0 <= i <= image ==> #[trigger] fits(load, i)
            &&& in_order(load, image as int, offset)
            &&& load.machine.observed(address as int) is None
        },
        HeadlessRunError::PhysicalWrap { image, address } => {
            let offset: int = address - load.images[image as int].address;
            &&& has(load, image as int, offset)
            &&& forall|i: int| 0 <= i <= image ==> #[trigger] fits(load, i)
            &&& in_order(load, image as int, offset)
            &&& load.machine.storage(address as int) is Some
            &&& offset > 0
            &&& !adjoin(
                load.machine.storage(address - 1),
                load.machine.storage(address as int),
            )
        },
        HeadlessRunError::AliasedAddress { image, address, previous_image, previous_address } => {
            let offset: int = address - load.images[image as int].address;
            let earlier: int = previous_address - load.images[previous_image as int].address;
            &&& has(load, image as int, offset)
            &&& forall|i: int| 0 <= i <= image ==> #[trigger] fits(load, i)
            &&& in_order(load, image as int, offset)
            &&& load.machine.storage(address as int) is Some
            &&& offset > 0 ==> adjoin(
                load.machine.storage(address - 1),
                load.machine.storage(address as int),
            )
            &&& has(load, previous_image as int, earlier)
            &&& previous_image < image || (previous_image == image && earlier < offset)
            &&& load.machine.storage(previous_address as int) == load.machine.storage(
                address as int,
            )
        },
        _ => false,
    }
}

/// The error with which images are refused tells truly what is wrong with them, and everything
/// before it is in order.
pub proof fn law_refusal_tells_what_is_wrong(load: LoadView, error: HeadlessRunError)
    requires
        load.refused(error),
        load.images.len() <= usize::MAX,
        forall|i: int|
            0 <= i < load.images.len() ==> (#[trigger] load.images[i]).bytes@.len() <= usize::MAX,
    ensures
        is_true_refusal(load, error),
{
    if load.images.len() == 0 && error == HeadlessRunError::NoImages {
    } else if exists|image: int| load.refused_at_image(image, error) {
        let image: int = choose|image: int| load.refused_at_image(image, error);
        assert(load.images[image].bytes@.len() <= usize::MAX);
        lemma_fits(load, image);
        lemma_in_order(load, image, 0);
    } else {
        let (image, offset): (int, int) = choose|image: int, offset: int|
            load.refused_at_byte(image, offset, error);
        lemma_refused_byte(load, image, offset, error);
    }
}

/// The error of a byte tells truly what is wrong with it.
proof fn lemma_refused_byte(load: LoadView, image: int, offset: int, error: HeadlessRunError)
    requires
        load.refused_at_byte(image, offset, error),
        load.images.len() <= usize::MAX,
    ensures
        is_true_refusal(load, error),
{
    lemma_fits(load, image + 1);
    lemma_in_order(load, image, offset);
    assert(fits(load, image));
    let address: int = load.images[image].address + offset;
    assert(has(load, image, offset));
    if offset > 0 {
        assert(has(load, image, offset - 1));
        assert(cell_of(load, image, offset - 1) is Some);
    }
    if load.machine.storage(address) is Some && !load.wrapped(image, offset) {
        let (earlier_image, earlier): (int, int) = choose|earlier_image: int, earlier: int|
            {
                &&& #[trigger] load.aliases(image, offset, earlier_image, earlier)
                &&& error == (HeadlessRunError::AliasedAddress {
                    image: image as usize,
                    address: address as u32,
                    previous_image: earlier_image as usize,
                    previous_address: load.address(earlier_image, earlier) as u32,
                })
            };
        assert(has(load, earlier_image, earlier));
        assert(fits(load, earlier_image));
        assert(cell_of(load, earlier_image, earlier) is Some);
    }
}

/// A session that has begun holds exactly the images in its RAM: each byte in its cell, and zero in
/// every cell that none goes to.
pub proof fn law_ram_holds_the_images(
    machine: MachineView,
    boot: HeadlessBoot,
    images: Seq<LoadImage>,
    session: SessionView,
    image: int,
    offset: int,
    cell: int,
)
    requires
        can_begin(machine, boot, images),
        begun(machine, boot, images, session),
        machine.internal.len() <= usize::MAX,
        machine.external.len() <= usize::MAX,
    ensures
        ({
            let load: LoadView = LoadView { machine, images };
            let ram: MachineView = session.host.machine;
            &&& has(load, image, offset) ==> (match cell_of(load, image, offset) {
                Some(StorageAddress::Internal(at)) => ram.internal[at as int]
                    == images[image].bytes@[offset],
                Some(StorageAddress::External(at)) => ram.external[at as int]
                    == images[image].bytes@[offset],
                None => false,
            })
            &&& 0 <= cell < ram.internal.len() && (forall|i: int, j: int|
                has(load, i, j) ==> #[trigger] cell_of(load, i, j) != Some(
                    StorageAddress::Internal(cell as usize),
                )) ==> ram.internal[cell] == 0
            &&& 0 <= cell < ram.external.len() && (forall|i: int, j: int|
                has(load, i, j) ==> #[trigger] cell_of(load, i, j) != Some(
                    StorageAddress::External(cell as usize),
                )) ==> ram.external[cell] == 0
        }),
{
    let load: LoadView = LoadView { machine, images };
    let ram: MachineView = session.host.machine;
    let count: int = images.len() as int;
    lemma_in_order(load, count, 0);
    if has(load, image, offset) {
        assert(load.before(image, offset, count, 0));
        assert(cell_of(load, image, offset) is Some);
    }
    assert forall|target: StorageAddress|
        (forall|i: int, j: int|
            has(load, i, j) ==> #[trigger] cell_of(load, i, j) != Some(target)) implies !(
    #[trigger] load.reached(target, count, 0)) by {
        if load.reached(target, count, 0) {
            let (i, j): (int, int) = choose|i: int, j: int|
                #[trigger] load.before(i, j, count, 0) && load.target(i, j) == target;
            assert(has(load, i, j));
            assert(cell_of(load, i, j) is Some);
            assert(cell_of(load, i, j) == Some(target));
        }
    }
    if 0 <= cell < ram.internal.len() {
        let target: StorageAddress = StorageAddress::Internal(cell as usize);
        assert(machine.has_cell(target));
        if !load.reached(target, count, 0) {
            assert(ram.cell(target) == 0);
        }
    }
    if 0 <= cell < ram.external.len() {
        let target: StorageAddress = StorageAddress::External(cell as usize);
        assert(machine.has_cell(target));
        if !load.reached(target, count, 0) {
            assert(ram.cell(target) == 0);
        }
    }
}

/// A byte of an image may go to RAM, and to nothing else: flash is told apart from what is unmapped.
pub proof fn law_only_ram_is_writable(machine: MachineView, image: usize, address: u32)
    ensures
        ({
            let cell: Option<StorageAddress> = machine.storage(address as int);
            let writable: Result<StorageAddress, HeadlessRunError> = machine.writable(
                image as int,
                address as int,
            );
            &&& cell is Some ==> writable == Ok::<_, HeadlessRunError>(cell->0)
            &&& cell is None && machine.observed(address as int) is Some ==> writable == Err::<
                StorageAddress,
                _,
            >(HeadlessRunError::ReadOnlyAddress { image, address })
            &&& cell is None && machine.observed(address as int) is None ==> writable == Err::<
                StorageAddress,
                _,
            >(HeadlessRunError::UnmappedAddress { image, address })
        }),
{
}

/// The cells that are found for accepted images are those of the bytes, in their order.
pub proof fn law_targets_are_the_cells(
    load: LoadView,
    targets: Seq<Vec<StorageAddress>>,
    image: int,
    offset: int,
)
    requires
        load.accepted(),
        targets_match(load, targets),
    ensures
        targets.len() == load.images.len(),
        0 <= image < load.images.len() ==> targets[image]@.len() == load.images[image].bytes@.len(),
        has(load, image, offset) ==> Some(targets[image]@[offset]) == cell_of(load, image, offset),
{
    law_accepted_images_fit(load);
    if 0 <= image < load.images.len() {
        assert(image_targets_match(load, image, targets[image]@));
        if has(load, image, offset) {
            assert(cell_of(load, image, offset) is Some);
            assert(targets[image]@[offset] == load.target(image, offset));
        }
    }
}

/// Every error is told with all that it carries: numbers of images and counts in decimal, addresses
/// in hexadecimal with six digits, or eight where they may lie behind the address space.
pub proof fn law_messages_tell_the_error(
    image: usize,
    address: u32,
    len: usize,
    other: usize,
    before: u64,
    after: u64,
    pending: i32,
    mbase: u8,
    previous_address: u32,
)
    ensures
        HeadlessRunError::MachineAlreadyUsed.text() == "machine has already executed or faulted"@,
        HeadlessRunError::NoImages.text() == "direct headless boot requires at least one image"@,
        (HeadlessRunError::EmptyImage { image }).text() == "image "@ + decimal(image as int)
            + " is empty"@,
        (HeadlessRunError::AddressOutOfRange { image, address }).text() == "image "@ + decimal(
            image as int,
        ) + " starts outside 24-bit space at $"@ + hexadecimal(address as nat, 8),
        (HeadlessRunError::RangeOutOfRange { image, address, len }).text() == "image "@ + decimal(
            image as int,
        ) + " range $"@ + hexadecimal(address as nat, 6) + "+"@ + decimal(len as int)
            + " leaves 24-bit space"@,
        (HeadlessRunError::ReadOnlyAddress { image, address }).text() == "image "@ + decimal(
            image as int,
        ) + " targets read-only ROM at $"@ + hexadecimal(address as nat, 6),
        (HeadlessRunError::UnmappedAddress { image, address }).text() == "image "@ + decimal(
            image as int,
        ) + " targets unmapped address $"@ + hexadecimal(address as nat, 6),
        (HeadlessRunError::PhysicalWrap { image, address }).text() == "image "@ + decimal(
            image as int,
        ) + " wraps its physical RAM backing at $"@ + hexadecimal(address as nat, 6),
        (HeadlessRunError::AliasedAddress {
            image,
            address,
            previous_image: other,
            previous_address,
        }).text() == "image "@ + decimal(image as int) + " address $"@ + hexadecimal(
            address as nat,
            6,
        ) + " aliases image "@ + decimal(other as int) + " address $"@ + hexadecimal(
            previous_address as nat,
            6,
        ),
        (HeadlessRunError::EntryOutOfRange { entry: address }).text()
            == "entry PC is outside 24-bit space: $"@ + hexadecimal(address as nat, 8),
        (HeadlessRunError::EntryMbaseMismatch { entry: address, mbase }).text() == "non-ADL entry $"@
            + hexadecimal(address as nat, 6) + " does not use declared MBASE $"@ + hexadecimal(
            mbase as nat,
            2,
        ),
        (HeadlessRunError::InstructionAccountingInvariant { before, after }).text()
            == "one headless step did not execute exactly one instruction ("@ + decimal(
            before as int,
        ) + " -> "@ + decimal(after as int) + ")"@,
        (HeadlessRunError::CycleAccountingInvariant { pending }).text()
            == "one headless instruction produced a non-positive cycle count ("@ + decimal(
            pending as int,
        ) + ")"@,
        HeadlessRunError::CycleAccountingOverflow.text() == "guest cycle counter overflowed"@,
{
}

} // verus!
