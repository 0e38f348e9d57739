//! Deciding where the bytes of load images go, and whether they may go there.
use crate::address::{ADDRESS_SPACE_SIZE, MAX_ADDRESS};
use crate::machine::{AgonMachine, MachineView, StorageAddress};
use crate::text::{
    append_decimal, append_hexadecimal, append_signed, decimal, hexadecimal,
};
use std::collections::HashMap;
use vstd::prelude::*;

verus! {

/// Bytes to be placed at an address.
#[derive(Debug, Clone, PartialEq, Eq)]
pub struct LoadImage {
    pub address: u32,
    pub bytes: Vec<u8>,
}

/// Why a headless run could not start or go on.
#[derive(Debug, Clone, Copy, PartialEq, Eq, Structural)]
pub enum HeadlessRunError {
    MachineAlreadyUsed,
    NoImages,
    EmptyImage { image: usize },
    AddressOutOfRange { image: usize, address: u32 },
    RangeOutOfRange { image: usize, address: u32, len: usize },
    ReadOnlyAddress { image: usize, address: u32 },
    UnmappedAddress { image: usize, address: u32 },
    PhysicalWrap { image: usize, address: u32 },
    AliasedAddress {
        image: usize,
        address: u32,
        previous_image: usize,
        previous_address: u32,
    },
    EntryOutOfRange { entry: u32 },
    EntryMbaseMismatch { entry: u32, mbase: u8 },
    InstructionAccountingInvariant { before: u64, after: u64 },
    CycleAccountingInvariant { pending: i32 },
    CycleAccountingOverflow,
}

impl HeadlessRunError {
    /// The message that tells the error.
    pub open spec fn text(self) -> Seq<char> {
        match self {
            HeadlessRunError::MachineAlreadyUsed => "machine has already executed or faulted"@,
            HeadlessRunError::NoImages => "direct headless boot requires at least one image"@,
            HeadlessRunError::EmptyImage { image } => "image "@ + decimal(image as int)
                + " is empty"@,
            HeadlessRunError::AddressOutOfRange { image, address } => "image "@ + decimal(
                image as int,
            ) + " starts outside 24-bit space at $"@ + hexadecimal(address as nat, 8),
            HeadlessRunError::RangeOutOfRange { image, address, len } => "image "@ + decimal(
                image as int,
            ) + " range $"@ + hexadecimal(address as nat, 6) + "+"@ + decimal(len as int)
                + " leaves 24-bit space"@,
            HeadlessRunError::ReadOnlyAddress { image, address } => "image "@ + decimal(
                image as int,
            ) + " targets read-only ROM at $"@ + hexadecimal(address as nat, 6),
            HeadlessRunError::UnmappedAddress { image, address } => "image "@ + decimal(
                image as int,
            ) + " targets unmapped address $"@ + hexadecimal(address as nat, 6),
            HeadlessRunError::PhysicalWrap { image, address } => "image "@ + decimal(image as int)
                + " wraps its physical RAM backing at $"@ + hexadecimal(address as nat, 6),
            HeadlessRunError::AliasedAddress {
                image,
                address,
                previous_image,
                previous_address,
            } => "image "@ + decimal(image as int) + " address $"@ + hexadecimal(address as nat, 6)
                + " aliases image "@ + decimal(previous_image as int) + " address $"@
                + hexadecimal(previous_address as nat, 6),
            HeadlessRunError::EntryOutOfRange { entry } => "entry PC is outside 24-bit space: $"@
                + hexadecimal(entry as nat, 8),
            HeadlessRunError::EntryMbaseMismatch { entry, mbase } => "non-ADL entry $"@
                + hexadecimal(entry as nat, 6) + " does not use declared MBASE $"@ + hexadecimal(
                mbase as nat,
                2,
            ),
            HeadlessRunError::InstructionAccountingInvariant { before, after } =>
                "one headless step did not execute exactly one instruction ("@ + decimal(
                before as int,
            ) + " -> "@ + decimal(after as int) + ")"@,
            HeadlessRunError::CycleAccountingInvariant { pending } =>
                "one headless instruction produced a non-positive cycle count ("@ + decimal(
                pending as int,
            ) + ")"@,
            HeadlessRunError::CycleAccountingOverflow => "guest cycle counter overflowed"@,
        }
    }

    /// The message that tells the error.
    pub fn message(&self) -> (message: String)
        ensures
            message@ == self.text(),
    {
        match self {
            HeadlessRunError::MachineAlreadyUsed => String::from_str(
                "machine has already executed or faulted",
            ),
            HeadlessRunError::NoImages => String::from_str(
                "direct headless boot requires at least one image",
            ),
            HeadlessRunError::EmptyImage { image } => {
                let mut message = image_message(*image);
                message.append(" is empty");
                message
            },
            HeadlessRunError::AddressOutOfRange { image, address } => {
                let mut message = image_message(*image);
                message.append(" starts outside 24-bit space at $");
                append_hexadecimal(&mut message, *address, 8);
                message
            },
            HeadlessRunError::RangeOutOfRange { image, address, len } => {
                let mut message = image_message(*image);
                message.append(" range $");
                append_hexadecimal(&mut message, *address, 6);
                message.append("+");
                append_decimal(&mut message, *len as u64);
                message.append(" leaves 24-bit space");
                message
            },
            HeadlessRunError::ReadOnlyAddress { image, address } => {
                let mut message = image_message(*image);
                message.append(" targets read-only ROM at $");
                append_hexadecimal(&mut message, *address, 6);
                message
            },
            HeadlessRunError::UnmappedAddress { image, address } => {
                let mut message = image_message(*image);
                message.append(" targets unmapped address $");
                append_hexadecimal(&mut message, *address, 6);
                message
            },
            HeadlessRunError::PhysicalWrap { image, address } => {
                let mut message = image_message(*image);
                message.append(" wraps its physical RAM backing at $");
                append_hexadecimal(&mut message, *address, 6);
                message
            },
            HeadlessRunError::AliasedAddress {
                image,
                address,
                previous_image,
                previous_address,
            } => {
                let mut message = image_message(*image);
                message.append(" address $");
                append_hexadecimal(&mut message, *address, 6);
                message.append(" aliases image ");
                append_decimal(&mut message, *previous_image as u64);
                message.append(" address $");
                append_hexadecimal(&mut message, *previous_address, 6);
                message
            },
            HeadlessRunError::EntryOutOfRange { entry } => {
                let mut message = String::from_str("entry PC is outside 24-bit space: $");
                append_hexadecimal(&mut message, *entry, 8);
                message
            },
            HeadlessRunError::EntryMbaseMismatch { entry, mbase } => {
                let mut message = String::from_str("non-ADL entry $");
                append_hexadecimal(&mut message, *entry, 6);
                message.append(" does not use declared MBASE $");
                append_hexadecimal(&mut message, *mbase as u32, 2);
                message
            },
            HeadlessRunError::InstructionAccountingInvariant { before, after } => {
                let mut message = String::from_str(
                    "one headless step did not execute exactly one instruction (",
                );
                append_decimal(&mut message, *before);
                message.append(" -> ");
                append_decimal(&mut message, *after);
                message.append(")");
                message
            },
            HeadlessRunError::CycleAccountingInvariant { pending } => {
                let mut message = String::from_str(
                    "one headless instruction produced a non-positive cycle count (",
                );
                append_signed(&mut message, *pending);
                message.append(")");
                message
            },
            HeadlessRunError::CycleAccountingOverflow => String::from_str(
                "guest cycle counter overflowed",
            ),
        }
    }
}

/// The start of a message about an image.
fn image_message(image: usize) -> (message: String)
    ensures
        message@ == "image "@ + decimal(image as int),
{
    let mut message = String::from_str("image ");
    append_decimal(&mut message, image as u64);
    message
}

impl MachineView {
    /// The RAM cell that an image's byte goes to, or why it cannot go there.
    pub open spec fn writable(self, image: int, address: int) -> Result<
        StorageAddress,
        HeadlessRunError,
    > {
        if self.storage(address) is Some {
            Ok(self.storage(address)->0)
        } else if self.rom_offset(address) is Some {
            Err(HeadlessRunError::ReadOnlyAddress { image: image as usize, address: address as u32 })
        } else {
            Err(HeadlessRunError::UnmappedAddress { image: image as usize, address: address as u32 })
        }
    }
}

/// Whether two cells lie in the same RAM without the second following the first.
pub open spec fn wraps(previous: StorageAddress, next: StorageAddress) -> bool {
    match (previous, next) {
        (StorageAddress::Internal(a), StorageAddress::Internal(b)) => a + 1 != b,
        (StorageAddress::External(a), StorageAddress::External(b)) => a + 1 != b,
        _ => false,
    }
}

/// A set of images that is to be loaded into a machine.
pub struct LoadView {
    pub machine: MachineView,
    pub images: Seq<LoadImage>,
}

impl LoadView {
    /// Whether there is such a byte: byte `offset` of image `image`.
    pub open spec fn has_byte(self, image: int, offset: int) -> bool {
        0 <= image < self.images.len() && 0 <= offset < self.images[image].bytes@.len()
    }

    /// The byte itself.
    pub open spec fn byte(self, image: int, offset: int) -> u8 {
        self.images[image].bytes@[offset]
    }

    /// The address that a byte is meant for.
    pub open spec fn address(self, image: int, offset: int) -> int {
        self.images[image].address + offset
    }

    /// The RAM cell that a byte goes to.
    pub open spec fn target(self, image: int, offset: int) -> StorageAddress {
        self.machine.storage(self.address(image, offset))->0
    }

    /// Whether a byte comes before another one, image by image.
    pub open spec fn before(self, image: int, offset: int, other_image: int, other: int) -> bool {
        self.has_byte(image, offset) && (image < other_image || (image == other_image && offset
            < other))
    }

    /// What is wrong with the extent of an image, whatever the memory map.
    pub open spec fn extent_fault(self, image: int) -> Option<HeadlessRunError> {
        let address: u32 = self.images[image].address;
        let len: nat = self.images[image].bytes@.len();
        if len == 0 {
            Some(HeadlessRunError::EmptyImage { image: image as usize })
        } else if address > MAX_ADDRESS {
            Some(HeadlessRunError::AddressOutOfRange { image: image as usize, address })
        } else if address + len > ADDRESS_SPACE_SIZE {
            Some(
                HeadlessRunError::RangeOutOfRange {
                    image: image as usize,
                    address,
                    len: len as usize,
                },
            )
        } else {
            None
        }
    }

    /// Whether nothing is wrong with the extents of the images before `count`.
    pub open spec fn extents_fit(self, count: int) -> bool {
        forall|image: int|
            0 <= image < count ==> (#[trigger] self.extent_fault(image)) is None
    }

    /// Whether a byte follows the one before it in the same RAM, if both are in the same.
    pub open spec fn wrapped(self, image: int, offset: int) -> bool {
        offset > 0 && wraps(self.target(image, offset - 1), self.target(image, offset))
    }

    /// Whether a byte would go to the cell of an earlier one.
    pub open spec fn aliases(
        self,
        image: int,
        offset: int,
        earlier_image: int,
        earlier: int,
    ) -> bool {
        self.before(earlier_image, earlier, image, offset) && self.target(earlier_image, earlier)
            == self.target(image, offset)
    }

    /// Whether a byte may go where it is meant to: to RAM, behind the byte before it, and to a
    /// cell that no earlier byte goes to.
    pub open spec fn placeable(self, image: int, offset: int) -> bool {
        &&& self.machine.storage(self.address(image, offset)) is Some
        &&& !self.wrapped(image, offset)
        &&& forall|earlier_image: int, earlier: int|
            !self.aliases(image, offset, earlier_image, earlier)
    }

    /// Whether all bytes before a place may go where they are meant to.
    pub open spec fn placeable_before(self, image: int, offset: int) -> bool {
        forall|i: int, j: int|
            self.before(i, j, image, offset) ==> #[trigger] self.placeable(i, j)
    }

    /// What is wrong with a byte, given that all earlier ones are in order.
    pub open spec fn byte_fault(self, image: int, offset: int, error: HeadlessRunError) -> bool {
        let address: u32 = self.address(image, offset) as u32;
        match self.machine.writable(image, self.address(image, offset)) {
            Err(refusal) => error == refusal,
            Ok(_) => if self.wrapped(image, offset) {
                error == (HeadlessRunError::PhysicalWrap { image: image as usize, address })
            } else {
                exists|earlier_image: int, earlier: int|
                    {
                        &&& #[trigger] self.aliases(image, offset, earlier_image, earlier)
                        &&& error == (HeadlessRunError::AliasedAddress {
                            image: image as usize,
                            address,
                            previous_image: earlier_image as usize,
                            previous_address: self.address(earlier_image, earlier) as u32,
                        })
                    }
            },
        }
    }

    /// Whether the images may be loaded.
    pub open spec fn accepted(self) -> bool {
        &&& self.images.len() > 0
        &&& self.extents_fit(self.images.len() as int)
        &&& self.placeable_before(self.images.len() as int, 0)
    }

    /// Whether the images are refused because of the extent of the given one, all before it being
    /// in order.
    pub open spec fn refused_at_image(self, image: int, error: HeadlessRunError) -> bool {
        &&& 0 <= image < self.images.len()
        &&& self.extents_fit(image)
        &&& self.placeable_before(image, 0)
        &&& self.extent_fault(image) == Some(error)
    }

    /// Whether the images are refused because of the given byte, all before it being in order.
    pub open spec fn refused_at_byte(self, image: int, offset: int, error: HeadlessRunError) -> bool {
        &&& self.has_byte(image, offset)
        &&& self.extents_fit(image + 1)
        &&& self.placeable_before(image, offset)
        &&& self.byte_fault(image, offset, error)
    }

    /// Whether the images are refused with the given error: that of the first thing wrong.
    pub open spec fn refused(self, error: HeadlessRunError) -> bool {
        ||| self.images.len() == 0 && error == HeadlessRunError::NoImages
        ||| exists|image: int| self.refused_at_image(image, error)
        ||| exists|image: int, offset: int| self.refused_at_byte(image, offset, error)
    }

    /// A number for the cell that a byte goes to.
    pub open spec fn key(self, image: int, offset: int) -> int {
        cell_key(self.target(image, offset))
    }

    /// Whether a table of occupied cells lists exactly the bytes before a place.
    pub open spec fn listed(self, occupied: Map<u64, (usize, u32)>, image: int, offset: int) -> bool {
        &&& forall|i: int, j: int|
            #![trigger self.before(i, j, image, offset)]
            self.before(i, j, image, offset) ==> occupied.dom().contains(self.key(i, j) as u64)
        &&& forall|key: u64|
            #[trigger] occupied.dom().contains(key) ==> self.lists(
                key,
                occupied[key],
                image,
                offset,
            )
    }

    /// Whether an entry of such a table names a byte before a place.
    pub open spec fn lists(self, key: u64, entry: (usize, u32), image: int, offset: int) -> bool {
        exists|i: int, j: int|
            {
                &&& #[trigger] self.before(i, j, image, offset)
                &&& self.key(i, j) == key
                &&& entry.0 == i
                &&& entry.1 == self.address(i, j)
            }
    }
}

/// A number for a RAM cell.
pub open spec fn cell_key(cell: StorageAddress) -> int {
    match cell {
        StorageAddress::Internal(offset) => offset as int,
        StorageAddress::External(offset) => 0x1_0000_0000 + offset,
    }
}

/// The cells of addresses are told apart by their numbers.
proof fn lemma_cell_key(machine: MachineView, address: int, other: int)
    requires
        0 <= address <= MAX_ADDRESS,
        0 <= other <= MAX_ADDRESS,
        machine.storage(address) is Some,
        machine.storage(other) is Some,
    ensures
        0 <= cell_key(machine.storage(address)->0) < 0x2_0000_0000,
        0 <= cell_key(machine.storage(other)->0) < 0x2_0000_0000,
        cell_key(machine.storage(address)->0) == cell_key(machine.storage(other)->0)
            <==> machine.storage(address) == machine.storage(other),
{
    if machine.external.len() > 0 {
        vstd::arithmetic::div_mod::lemma_mod_decreases(address as nat, machine.external.len());
        vstd::arithmetic::div_mod::lemma_mod_decreases(other as nat, machine.external.len());
    }
}

impl AgonMachine {
    /// The RAM cell that a byte of an image goes to.
    pub fn writable_storage_address(&self, image: usize, address: u32) -> (target: Result<
        StorageAddress,
        HeadlessRunError,
    >)
        ensures
            target == self@.writable(image as int, address as int),
    {
        if let Some(offset) = self.get_internal_ram_address(address) {
            return Ok(StorageAddress::Internal(offset as usize));
        }
        if self.get_rom_address(address).is_some() {
            return Err(HeadlessRunError::ReadOnlyAddress { image, address });
        }
        if let Some(offset) = self.get_external_ram_address(address) {
            return Ok(StorageAddress::External(offset as usize));
        }
        Err(HeadlessRunError::UnmappedAddress { image, address })
    }

    /// Finds the RAM cells that the bytes of some images go to. The first thing that is wrong with
    /// them is the error.
    pub fn validate_images(&self, images: &[LoadImage]) -> (targets: Result<
        Vec<Vec<StorageAddress>>,
        HeadlessRunError,
    >)
        ensures
            targets is Ok <==> (LoadView { machine: self@, images: images@ }).accepted(),
            targets matches Ok(cells) ==> targets_match(
                (LoadView { machine: self@, images: images@ }),
                cells@,
            ),
            targets matches Err(error) ==> (LoadView { machine: self@, images: images@ }).refused(
                error,
            ),
    {
        broadcast use vstd::std_specs::hash::group_hash_axioms;

        let ghost load: LoadView = LoadView { machine: self@, images: images@ };
        if images.len() == 0 {
            return Err(HeadlessRunError::NoImages);
        }
        let mut occupied: HashMap<u64, (usize, u32)> = HashMap::new();
        let mut all_targets: Vec<Vec<StorageAddress>> = Vec::new();
        let mut image: usize = 0;
        while image < images.len()
            invariant
                vstd::std_specs::hash::obeys_key_model::<u64>(),
                load == (LoadView { machine: self@, images: images@ }),
                image <= images@.len(),
                images@.len() > 0,
                all_targets@.len() == image,
                forall|i: int|
                    0 <= i < image ==> image_targets_match(load, i, #[trigger] all_targets@[i]@),
                load.extents_fit(image as int),
                load.placeable_before(image as int, 0),
                load.listed(occupied@, image as int, 0),
            decreases images@.len() - image,
        {
            match self.place_image(images, image, &mut occupied) {
                Ok(image_targets) => {
                    all_targets.push(image_targets);
                },
                Err(error) => {
                    proof {
                        if load.refused_at_image(image as int, error) {
                            assert(load.extent_fault(image as int) is Some);
                        } else {
                            let offset: int = choose|offset: int|
                                load.refused_at_byte(image as int, offset, error);
                            lemma_byte_fault(load, image as int, offset, error);
                            assert(load.before(image as int, offset, images@.len() as int, 0));
                        }
                    }
                    return Err(error);
                },
            }
            image += 1;
        }
        assert(targets_match(load, all_targets@));
        Ok(all_targets)
    }

    /// Finds the RAM cells that the bytes of one image go to, given where the bytes of the images
    /// before it go.
    fn place_image(
        &self,
        images: &[LoadImage],
        image: usize,
        occupied: &mut HashMap<u64, (usize, u32)>,
    ) -> (targets: Result<Vec<StorageAddress>, HeadlessRunError>)
        requires
            vstd::std_specs::hash::obeys_key_model::<u64>(),
            image < images@.len(),
            (LoadView { machine: self@, images: images@ }).extents_fit(image as int),
            (LoadView { machine: self@, images: images@ }).placeable_before(image as int, 0),
            (LoadView { machine: self@, images: images@ }).listed(old(occupied)@, image as int, 0),
        ensures
            targets matches Ok(cells) ==> {
                let load: LoadView = LoadView { machine: self@, images: images@ };
                &&& image_targets_match(load, image as int, cells@)
                &&& load.extents_fit(image + 1)
                &&& load.placeable_before(image + 1, 0)
                &&& load.listed(final(occupied)@, image + 1, 0)
            },
            targets matches Err(error) ==> {
                let load: LoadView = LoadView { machine: self@, images: images@ };
                ||| load.refused_at_image(image as int, error)
                ||| exists|offset: int| load.refused_at_byte(image as int, offset, error)
            },
    {
        broadcast use vstd::std_specs::hash::group_hash_axioms;

        let ghost load: LoadView = LoadView { machine: self@, images: images@ };
        let start: u32 = images[image].address;
        let len: usize = images[image].bytes.len();
        if len == 0 {
            return Err(HeadlessRunError::EmptyImage { image });
        }
        if start > MAX_ADDRESS {
            return Err(HeadlessRunError::AddressOutOfRange { image, address: start });
        }
        if len as u64 > ADDRESS_SPACE_SIZE - start as u64 {
            return Err(HeadlessRunError::RangeOutOfRange { image, address: start, len });
        }
        assert(load.extents_fit(image + 1));

        let mut image_targets: Vec<StorageAddress> = Vec::new();
        let mut offset: usize = 0;
        while offset < len
            invariant
                vstd::std_specs::hash::obeys_key_model::<u64>(),
                load == (LoadView { machine: self@, images: images@ }),
                image < images@.len(),
                start == images@[image as int].address,
                len == images@[image as int].bytes@.len(),
                start + len <= ADDRESS_SPACE_SIZE,
                offset <= len,
                image_targets@.len() == offset,
                forall|j: int|
                    0 <= j < offset ==> #[trigger] image_targets@[j] == load.target(
                        image as int,
                        j,
                    ),
                load.extents_fit(image + 1),
                load.placeable_before(image as int, offset as int),
                load.listed(occupied@, image as int, offset as int),
            decreases len - offset,
        {
            let address: u32 = start + offset as u32;
            assert(load.has_byte(image as int, offset as int));
            assert(address == load.address(image as int, offset as int));
            match self.writable_storage_address(image, address) {
                Err(error) => {
                    assert(load.refused_at_byte(image as int, offset as int, error));
                    return Err(error);
                },
                Ok(target) => {
                    if offset > 0 && does_wrap(image_targets[offset - 1], target) {
                        let error = HeadlessRunError::PhysicalWrap { image, address };
                        assert(load.refused_at_byte(image as int, offset as int, error));
                        return Err(error);
                    }
                    proof {
                        lemma_cell_key(self@, address as int, address as int);
                    }
                    let key: u64 = key_of(target);
                    match occupied.get(&key) {
                        Some(previous) => {
                            let error = HeadlessRunError::AliasedAddress {
                                image,
                                address,
                                previous_image: previous.0,
                                previous_address: previous.1,
                            };
                            proof {
                                lemma_alias_found(
                                    load,
                                    occupied@,
                                    image as int,
                                    offset as int,
                                    key,
                                );
                            }
                            assert(load.refused_at_byte(image as int, offset as int, error));
                            return Err(error);
                        },
                        None => {},
                    }
                    proof {
                        lemma_byte_placed(
                            load,
                            occupied@,
                            image as int,
                            offset as int,
                            key,
                            (image, address),
                        );
                    }
                    occupied.insert(key, (image, address));
                    image_targets.push(target);
                },
            }
            offset += 1;
        }
        proof {
            lemma_image_done(load, occupied@, image as int);
        }
        Ok(image_targets)
    }
}

/// Whether cells are those that the bytes of an image go to.
pub open spec fn image_targets_match(
    load: LoadView,
    image: int,
    targets: Seq<StorageAddress>,
) -> bool {
    &&& targets.len() == load.images[image].bytes@.len()
    &&& forall|offset: int|
        0 <= offset < targets.len() ==> #[trigger] targets[offset] == load.target(image, offset)
}

/// Whether cells are those that the bytes of all images go to.
pub open spec fn targets_match(load: LoadView, targets: Seq<Vec<StorageAddress>>) -> bool {
    &&& targets.len() == load.images.len()
    &&& forall|image: int|
        0 <= image < targets.len() ==> image_targets_match(
            load,
            image,
            #[trigger] targets[image]@,
        )
}

/// Whether two cells lie in the same RAM without the second following the first.
fn does_wrap(previous: StorageAddress, next: StorageAddress) -> (wrapped: bool)
    ensures
        wrapped == wraps(previous, next),
{
    match (previous, next) {
        (StorageAddress::Internal(a), StorageAddress::Internal(b)) => a == usize::MAX || a + 1 != b,
        (StorageAddress::External(a), StorageAddress::External(b)) => a == usize::MAX || a + 1 != b,
        _ => false,
    }
}

/// The number of a RAM cell.
fn key_of(cell: StorageAddress) -> (key: u64)
    requires
        cell_key(cell) < 0x2_0000_0000,
    ensures
        key == cell_key(cell),
{
    match cell {
        StorageAddress::Internal(offset) => offset as u64,
        StorageAddress::External(offset) => 0x1_0000_0000 + offset as u64,
    }
}

/// The addresses of images whose extents fit lie in the address space.
proof fn lemma_extent(load: LoadView, count: int, image: int, offset: int)
    requires
        load.extents_fit(count),
        0 <= image < count,
        load.has_byte(image, offset),
    ensures
        0 <= load.address(image, offset) <= MAX_ADDRESS,
{
    assert(load.extent_fault(image) is None);
}

/// A byte with something wrong is not placeable.
proof fn lemma_byte_fault(load: LoadView, image: int, offset: int, error: HeadlessRunError)
    requires
        load.byte_fault(image, offset, error),
    ensures
        !load.placeable(image, offset),
{
}

/// An entry for the cell of a byte names an earlier byte of that cell.
proof fn lemma_alias_found(
    load: LoadView,
    occupied: Map<u64, (usize, u32)>,
    image: int,
    offset: int,
    key: u64,
)
    requires
        load.has_byte(image, offset),
        load.extents_fit(image + 1),
        load.placeable_before(image, offset),
        load.listed(occupied, image, offset),
        load.machine.storage(load.address(image, offset)) is Some,
        key == load.key(image, offset),
        occupied.dom().contains(key),
    ensures
        exists|i: int, j: int|
            {
                &&& #[trigger] load.aliases(image, offset, i, j)
                &&& occupied[key].0 == i
                &&& occupied[key].1 == load.address(i, j)
            },
{
    assert(load.lists(key, occupied[key], image, offset));
    let (i, j): (int, int) = choose|i: int, j: int|
        {
            &&& #[trigger] load.before(i, j, image, offset)
            &&& load.key(i, j) == key
            &&& occupied[key].0 == i
            &&& occupied[key].1 == load.address(i, j)
        };
    assert(load.placeable(i, j));
    lemma_extent(load, image + 1, i, j);
    lemma_extent(load, image + 1, image, offset);
    lemma_cell_key(load.machine, load.address(i, j), load.address(image, offset));
    assert(load.aliases(image, offset, i, j));
}

/// A byte whose cell is not listed may be placed, and listing it lists everything before the next
/// byte.
proof fn lemma_byte_placed(
    load: LoadView,
    occupied: Map<u64, (usize, u32)>,
    image: int,
    offset: int,
    key: u64,
    entry: (usize, u32),
)
    requires
        load.has_byte(image, offset),
        load.extents_fit(image + 1),
        load.placeable_before(image, offset),
        load.listed(occupied, image, offset),
        load.machine.storage(load.address(image, offset)) is Some,
        !load.wrapped(image, offset),
        key == load.key(image, offset),
        !occupied.dom().contains(key),
        entry.0 == image,
        entry.1 == load.address(image, offset),
    ensures
        load.placeable_before(image, offset + 1),
        load.listed(occupied.insert(key, entry), image, offset + 1),
{
    assert forall|i: int, j: int| !load.aliases(image, offset, i, j) by {
        if load.aliases(image, offset, i, j) {
            assert(occupied.dom().contains(load.key(i, j) as u64));
        }
    }
    assert(load.placeable(image, offset));
    assert forall|i: int, j: int| load.before(i, j, image, offset + 1) implies #[trigger]
        load.placeable(i, j) by {
        if !(i == image && j == offset) {
            assert(load.before(i, j, image, offset));
        }
    }
    let after: Map<u64, (usize, u32)> = occupied.insert(key, entry);
    assert forall|i: int, j: int|
        #![trigger load.before(i, j, image, offset + 1)]
        load.before(i, j, image, offset + 1) implies after.dom().contains(
        load.key(i, j) as u64,
    ) by {
        if !(i == image && j == offset) {
            assert(load.before(i, j, image, offset));
        }
    }
    assert forall|k: u64| #[trigger] after.dom().contains(k) implies load.lists(
        k,
        after[k],
        image,
        offset + 1,
    ) by {
        if k == key {
            assert(load.before(image, offset, image, offset + 1));
        } else {
            assert(occupied.dom().contains(k));
            assert(load.lists(k, occupied[k], image, offset));
            let (i, j): (int, int) = choose|i: int, j: int|
                {
                    &&& #[trigger] load.before(i, j, image, offset)
                    &&& load.key(i, j) == k
                    &&& occupied[k].0 == i
                    &&& occupied[k].1 == load.address(i, j)
                };
            assert(load.before(i, j, image, offset + 1));
        }
    }
}

/// Everything before the end of an image lies before the start of the next one.
proof fn lemma_image_done(load: LoadView, occupied: Map<u64, (usize, u32)>, image: int)
    requires
        0 <= image < load.images.len(),
        load.placeable_before(image, load.images[image].bytes@.len() as int),
        load.listed(occupied, image, load.images[image].bytes@.len() as int),
    ensures
        load.placeable_before(image + 1, 0),
        load.listed(occupied, image + 1, 0),
{
    let len: int = load.images[image].bytes@.len() as int;
    assert forall|i: int, j: int| #[trigger]
        load.before(i, j, image + 1, 0) == load.before(i, j, image, len) by {}
    assert forall|i: int, j: int| load.before(i, j, image + 1, 0) implies #[trigger]
        load.placeable(i, j) by {
        assert(load.before(i, j, image, len));
    }
    assert forall|k: u64| #[trigger] occupied.dom().contains(k) implies load.lists(
        k,
        occupied[k],
        image + 1,
        0,
    ) by {
        assert(load.lists(k, occupied[k], image, len));
        let (i, j): (int, int) = choose|i: int, j: int|
            {
                &&& #[trigger] load.before(i, j, image, len)
                &&& load.key(i, j) == k
                &&& occupied[k].0 == i
                &&& occupied[k].1 == load.address(i, j)
            };
        assert(load.before(i, j, image + 1, 0));
    }
}

/// Images that may be loaded are refused with no error.
pub proof fn law_accepted_images_are_not_refused(load: LoadView, error: HeadlessRunError)
    requires
        load.accepted(),
    ensures
        !load.refused(error),
{
    if exists|image: int| load.refused_at_image(image, error) {
        let image: int = choose|image: int| load.refused_at_image(image, error);
        assert(load.extent_fault(image) is Some);
    }
    if exists|image: int, offset: int| load.refused_at_byte(image, offset, error) {
        let (image, offset): (int, int) = choose|image: int, offset: int|
            load.refused_at_byte(image, offset, error);
        lemma_byte_fault(load, image, offset, error);
        assert(load.before(image, offset, load.images.len() as int, 0));
    }
}

/// Images that are refused are refused with one error only.
pub proof fn law_refusal_is_unique(load: LoadView, error: HeadlessRunError, other: HeadlessRunError)
    requires
        load.refused(error),
        load.refused(other),
    ensures
        error == other,
{
    if load.images.len() > 0 {
        let (image, offset): (int, int) = lemma_first_fault(load, error);
        let (other_image, other_offset): (int, int) = lemma_first_fault(load, other);
        lemma_fault_order(load, image, offset, error, other_image, other_offset, other);
        lemma_fault_order(load, other_image, other_offset, other, image, offset, error);
        assert(image == other_image && offset == other_offset);
        if offset >= 0 {
            lemma_byte_fault_is_unique(load, image, offset, error, other);
        }
    }
}

/// Where the first thing wrong stands: at a byte, or at an image as a whole, which is written as
/// the offset -1.
spec fn fault_at(load: LoadView, image: int, offset: int, error: HeadlessRunError) -> bool {
    if offset == -1 {
        load.refused_at_image(image, error)
    } else {
        load.refused_at_byte(image, offset, error)
    }
}

/// A refusal of some images has a place.
proof fn lemma_first_fault(load: LoadView, error: HeadlessRunError) -> (place: (int, int))
    requires
        load.refused(error),
        load.images.len() > 0,
    ensures
        fault_at(load, place.0, place.1, error),
        place.1 >= -1,
{
    if exists|image: int| load.refused_at_image(image, error) {
        (choose|image: int| load.refused_at_image(image, error), -1)
    } else {
        choose|image: int, offset: int| load.refused_at_byte(image, offset, error)
    }
}

/// No refusal has its place before another one.
proof fn lemma_fault_order(
    load: LoadView,
    image: int,
    offset: int,
    error: HeadlessRunError,
    other_image: int,
    other_offset: int,
    other: HeadlessRunError,
)
    requires
        offset >= -1,
        other_offset >= -1,
        fault_at(load, image, offset, error),
        fault_at(load, other_image, other_offset, other),
    ensures
        !(image < other_image || (image == other_image && offset < other_offset)),
{
    if image < other_image || (image == other_image && offset < other_offset) {
        if offset == -1 {
            assert(load.extent_fault(image) is Some);
        } else {
            lemma_byte_fault(load, image, offset, error);
            assert(load.before(image, offset, other_image, other_offset) || load.before(
                image,
                offset,
                other_image,
                0,
            ));
            assert(!load.placeable(image, offset));
        }
    }
}

/// A byte has one thing wrong with it only: the cells of the bytes before it are all different.
proof fn lemma_byte_fault_is_unique(
    load: LoadView,
    image: int,
    offset: int,
    error: HeadlessRunError,
    other: HeadlessRunError,
)
    requires
        load.refused_at_byte(image, offset, error),
        load.refused_at_byte(image, offset, other),
    ensures
        error == other,
{
    if load.machine.writable(image, load.address(image, offset)) is Ok && !load.wrapped(
        image,
        offset,
    ) {
        let address: u32 = load.address(image, offset) as u32;
        let (i, j): (int, int) = choose|i: int, j: int|
            {
                &&& #[trigger] load.aliases(image, offset, i, j)
                &&& error == (HeadlessRunError::AliasedAddress {
                    image: image as usize,
                    address,
                    previous_image: i as usize,
                    previous_address: load.address(i, j) as u32,
                })
            };
        let (k, l): (int, int) = choose|k: int, l: int|
            {
                &&& #[trigger] load.aliases(image, offset, k, l)
                &&& other == (HeadlessRunError::AliasedAddress {
                    image: image as usize,
                    address,
                    previous_image: k as usize,
                    previous_address: load.address(k, l) as u32,
                })
            };
        assert(load.placeable(i, j));
        assert(load.placeable(k, l));
        assert(!load.aliases(i, j, k, l));
        assert(!load.aliases(k, l, i, j));
        assert(i == k && j == l);
    }
}

impl HeadlessRunError {
    /// The image that an error names, if it names one.
    pub open spec fn image(self) -> Option<usize> {
        match self {
            HeadlessRunError::EmptyImage { image } => Some(image),
            HeadlessRunError::AddressOutOfRange { image, .. } => Some(image),
            HeadlessRunError::RangeOutOfRange { image, .. } => Some(image),
            HeadlessRunError::ReadOnlyAddress { image, .. } => Some(image),
            HeadlessRunError::UnmappedAddress { image, .. } => Some(image),
            HeadlessRunError::PhysicalWrap { image, .. } => Some(image),
            HeadlessRunError::AliasedAddress { image, .. } => Some(image),
            _ => None,
        }
    }
}

impl LoadView {
    /// The first so many images.
    pub open spec fn first(self, count: int) -> LoadView {
        LoadView { images: self.images.take(count), ..self }
    }
}

/// Whether an error says that a byte goes to the cell of an earlier one.
spec fn names_alias(
    load: LoadView,
    image: int,
    offset: int,
    earlier_image: int,
    earlier: int,
    error: HeadlessRunError,
) -> bool {
    error == (HeadlessRunError::AliasedAddress {
        image: image as usize,
        address: load.address(image, offset) as u32,
        previous_image: earlier_image as usize,
        previous_address: load.address(earlier_image, earlier) as u32,
    })
}

/// What is said of a byte does not depend on the images behind its own.
proof fn lemma_later_images_do_not_matter(load: LoadView, count: int, image: int, offset: int)
    requires
        0 <= image < count <= load.images.len(),
    ensures
        load.first(count).has_byte(image, offset) == load.has_byte(image, offset),
        load.first(count).extent_fault(image) == load.extent_fault(image),
        load.first(count).placeable(image, offset) == load.placeable(image, offset),
        forall|error: HeadlessRunError|
            #[trigger] load.first(count).byte_fault(image, offset, error) == load.byte_fault(
                image,
                offset,
                error,
            ),
{
    let short: LoadView = load.first(count);
    assert(short.images[image] == load.images[image]);
    assert forall|i: int, j: int|
        #![trigger short.aliases(image, offset, i, j)]
        #![trigger load.aliases(image, offset, i, j)]
        short.aliases(image, offset, i, j) == load.aliases(image, offset, i, j) by {
        if 0 <= i < count {
            assert(short.images[i] == load.images[i]);
        }
    }
    assert forall|error: HeadlessRunError|
        #[trigger] short.byte_fault(image, offset, error) == load.byte_fault(
            image,
            offset,
            error,
        ) by {
        if short.byte_fault(image, offset, error) && short.machine.writable(
            image,
            short.address(image, offset),
        ) is Ok && !short.wrapped(image, offset) {
            let (i, j): (int, int) = choose|i: int, j: int|
                #[trigger] short.aliases(image, offset, i, j) && names_alias(
                    short,
                    image,
                    offset,
                    i,
                    j,
                    error,
                );
            assert(load.aliases(image, offset, i, j));
            assert(short.images[i] == load.images[i]);
            assert(names_alias(load, image, offset, i, j, error));
        }
        if load.byte_fault(image, offset, error) && load.machine.writable(
            image,
            load.address(image, offset),
        ) is Ok && !load.wrapped(image, offset) {
            let (i, j): (int, int) = choose|i: int, j: int|
                #[trigger] load.aliases(image, offset, i, j) && names_alias(
                    load,
                    image,
                    offset,
                    i,
                    j,
                    error,
                );
            assert(short.aliases(image, offset, i, j));
            assert(short.images[i] == load.images[i]);
            assert(names_alias(short, image, offset, i, j, error));
        }
    }
}

/// All before a place is as it is without the images behind it.
proof fn lemma_order_before_later_images(load: LoadView, count: int, image: int, offset: int)
    requires
        0 <= image <= count <= load.images.len(),
        image < count || offset == 0,
    ensures
        load.first(count).extents_fit(image) == load.extents_fit(image),
        load.first(count).placeable_before(image, offset) == load.placeable_before(image, offset),
{
    let short: LoadView = load.first(count);
    assert forall|i: int| 0 <= i < image implies #[trigger] short.extent_fault(i)
        == load.extent_fault(i) by {
        lemma_later_images_do_not_matter(load, count, i, 0);
    }
    assert forall|i: int, j: int|
        #![trigger short.before(i, j, image, offset)]
        #![trigger load.before(i, j, image, offset)]
        short.before(i, j, image, offset) == load.before(i, j, image, offset) by {
        if 0 <= i < count {
            lemma_later_images_do_not_matter(load, count, i, j);
        }
    }
    assert forall|i: int, j: int| 0 <= i < count implies #[trigger] short.placeable(i, j)
        == load.placeable(i, j) by {
        lemma_later_images_do_not_matter(load, count, i, j);
    }
    assert forall|i: int, j: int| 0 <= i < count implies short.placeable(i, j)
        == #[trigger] load.placeable(i, j) by {
        lemma_later_images_do_not_matter(load, count, i, j);
    }
    if short.extents_fit(image) {
        assert forall|i: int| 0 <= i < image implies (#[trigger] load.extent_fault(i)) is None by {
            assert(short.extent_fault(i) is None);
        }
    }
}

/// The first image that is at fault decides, and those behind it do not matter. Without images that
/// alone is refused. Otherwise the error names an image; up to and with this one, the images are
/// refused in the same way, and those before it may be loaded, if there are any.
pub proof fn law_first_offending_image_decides(load: LoadView, error: HeadlessRunError)
    requires
        load.images.len() <= usize::MAX,
        load.refused(error),
    ensures
        error == HeadlessRunError::NoImages <==> load.images.len() == 0,
        load.images.len() > 0 ==> {
            &&& error.image() is Some
            &&& error.image()->0 < load.images.len()
            &&& load.first(error.image()->0 + 1).refused(error)
            &&& error.image()->0 == 0 || load.first(error.image()->0 as int).accepted()
        },
{
    if load.images.len() > 0 {
        let (image, offset): (int, int) = lemma_first_fault(load, error);
        let short: LoadView = load.first(image + 1);
        let earlier: LoadView = load.first(image);
        lemma_later_images_do_not_matter(load, image + 1, image, offset);
        lemma_order_before_later_images(load, image + 1, image, 0);
        lemma_order_before_later_images(load, image, image, 0);
        if offset == -1 {
            assert(short.refused_at_image(image, error));
        } else {
            lemma_order_before_later_images(load, image + 1, image, offset);
            assert(short.refused_at_byte(image, offset, error));
            assert forall|i: int, j: int| load.before(i, j, image, 0) implies #[trigger]
                load.placeable(i, j) by {
                assert(load.before(i, j, image, offset));
            }
            assert forall|i: int| 0 <= i < image implies (#[trigger] load.extent_fault(
                i,
            )) is None by {}
        }
        assert(error.image() == Some(image as usize));
        assert(earlier.extents_fit(image));
        assert(earlier.placeable_before(image, 0));
    }
}

} // verus!
