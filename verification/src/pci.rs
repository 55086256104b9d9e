//! Configuration space of the PCI bus: addresses in it, and what its words say of a
//! device.

use crate::device::Op;
use vstd::prelude::*;

verus! {

/// The port that takes an address in configuration space.
pub const CONFIG_ADDRESS: u16 = 0xCF8;

/// The port that reads and writes at that address.
pub const CONFIG_DATA: u16 = 0xCFC;

/// The offset of the word with a device's commands.
pub const PCI_COMMAND_OFFSET: u8 = 0x04;

/// The command that lets a device read and write memory by itself.
pub const PCI_COMMAND_BUS_MASTER: u16 = 4;

/// The offset of a device's first base address.
pub const PCI_BAR0_OFFSET: u8 = 0x10;

/// The address of the double word that holds `offset` in the configuration of a function:
/// the top bit, eight bits of bus, five of device, three of function, and the offset
/// without its low two bits.
pub open spec fn config_word(bus: u8, device: u8, function: u8, offset: u8) -> u32 {
    0x8000_0000u32 | ((bus as u32) << 16) | ((device as u32) << 11) | ((function as u32) << 8) | (
    (offset as u32) & 0xFC)
}

pub fn config_address(bus: u8, device: u8, function: u8, offset: u8) -> (r: u32)
    ensures
        r == config_word(bus, device, function, offset),
{
    0x8000_0000u32 | ((bus as u32) << 16) | ((device as u32) << 11) | ((function as u32) << 8) | (
    (offset as u32) & 0xFC)
}

/// For the devices and functions that a bus has, the parts of an address do not meet.
pub proof fn config_address_parts(bus: u8, device: u8, function: u8, offset: u8)
    requires
        device < 32,
        function < 8,
    ensures
        config_word(bus, device, function, offset) == 0x8000_0000 + 65536 * bus + 2048 * device
            + 256 * function + (offset - offset % 4),
{
    assert((0x8000_0000u32 | ((bus as u32) << 16) | ((device as u32) << 11) | ((function as u32)
        << 8) | ((offset as u32) & 0xFC)) == 0x8000_0000 + 65536 * bus + 2048 * device + 256
        * function + (offset - offset % 4)) by (bit_vector)
        requires
            device < 32,
            function < 8,
    ;
}

/// Different functions have different addresses, whatever the offsets.
pub proof fn config_addresses_differ(
    bus: u8,
    device: u8,
    function: u8,
    offset: u8,
    bus2: u8,
    device2: u8,
    function2: u8,
    offset2: u8,
)
    requires
        device < 32,
        function < 8,
        device2 < 32,
        function2 < 8,
        config_word(bus, device, function, offset) == config_word(
            bus2,
            device2,
            function2,
            offset2,
        ),
    ensures
        bus == bus2,
        device == device2,
        function == function2,
        offset / 4 == offset2 / 4,
{
    config_address_parts(bus, device, function, offset);
    config_address_parts(bus2, device2, function2, offset2);
}

/// A function of a device on the bus.
#[derive(Debug, Clone, Copy, PartialEq, Eq, Structural)]
pub struct PciDevice {
    pub bus: u8,
    pub device: u8,
    pub function: u8,
    pub vendor_id: u16,
    pub device_id: u16,
    pub class: u8,
    pub subclass: u8,
    pub prog_if: u8,
}

/// The command word with bus mastering switched on, and nothing else changed.
pub open spec fn mastering(command: u16) -> u16 {
    command | PCI_COMMAND_BUS_MASTER
}

/// Switching bus mastering on sets its bit and leaves the other bits alone.
pub proof fn mastering_sets_one_bit(command: u16)
    ensures
        mastering(command) & PCI_COMMAND_BUS_MASTER != 0,
        mastering(command) & !PCI_COMMAND_BUS_MASTER == command & !PCI_COMMAND_BUS_MASTER,
{
    assert((command | 4) & 4 != 0 && (command | 4) & !4u16 == command & !4u16) by (bit_vector);
}

impl PciDevice {
    /// The address of a double word of this function's configuration.
    pub open spec fn at(self, offset: u8) -> u32 {
        config_word(self.bus, self.device, self.function, offset)
    }

    /// What to do, and then to ask, for the first base address.
    pub fn read_bar0(&self) -> (r: (Op, Op))
        ensures
            r.0 == Op::Out32(CONFIG_ADDRESS, self.at(PCI_BAR0_OFFSET)),
            r.1 == Op::In32(CONFIG_DATA),
    {
        (
            Op::Out32(
                CONFIG_ADDRESS,
                config_address(self.bus, self.device, self.function, PCI_BAR0_OFFSET),
            ),
            Op::In32(CONFIG_DATA),
        )
    }

    /// What to do, and then to ask, for the command word.
    pub fn read_command(&self) -> (r: (Op, Op))
        ensures
            r.0 == Op::Out32(CONFIG_ADDRESS, self.at(PCI_COMMAND_OFFSET)),
            r.1 == Op::In16(CONFIG_DATA),
    {
        (
            Op::Out32(
                CONFIG_ADDRESS,
                config_address(self.bus, self.device, self.function, PCI_COMMAND_OFFSET),
            ),
            Op::In16(CONFIG_DATA),
        )
    }

    /// What to do to let the device read and write memory, given its command word. Only
    /// the command word is written, and not the status next to it.
    pub fn enable_bus_mastering(&self, command: u16) -> (r: (Op, Op))
        ensures
            r.0 == Op::Out32(CONFIG_ADDRESS, self.at(PCI_COMMAND_OFFSET)),
            r.1 == Op::Out16(CONFIG_DATA, mastering(command)),
    {
        (
            Op::Out32(
                CONFIG_ADDRESS,
                config_address(self.bus, self.device, self.function, PCI_COMMAND_OFFSET),
            ),
            Op::Out16(CONFIG_DATA, command | PCI_COMMAND_BUS_MASTER),
        )
    }
}

/// The name of a class of devices.
pub open spec fn name_of_class(class: u8) -> &'static str {
    if class == 0x00 {
        "Unclassified"
    } else if class == 0x01 {
        "Mass Storage"
    } else if class == 0x02 {
        "Network"
    } else if class == 0x03 {
        "Display"
    } else if class == 0x04 {
        "Multimedia"
    } else if class == 0x06 {
        "Bridge"
    } else if class == 0x0C {
        "Serial Bus"
    } else {
        "Other"
    }
}

pub fn class_name(class: u8) -> (r: &'static str)
    ensures
        r == name_of_class(class),
{
    match class {
        0x00 => "Unclassified",
        0x01 => "Mass Storage",
        0x02 => "Network",
        0x03 => "Display",
        0x04 => "Multimedia",
        0x06 => "Bridge",
        0x0C => "Serial Bus",
        _ => "Other",
    }
}

/// What the first word of a function's configuration and the one at offset 8 say of it;
/// nothing if no function is there.
pub open spec fn device_of(slot: int, id: u32, class: u32) -> Option<PciDevice> {
    if id % 65536 == 0xFFFF {
        None
    } else {
        Some(
            PciDevice {
                bus: 0,
                device: (slot / 8) as u8,
                function: (slot % 8) as u8,
                vendor_id: (id % 65536) as u16,
                device_id: (id / 65536) as u16,
                class: (class / 0x100_0000) as u8,
                subclass: (class / 0x1_0000 % 256) as u8,
                prog_if: (class / 0x100 % 256) as u8,
            },
        )
    }
}

/// The devices in the first `n` slots, in order.
pub open spec fn devices_below(words: Seq<(u32, u32)>, n: int) -> Seq<PciDevice>
    decreases n,
{
    if n <= 0 {
        Seq::empty()
    } else {
        let before = devices_below(words, n - 1);
        match device_of(n - 1, words[n - 1].0, words[n - 1].1) {
            Some(d) => before.push(d),
            None => before,
        }
    }
}

/// The slots of a bus: eight functions of each of 32 devices.
pub const SLOTS: usize = 256;

/// The devices of the bus, given the two words of each slot.
pub fn scan_bus0(words: &Vec<(u32, u32)>) -> (found: Vec<PciDevice>)
    requires
        words@.len() == SLOTS,
    ensures
        found@ == devices_below(words@, SLOTS as int),
{
    let mut found: Vec<PciDevice> = Vec::new();
    let mut slot: usize = 0;
    while slot < SLOTS
        invariant
            slot <= SLOTS,
            words@.len() == SLOTS,
            found@ == devices_below(words@, slot as int),
        decreases SLOTS - slot,
    {
        let (id, class): (u32, u32) = words[slot];
        if id % 65536 != 0xFFFF {
            found.push(
                PciDevice {
                    bus: 0,
                    device: (slot / 8) as u8,
                    function: (slot % 8) as u8,
                    vendor_id: (id % 65536) as u16,
                    device_id: (id / 65536) as u16,
                    class: (class / 0x100_0000) as u8,
                    subclass: (class / 0x1_0000 % 256) as u8,
                    prog_if: (class / 0x100 % 256) as u8,
                },
            );
        }
        slot = slot + 1;
    }
    found
}

/// Every slot with something in it is found, and nothing else.
pub proof fn scan_finds_all(words: Seq<(u32, u32)>, n: int, d: PciDevice)
    requires
        0 <= n <= words.len(),
    ensures
        devices_below(words, n).contains(d) <==> exists|slot: int|
            0 <= slot < n && #[trigger] device_of(slot, words[slot].0, words[slot].1) == Some(d),
    decreases n,
{
    if n > 0 {
        scan_finds_all(words, n - 1, d);
        let before = devices_below(words, n - 1);
        let all = devices_below(words, n);
        match device_of(n - 1, words[n - 1].0, words[n - 1].1) {
            Some(e) => {
                assert(all == before.push(e));
                if all.contains(d) {
                    let i = choose|i: int| 0 <= i < all.len() && all[i] == d;
                    if i < before.len() {
                        assert(before[i] == d);
                    }
                }
                if before.contains(d) {
                    let i = choose|i: int| 0 <= i < before.len() && before[i] == d;
                    assert(all[i] == d);
                }
                if e == d {
                    assert(all[before.len() as int] == d);
                }
            },
            None => {},
        }
    }
}

/// The first device of this vendor with this number.
pub open spec fn first_with(devices: Seq<PciDevice>, vendor: u16, device: u16) -> Option<PciDevice>
    decreases devices.len(),
{
    if devices.len() == 0 {
        None
    } else if devices[0].vendor_id == vendor && devices[0].device_id == device {
        Some(devices[0])
    } else {
        first_with(devices.skip(1), vendor, device)
    }
}

pub fn find_device(devices: &Vec<PciDevice>, vendor: u16, device: u16) -> (r: Option<PciDevice>)
    ensures
        r == first_with(devices@, vendor, device),
{
    let mut i: usize = 0;
    assert(devices@.skip(0) =~= devices@);
    while i < devices.len()
        invariant
            i <= devices.len(),
            first_with(devices@.skip(i as int), vendor, device) == first_with(
                devices@,
                vendor,
                device,
            ),
        decreases devices.len() - i,
    {
        if devices[i].vendor_id == vendor && devices[i].device_id == device {
            return Some(devices[i]);
        }
        assert(devices@.skip(i as int).skip(1) =~= devices@.skip(i + 1));
        i = i + 1;
    }
    None
}

/// What a slot says is taken apart into what it was put together from: the vendor in the low half
/// of the first word and the number of the device in the high half; and, from the top, the
/// class, the subclass and the interface in the other word. Eight slots are one device.
pub proof fn device_is_read(
    device: u8,
    function: u8,
    vendor_id: u16,
    device_id: u16,
    class: u8,
    subclass: u8,
    prog_if: u8,
    revision: u8,
)
    requires
        device < 32,
        function < 8,
    ensures
        device_of(
            8 * device + function,
            (vendor_id + 0x1_0000 * device_id) as u32,
            (revision + 0x100 * prog_if + 0x1_0000 * subclass + 0x100_0000 * class) as u32,
        ) == if vendor_id == 0xFFFF {
            None
        } else {
            Some(
                PciDevice {
                    bus: 0,
                    device,
                    function,
                    vendor_id,
                    device_id,
                    class,
                    subclass,
                    prog_if,
                },
            )
        },
{
    let w = revision + 0x100 * prog_if + 0x1_0000 * subclass + 0x100_0000 * class;
    assert(w / 0x100 == prog_if + 0x100 * subclass + 0x1_0000 * class);
    assert(w / 0x1_0000 == subclass + 0x100 * class);
    assert(w / 0x100_0000 == class);
    let id = vendor_id + 0x1_0000 * device_id;
    assert(id % 0x1_0000 == vendor_id && id / 0x1_0000 == device_id);
    let s = 8 * device + function;
    assert(s / 8 == device && s % 8 == function);
}

/// What is found is a device of this vendor with this number, and none such stands in front of
/// it; nothing is found if there is none.
pub proof fn first_one_is_found(devices: Seq<PciDevice>, vendor: u16, device: u16)
    ensures
        match first_with(devices, vendor, device) {
            Some(d) => exists|i: int|
                {
                    &&& 0 <= i < devices.len()
                    &&& #[trigger] devices[i] == d
                    &&& d.vendor_id == vendor
                    &&& d.device_id == device
                    &&& forall|j: int|
                        0 <= j < i ==> (#[trigger] devices[j]).vendor_id != vendor
                            || devices[j].device_id != device
                },
            None => forall|j: int|
                0 <= j < devices.len() ==> (#[trigger] devices[j]).vendor_id != vendor
                    || devices[j].device_id != device,
        },
    decreases devices.len(),
{
    if devices.len() > 0 {
        let rest = devices.skip(1);
        first_one_is_found(rest, vendor, device);
        if devices[0].vendor_id == vendor && devices[0].device_id == device {
            assert(devices[0] == devices[0]);
        } else {
            match first_with(rest, vendor, device) {
                Some(d) => {
                    let i = choose|i: int|
                        {
                            &&& 0 <= i < rest.len()
                            &&& #[trigger] rest[i] == d
                            &&& d.vendor_id == vendor
                            &&& d.device_id == device
                            &&& forall|j: int|
                                0 <= j < i ==> (#[trigger] rest[j]).vendor_id != vendor
                                    || rest[j].device_id != device
                        };
                    assert(devices[i + 1] == d);
                    assert forall|j: int| 0 <= j < i + 1 implies (#[trigger] devices[j]).vendor_id
                        != vendor || devices[j].device_id != device by {
                        if j > 0 {
                            assert(rest[j - 1] == devices[j]);
                        }
                    }
                },
                None => {
                    assert forall|j: int| 0 <= j < devices.len() implies (#[trigger] devices[j]).vendor_id
                        != vendor || devices[j].device_id != device by {
                        if j > 0 {
                            assert(rest[j - 1] == devices[j]);
                        }
                    }
                },
            }
        }
    }
}

/// The devices are found in the order of their slots.
pub proof fn scan_is_in_order(words: Seq<(u32, u32)>, n: int, i: int, j: int)
    requires
        0 <= n <= 256,
        n <= words.len(),
        0 <= i < j < devices_below(words, n).len(),
    ensures
        ({
            let a = devices_below(words, n)[i];
            let b = devices_below(words, n)[j];
            8 * a.device + a.function < 8 * b.device + b.function
        }),
    decreases n,
{
    devices_have_slots(words, n - 1);
    if j < devices_below(words, n - 1).len() {
        scan_is_in_order(words, n - 1, i, j);
    }
}

proof fn devices_have_slots(words: Seq<(u32, u32)>, n: int)
    requires
        n <= 256,
    ensures
        forall|i: int|
            0 <= i < devices_below(words, n).len() ==> 8 * (#[trigger] devices_below(
                words,
                n,
            )[i]).device + devices_below(words, n)[i].function < n,
    decreases n,
{
    if n > 0 {
        devices_have_slots(words, n - 1);
        let s = n - 1;
        let before = devices_below(words, s);
        assert(8 * (s / 8) + s % 8 == s && 0 <= s / 8 < 32 && 0 <= s % 8 < 8);
        assert forall|i: int| 0 <= i < devices_below(words, n).len() implies 8 * (
        #[trigger] devices_below(words, n)[i]).device + devices_below(words, n)[i].function < n by {
            if i < before.len() {
                assert(devices_below(words, n)[i] == before[i]);
            }
        }
    }
}

/// The classes that the bus has names for.
pub proof fn classes_have_their_names(class: u8)
    ensures
        name_of_class(class)@ == "Mass Storage"@ <==> class == 1,
        name_of_class(class)@ == "Network"@ <==> class == 2,
        name_of_class(class)@ == "Display"@ <==> class == 3,
        name_of_class(class)@ == "Multimedia"@ <==> class == 4,
        name_of_class(class)@ == "Bridge"@ <==> class == 6,
        name_of_class(class)@ == "Serial Bus"@ <==> class == 12,
        name_of_class(class)@ == "Unclassified"@ <==> class == 0,
{
    reveal_strlit("Unclassified");
    reveal_strlit("Mass Storage");
    reveal_strlit("Network");
    reveal_strlit("Display");
    reveal_strlit("Multimedia");
    reveal_strlit("Bridge");
    reveal_strlit("Serial Bus");
    reveal_strlit("Other");
    assert("Network"@[0] == 'N' && "Display"@[0] == 'D' && "Unclassified"@[0] == 'U');
    assert("Mass Storage"@[1] == 'a' && "Multimedia"@[1] == 'u' && "Bridge"@[0] == 'B');
    assert("Mass Storage"@[0] == 'M' && "Multimedia"@[0] == 'M' && "Serial Bus"@[0] == 'S');
    assert("Other"@[0] == 'O');
}

/// The registers of configuration space: the ports of its address and its data, the command word, the bit
/// of it that lets a device use memory, and the first base address.
pub proof fn configuration_has_its_places(d: PciDevice)
    requires
        d.device < 32,
        d.function < 8,
    ensures
        CONFIG_ADDRESS == 0xCF8,
        CONFIG_DATA == 0xCFC,
        d.at(PCI_COMMAND_OFFSET) == 0x8000_0000 + 0x1_0000 * d.bus + 0x800 * d.device + 0x100
            * d.function + 4,
        d.at(PCI_BAR0_OFFSET) == 0x8000_0000 + 0x1_0000 * d.bus + 0x800 * d.device + 0x100
            * d.function + 0x10,
        PCI_COMMAND_BUS_MASTER == 4,
{
    config_address_parts(d.bus, d.device, d.function, PCI_COMMAND_OFFSET);
    config_address_parts(d.bus, d.device, d.function, PCI_BAR0_OFFSET);
}

} // verus!
