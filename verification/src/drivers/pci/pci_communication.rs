use vstd::prelude::*;

use crate::drivers::pci::class_codes::{class_code_register_of, parse_table, ClassCodeRegister};
use crate::drivers::pci::PciType;

verus! {

/// I/O port that selects a configuration space register.
pub const CONFIG_ADDR_PORT: u16 = 0xCF8;

/// I/O port through which the selected register is read.
pub const CONFIG_DATA_PORT: u16 = 0xCFC;

pub const PCI_BUS_MAX: u8 = 255;
pub const PCI_DEVICE_MAX: u8 = 31;
pub const PCI_FUNCTION_MAX: u8 = 7;

/// Why a PCI address was refused.
#[derive(Debug, Clone, Copy, PartialEq, Eq, Structural)]
pub enum PciAddressError {
    BusOutOfRange(u8),
    DeviceOutOfRange(u8),
    FunctionOutOfRange(u8),
    RegisterAlignment(u8),
}

/// Bus, device and function of a PCI device.
pub struct PciDeviceAddress {
    bus: u8,
    device: u8,
    function: u8,
}

/// The configuration address word for register `offset` of a function.
pub open spec fn config_address(enable: bool, bus: u8, device: u8, function: u8, offset: u8) -> int {
    (if enable {
        0x8000_0000int
    } else {
        0
    }) + bus * 0x10000 + device * 0x800 + function * 0x100 + offset
}

/// The fields of a configuration address word: the enable bit, bus,
/// device, function and register, read back from the word.
proof fn lemma_config_fields(enable: bool, bus: u8, device: u8, function: u8, offset: u8)
    requires
        device <= PCI_DEVICE_MAX,
        function <= PCI_FUNCTION_MAX,
    ensures
        ({
            let x = config_address(enable, bus, device, function, offset);
            let e: int = if enable {
                1
            } else {
                0
            };
            &&& x % 256 == offset
            &&& (x / 256) % 8 == function
            &&& (x / 2048) % 32 == device
            &&& (x / 0x10000) % 256 == bus
            &&& x / 0x8000_0000 == e
        }),
{
    let x = config_address(enable, bus, device, function, offset);
    let e: int = if enable {
        1
    } else {
        0
    };
    let q1 = e * 0x80_0000 + bus * 256 + device * 8 + function;
    vstd::arithmetic::div_mod::lemma_fundamental_div_mod_converse(x, 256, q1, offset as int);
    let q2 = e * 0x10_0000 + bus * 32 + device;
    vstd::arithmetic::div_mod::lemma_fundamental_div_mod_converse(q1, 8, q2, function as int);
    vstd::arithmetic::div_mod::lemma_fundamental_div_mod_converse(
        x,
        2048,
        q2,
        function * 256 + offset,
    );
    let q3 = e * 0x8000 + bus;
    vstd::arithmetic::div_mod::lemma_fundamental_div_mod_converse(q2, 32, q3, device as int);
    vstd::arithmetic::div_mod::lemma_fundamental_div_mod_converse(
        x,
        0x10000,
        q3,
        device * 2048 + function * 256 + offset,
    );
    vstd::arithmetic::div_mod::lemma_fundamental_div_mod_converse(q3, 256, e * 128, bus as int);
    vstd::arithmetic::div_mod::lemma_fundamental_div_mod_converse(
        x,
        0x8000_0000,
        e,
        bus * 0x10000 + device * 2048 + function * 256 + offset,
    );
}

/// A configuration address word names exactly one register: two words
/// made for valid device and function numbers are equal only when they
/// were made for the same enable bit, bus, device, function and register.
pub proof fn law_config_address_names_one_register(
    e1: bool,
    b1: u8,
    d1: u8,
    f1: u8,
    o1: u8,
    e2: bool,
    b2: u8,
    d2: u8,
    f2: u8,
    o2: u8,
)
    requires
        d1 <= PCI_DEVICE_MAX,
        f1 <= PCI_FUNCTION_MAX,
        d2 <= PCI_DEVICE_MAX,
        f2 <= PCI_FUNCTION_MAX,
        config_address(e1, b1, d1, f1, o1) == config_address(e2, b2, d2, f2, o2),
    ensures
        e1 == e2,
        b1 == b2,
        d1 == d2,
        f1 == f2,
        o1 == o2,
{
    lemma_config_fields(e1, b1, d1, f1, o1);
    lemma_config_fields(e2, b2, d2, f2, o2);
}

impl PciDeviceAddress {
    /// The address as `(bus, device, function)`.
    pub closed spec fn view(&self) -> (u8, u8, u8) {
        (self.bus, self.device, self.function)
    }

    /// Device and function numbers are in range.
    pub closed spec fn wf(&self) -> bool {
        self.device <= PCI_DEVICE_MAX && self.function <= PCI_FUNCTION_MAX
    }

    /// The address of function `function` of device `device` on bus `bus`.
    pub fn new(bus: u8, device: u8, function: u8) -> (r: Result<Self, PciAddressError>)
        ensures
            device > PCI_DEVICE_MAX ==> r == Err::<Self, PciAddressError>(
                PciAddressError::DeviceOutOfRange(device),
            ),
            device <= PCI_DEVICE_MAX && function > PCI_FUNCTION_MAX ==> r == Err::<
                Self,
                PciAddressError,
            >(PciAddressError::FunctionOutOfRange(function)),
            device <= PCI_DEVICE_MAX && function <= PCI_FUNCTION_MAX ==> (r matches Ok(a) && a@
                == (bus, device, function) && a.wf()),
    {
        if device > PCI_DEVICE_MAX {
            Err(PciAddressError::DeviceOutOfRange(device))
        } else if bus > PCI_BUS_MAX {
            Err(PciAddressError::BusOutOfRange(bus))
        } else if function > PCI_FUNCTION_MAX {
            Err(PciAddressError::FunctionOutOfRange(function))
        } else {
            Ok(Self { bus, device, function })
        }
    }

    /// The configuration address word for register `offset`, which must be a
    /// multiple of four.
    pub fn format_address(&self, enable: bool, offset: u8) -> (r: Result<u32, PciAddressError>)
        requires
            self.wf(),
        ensures
            offset & 3 > 0 ==> r == Err::<u32, PciAddressError>(
                PciAddressError::RegisterAlignment(offset),
            ),
            offset & 3 == 0 ==> (r matches Ok(v) && v == config_address(
                enable,
                self@.0,
                self@.1,
                self@.2,
                offset,
            )),
    {
        if offset & 0x3 > 0 {
            return Err(PciAddressError::RegisterAlignment(offset));
        }
        let mut ret: u32 = if enable {
            0x8000_0000u32
        } else {
            0
        };
        let b = self.bus as u32;
        let d = self.device as u32;
        let f = self.function as u32;
        let o = offset as u32;
        proof {
            assert(b < 256 && d < 32 && f < 8 && o < 256 && (ret == 0 || ret == 0x8000_0000u32)
                ==> ret | (b << 16u32) | (d << 11u32) | (f << 8u32) | o == ret + b * 0x10000 + d
                * 0x800 + f * 0x100 + o) by (bit_vector);
        }
        ret = ret | (b << 16u32);
        ret = ret | (d << 11u32);
        ret = ret | (f << 8u32);
        ret = ret | o;
        Ok(ret)
    }

    /// Whether a device answers: the vendor id in the low half of register 0
    /// is not all ones.
    pub fn device_exists(id_register: u32) -> (r: bool)
        ensures
            r == (id_register & 0xFFFF != 0xFFFF),
    {
        let res = id_register & 0xFFFF;
        res != 0xFFFF
    }

    /// What the device is, from the value of register 8.
    pub fn get_device_type(class_register: u32) -> (r: PciType)
        requires
            parse_table(class_code_register_of(class_register)) is Some,
        ensures
            Some(r) == parse_table(class_code_register_of(class_register)),
    {
        let reg: ClassCodeRegister = ClassCodeRegister::from(class_register);
        reg.parse()
    }

    /// Whether the device has several functions: bit 7 of the header type,
    /// the third byte of register 12.
    pub fn is_multi_function(header_register: u32) -> (r: bool)
        ensures
            r == ((header_register >> 16u32) & 0x80 > 0),
    {
        proof {
            assert(1u32 << 7u32 == 0x80) by (bit_vector);
        }
        (header_register >> 16u32) & (1u32 << 7u32) > 0
    }
}

} // verus!
