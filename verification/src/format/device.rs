//! Device numbers.

use vstd::prelude::*;

use crate::format::wire::{get64, le64, lemma_two_words, two_words, word64, Wire};

verus! {

#[derive(Clone, Copy, Debug, PartialEq, Eq, Structural)]
pub struct Device {
    pub major: u64,
    pub minor: u64,
}

/// The `dev_t` value of a device, see bits/sysmacros.h. Only the lower 32 bits of each number
/// count: from the top down, a `dev_t` holds the upper 20 bits of the major, the upper 24 bits of
/// the minor, the lower 12 bits of the major and the lower 8 bits of the minor number.
pub open spec fn dev_t_of(device: Device) -> u64 {
    ((device.major & 0x0000_0fff) << 8) | ((device.major & 0xffff_f000) << 32) | (device.minor
        & 0x0000_00ff) | ((device.minor & 0xffff_ff00) << 12)
}

/// The device with a given `dev_t` value.
pub open spec fn device_of(dev: u64) -> Device {
    Device {
        major: (dev >> 8) & 0x0000_0fff | (dev >> 32) & 0xffff_f000,
        minor: dev & 0x0000_00ff | (dev >> 12) & 0xffff_ff00,
    }
}

impl Device {
    /// Get a `dev_t` value for this device.
    pub fn to_dev_t(&self) -> (r: u64)
        ensures
            r == dev_t_of(*self),
    {
        // see bits/sysmacros.h
        ((self.major & 0x0000_0fff) << 8) | ((self.major & 0xffff_f000) << 32) | (self.minor
            & 0x0000_00ff) | ((self.minor & 0xffff_ff00) << 12)
    }

    /// Get a `Device` from a `dev_t` value.
    pub fn from_dev_t(dev: u64) -> (r: Self)
        ensures
            r == device_of(dev),
    {
        // see to_dev_t
        Device {
            major: (dev >> 8) & 0x0000_0fff | (dev >> 32) & 0xffff_f000,
            minor: dev & 0x0000_00ff | (dev >> 12) & 0xffff_ff00,
        }
    }
}

/// Turning a `dev_t` value into a device and back gives the same value.
pub proof fn law_dev_t_round_trip(dev: u64)
    ensures
        dev_t_of(device_of(dev)) == dev,
        device_of(dev).major <= 0xffff_ffff,
        device_of(dev).minor <= 0xffff_ffff,
{
    let major = (dev >> 8) & 0x0000_0fff | (dev >> 32) & 0xffff_f000;
    let minor = dev & 0x0000_00ff | (dev >> 12) & 0xffff_ff00;
    assert((((major & 0x0000_0fff) << 8) | ((major & 0xffff_f000) << 32) | (minor & 0x0000_00ff) | ((
    minor & 0xffff_ff00) << 12)) == dev && major <= 0xffff_ffff && minor <= 0xffff_ffff)
        by (bit_vector)
        requires
            major == ((dev >> 8) & 0x0000_0fff | (dev >> 32) & 0xffff_f000),
            minor == (dev & 0x0000_00ff | (dev >> 12) & 0xffff_ff00),
    ;
}

/// Turning a device into a `dev_t` value and back gives the same device, for the numbers that fit
/// into 32 bits.
pub proof fn law_device_round_trip(device: Device)
    requires
        device.major <= 0xffff_ffff,
        device.minor <= 0xffff_ffff,
    ensures
        device_of(dev_t_of(device)) == device,
{
    let major = device.major;
    let minor = device.minor;
    let dev = dev_t_of(device);
    assert(((dev >> 8) & 0x0000_0fff | (dev >> 32) & 0xffff_f000) == major && (dev & 0x0000_00ff
        | (dev >> 12) & 0xffff_ff00) == minor) by (bit_vector)
        requires
            dev == (((major & 0x0000_0fff) << 8) | ((major & 0xffff_f000) << 32) | (minor
                & 0x0000_00ff) | ((minor & 0xffff_ff00) << 12)),
            major <= 0xffff_ffff,
            minor <= 0xffff_ffff,
    ;
}

impl Wire for Device {
    open spec fn wire_size() -> nat {
        16
    }

    open spec fn wire(self) -> Seq<u8> {
        le64(self.major) + le64(self.minor)
    }

    open spec fn from_wire(s: Seq<u8>) -> Self {
        Device { major: word64(s, 0), minor: word64(s, 8) }
    }

    proof fn lemma_wire_round_trip(self) {
        lemma_two_words(self.major, self.minor);
    }

    fn size() -> (n: usize) {
        16
    }

    fn to_bytes(&self) -> (b: Vec<u8>) {
        two_words(self.major, self.minor)
    }

    fn from_bytes(b: &[u8]) -> (v: Self) {
        Device { major: get64(b, 0), minor: get64(b, 8) }
    }
}

/// A `dev_t` value has the lower 8 bits of the minor number at the bottom, then the lower 12 bits of
/// the major number, then the next 24 bits of the minor and the next 20 bits of the major number.
pub proof fn law_dev_t(device: Device)
    ensures
        dev_t_of(device) == device.minor % 0x100 + device.major % 0x1000 * 0x100 + device.minor
            / 0x100 % 0x100_0000 * 0x10_0000 + device.major / 0x1000 % 0x10_0000
            * 0x1000_0000_0000,
{
    let major = device.major;
    let minor = device.minor;
    assert((((major & 0x0000_0fff) << 8) | ((major & 0xffff_f000) << 32) | (minor & 0x0000_00ff) | ((
    minor & 0xffff_ff00) << 12)) == minor % 0x100 + major % 0x1000 * 0x100 + minor / 0x100
        % 0x100_0000 * 0x10_0000 + major / 0x1000 % 0x10_0000 * 0x1000_0000_0000) by (bit_vector);
}

} // verus!
