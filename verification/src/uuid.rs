//! Bluetooth UUIDs and their little-endian wire encoding.
//!
//! A UUID is carried as its full 128-bit value. The short 16- and 32-bit
//! forms are the values built on the Bluetooth base UUID
//! `00000000-0000-1000-8000-00805F9B34FB`, with the short value in the top
//! 32 bits; they encode on the wire as 2 or 4 bytes, all little-endian.

use vstd::prelude::*;

verus! {

/// The low 96 bits of the Bluetooth base UUID
/// `00000000-0000-1000-8000-00805F9B34FB`.
pub const BLUETOOTH_BASE_UUID: u128 = 0x1000_8000_0080_5F9B_34FB;

/// 2 to the 96th power: the weight of the short-form value within the full
/// 128-bit UUID value.
pub const SHORT_UUID_WEIGHT: u128 = 0x1_0000_0000_0000_0000_0000_0000;

/// A 16-, 32- or 128-bit Bluetooth UUID, carried as its full 128-bit value.
#[derive(Clone, Copy, Debug, PartialEq, Eq, Structural)]
pub struct Uuid {
    /// The full 128-bit value.
    pub value: u128,
}

/// The `n` little-endian bytes of the non-negative integer `v`.
pub open spec fn spec_le_bytes(v: int, n: nat) -> Seq<u8>
    decreases n,
{
    if n == 0 {
        Seq::empty()
    } else {
        seq![(v % 256) as u8] + spec_le_bytes(v / 256, (n - 1) as nat)
    }
}

impl Uuid {
    /// The UUID whose short form is `short`: the base UUID with `short` in
    /// the top 32 bits.
    pub open spec fn spec_new(short: u32) -> Uuid {
        Uuid { value: (short * SHORT_UUID_WEIGHT + BLUETOOTH_BASE_UUID) as u128 }
    }

    /// The top 32 bits: the short-form value when this UUID has a short form.
    pub open spec fn spec_short_value(self) -> int {
        self.value as int / SHORT_UUID_WEIGHT as int
    }

    /// The low 96 bits.
    pub open spec fn spec_base_part(self) -> int {
        self.value as int % SHORT_UUID_WEIGHT as int
    }

    /// True when this UUID is built on the base UUID, so it has a 32-bit (or
    /// shorter) form.
    pub open spec fn spec_is_short(self) -> bool {
        self.spec_base_part() == BLUETOOTH_BASE_UUID
    }

    /// True when this UUID has a 16-bit short form.
    pub open spec fn spec_is_short_16(self) -> bool {
        self.spec_is_short() && self.spec_short_value() < 0x10000
    }

    /// The wire encoding: 2 bytes for a 16-bit form, 4 bytes for a 32-bit
    /// form, the full 16 bytes otherwise, all little-endian.
    pub open spec fn spec_encoding(self) -> Seq<u8> {
        if self.spec_is_short_16() {
            spec_le_bytes(self.spec_short_value(), 2)
        } else if self.spec_is_short() {
            spec_le_bytes(self.spec_short_value(), 4)
        } else {
            spec_le_bytes(self.value as int, 16)
        }
    }

    /// Builds the UUID with the given 16- or 32-bit short form.
    pub fn new(short: u32) -> (r: Uuid)
        ensures
            r == Uuid::spec_new(short),
    {
        Uuid { value: short as u128 * SHORT_UUID_WEIGHT + BLUETOOTH_BASE_UUID }
    }

    /// Appends this UUID's wire encoding to `out`.
    pub fn append_encoding(&self, out: &mut Vec<u8>)
        ensures
            final(out)@ == old(out)@ + self.spec_encoding(),
    {
        let short = self.value / SHORT_UUID_WEIGHT;
        let base_part = self.value % SHORT_UUID_WEIGHT;
        if base_part == BLUETOOTH_BASE_UUID && short < 0x10000 {
            push_le_bytes(short, 2, out);
        } else if base_part == BLUETOOTH_BASE_UUID {
            push_le_bytes(short, 4, out);
        } else {
            push_le_bytes(self.value, 16, out);
        }
    }
}

/// A freshly built short-form UUID takes its short value apart again.
pub proof fn lemma_uuid_new_short(short: u32)
    ensures
        Uuid::spec_new(short).spec_short_value() == short,
        Uuid::spec_new(short).spec_is_short(),
{
    let v = short * SHORT_UUID_WEIGHT + BLUETOOTH_BASE_UUID;
    assert(v / SHORT_UUID_WEIGHT as int == short && v % SHORT_UUID_WEIGHT as int
        == BLUETOOTH_BASE_UUID) by (nonlinear_arith)
        requires
            v == short * SHORT_UUID_WEIGHT + BLUETOOTH_BASE_UUID,
            0 <= short,
            BLUETOOTH_BASE_UUID < SHORT_UUID_WEIGHT,
    ;
}

/// Appends the `n` little-endian bytes of `v` to `out`.
fn push_le_bytes(v: u128, n: usize, out: &mut Vec<u8>)
    ensures
        final(out)@ == old(out)@ + spec_le_bytes(v as int, n as nat),
    decreases n,
{
    if n == 0 {
        assert(old(out)@ + spec_le_bytes(v as int, 0) =~= old(out)@);
    } else {
        out.push((v % 256) as u8);
        push_le_bytes(v / 256, n - 1, out);
        assert(out@ =~= old(out)@ + spec_le_bytes(v as int, n as nat));
    }
}

} // verus!
