//! Declaration attribute values and their bit-exact wire encodings.
//!
//! A service declaration's value is the service UUID. A characteristic
//! declaration's value is a properties byte, the value handle (2 bytes,
//! little-endian), then the characteristic UUID.

use vstd::prelude::*;

use crate::att_database::AttPermissions;
use crate::ids::AttHandle;
use crate::uuid::Uuid;

verus! {

/// The canonical value of a declaration attribute. These are the only static
/// attribute values the schema holds; every other value lives in a datastore.
#[derive(Clone, Copy, Debug, PartialEq, Eq, Structural)]
pub enum DeclarationValue {
    /// A service declaration: the value encodes the service UUID.
    ServiceDeclaration {
        /// The declared service's type.
        uuid: Uuid,
    },
    /// A characteristic declaration: the value encodes the characteristic's
    /// properties, its value handle and its type.
    CharacteristicDeclaration {
        /// The permissions of the characteristic value, from which the
        /// properties byte is derived.
        permissions: AttPermissions,
        /// The handle of the characteristic value attribute.
        value_handle: AttHandle,
        /// The characteristic value's type.
        uuid: Uuid,
    },
}

/// The two little-endian bytes of `v`.
pub open spec fn spec_u16_le(v: u16) -> Seq<u8> {
    seq![(v % 256) as u8, (v / 256) as u8]
}

/// The characteristic properties byte derived from the value attribute's
/// permissions: read is bit 1, write is bit 3, indicate is bit 5; broadcast,
/// write-without-response, notify, authenticated-signed-writes and
/// extended-properties are all zero.
pub open spec fn spec_properties_byte(p: AttPermissions) -> u8 {
    ((if p.spec_readable() {
        0x02int
    } else {
        0int
    }) + (if p.spec_writable() {
        0x08int
    } else {
        0int
    }) + (if p.spec_indicate() {
        0x20int
    } else {
        0int
    })) as u8
}

impl DeclarationValue {
    /// The bit-exact wire encoding of this declaration value.
    pub open spec fn spec_bytes(self) -> Seq<u8> {
        match self {
            DeclarationValue::ServiceDeclaration { uuid } => uuid.spec_encoding(),
            DeclarationValue::CharacteristicDeclaration { permissions, value_handle, uuid } => seq![
                spec_properties_byte(permissions),
            ] + spec_u16_le(value_handle.0) + uuid.spec_encoding(),
        }
    }

    /// Encodes this declaration value for the wire.
    pub fn encode(&self) -> (r: Vec<u8>)
        ensures
            r@ == self.spec_bytes(),
    {
        match self {
            DeclarationValue::ServiceDeclaration { uuid } => {
                let mut out: Vec<u8> = Vec::new();
                uuid.append_encoding(&mut out);
                assert(out@ =~= self.spec_bytes());
                out
            },
            DeclarationValue::CharacteristicDeclaration { permissions, value_handle, uuid } => {
                let mut out: Vec<u8> = Vec::new();
                out.push(properties_byte(*permissions));
                out.push((value_handle.0 % 256) as u8);
                out.push((value_handle.0 / 256) as u8);
                uuid.append_encoding(&mut out);
                assert(out@ =~= self.spec_bytes());
                out
            },
        }
    }
}

/// Derives the characteristic properties byte from the value attribute's
/// permissions.
pub fn properties_byte(p: AttPermissions) -> (r: u8)
    ensures
        r == spec_properties_byte(p),
{
    (if p.readable() {
        0x02u8
    } else {
        0u8
    }) + (if p.writable() {
        0x08u8
    } else {
        0u8
    }) + (if p.indicate() {
        0x20u8
    } else {
        0u8
    })
}

} // verus!
