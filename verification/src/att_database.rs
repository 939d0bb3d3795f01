//! Attribute metadata: permissions, type UUIDs, the ATT error codes the core
//! produces, and the backing kinds a datastore distinguishes.

use vstd::prelude::*;

use crate::ids::AttHandle;
use crate::uuid::Uuid;

verus! {

/// An immutable set of attribute permissions drawn from
/// {readable, writable, indicate}.
#[derive(Clone, Copy, Debug, PartialEq, Eq, Structural)]
pub struct AttPermissions {
    /// Bit 0: readable; bit 1: writable; bit 2: indicate.
    pub bits: u8,
}

impl AttPermissions {
    /// True when the attribute may be read.
    pub open spec fn spec_readable(self) -> bool {
        self.bits % 2 == 1
    }

    /// True when the attribute may be written.
    pub open spec fn spec_writable(self) -> bool {
        (self.bits / 2) % 2 == 1
    }

    /// True when the attribute supports indications.
    pub open spec fn spec_indicate(self) -> bool {
        (self.bits / 4) % 2 == 1
    }

    /// The permission set with exactly the given capabilities.
    pub open spec fn spec_new(readable: bool, writable: bool, indicate: bool) -> AttPermissions {
        AttPermissions {
            bits: ((if readable {
                1int
            } else {
                0int
            }) + (if writable {
                2int
            } else {
                0int
            }) + (if indicate {
                4int
            } else {
                0int
            })) as u8,
        }
    }

    /// Builds the permission set with exactly the given capabilities.
    pub fn new(readable: bool, writable: bool, indicate: bool) -> (r: AttPermissions)
        ensures
            r == AttPermissions::spec_new(readable, writable, indicate),
            r.spec_readable() == readable,
            r.spec_writable() == writable,
            r.spec_indicate() == indicate,
    {
        let bits: u8 = (if readable {
            1
        } else {
            0
        }) + (if writable {
            2
        } else {
            0
        }) + (if indicate {
            4
        } else {
            0
        });
        AttPermissions { bits }
    }

    /// The empty permission set: not readable, not writable, no indications.
    pub fn empty() -> (r: AttPermissions)
        ensures
            r == AttPermissions::spec_new(false, false, false),
            !r.spec_readable() && !r.spec_writable() && !r.spec_indicate(),
    {
        AttPermissions { bits: 0 }
    }

    /// True when the attribute may be read.
    pub fn readable(&self) -> (r: bool)
        ensures
            r == self.spec_readable(),
    {
        self.bits % 2 == 1
    }

    /// True when the attribute may be written.
    pub fn writable(&self) -> (r: bool)
        ensures
            r == self.spec_writable(),
    {
        (self.bits / 2) % 2 == 1
    }

    /// True when the attribute supports indications.
    pub fn indicate(&self) -> (r: bool)
        ensures
            r == self.spec_indicate(),
    {
        (self.bits / 4) % 2 == 1
    }
}

/// The ATT error codes this core produces. Wire values are bit-exact per the
/// Attribute Protocol.
#[derive(Clone, Copy, Debug, PartialEq, Eq, Structural)]
pub enum AttErrorCode {
    /// The handle names no live attribute (also returned when the schema the
    /// view was derived from is gone).
    InvalidHandle,
    /// The attribute exists but lacks the readable permission.
    ReadNotPermitted,
    /// The attribute exists but lacks the writable permission.
    WriteNotPermitted,
    /// An unlikely internal failure.
    UnlikelyError,
}

impl AttErrorCode {
    /// The bit-exact value of this error code on the wire.
    pub open spec fn spec_wire_code(self) -> u8 {
        match self {
            AttErrorCode::InvalidHandle => 0x01,
            AttErrorCode::ReadNotPermitted => 0x02,
            AttErrorCode::WriteNotPermitted => 0x03,
            AttErrorCode::UnlikelyError => 0x0E,
        }
    }

    /// The bit-exact value of this error code on the wire.
    pub fn wire_code(self) -> (r: u8)
        ensures
            r == self.spec_wire_code(),
    {
        match self {
            AttErrorCode::InvalidHandle => 0x01,
            AttErrorCode::ReadNotPermitted => 0x02,
            AttErrorCode::WriteNotPermitted => 0x03,
            AttErrorCode::UnlikelyError => 0x0E,
        }
    }
}

/// Tells a datastore whether a delegated operation names a characteristic
/// value or a descriptor.
#[derive(Clone, Copy, Debug, PartialEq, Eq, Structural)]
pub enum AttributeBackingType {
    /// The attribute is a characteristic value.
    Characteristic,
    /// The attribute is a descriptor.
    Descriptor,
}

/// The metadata of one attribute: its handle, its type and its permissions.
#[derive(Clone, Copy, Debug, PartialEq, Eq, Structural)]
pub struct AttAttribute {
    /// The attribute handle.
    pub handle: AttHandle,
    /// The attribute type.
    pub type_: Uuid,
    /// What operations the attribute permits.
    pub permissions: AttPermissions,
}

/// The 16-bit type of a primary service declaration attribute.
pub open spec fn spec_primary_service_declaration_uuid() -> Uuid {
    Uuid::spec_new(0x2800)
}

/// The attribute type of a primary service declaration.
pub fn primary_service_declaration_uuid() -> (r: Uuid)
    ensures
        r == spec_primary_service_declaration_uuid(),
{
    Uuid::new(0x2800)
}

/// The 16-bit type of a characteristic declaration attribute.
pub open spec fn spec_characteristic_uuid() -> Uuid {
    Uuid::spec_new(0x2803)
}

/// The attribute type of a characteristic declaration.
pub fn characteristic_uuid() -> (r: Uuid)
    ensures
        r == spec_characteristic_uuid(),
{
    Uuid::new(0x2803)
}

} // verus!
