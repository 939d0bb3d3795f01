//! The built-in GATT and GAP services installed into every freshly opened
//! server, so their attributes are present from the moment a bearer is
//! created.
//!
//! The GATT service carries the Service Changed characteristic (indicate
//! only); the GAP service carries the Device Name characteristic (readable).
//! Their dynamic values are served by the stack's own datastore, which the
//! executor registers under [`BUILTIN_DATASTORE`].

use vstd::prelude::*;

use crate::att_database::AttAttribute;
use crate::att_database::AttPermissions;
use crate::att_database::spec_characteristic_uuid;
use crate::att_database::spec_primary_service_declaration_uuid;
use crate::declarations::DeclarationValue;
use crate::gatt_database::AttAttributeBackingValue;
use crate::gatt_database::AttAttributeWithBackingValue;
use crate::gatt_database::GattCharacteristicWithHandle;
use crate::gatt_database::GattDatabase;
use crate::gatt_database::GattServiceWithHandle;
use crate::gatt_database::lemma_insert_all_above_appends;
use crate::gatt_database::spec_characteristic_list_records;
use crate::gatt_database::spec_characteristic_records;
use crate::gatt_database::spec_descriptor_records;
use crate::gatt_database::spec_service_records;
use crate::ids::AttHandle;
use crate::ids::DatastoreId;
use crate::uuid::Uuid;

verus! {

/// The datastore id reserved for the stack's own datastore, which serves the
/// dynamic values of the built-in services.
pub const BUILTIN_DATASTORE: u64 = 0;

/// The attribute table of a freshly opened server: the GATT service (handle
/// 1, Service Changed value at 3) and the GAP service (handle 4, Device Name
/// value at 6).
pub open spec fn spec_builtin_records() -> Seq<AttAttributeWithBackingValue> {
    seq![
        AttAttributeWithBackingValue {
            attribute: AttAttribute {
                handle: AttHandle(1),
                type_: spec_primary_service_declaration_uuid(),
                permissions: AttPermissions::spec_new(true, false, false),
            },
            value: AttAttributeBackingValue::Static(
                DeclarationValue::ServiceDeclaration { uuid: Uuid::spec_new(0x1801) },
            ),
        },
        AttAttributeWithBackingValue {
            attribute: AttAttribute {
                handle: AttHandle(2),
                type_: spec_characteristic_uuid(),
                permissions: AttPermissions::spec_new(true, false, false),
            },
            value: AttAttributeBackingValue::Static(
                DeclarationValue::CharacteristicDeclaration {
                    permissions: AttPermissions::spec_new(false, false, true),
                    value_handle: AttHandle(3),
                    uuid: Uuid::spec_new(0x2A05),
                },
            ),
        },
        AttAttributeWithBackingValue {
            attribute: AttAttribute {
                handle: AttHandle(3),
                type_: Uuid::spec_new(0x2A05),
                permissions: AttPermissions::spec_new(false, false, true),
            },
            value: AttAttributeBackingValue::DynamicCharacteristic(
                DatastoreId(BUILTIN_DATASTORE),
            ),
        },
        AttAttributeWithBackingValue {
            attribute: AttAttribute {
                handle: AttHandle(4),
                type_: spec_primary_service_declaration_uuid(),
                permissions: AttPermissions::spec_new(true, false, false),
            },
            value: AttAttributeBackingValue::Static(
                DeclarationValue::ServiceDeclaration { uuid: Uuid::spec_new(0x1800) },
            ),
        },
        AttAttributeWithBackingValue {
            attribute: AttAttribute {
                handle: AttHandle(5),
                type_: spec_characteristic_uuid(),
                permissions: AttPermissions::spec_new(true, false, false),
            },
            value: AttAttributeBackingValue::Static(
                DeclarationValue::CharacteristicDeclaration {
                    permissions: AttPermissions::spec_new(true, false, false),
                    value_handle: AttHandle(6),
                    uuid: Uuid::spec_new(0x2A00),
                },
            ),
        },
        AttAttributeWithBackingValue {
            attribute: AttAttribute {
                handle: AttHandle(6),
                type_: Uuid::spec_new(0x2A00),
                permissions: AttPermissions::spec_new(true, false, false),
            },
            value: AttAttributeBackingValue::DynamicCharacteristic(
                DatastoreId(BUILTIN_DATASTORE),
            ),
        },
    ]
}

/// Installs the built-in GATT and GAP services into a fresh schema.
///
/// The built-in handles cannot collide in an empty table, so installation
/// always succeeds and yields exactly [`spec_builtin_records`].
pub fn register_builtin_services(db: &mut GattDatabase)
    requires
        old(db).wf(),
        old(db).records() == Seq::<AttAttributeWithBackingValue>::empty(),
    ensures
        final(db).wf(),
        final(db).records() == spec_builtin_records(),
{
    let builtin = DatastoreId(BUILTIN_DATASTORE);

    // GATT service: Service Changed, indicate only.
    let mut gatt_chars: Vec<GattCharacteristicWithHandle> = Vec::new();
    gatt_chars.push(
        GattCharacteristicWithHandle {
            handle: AttHandle(3),
            type_: Uuid::new(0x2A05),
            permissions: AttPermissions::new(false, false, true),
            descriptors: Vec::new(),
        },
    );
    let gatt_service = GattServiceWithHandle {
        handle: AttHandle(1),
        type_: Uuid::new(0x1801),
        characteristics: gatt_chars,
    };
    let ghost rs1 = spec_service_records(gatt_service, builtin);
    proof {
        lemma_singleton_service_records(gatt_service, builtin);
        assert(rs1 =~= spec_builtin_records().subrange(0, 3));
    }
    let r1 = db.add_service_with_handles(gatt_service, builtin);
    proof {
        assert(r1 is Ok);
        lemma_insert_all_above_appends(Seq::empty(), rs1);
        assert(db.records() =~= spec_builtin_records().subrange(0, 3));
    }

    // GAP service: Device Name, readable.
    let mut gap_chars: Vec<GattCharacteristicWithHandle> = Vec::new();
    gap_chars.push(
        GattCharacteristicWithHandle {
            handle: AttHandle(6),
            type_: Uuid::new(0x2A00),
            permissions: AttPermissions::new(true, false, false),
            descriptors: Vec::new(),
        },
    );
    let gap_service = GattServiceWithHandle {
        handle: AttHandle(4),
        type_: Uuid::new(0x1800),
        characteristics: gap_chars,
    };
    let ghost rs2 = spec_service_records(gap_service, builtin);
    let ghost mid = db.records();
    proof {
        lemma_singleton_service_records(gap_service, builtin);
        assert(rs2 =~= spec_builtin_records().subrange(3, 6));
    }
    let r2 = db.add_service_with_handles(gap_service, builtin);
    proof {
        assert(r2 is Ok);
        lemma_insert_all_above_appends(mid, rs2);
        assert(db.records() =~= spec_builtin_records());
    }
}

/// Evaluates the records of a service with exactly one descriptor-free
/// characteristic.
proof fn lemma_singleton_service_records(s: GattServiceWithHandle, d: DatastoreId)
    requires
        s.characteristics@.len() == 1,
        s.characteristics@[0].descriptors@.len() == 0,
    ensures
        spec_service_records(s, d) =~= seq![
            crate::gatt_database::spec_service_declaration_record(s),
            crate::gatt_database::spec_characteristic_declaration_record(s.characteristics@[0]),
            crate::gatt_database::spec_characteristic_value_record(s.characteristics@[0], d),
        ],
{
    let chars = s.characteristics@;
    let c = chars[0];
    assert(spec_descriptor_records(c.descriptors@, d) =~= Seq::empty());
    assert(chars.drop_last() =~= Seq::<GattCharacteristicWithHandle>::empty());
    assert(chars.last() == c);
    assert(spec_characteristic_list_records(Seq::empty(), d) =~= Seq::empty());
    assert(spec_characteristic_list_records(chars, d) == spec_characteristic_list_records(
        Seq::empty(),
        d,
    ) + spec_characteristic_records(c, d));
    assert(spec_characteristic_list_records(chars, d) =~= spec_characteristic_records(c, d));
}

} // verus!
