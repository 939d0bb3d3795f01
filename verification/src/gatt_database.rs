//! The per-server GATT schema and the per-connection view that resolves ATT
//! operations against it.
//!
//! A schema is an ordered attribute table: a sequence of attribute records
//! kept strictly ascending by handle. Services are added and removed
//! atomically; a failed addition leaves the table untouched. A
//! per-connection view resolves a read or write either to the encoded value
//! of a declaration, served synchronously, or to a delegation request naming
//! the application datastore that owns the value.

use vstd::prelude::*;

use crate::att_database::AttAttribute;
use crate::att_database::AttErrorCode;
use crate::att_database::AttPermissions;
use crate::att_database::AttributeBackingType;
use crate::att_database::spec_characteristic_uuid;
use crate::att_database::spec_primary_service_declaration_uuid;
use crate::att_database::characteristic_uuid;
use crate::att_database::primary_service_declaration_uuid;
use crate::declarations::DeclarationValue;
use crate::ids::AttHandle;
use crate::ids::ConnectionId;
use crate::ids::DatastoreId;
use crate::shared_box::SharedBox;
use crate::uuid::Uuid;

verus! {

/// A service to be installed: its declaration handle, its type, and its
/// characteristics, whose handles the caller has already allocated.
#[derive(Clone, Debug)]
pub struct GattServiceWithHandle {
    /// The handle of the service declaration.
    pub handle: AttHandle,
    /// The type of the service.
    pub type_: Uuid,
    /// The contained characteristics.
    pub characteristics: Vec<GattCharacteristicWithHandle>,
}

/// A characteristic to be installed. Its declaration lives one handle before
/// the value handle.
#[derive(Clone, Debug)]
pub struct GattCharacteristicWithHandle {
    /// The handle of the characteristic value attribute.
    pub handle: AttHandle,
    /// The type of the characteristic value.
    pub type_: Uuid,
    /// What operations the characteristic value permits.
    pub permissions: AttPermissions,
    /// The descriptors attached to this characteristic.
    pub descriptors: Vec<GattDescriptorWithHandle>,
}

/// A descriptor to be installed.
#[derive(Clone, Copy, Debug)]
pub struct GattDescriptorWithHandle {
    /// The handle of the descriptor.
    pub handle: AttHandle,
    /// The type of the descriptor.
    pub type_: Uuid,
    /// What operations the descriptor permits.
    pub permissions: AttPermissions,
}

/// Where an attribute's value comes from.
#[derive(Clone, Copy, Debug, PartialEq, Eq, Structural)]
pub enum AttAttributeBackingValue {
    /// A declaration value owned by the schema, served synchronously.
    Static(DeclarationValue),
    /// A characteristic value owned by the named application datastore.
    DynamicCharacteristic(DatastoreId),
    /// A descriptor value owned by the named application datastore.
    DynamicDescriptor(DatastoreId),
}

/// One attribute record: its metadata and where its value comes from.
#[derive(Clone, Copy, Debug, PartialEq, Eq, Structural)]
pub struct AttAttributeWithBackingValue {
    /// The attribute's handle, type and permissions.
    pub attribute: AttAttribute,
    /// Where the attribute's value comes from.
    pub value: AttAttributeBackingValue,
}

/// Why a schema mutation was refused.
#[derive(Clone, Copy, Debug, PartialEq, Eq, Structural)]
pub enum GattDatabaseError {
    /// A handle of the service being added is taken, either by the live
    /// table or by another attribute of the same service.
    DuplicateHandle,
}

/// The metadata of every record of `s`, in table order.
pub open spec fn spec_attributes_of(s: Seq<AttAttributeWithBackingValue>) -> Seq<AttAttribute> {
    Seq::new(s.len(), |i: int| s[i].attribute)
}

/// True when some record of `s` carries `handle`.
pub open spec fn spec_has_handle(s: Seq<AttAttributeWithBackingValue>, handle: AttHandle) -> bool {
    exists|i: int| 0 <= i < s.len() && s[i].attribute.handle == handle
}

/// True when the records of `s` are strictly ascending by handle.
pub open spec fn handles_strictly_ascending(s: Seq<AttAttributeWithBackingValue>) -> bool {
    forall|i: int, j: int|
        0 <= i < j < s.len() ==> s[i].attribute.handle.0 < s[j].attribute.handle.0
}

/// True when no two records of `s` share a handle.
pub open spec fn handles_distinct(s: Seq<AttAttributeWithBackingValue>) -> bool {
    forall|i: int, j: int|
        0 <= i < j < s.len() ==> s[i].attribute.handle != s[j].attribute.handle
}

/// The first record of `s` carrying `handle`, if any.
pub open spec fn spec_lookup(s: Seq<AttAttributeWithBackingValue>, handle: AttHandle) -> Option<
    AttAttributeWithBackingValue,
>
    decreases s.len(),
{
    if s.len() == 0 {
        None
    } else if s[0].attribute.handle == handle {
        Some(s[0])
    } else {
        spec_lookup(s.drop_first(), handle)
    }
}

/// `s` with `rec` inserted before the first record of larger handle.
pub open spec fn spec_insert(
    s: Seq<AttAttributeWithBackingValue>,
    rec: AttAttributeWithBackingValue,
) -> Seq<AttAttributeWithBackingValue>
    decreases s.len(),
{
    if s.len() == 0 {
        seq![rec]
    } else if rec.attribute.handle.0 < s[0].attribute.handle.0 {
        seq![rec] + s
    } else {
        seq![s[0]] + spec_insert(s.drop_first(), rec)
    }
}

/// `s` after inserting every record of `rs`, in order.
pub open spec fn spec_insert_all(
    s: Seq<AttAttributeWithBackingValue>,
    rs: Seq<AttAttributeWithBackingValue>,
) -> Seq<AttAttributeWithBackingValue>
    decreases rs.len(),
{
    if rs.len() == 0 {
        s
    } else {
        spec_insert(spec_insert_all(s, rs.drop_last()), rs.last())
    }
}

/// The service declaration record of `s`: readable, typed as a primary
/// service declaration, holding the encoded service UUID.
pub open spec fn spec_service_declaration_record(
    s: GattServiceWithHandle,
) -> AttAttributeWithBackingValue {
    AttAttributeWithBackingValue {
        attribute: AttAttribute {
            handle: s.handle,
            type_: spec_primary_service_declaration_uuid(),
            permissions: AttPermissions::spec_new(true, false, false),
        },
        value: AttAttributeBackingValue::Static(
            DeclarationValue::ServiceDeclaration { uuid: s.type_ },
        ),
    }
}

/// The declaration record of characteristic `c`: one handle before the value
/// handle, readable, typed as a characteristic declaration.
pub open spec fn spec_characteristic_declaration_record(
    c: GattCharacteristicWithHandle,
) -> AttAttributeWithBackingValue {
    AttAttributeWithBackingValue {
        attribute: AttAttribute {
            handle: AttHandle((c.handle.0 - 1) as u16),
            type_: spec_characteristic_uuid(),
            permissions: AttPermissions::spec_new(true, false, false),
        },
        value: AttAttributeBackingValue::Static(
            DeclarationValue::CharacteristicDeclaration {
                permissions: c.permissions,
                value_handle: c.handle,
                uuid: c.type_,
            },
        ),
    }
}

/// The value record of characteristic `c`, backed by datastore `d`.
pub open spec fn spec_characteristic_value_record(
    c: GattCharacteristicWithHandle,
    d: DatastoreId,
) -> AttAttributeWithBackingValue {
    AttAttributeWithBackingValue {
        attribute: AttAttribute { handle: c.handle, type_: c.type_, permissions: c.permissions },
        value: AttAttributeBackingValue::DynamicCharacteristic(d),
    }
}

/// The record of descriptor `desc`, backed by datastore `d`.
pub open spec fn spec_descriptor_record(
    desc: GattDescriptorWithHandle,
    d: DatastoreId,
) -> AttAttributeWithBackingValue {
    AttAttributeWithBackingValue {
        attribute: AttAttribute {
            handle: desc.handle,
            type_: desc.type_,
            permissions: desc.permissions,
        },
        value: AttAttributeBackingValue::DynamicDescriptor(d),
    }
}

/// The records of a list of descriptors, in input order.
pub open spec fn spec_descriptor_records(
    descs: Seq<GattDescriptorWithHandle>,
    d: DatastoreId,
) -> Seq<AttAttributeWithBackingValue>
    decreases descs.len(),
{
    if descs.len() == 0 {
        Seq::empty()
    } else {
        spec_descriptor_records(descs.drop_last(), d).push(
            spec_descriptor_record(descs.last(), d),
        )
    }
}

/// The records contributed by one characteristic: its declaration, its value,
/// then its descriptors in input order.
pub open spec fn spec_characteristic_records(
    c: GattCharacteristicWithHandle,
    d: DatastoreId,
) -> Seq<AttAttributeWithBackingValue> {
    seq![
        spec_characteristic_declaration_record(c),
        spec_characteristic_value_record(c, d),
    ] + spec_descriptor_records(c.descriptors@, d)
}

/// The records contributed by a list of characteristics, in input order.
pub open spec fn spec_characteristic_list_records(
    chars: Seq<GattCharacteristicWithHandle>,
    d: DatastoreId,
) -> Seq<AttAttributeWithBackingValue>
    decreases chars.len(),
{
    if chars.len() == 0 {
        Seq::empty()
    } else {
        spec_characteristic_list_records(chars.drop_last(), d) + spec_characteristic_records(
            chars.last(),
            d,
        )
    }
}

/// All records contributed by service `s` backed by datastore `d`, in
/// canonical order: the service declaration, then for each characteristic its
/// declaration, its value and its descriptors.
pub open spec fn spec_service_records(s: GattServiceWithHandle, d: DatastoreId) -> Seq<
    AttAttributeWithBackingValue,
> {
    seq![spec_service_declaration_record(s)] + spec_characteristic_list_records(
        s.characteristics@,
        d,
    )
}

/// True when the records `rs` can join the table `db`: their handles are
/// pairwise distinct and none is already taken.
pub open spec fn spec_can_add(
    db: Seq<AttAttributeWithBackingValue>,
    rs: Seq<AttAttributeWithBackingValue>,
) -> bool {
    handles_distinct(rs) && forall|j: int|
        0 <= j < rs.len() ==> !spec_has_handle(db, rs[j].attribute.handle)
}

/// The handle of the first primary service declaration after `after`, if any.
pub open spec fn spec_next_service_handle(
    s: Seq<AttAttributeWithBackingValue>,
    after: AttHandle,
) -> Option<u16>
    decreases s.len(),
{
    if s.len() == 0 {
        None
    } else if s[0].attribute.handle.0 > after.0 && s[0].attribute.type_
        == spec_primary_service_declaration_uuid() {
        Some(s[0].attribute.handle.0)
    } else {
        spec_next_service_handle(s.drop_first(), after)
    }
}

/// True when a record at `handle` belongs to the service that starts at `lo`:
/// `lo <= handle`, and `handle` is below the next service's declaration when
/// one exists.
pub open spec fn spec_in_service_range(handle: AttHandle, lo: AttHandle, next: Option<u16>) -> bool {
    lo.0 <= handle.0 && match next {
        Some(n) => handle.0 < n,
        None => true,
    }
}

/// `s` without the records whose handles lie in the service range
/// `[lo, next)`.
pub open spec fn spec_remove_range(
    s: Seq<AttAttributeWithBackingValue>,
    lo: AttHandle,
    next: Option<u16>,
) -> Seq<AttAttributeWithBackingValue>
    decreases s.len(),
{
    if s.len() == 0 {
        s
    } else {
        let rest = spec_remove_range(s.drop_last(), lo, next);
        if spec_in_service_range(s.last().attribute.handle, lo, next) {
            rest
        } else {
            rest.push(s.last())
        }
    }
}

/// The table after removing the service that starts at `service_handle`:
/// every record from `service_handle` up to (not including) the next primary
/// service declaration is dropped.
pub open spec fn spec_remove_service(
    s: Seq<AttAttributeWithBackingValue>,
    service_handle: AttHandle,
) -> Seq<AttAttributeWithBackingValue> {
    spec_remove_range(s, service_handle, spec_next_service_handle(s, service_handle))
}

/// A lookup succeeds exactly on the handles the table holds, and returns a
/// record of the table carrying the asked-for handle.
pub proof fn lemma_lookup_properties(s: Seq<AttAttributeWithBackingValue>, handle: AttHandle)
    ensures
        spec_lookup(s, handle) is None <==> !spec_has_handle(s, handle),
        spec_lookup(s, handle) matches Some(r) ==> r.attribute.handle == handle && s.contains(r),
    decreases s.len(),
{
    if s.len() == 0 {
    } else if s[0].attribute.handle == handle {
        assert(spec_has_handle(s, handle));
    } else {
        lemma_lookup_properties(s.drop_first(), handle);
        if spec_has_handle(s, handle) {
            let i = choose|i: int| 0 <= i < s.len() && s[i].attribute.handle == handle;
            assert(s.drop_first()[i - 1] == s[i]);
            assert(spec_has_handle(s.drop_first(), handle));
        }
        if spec_lookup(s, handle) is Some {
            let r = spec_lookup(s, handle)->Some_0;
            assert(s.drop_first().contains(r));
            let i = choose|i: int| 0 <= i < s.drop_first().len() && s.drop_first()[i] == r;
            assert(s[i + 1] == r);
        }
    }
}

/// Inserting at the position the exec search finds matches `spec_insert`.
pub proof fn lemma_spec_insert_at(
    s: Seq<AttAttributeWithBackingValue>,
    rec: AttAttributeWithBackingValue,
    idx: int,
)
    requires
        0 <= idx <= s.len(),
        forall|k: int| 0 <= k < idx ==> s[k].attribute.handle.0 < rec.attribute.handle.0,
        idx < s.len() ==> s[idx].attribute.handle.0 > rec.attribute.handle.0,
    ensures
        spec_insert(s, rec) == s.insert(idx, rec),
    decreases s.len(),
{
    if s.len() == 0 {
        assert(spec_insert(s, rec) =~= s.insert(0, rec));
    } else if rec.attribute.handle.0 < s[0].attribute.handle.0 {
        assert(idx == 0);
        assert(seq![rec] + s =~= s.insert(0, rec));
    } else {
        assert(idx >= 1);
        lemma_spec_insert_at(s.drop_first(), rec, idx - 1);
        assert(seq![s[0]] + s.drop_first().insert(idx - 1, rec) =~= s.insert(idx, rec));
    }
}

/// Inserting a fresh record keeps the table strictly ascending, grows it by
/// one, takes exactly the new handle, and adds no record but the new one.
#[verifier::rlimit(100)]
pub proof fn lemma_insert_properties(
    s: Seq<AttAttributeWithBackingValue>,
    rec: AttAttributeWithBackingValue,
)
    requires
        handles_strictly_ascending(s),
        !spec_has_handle(s, rec.attribute.handle),
    ensures
        handles_strictly_ascending(spec_insert(s, rec)),
        spec_insert(s, rec).len() == s.len() + 1,
        forall|h: AttHandle|
            spec_has_handle(spec_insert(s, rec), h) <==> (spec_has_handle(s, h)
                || h == rec.attribute.handle),
        forall|k: int|
            0 <= k < spec_insert(s, rec).len() ==> (#[trigger] spec_insert(s, rec)[k] == rec
                || s.contains(spec_insert(s, rec)[k])),
    decreases s.len(),
{
    let out = spec_insert(s, rec);
    if s.len() == 0 {
        assert forall|h: AttHandle| spec_has_handle(out, h) implies (spec_has_handle(s, h)
            || h == rec.attribute.handle) by {}
        assert(spec_has_handle(out, rec.attribute.handle)) by {
            assert(out[0] == rec);
        }
    } else if rec.attribute.handle.0 < s[0].attribute.handle.0 {
        assert(out =~= seq![rec] + s);
        assert forall|i: int, j: int| 0 <= i < j < out.len() implies out[i].attribute.handle.0
            < out[j].attribute.handle.0 by {
            if i >= 1 {
                assert(out[i] == s[i - 1] && out[j] == s[j - 1]);
            } else {
                assert(out[j] == s[j - 1]);
                if j >= 2 {
                    assert(s[0].attribute.handle.0 < s[j - 1].attribute.handle.0);
                }
            }
        }
        assert forall|h: AttHandle| spec_has_handle(s, h) || h
            == rec.attribute.handle implies spec_has_handle(out, h) by {
            if spec_has_handle(s, h) {
                let i = choose|i: int| 0 <= i < s.len() && s[i].attribute.handle == h;
                assert(out[i + 1] == s[i]);
            } else {
                assert(out[0] == rec);
            }
        }
        assert forall|h: AttHandle| spec_has_handle(out, h) implies (spec_has_handle(s, h)
            || h == rec.attribute.handle) by {
            let i = choose|i: int| 0 <= i < out.len() && out[i].attribute.handle == h;
            if i >= 1 {
                assert(out[i] == s[i - 1]);
            }
        }
        assert forall|k: int| 0 <= k < out.len() implies (#[trigger] out[k] == rec || s.contains(
            out[k],
        )) by {
            if k >= 1 {
                assert(out[k] == s[k - 1]);
            }
        }
    } else {
        assert(s[0].attribute.handle != rec.attribute.handle) by {
            assert(!(s[0].attribute.handle == rec.attribute.handle)) by {
                if s[0].attribute.handle == rec.attribute.handle {
                    assert(spec_has_handle(s, rec.attribute.handle));
                }
            }
        }
        assert(s[0].attribute.handle.0 < rec.attribute.handle.0);
        let tail = s.drop_first();
        assert(handles_strictly_ascending(tail)) by {
            assert(forall|m: int|
                0 <= m < tail.len() ==> #[trigger] tail[m] == s[m + 1]);
        }
        assert(!spec_has_handle(tail, rec.attribute.handle)) by {
            if spec_has_handle(tail, rec.attribute.handle) {
                let i = choose|i: int|
                    0 <= i < tail.len() && tail[i].attribute.handle == rec.attribute.handle;
                assert(s[i + 1] == tail[i]);
                assert(spec_has_handle(s, rec.attribute.handle));
            }
        }
        lemma_insert_properties(tail, rec);
        let sub = spec_insert(tail, rec);
        assert(out =~= seq![s[0]] + sub);
        assert forall|i: int, j: int| 0 <= i < j < out.len() implies out[i].attribute.handle.0
            < out[j].attribute.handle.0 by {
            if i >= 1 {
                assert(out[i] == sub[i - 1] && out[j] == sub[j - 1]);
            } else {
                assert(out[j] == sub[j - 1]);
                assert(sub[j - 1] == rec || tail.contains(sub[j - 1]));
                if tail.contains(sub[j - 1]) {
                    let m = choose|m: int| 0 <= m < tail.len() && tail[m] == sub[j - 1];
                    assert(s[m + 1] == tail[m]);
                    assert(s[0].attribute.handle.0 < s[m + 1].attribute.handle.0);
                }
            }
        }
        assert forall|h: AttHandle| spec_has_handle(s, h) || h
            == rec.attribute.handle implies spec_has_handle(out, h) by {
            if spec_has_handle(s, h) {
                let i = choose|i: int| 0 <= i < s.len() && s[i].attribute.handle == h;
                if i == 0 {
                    assert(out[0] == s[0]);
                } else {
                    assert(tail[i - 1] == s[i]);
                    assert(spec_has_handle(tail, h));
                    assert(spec_has_handle(sub, h));
                    let m = choose|m: int| 0 <= m < sub.len() && sub[m].attribute.handle == h;
                    assert(out[m + 1] == sub[m]);
                }
            } else {
                assert(spec_has_handle(sub, h));
                let m = choose|m: int| 0 <= m < sub.len() && sub[m].attribute.handle == h;
                assert(out[m + 1] == sub[m]);
            }
        }
        assert forall|h: AttHandle| spec_has_handle(out, h) implies (spec_has_handle(s, h)
            || h == rec.attribute.handle) by {
            let i = choose|i: int| 0 <= i < out.len() && out[i].attribute.handle == h;
            if i == 0 {
                assert(out[0] == s[0]);
                assert(spec_has_handle(s, h));
            } else {
                assert(out[i] == sub[i - 1]);
                assert(spec_has_handle(sub, h));
                if spec_has_handle(tail, h) {
                    let m = choose|m: int| 0 <= m < tail.len() && tail[m].attribute.handle == h;
                    assert(s[m + 1] == tail[m]);
                    assert(spec_has_handle(s, h));
                }
            }
        }
        assert forall|k: int| 0 <= k < out.len() implies (#[trigger] out[k] == rec || s.contains(
            out[k],
        )) by {
            if k == 0 {
                assert(s.contains(out[0])) by {
                    assert(out[0] == s[0]);
                }
            } else {
                assert(out[k] == sub[k - 1]);
                if tail.contains(sub[k - 1]) {
                    let m = choose|m: int| 0 <= m < tail.len() && tail[m] == sub[k - 1];
                    assert(s[m + 1] == tail[m]);
                }
            }
        }
    }
}

/// Inserting a batch of fresh, pairwise distinct records keeps the table
/// strictly ascending, grows it by the batch size, and takes exactly the
/// batch's handles.
pub proof fn lemma_insert_all_properties(
    s: Seq<AttAttributeWithBackingValue>,
    rs: Seq<AttAttributeWithBackingValue>,
)
    requires
        handles_strictly_ascending(s),
        spec_can_add(s, rs),
    ensures
        handles_strictly_ascending(spec_insert_all(s, rs)),
        spec_insert_all(s, rs).len() == s.len() + rs.len(),
        forall|h: AttHandle|
            spec_has_handle(spec_insert_all(s, rs), h) <==> (spec_has_handle(s, h)
                || spec_has_handle(rs, h)),
    decreases rs.len(),
{
    if rs.len() == 0 {
    } else {
        let front = rs.drop_last();
        assert(spec_can_add(s, front)) by {
            assert(forall|j: int| 0 <= j < front.len() ==> front[j] == rs[j]);
        }
        lemma_insert_all_properties(s, front);
        let mid = spec_insert_all(s, front);
        assert(!spec_has_handle(mid, rs.last().attribute.handle)) by {
            assert(!spec_has_handle(s, rs.last().attribute.handle));
            assert(!spec_has_handle(front, rs.last().attribute.handle)) by {
                if spec_has_handle(front, rs.last().attribute.handle) {
                    let j = choose|j: int|
                        0 <= j < front.len() && front[j].attribute.handle
                            == rs.last().attribute.handle;
                    assert(rs[j].attribute.handle == rs[rs.len() - 1].attribute.handle);
                }
            }
        }
        lemma_insert_properties(mid, rs.last());
        assert forall|h: AttHandle| spec_has_handle(spec_insert_all(s, rs), h) <==> (
        spec_has_handle(s, h) || spec_has_handle(rs, h)) by {
            if spec_has_handle(rs, h) && h != rs.last().attribute.handle {
                let j = choose|j: int|
                    0 <= j < rs.len() && rs[j].attribute.handle == h;
                if j < rs.len() - 1 {
                    assert(front[j] == rs[j]);
                    assert(spec_has_handle(front, h));
                }
            }
            if spec_has_handle(front, h) {
                let j = choose|j: int| 0 <= j < front.len() && front[j].attribute.handle == h;
                assert(rs[j] == front[j]);
                assert(spec_has_handle(rs, h));
            }
        }
    }
}

/// Removing a service range keeps the table strictly ascending and keeps only
/// records of the input table that lie outside the range.
pub proof fn lemma_remove_range_properties(
    s: Seq<AttAttributeWithBackingValue>,
    lo: AttHandle,
    next: Option<u16>,
)
    requires
        handles_strictly_ascending(s),
    ensures
        handles_strictly_ascending(spec_remove_range(s, lo, next)),
        spec_remove_range(s, lo, next).len() <= s.len(),
        forall|k: int|
            0 <= k < spec_remove_range(s, lo, next).len() ==> s.contains(
                #[trigger] spec_remove_range(s, lo, next)[k],
            ) && !spec_in_service_range(
                spec_remove_range(s, lo, next)[k].attribute.handle,
                lo,
                next,
            ),
        forall|i: int|
            0 <= i < s.len() && !spec_in_service_range(
                (#[trigger] s[i]).attribute.handle,
                lo,
                next,
            ) ==> spec_remove_range(s, lo, next).contains(s[i]),
    decreases s.len(),
{
    if s.len() == 0 {
    } else {
        let front = s.drop_last();
        assert(handles_strictly_ascending(front)) by {
            assert(forall|m: int| 0 <= m < front.len() ==> front[m] == s[m]);
        }
        lemma_remove_range_properties(front, lo, next);
        let rest = spec_remove_range(front, lo, next);
        let out = spec_remove_range(s, lo, next);
        assert forall|k: int| 0 <= k < rest.len() implies s.contains(rest[k]) by {
            assert(front.contains(rest[k]));
            let m = choose|m: int| 0 <= m < front.len() && front[m] == rest[k];
            assert(s[m] == front[m]);
        }
        assert forall|i: int|
            0 <= i < s.len() && !spec_in_service_range(
            (#[trigger] s[i]).attribute.handle,
            lo,
            next,
        ) implies out.contains(s[i]) by {
            if i < s.len() - 1 {
                assert(front[i] == s[i]);
                assert(rest.contains(s[i]));
                let m = choose|m: int| 0 <= m < rest.len() && rest[m] == s[i];
                if !spec_in_service_range(s.last().attribute.handle, lo, next) {
                    assert(out == rest.push(s.last()));
                    assert(out[m] == s[i]);
                }
            } else {
                assert(out == rest.push(s.last()));
                assert(out[out.len() - 1] == s[i]);
            }
        }
        if spec_in_service_range(s.last().attribute.handle, lo, next) {
            assert(out == rest);
        } else {
            assert(out == rest.push(s.last()));
            assert(s.contains(s.last())) by {
                assert(s[s.len() - 1] == s.last());
            }
            assert forall|i: int, j: int| 0 <= i < j < out.len() implies out[i].attribute.handle.0
                < out[j].attribute.handle.0 by {
                if j < out.len() - 1 {
                    assert(out[i] == rest[i] && out[j] == rest[j]);
                } else {
                    assert(out[j] == s.last());
                    assert(out[i] == rest[i]);
                    assert(front.contains(rest[i]));
                    let m = choose|m: int| 0 <= m < front.len() && front[m] == rest[i];
                    assert(s[m] == front[m]);
                    assert(s[m].attribute.handle.0 < s[s.len() - 1].attribute.handle.0);
                }
            }
        }
    }
}

/// The per-server schema: an attribute table ordered by handle, mutated only
/// through service add and remove.
pub struct GattDatabase {
    schema: Vec<AttAttributeWithBackingValue>,
}

impl GattDatabase {
    /// The attribute records of this schema, in table order.
    pub closed spec fn records(self) -> Seq<AttAttributeWithBackingValue> {
        self.schema@
    }

    /// The schema's invariant: records strictly ascending by handle, so no
    /// two attributes share a handle.
    pub open spec fn wf(self) -> bool {
        handles_strictly_ascending(self.records())
    }

    /// Builds an empty schema.
    pub fn new() -> (r: GattDatabase)
        ensures
            r.wf(),
            r.records() == Seq::<AttAttributeWithBackingValue>::empty(),
    {
        let r = GattDatabase { schema: Vec::new() };
        proof {
            assert(r.records() =~= Seq::<AttAttributeWithBackingValue>::empty());
        }
        r
    }

    /// Looks up the record at `handle`, if any.
    pub fn lookup(&self, handle: AttHandle) -> (r: Option<AttAttributeWithBackingValue>)
        ensures
            r == spec_lookup(self.records(), handle),
    {
        let ghost s = self.schema@;
        let n = self.schema.len();
        let mut i: usize = 0;
        proof {
            assert(s.skip(0) =~= s);
        }
        while i < n
            invariant
                i <= n,
                n == self.schema.len(),
                s == self.schema@,
                spec_lookup(s, handle) == spec_lookup(s.skip(i as int), handle),
            decreases n - i,
        {
            let rec = self.schema[i];
            proof {
                assert(s.skip(i as int)[0] == s[i as int]);
                assert(s.skip(i as int).drop_first() =~= s.skip(i as int + 1));
            }
            if rec.attribute.handle.0 == handle.0 {
                return Some(rec);
            }
            i += 1;
        }
        proof {
            assert(s.skip(n as int).len() == 0);
        }
        None
    }

    /// Lists the metadata of every attribute, in ascending handle order.
    pub fn list_attributes(&self) -> (r: Vec<AttAttribute>)
        ensures
            r@ == spec_attributes_of(self.records()),
    {
        let ghost s = self.schema@;
        let n = self.schema.len();
        let mut out: Vec<AttAttribute> = Vec::new();
        let mut i: usize = 0;
        while i < n
            invariant
                i <= n,
                n == self.schema.len(),
                s == self.schema@,
                out@ == spec_attributes_of(s.subrange(0, i as int)),
            decreases n - i,
        {
            out.push(self.schema[i].attribute);
            proof {
                assert(out@ =~= spec_attributes_of(s.subrange(0, i as int + 1)));
            }
            i += 1;
        }
        proof {
            assert(s.subrange(0, n as int) =~= s);
        }
        out
    }

    /// Adds a service with caller-allocated handles, its dynamic attributes
    /// backed by `datastore`.
    ///
    /// Builds one record per attribute in canonical order (service
    /// declaration, then per characteristic its declaration, its value and
    /// its descriptors), refuses the whole service if any handle is taken by
    /// the live table or doubled within the service, and otherwise merges all
    /// records atomically.
    pub fn add_service_with_handles(
        &mut self,
        service: GattServiceWithHandle,
        datastore: DatastoreId,
    ) -> (r: Result<(), GattDatabaseError>)
        requires
            old(self).wf(),
            forall|i: int|
                0 <= i < service.characteristics@.len()
                    ==> (#[trigger] service.characteristics@[i]).handle.0 >= 1,
        ensures
            final(self).wf(),
            r is Ok <==> spec_can_add(
                old(self).records(),
                spec_service_records(service, datastore),
            ),
            r is Ok ==> final(self).records() == spec_insert_all(
                old(self).records(),
                spec_service_records(service, datastore),
            ),
            r is Err ==> final(self).records() == old(self).records() && r == Err::<
                (),
                GattDatabaseError,
            >(GattDatabaseError::DuplicateHandle),
    {
        let ghost rs = spec_service_records(service, datastore);
        let ghost chars = service.characteristics@;

        // Build the provisional records in canonical order.
        let mut provisional: Vec<AttAttributeWithBackingValue> = Vec::new();
        provisional.push(
            AttAttributeWithBackingValue {
                attribute: AttAttribute {
                    handle: service.handle,
                    type_: primary_service_declaration_uuid(),
                    permissions: AttPermissions::new(true, false, false),
                },
                value: AttAttributeBackingValue::Static(
                    DeclarationValue::ServiceDeclaration { uuid: service.type_ },
                ),
            },
        );
        proof {
            assert(provisional@ =~= seq![spec_service_declaration_record(service)]);
        }
        let char_count = service.characteristics.len();
        let mut ci: usize = 0;
        while ci < char_count
            invariant
                ci <= char_count,
                char_count == service.characteristics.len(),
                chars == service.characteristics@,
                forall|i: int| 0 <= i < chars.len() ==> (#[trigger] chars[i]).handle.0 >= 1,
                provisional@ == seq![spec_service_declaration_record(service)]
                    + spec_characteristic_list_records(
                    chars.subrange(0, ci as int),
                    datastore,
                ),
            decreases char_count - ci,
        {
            let c = &service.characteristics[ci];
            provisional.push(
                AttAttributeWithBackingValue {
                    attribute: AttAttribute {
                        handle: AttHandle(c.handle.0 - 1),
                        type_: characteristic_uuid(),
                        permissions: AttPermissions::new(true, false, false),
                    },
                    value: AttAttributeBackingValue::Static(
                        DeclarationValue::CharacteristicDeclaration {
                            permissions: c.permissions,
                            value_handle: c.handle,
                            uuid: c.type_,
                        },
                    ),
                },
            );
            provisional.push(
                AttAttributeWithBackingValue {
                    attribute: AttAttribute {
                        handle: c.handle,
                        type_: c.type_,
                        permissions: c.permissions,
                    },
                    value: AttAttributeBackingValue::DynamicCharacteristic(datastore),
                },
            );
            let ghost mid = provisional@;
            proof {
                assert(mid =~= seq![spec_service_declaration_record(service)]
                    + spec_characteristic_list_records(chars.subrange(0, ci as int), datastore)
                    + seq![
                    spec_characteristic_declaration_record(chars[ci as int]),
                    spec_characteristic_value_record(chars[ci as int], datastore),
                ]);
            }
            let desc_count = c.descriptors.len();
            let mut di: usize = 0;
            while di < desc_count
                invariant
                    di <= desc_count,
                    desc_count == c.descriptors.len(),
                    ci < chars.len(),
                    chars == service.characteristics@,
                    c == chars[ci as int],
                    mid == seq![spec_service_declaration_record(service)]
                        + spec_characteristic_list_records(
                        chars.subrange(0, ci as int),
                        datastore,
                    ) + seq![
                        spec_characteristic_declaration_record(chars[ci as int]),
                        spec_characteristic_value_record(chars[ci as int], datastore),
                    ],
                    provisional@ == mid + spec_descriptor_records(
                        c.descriptors@.subrange(0, di as int),
                        datastore,
                    ),
                decreases desc_count - di,
            {
                let desc = c.descriptors[di];
                provisional.push(
                    AttAttributeWithBackingValue {
                        attribute: AttAttribute {
                            handle: desc.handle,
                            type_: desc.type_,
                            permissions: desc.permissions,
                        },
                        value: AttAttributeBackingValue::DynamicDescriptor(datastore),
                    },
                );
                proof {
                    let descs = c.descriptors@;
                    assert(descs.subrange(0, di as int + 1).drop_last() =~= descs.subrange(
                        0,
                        di as int,
                    ));
                    assert(descs.subrange(0, di as int + 1).last() == descs[di as int]);
                    assert(provisional@ =~= mid + spec_descriptor_records(
                        descs.subrange(0, di as int + 1),
                        datastore,
                    ));
                }
                di += 1;
            }
            proof {
                assert(c.descriptors@.subrange(0, desc_count as int) =~= c.descriptors@);
                assert(chars.subrange(0, ci as int + 1).drop_last() =~= chars.subrange(
                    0,
                    ci as int,
                ));
                assert(chars.subrange(0, ci as int + 1).last() == chars[ci as int]);
                assert(provisional@ =~= seq![spec_service_declaration_record(service)]
                    + spec_characteristic_list_records(
                    chars.subrange(0, ci as int + 1),
                    datastore,
                ));
            }
            ci += 1;
        }
        proof {
            assert(chars.subrange(0, char_count as int) =~= chars);
            assert(provisional@ =~= rs);
        }

        // Validate: no provisional handle may be taken by the live table or
        // doubled within the provisional set. Fail atomically on a clash.
        let prov_len = provisional.len();
        let mut i: usize = 0;
        while i < prov_len
            invariant
                i <= prov_len,
                prov_len == provisional.len(),
                provisional@ == rs,
                rs == spec_service_records(service, datastore),
                *self == *old(self),
                old(self).wf(),
                forall|k: int|
                    0 <= k < i ==> !spec_has_handle(
                        old(self).records(),
                        (#[trigger] rs[k]).attribute.handle,
                    ),
                forall|k: int, l: int|
                    0 <= k < i && k < l < rs.len() ==> rs[l].attribute.handle
                        != rs[k].attribute.handle,
            decreases prov_len - i,
        {
            let h = provisional[i].attribute.handle;
            let clash = self.lookup(h);
            proof {
                lemma_lookup_properties(self.records(), h);
            }
            if clash.is_some() {
                proof {
                    assert(!spec_can_add(old(self).records(), rs)) by {
                        assert(spec_has_handle(
                            old(self).records(),
                            rs[i as int].attribute.handle,
                        ));
                    }
                }
                return Err(GattDatabaseError::DuplicateHandle);
            }
            let mut j: usize = i + 1;
            while j < prov_len
                invariant
                    i < j <= prov_len,
                    prov_len == provisional.len(),
                    provisional@ == rs,
                    rs == spec_service_records(service, datastore),
                    *self == *old(self),
                    old(self).wf(),
                    forall|l: int|
                        i < l < j ==> rs[l].attribute.handle != (#[trigger] rs[i as int]).attribute.handle,
                decreases prov_len - j,
            {
                if provisional[j].attribute.handle.0 == provisional[i].attribute.handle.0 {
                    proof {
                        assert(!handles_distinct(rs)) by {
                            assert(rs[i as int].attribute.handle == rs[j as int].attribute.handle);
                        }
                    }
                    return Err(GattDatabaseError::DuplicateHandle);
                }
                j += 1;
            }
            i += 1;
        }
        proof {
            assert(spec_can_add(old(self).records(), rs)) by {
                assert forall|m: int, n: int|
                    0 <= m < n < rs.len() implies rs[m].attribute.handle
                    != rs[n].attribute.handle by {
                    assert(rs[n].attribute.handle != rs[m].attribute.handle);
                }
            }
        }

        // Merge, keeping the table ordered.
        let mut k: usize = 0;
        while k < prov_len
            invariant
                k <= prov_len,
                prov_len == provisional.len(),
                provisional@ == rs,
                rs == spec_service_records(service, datastore),
                old(self).wf(),
                spec_can_add(old(self).records(), rs),
                self.schema@ == spec_insert_all(old(self).records(), rs.subrange(0, k as int)),
                handles_strictly_ascending(self.schema@),
                forall|l: int|
                    k <= l < rs.len() ==> !spec_has_handle(
                        self.schema@,
                        (#[trigger] rs[l]).attribute.handle,
                    ),
            decreases prov_len - k,
        {
            let rec = provisional[k];
            let ghost pre = self.schema@;
            insert_record(&mut self.schema, rec);
            proof {
                lemma_insert_properties(pre, rec);
                assert(rs.subrange(0, k as int + 1).drop_last() =~= rs.subrange(0, k as int));
                assert(rs.subrange(0, k as int + 1).last() == rs[k as int]);
                assert(self.schema@ == spec_insert_all(
                    old(self).records(),
                    rs.subrange(0, k as int + 1),
                ));
                assert forall|l: int|
                    k + 1 <= l < rs.len() implies !spec_has_handle(
                    self.schema@,
                    (#[trigger] rs[l]).attribute.handle,
                ) by {
                    assert(rs[l].attribute.handle != rs[k as int].attribute.handle);
                }
            }
            k += 1;
        }
        proof {
            assert(rs.subrange(0, prov_len as int) =~= rs);
        }
        Ok(())
    }

    /// Removes the service that starts at `service_handle`: every record from
    /// `service_handle` up to (not including) the next primary service
    /// declaration is dropped. A no-op when no such records exist; never
    /// errors.
    pub fn remove_service_at_handle(&mut self, service_handle: AttHandle) -> (r: Result<
        (),
        GattDatabaseError,
    >)
        requires
            old(self).wf(),
        ensures
            final(self).wf(),
            r is Ok,
            final(self).records() == spec_remove_service(old(self).records(), service_handle),
    {
        let ghost s = self.schema@;
        let n = self.schema.len();

        // Find the first primary service declaration after `service_handle`.
        let primary = primary_service_declaration_uuid();
        let mut next: Option<u16> = None;
        let mut i: usize = 0;
        proof {
            assert(s.skip(0) =~= s);
        }
        while i < n
            invariant_except_break
                i <= n,
                n == self.schema.len(),
                s == self.schema@,
                primary == spec_primary_service_declaration_uuid(),
                next is None,
                spec_next_service_handle(s, service_handle) == spec_next_service_handle(
                    s.skip(i as int),
                    service_handle,
                ),
            ensures
                s == self.schema@,
                n == self.schema.len(),
                next == spec_next_service_handle(s, service_handle),
            decreases n - i,
        {
            let rec = self.schema[i];
            proof {
                assert(s.skip(i as int)[0] == s[i as int]);
                assert(s.skip(i as int).drop_first() =~= s.skip(i as int + 1));
            }
            if rec.attribute.handle.0 > service_handle.0 && rec.attribute.type_ == primary {
                next = Some(rec.attribute.handle.0);
                break;
            }
            i += 1;
        }
        proof {
            if i == n {
                assert(s.skip(n as int).len() == 0);
            }
        }

        // Keep every record outside the removal range.
        let mut kept: Vec<AttAttributeWithBackingValue> = Vec::new();
        let mut j: usize = 0;
        while j < n
            invariant
                j <= n,
                n == self.schema.len(),
                s == self.schema@,
                next == spec_next_service_handle(s, service_handle),
                kept@ == spec_remove_range(s.subrange(0, j as int), service_handle, next),
            decreases n - j,
        {
            let rec = self.schema[j];
            let in_range = service_handle.0 <= rec.attribute.handle.0 && (match next {
                Some(nx) => rec.attribute.handle.0 < nx,
                None => true,
            });
            if !in_range {
                kept.push(rec);
            }
            proof {
                assert(s.subrange(0, j as int + 1).drop_last() =~= s.subrange(0, j as int));
                assert(s.subrange(0, j as int + 1).last() == s[j as int]);
            }
            j += 1;
        }
        proof {
            assert(s.subrange(0, n as int) =~= s);
            lemma_remove_range_properties(s, service_handle, next);
        }
        self.schema = kept;
        Ok(())
    }
}

/// Inserts a record whose handle is not yet taken, keeping the table ordered.
fn insert_record(
    schema: &mut Vec<AttAttributeWithBackingValue>,
    rec: AttAttributeWithBackingValue,
)
    requires
        handles_strictly_ascending(old(schema)@),
        !spec_has_handle(old(schema)@, rec.attribute.handle),
    ensures
        final(schema)@ == spec_insert(old(schema)@, rec),
{
    let ghost s = schema@;
    let n = schema.len();
    let mut idx: usize = 0;
    while idx < n && schema[idx].attribute.handle.0 < rec.attribute.handle.0
        invariant
            idx <= n,
            n == schema.len(),
            s == schema@,
            forall|k: int|
                0 <= k < idx ==> (#[trigger] s[k]).attribute.handle.0 < rec.attribute.handle.0,
        decreases n - idx,
    {
        idx += 1;
    }
    proof {
        if idx < n {
            assert(s[idx as int].attribute.handle != rec.attribute.handle) by {
                if s[idx as int].attribute.handle == rec.attribute.handle {
                    assert(spec_has_handle(s, rec.attribute.handle));
                }
            }
        }
        lemma_spec_insert_at(s, rec, idx as int);
    }
    schema.insert(idx, rec);
}

/// A read or write delegated to an application datastore. The surrounding
/// executor performs the call and propagates the datastore's result verbatim.
#[derive(Clone, Copy, Debug, PartialEq, Eq, Structural)]
pub struct DatastoreReadRequest {
    /// The datastore that owns the value.
    pub datastore: DatastoreId,
    /// The (server, link) pair the request arrived on.
    pub conn_id: ConnectionId,
    /// The attribute being read.
    pub handle: AttHandle,
    /// Whether the attribute is a characteristic value or a descriptor.
    pub backing: AttributeBackingType,
}

/// A write delegated to an application datastore, carrying the data to
/// write. The surrounding executor performs the call and propagates the
/// datastore's result verbatim.
#[derive(Clone, Debug, PartialEq, Eq)]
pub struct DatastoreWriteRequest {
    /// The datastore that owns the value.
    pub datastore: DatastoreId,
    /// The (server, link) pair the request arrived on.
    pub conn_id: ConnectionId,
    /// The attribute being written.
    pub handle: AttHandle,
    /// Whether the attribute is a characteristic value or a descriptor.
    pub backing: AttributeBackingType,
    /// The value to write, exactly as the peer sent it.
    pub data: Vec<u8>,
}

/// How a permitted read resolves.
#[derive(Clone, Debug, PartialEq, Eq)]
pub enum AttReadResolution {
    /// A declaration value owned by the schema, served synchronously: the
    /// encoded bytes.
    Value(Vec<u8>),
    /// The value lives in a datastore; the executor must perform this read.
    Delegate(DatastoreReadRequest),
}

/// A per-connection view of one schema: it tags every delegation with the
/// connection's identity and re-reads the schema on every call, so dynamic
/// registrations are observed.
#[derive(Clone, Copy, Debug, PartialEq, Eq, Structural)]
pub struct AttDatabaseImpl {
    /// The (server, link) pair this view serves.
    pub conn_id: ConnectionId,
}

impl SharedBox<GattDatabase> {
    /// Derives the per-connection view of this schema for `conn_id`.
    pub fn get_att_database(&self, conn_id: ConnectionId) -> (r: AttDatabaseImpl)
        ensures
            r.conn_id == conn_id,
    {
        AttDatabaseImpl { conn_id }
    }
}

impl AttDatabaseImpl {
    /// Resolves a read of `handle` against the schema in `db`.
    ///
    /// A missing attribute reads as invalid-handle; an attribute without the
    /// readable permission is refused before any datastore is named. A
    /// declaration resolves synchronously to its encoded value; a dynamic
    /// attribute resolves to a delegation request.
    pub fn read_attribute(&self, db: &SharedBox<GattDatabase>, handle: AttHandle) -> (r: Result<
        AttReadResolution,
        AttErrorCode,
    >)
        ensures
            ({
                match spec_lookup(db.value.records(), handle) {
                    Option::None => r == Err::<AttReadResolution, AttErrorCode>(
                        AttErrorCode::InvalidHandle,
                    ),
                    Option::Some(rec) => if !rec.attribute.permissions.spec_readable() {
                        r == Err::<AttReadResolution, AttErrorCode>(AttErrorCode::ReadNotPermitted)
                    } else {
                        match rec.value {
                            AttAttributeBackingValue::Static(decl) => r matches Ok(
                                AttReadResolution::Value(bytes),
                            ) && bytes@ == decl.spec_bytes(),
                            AttAttributeBackingValue::DynamicCharacteristic(d) => r == Ok::<
                                AttReadResolution,
                                AttErrorCode,
                            >(
                                AttReadResolution::Delegate(
                                    (DatastoreReadRequest {
                                        datastore: d,
                                        conn_id: self.conn_id,
                                        handle,
                                        backing: AttributeBackingType::Characteristic,
                                    }),
                                ),
                            ),
                            AttAttributeBackingValue::DynamicDescriptor(d) => r == Ok::<
                                AttReadResolution,
                                AttErrorCode,
                            >(
                                AttReadResolution::Delegate(
                                    (DatastoreReadRequest {
                                        datastore: d,
                                        conn_id: self.conn_id,
                                        handle,
                                        backing: AttributeBackingType::Descriptor,
                                    }),
                                ),
                            ),
                        }
                    },
                }
            }),
    {
        match db.value.lookup(handle) {
            None => Err(AttErrorCode::InvalidHandle),
            Some(rec) => {
                if !rec.attribute.permissions.readable() {
                    Err(AttErrorCode::ReadNotPermitted)
                } else {
                    match rec.value {
                        AttAttributeBackingValue::Static(decl) => Ok(
                            AttReadResolution::Value(decl.encode()),
                        ),
                        AttAttributeBackingValue::DynamicCharacteristic(d) => Ok(
                            AttReadResolution::Delegate(
                                DatastoreReadRequest {
                                    datastore: d,
                                    conn_id: self.conn_id,
                                    handle,
                                    backing: AttributeBackingType::Characteristic,
                                },
                            ),
                        ),
                        AttAttributeBackingValue::DynamicDescriptor(d) => Ok(
                            AttReadResolution::Delegate(
                                DatastoreReadRequest {
                                    datastore: d,
                                    conn_id: self.conn_id,
                                    handle,
                                    backing: AttributeBackingType::Descriptor,
                                },
                            ),
                        ),
                    }
                }
            },
        }
    }

    /// Resolves a write of `data` to `handle` against the schema in `db`.
    ///
    /// A missing attribute writes as invalid-handle; an attribute without
    /// the writable permission is refused before any datastore is named. A
    /// writable static attribute would be an internal inconsistency, so the
    /// peer sees the benign write-not-permitted error. A dynamic attribute
    /// resolves to a delegation request carrying `data` unchanged.
    pub fn write_attribute(
        &self,
        db: &SharedBox<GattDatabase>,
        handle: AttHandle,
        data: Vec<u8>,
    ) -> (r: Result<DatastoreWriteRequest, AttErrorCode>)
        ensures
            ({
                match spec_lookup(db.value.records(), handle) {
                    Option::None => r == Err::<DatastoreWriteRequest, AttErrorCode>(
                        AttErrorCode::InvalidHandle,
                    ),
                    Option::Some(rec) => if !rec.attribute.permissions.spec_writable() {
                        r == Err::<DatastoreWriteRequest, AttErrorCode>(
                            AttErrorCode::WriteNotPermitted,
                        )
                    } else {
                        match rec.value {
                            AttAttributeBackingValue::Static(decl) => r == Err::<
                                DatastoreWriteRequest,
                                AttErrorCode,
                            >(AttErrorCode::WriteNotPermitted),
                            AttAttributeBackingValue::DynamicCharacteristic(d) => r matches Ok(req)
                                && req.datastore == d && req.conn_id == self.conn_id && req.handle
                                == handle && req.backing == AttributeBackingType::Characteristic
                                && req.data@ == data@,
                            AttAttributeBackingValue::DynamicDescriptor(d) => r matches Ok(req)
                                && req.datastore == d && req.conn_id == self.conn_id && req.handle
                                == handle && req.backing == AttributeBackingType::Descriptor
                                && req.data@ == data@,
                        }
                    },
                }
            }),
    {
        match db.value.lookup(handle) {
            None => Err(AttErrorCode::InvalidHandle),
            Some(rec) => {
                if !rec.attribute.permissions.writable() {
                    Err(AttErrorCode::WriteNotPermitted)
                } else {
                    match rec.value {
                        AttAttributeBackingValue::Static(_) => Err(
                            AttErrorCode::WriteNotPermitted,
                        ),
                        AttAttributeBackingValue::DynamicCharacteristic(d) => Ok(
                            DatastoreWriteRequest {
                                datastore: d,
                                conn_id: self.conn_id,
                                handle,
                                backing: AttributeBackingType::Characteristic,
                                data,
                            },
                        ),
                        AttAttributeBackingValue::DynamicDescriptor(d) => Ok(
                            DatastoreWriteRequest {
                                datastore: d,
                                conn_id: self.conn_id,
                                handle,
                                backing: AttributeBackingType::Descriptor,
                                data,
                            },
                        ),
                    }
                }
            },
        }
    }

    /// Lists the metadata of every attribute of the schema in `db`, in
    /// ascending handle order.
    pub fn list_attributes(&self, db: &SharedBox<GattDatabase>) -> (r: Vec<AttAttribute>)
        ensures
            r@ == spec_attributes_of(db.value.records()),
    {
        db.value.list_attributes()
    }
}

/// Inserting a record whose handle is above every handle in the table
/// appends it.
pub proof fn lemma_insert_above_appends(
    s: Seq<AttAttributeWithBackingValue>,
    rec: AttAttributeWithBackingValue,
)
    requires
        forall|k: int| 0 <= k < s.len() ==> (#[trigger] s[k]).attribute.handle.0
            < rec.attribute.handle.0,
    ensures
        spec_insert(s, rec) == s.push(rec),
    decreases s.len(),
{
    if s.len() == 0 {
        assert(spec_insert(s, rec) =~= s.push(rec));
    } else {
        let tail = s.drop_first();
        assert(forall|k: int| 0 <= k < tail.len() ==> (#[trigger] tail[k]) == s[k + 1]);
        lemma_insert_above_appends(tail, rec);
        assert(seq![s[0]] + tail.push(rec) =~= s.push(rec));
    }
}

/// Inserting a batch whose handles are strictly ascending and all above every
/// handle in the table appends the batch in order.
pub proof fn lemma_insert_all_above_appends(
    s: Seq<AttAttributeWithBackingValue>,
    rs: Seq<AttAttributeWithBackingValue>,
)
    requires
        forall|k: int, j: int|
            0 <= k < s.len() && 0 <= j < rs.len() ==> (#[trigger] s[k]).attribute.handle.0 < (
            #[trigger] rs[j]).attribute.handle.0,
        handles_strictly_ascending(rs),
    ensures
        spec_insert_all(s, rs) == s + rs,
    decreases rs.len(),
{
    if rs.len() == 0 {
        assert(spec_insert_all(s, rs) =~= s + rs);
    } else {
        let front = rs.drop_last();
        assert(forall|j: int| 0 <= j < front.len() ==> (#[trigger] front[j]) == rs[j]);
        assert(handles_strictly_ascending(front));
        lemma_insert_all_above_appends(s, front);
        let mid = s + front;
        assert(forall|k: int|
            0 <= k < mid.len() ==> (#[trigger] mid[k]).attribute.handle.0
                < rs.last().attribute.handle.0);
        lemma_insert_above_appends(mid, rs.last());
        assert((s + front).push(rs.last()) =~= s + rs);
    }
}

/// A strictly ascending table has pairwise distinct handles: no two
/// attributes ever share a handle.
pub proof fn lemma_ascending_handles_distinct(s: Seq<AttAttributeWithBackingValue>)
    requires
        handles_strictly_ascending(s),
    ensures
        handles_distinct(s),
{
    assert forall|i: int, j: int| 0 <= i < j < s.len() implies s[i].attribute.handle != (
    s[j]).attribute.handle by {
        assert(s[i].attribute.handle.0 < s[j].attribute.handle.0);
    }
}

/// A well-formed schema lists its attributes strictly ascending by handle,
/// and no two of them share a handle.
pub proof fn lemma_attribute_table_ordered(db: GattDatabase)
    requires
        db.wf(),
    ensures
        handles_strictly_ascending(db.records()),
        handles_distinct(db.records()),
{
    lemma_ascending_handles_distinct(db.records());
}

/// When no record matches, the next-service scan finds nothing.
pub proof fn lemma_next_service_none(s: Seq<AttAttributeWithBackingValue>, after: AttHandle)
    requires
        forall|i: int|
            0 <= i < s.len() ==> !((#[trigger] s[i]).attribute.handle.0 > after.0
                && s[i].attribute.type_ == crate::att_database::spec_primary_service_declaration_uuid()),
    ensures
        spec_next_service_handle(s, after) is None,
    decreases s.len(),
{
    if s.len() == 0 {
    } else {
        let tail = s.drop_first();
        assert(forall|i: int| 0 <= i < tail.len() ==> (#[trigger] tail[i]) == s[i + 1]);
        lemma_next_service_none(tail, after);
    }
}

/// Removing a range from a concatenation removes it from each part.
pub proof fn lemma_remove_range_concat(
    a: Seq<AttAttributeWithBackingValue>,
    b: Seq<AttAttributeWithBackingValue>,
    lo: AttHandle,
    next: Option<u16>,
)
    ensures
        spec_remove_range(a + b, lo, next) == spec_remove_range(a, lo, next) + spec_remove_range(
            b,
            lo,
            next,
        ),
    decreases b.len(),
{
    if b.len() == 0 {
        assert(a + b =~= a);
        assert(spec_remove_range(a, lo, next) + spec_remove_range(b, lo, next)
            =~= spec_remove_range(a, lo, next));
    } else {
        assert((a + b).drop_last() =~= a + b.drop_last());
        assert((a + b).last() == b.last());
        lemma_remove_range_concat(a, b.drop_last(), lo, next);
    }
}

/// Removing a range that touches no record leaves the table as it was.
pub proof fn lemma_remove_range_none(
    s: Seq<AttAttributeWithBackingValue>,
    lo: AttHandle,
    next: Option<u16>,
)
    requires
        forall|i: int|
            0 <= i < s.len() ==> !spec_in_service_range(
                (#[trigger] s[i]).attribute.handle,
                lo,
                next,
            ),
    ensures
        spec_remove_range(s, lo, next) == s,
    decreases s.len(),
{
    if s.len() == 0 {
    } else {
        let front = s.drop_last();
        assert(forall|i: int| 0 <= i < front.len() ==> (#[trigger] front[i]) == s[i]);
        lemma_remove_range_none(front, lo, next);
        assert(front.push(s.last()) =~= s);
    }
}

/// Removing a range that covers every record empties the table.
pub proof fn lemma_remove_range_all(
    s: Seq<AttAttributeWithBackingValue>,
    lo: AttHandle,
    next: Option<u16>,
)
    requires
        forall|i: int|
            0 <= i < s.len() ==> spec_in_service_range(
                (#[trigger] s[i]).attribute.handle,
                lo,
                next,
            ),
    ensures
        spec_remove_range(s, lo, next) == Seq::<AttAttributeWithBackingValue>::empty(),
    decreases s.len(),
{
    if s.len() == 0 {
        assert(spec_remove_range(s, lo, next) =~= Seq::<AttAttributeWithBackingValue>::empty());
    } else {
        let front = s.drop_last();
        assert(forall|i: int| 0 <= i < front.len() ==> (#[trigger] front[i]) == s[i]);
        lemma_remove_range_all(front, lo, next);
    }
}

/// The number of attribute records a service contributes per characteristic
/// list: two per characteristic plus its descriptors.
pub open spec fn spec_characteristic_list_count(chars: Seq<GattCharacteristicWithHandle>) -> nat
    decreases chars.len(),
{
    if chars.len() == 0 {
        0
    } else {
        spec_characteristic_list_count(chars.drop_last()) + 2 + chars.last().descriptors@.len()
    }
}

/// The number of attribute records service `s` contributes: one service
/// declaration, and per characteristic a declaration, a value, and one
/// record per descriptor.
pub open spec fn spec_service_attribute_count(s: GattServiceWithHandle) -> nat {
    1 + spec_characteristic_list_count(s.characteristics@)
}

/// The records of a descriptor list are one per descriptor.
pub proof fn lemma_descriptor_records_len(descs: Seq<GattDescriptorWithHandle>, d: DatastoreId)
    ensures
        spec_descriptor_records(descs, d).len() == descs.len(),
    decreases descs.len(),
{
    if descs.len() == 0 {
    } else {
        lemma_descriptor_records_len(descs.drop_last(), d);
    }
}

/// The records of a characteristic list number two per characteristic plus
/// its descriptors.
pub proof fn lemma_characteristic_list_records_len(
    chars: Seq<GattCharacteristicWithHandle>,
    d: DatastoreId,
)
    ensures
        spec_characteristic_list_records(chars, d).len() == spec_characteristic_list_count(chars),
    decreases chars.len(),
{
    if chars.len() == 0 {
    } else {
        lemma_characteristic_list_records_len(chars.drop_last(), d);
        lemma_descriptor_records_len(chars.last().descriptors@, d);
    }
}

/// A service contributes exactly `spec_service_attribute_count` records.
pub proof fn lemma_service_records_len(s: GattServiceWithHandle, d: DatastoreId)
    ensures
        spec_service_records(s, d).len() == spec_service_attribute_count(s),
{
    lemma_characteristic_list_records_len(s.characteristics@, d);
}

/// Adding a service above every existing handle and then removing it
/// restores the table exactly; the addition grows the table, and the
/// removal shrinks it, by exactly one record for the service declaration,
/// two per characteristic, and one per descriptor.
///
/// The hypotheses are the service layout the schema's own invariants assume:
/// the service's records start at its declaration handle and ascend, and
/// only the declaration itself carries the primary-service type.
pub proof fn lemma_add_then_remove_restores_schema(
    db: Seq<AttAttributeWithBackingValue>,
    s: GattServiceWithHandle,
    d: DatastoreId,
)
    requires
        handles_strictly_ascending(db),
        handles_strictly_ascending(spec_service_records(s, d)),
        forall|k: int, j: int|
            0 <= k < db.len() && 0 <= j < spec_service_records(s, d).len() ==> (
            #[trigger] db[k]).attribute.handle.0 < (
            #[trigger] spec_service_records(s, d)[j]).attribute.handle.0,
        forall|j: int|
            1 <= j < spec_service_records(s, d).len() ==> (
            #[trigger] spec_service_records(s, d)[j]).attribute.type_
                != crate::att_database::spec_primary_service_declaration_uuid(),
    ensures
        spec_insert_all(db, spec_service_records(s, d)).len() == db.len()
            + spec_service_attribute_count(s),
        spec_remove_service(spec_insert_all(db, spec_service_records(s, d)), s.handle) == db,
{
    let rs = spec_service_records(s, d);
    assert(rs[0] == spec_service_declaration_record(s));
    assert(rs[0].attribute.handle == s.handle);
    lemma_insert_all_above_appends(db, rs);
    let merged = db + rs;
    lemma_service_records_len(s, d);

    // No primary service declaration sits after the new service's handle.
    assert forall|i: int|
        0 <= i < merged.len() implies !((#[trigger] merged[i]).attribute.handle.0 > s.handle.0
        && merged[i].attribute.type_
        == crate::att_database::spec_primary_service_declaration_uuid()) by {
        if i < db.len() {
            assert(merged[i] == db[i]);
            assert(db[i].attribute.handle.0 < rs[0].attribute.handle.0);
        } else {
            assert(merged[i] == rs[i - db.len()]);
            if i - db.len() >= 1 {
                assert(rs[i - db.len()].attribute.type_
                    != crate::att_database::spec_primary_service_declaration_uuid());
            }
        }
    }
    lemma_next_service_none(merged, s.handle);

    // The removal range holds exactly the new service's records.
    lemma_remove_range_concat(db, rs, s.handle, None);
    assert forall|i: int|
        0 <= i < db.len() implies !spec_in_service_range(
        (#[trigger] db[i]).attribute.handle,
        s.handle,
        None,
    ) by {
        assert(db[i].attribute.handle.0 < rs[0].attribute.handle.0);
    }
    lemma_remove_range_none(db, s.handle, None);
    assert forall|j: int|
        0 <= j < rs.len() implies spec_in_service_range(
        (#[trigger] rs[j]).attribute.handle,
        s.handle,
        None,
    ) by {
        if j > 0 {
            assert(rs[0].attribute.handle.0 < rs[j].attribute.handle.0);
        }
    }
    lemma_remove_range_all(rs, s.handle, None);
    assert(spec_remove_service(merged, s.handle) =~= db);
}

} // verus!
