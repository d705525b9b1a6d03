//! Log records: as shippers send them, and as they are stored.

use vstd::prelude::*;

use crate::strmap;
use crate::strmap::FieldMap;
use crate::template;
use crate::template::template_id;
use crate::text::same_text;

verus! {

/// What a shipper sends.
#[derive(Debug, PartialEq)]
pub struct WireRecord {
    pub timestamp_ns: i64,
    pub message: String,
    pub fields: FieldMap,
}

/// The contents of a `WireRecord`.
#[verifier::ext_equal]
pub struct Wire {
    pub timestamp_ns: i64,
    pub message: Seq<char>,
    pub fields: Map<Seq<char>, Seq<char>>,
}

impl View for WireRecord {
    type V = Wire;

    open spec fn view(&self) -> Wire {
        Wire {
            timestamp_ns: self.timestamp_ns,
            message: self.message@,
            fields: self.fields.texts(),
        }
    }
}

/// What is stored: the fields that are allowed, and the template of the message.
#[derive(Debug, PartialEq)]
pub struct Record {
    pub timestamp_ns: i64,
    pub message: String,
    pub fields: FieldMap,
    pub template_id: u64,
}

/// The contents of a `Record`.
#[verifier::ext_equal]
pub struct Stored {
    pub timestamp_ns: i64,
    pub message: Seq<char>,
    pub fields: Map<Seq<char>, Seq<char>>,
    pub template_id: u64,
}

impl View for Record {
    type V = Stored;

    open spec fn view(&self) -> Stored {
        Stored {
            timestamp_ns: self.timestamp_ns,
            message: self.message@,
            fields: self.fields.texts(),
            template_id: self.template_id,
        }
    }
}

/// `name` is one of `allowed`.
pub open spec fn is_allowed(allowed: Seq<String>, name: Seq<char>) -> bool {
    exists|i: int| 0 <= i < allowed.len() && (#[trigger] allowed[i])@ == name
}

/// The entries of `fields` whose names are allowed.
pub open spec fn allowed_only(
    fields: Map<Seq<char>, Seq<char>>,
    allowed: Seq<String>,
) -> Map<Seq<char>, Seq<char>> {
    Map::new(
        |k: Seq<char>| fields.dom().contains(k) && is_allowed(allowed, k),
        |k: Seq<char>| fields[k],
    )
}

/// How a wire record is stored.
pub open spec fn normalized(wire: Wire, allowed: Seq<String>) -> Stored {
    Stored {
        timestamp_ns: wire.timestamp_ns,
        message: wire.message,
        fields: allowed_only(wire.fields, allowed),
        template_id: template::shape_id(template::masked(wire.message)),
    }
}

/// Whether a name is on the list.
pub fn allows(allowed: &[String], name: &str) -> (r: bool)
    ensures
        r == is_allowed(allowed@, name@),
{
    let mut i: usize = 0;
    while i < allowed.len()
        invariant
            i <= allowed@.len(),
            forall|j: int| 0 <= j < i ==> (#[trigger] allowed@[j])@ != name@,
        decreases allowed.len() - i,
    {
        if same_text(allowed[i].as_str(), name) {
            return true;
        }
        i = i + 1;
    }
    false
}

fn keep_allowed(fields: &FieldMap, allowed: &[String]) -> (r: FieldMap)
    ensures
        r.texts() == allowed_only(fields.texts(), allowed@),
{
    let mut out: FieldMap = FieldMap::empty();
    let n: usize = fields.count();
    let ghost all = strmap::listing(fields.texts());
    let mut i: usize = 0;
    while i < n
        invariant
            i <= n,
            n == all.len(),
            all == strmap::listing(fields.texts()),
            strmap::is_listing(all, fields.texts()),
            forall|k: Seq<char>| #[trigger]
                out.texts().dom().contains(k) <==> is_allowed(allowed@, k)
                    && strmap::lists(all.take(i as int), k),
            forall|k: Seq<char>| #[trigger]
                out.texts().dom().contains(k) ==> out.texts()[k] == fields.texts()[k],
        decreases n - i,
    {
        let (k, v) = fields.text_at(i);
        let ghost before = out.texts();
        if allows(allowed, k) {
            out.put(k, v);
        }
        proof {
            assert(fields.texts().dom().contains(all[i as int].0));
            strmap::lemma_lists_step(all, i as int);
        }
        i = i + 1;
    }
    proof {
        assert(all.take(i as int) =~= all);
        assert forall|k: Seq<char>| #[trigger] out.texts().dom().contains(k) == allowed_only(
            fields.texts(),
            allowed@,
        ).dom().contains(k) by {
            if fields.texts().dom().contains(k) {
                assert(strmap::lists(all, k));
            }
            if strmap::lists(all, k) {
                let j = choose|j: int| 0 <= j < all.len() && (#[trigger] all[j]).0 == k;
                assert(fields.texts().dom().contains(all[j].0));
            }
        }
        assert(out.texts() =~= allowed_only(fields.texts(), allowed@));
    }
    out
}

impl Record {
    /// Keeps the allowed fields of a wire record and gives it its template.
    pub fn from_wire(wire: WireRecord, allowed_fields: &[String]) -> (r: Record)
        ensures
            r@ == normalized(wire@, allowed_fields@),
    {
        let fields: FieldMap = keep_allowed(&wire.fields, allowed_fields);
        let id: u64 = template_id(wire.message.as_str());
        Record {
            timestamp_ns: wire.timestamp_ns,
            message: wire.message,
            fields: fields,
            template_id: id,
        }
    }
}

/// A record whose source may have given no usable time.
#[derive(Debug)]
pub struct PendingRecord {
    pub timestamp_ns: Option<i64>,
    pub message: String,
    pub fields: FieldMap,
}

/// The contents of a `PendingRecord`.
#[verifier::ext_equal]
pub struct Pending {
    pub timestamp_ns: Option<i64>,
    pub message: Seq<char>,
    pub fields: Map<Seq<char>, Seq<char>>,
}

impl View for PendingRecord {
    type V = Pending;

    open spec fn view(&self) -> Pending {
        Pending {
            timestamp_ns: self.timestamp_ns,
            message: self.message@,
            fields: self.fields.texts(),
        }
    }
}

/// The pending record with `now` as its time where it had none.
pub open spec fn stamped(pending: Pending, now: i64) -> Wire {
    Wire {
        timestamp_ns: match pending.timestamp_ns {
            Some(t) => t,
            None => now,
        },
        message: pending.message,
        fields: pending.fields,
    }
}

/// `wire` is the pending record, with some reading of the clock where it had no time.
pub open spec fn is_stamped(wire: Wire, pending: Pending) -> bool {
    exists|now: i64| wire == #[trigger] stamped(pending, now)
}

impl PendingRecord {
    /// Gives the record a time.
    pub fn stamp(self, now: i64) -> (r: WireRecord)
        ensures
            r@ == stamped(self@, now),
    {
        WireRecord {
            timestamp_ns: match self.timestamp_ns {
                Some(t) => t,
                None => now,
            },
            message: self.message,
            fields: self.fields,
        }
    }
}

/// A record that keeps the allowed fields loses nothing more when kept again, and holds
/// no other field.
pub proof fn law_allowlist_is_idempotent(
    fields: Map<Seq<char>, Seq<char>>,
    allowed: Seq<String>,
)
    ensures
        allowed_only(allowed_only(fields, allowed), allowed) == allowed_only(fields, allowed),
        forall|k: Seq<char>| #[trigger]
            allowed_only(fields, allowed).dom().contains(k) ==> is_allowed(allowed, k),
        forall|k: Seq<char>|
            fields.dom().contains(k) && is_allowed(allowed, k) ==> #[trigger] allowed_only(
                fields,
                allowed,
            ).dom().contains(k) && allowed_only(fields, allowed)[k] == fields[k],
{
    assert(allowed_only(allowed_only(fields, allowed), allowed) =~= allowed_only(fields, allowed));
}

/// A stored record has the time and the message that were sent, and exactly those of the
/// sent fields, with their values, whose names are on the list.
pub proof fn law_stored_as_sent(wire: Wire, allowed: Seq<String>, name: Seq<char>)
    ensures
        normalized(wire, allowed).timestamp_ns == wire.timestamp_ns,
        normalized(wire, allowed).message == wire.message,
        normalized(wire, allowed).fields.dom().contains(name) <==> wire.fields.dom().contains(name)
            && exists|i: int| 0 <= i < allowed.len() && (#[trigger] allowed[i])@ == name,
        normalized(wire, allowed).fields.dom().contains(name) ==> normalized(
            wire,
            allowed,
        ).fields[name] == wire.fields[name],
        normalized(wire, allowed).template_id == template::shape_id(
            template::masked(wire.message),
        ),
{
}

/// A record that came with a time keeps it; only one without gets the clock's. Its message
/// and fields stay as they were.
pub proof fn law_given_times_are_kept(pending: Pending, wire: Wire)
    requires
        is_stamped(wire, pending),
    ensures
        pending.timestamp_ns is Some ==> wire.timestamp_ns == pending.timestamp_ns->0,
        wire.message == pending.message,
        wire.fields == pending.fields,
        forall|now: i64|
            pending.timestamp_ns is None ==> (#[trigger] stamped(pending, now)).timestamp_ns == now,
{
}

/// The contents of a record are its own.
pub proof fn law_records_are_taken_as_they_are(w: WireRecord, r: Record, p: PendingRecord)
    ensures
        w@.timestamp_ns == w.timestamp_ns && w@.message == w.message@ && w@.fields
            == w.fields.texts(),
        r@.timestamp_ns == r.timestamp_ns && r@.message == r.message@ && r@.fields
            == r.fields.texts() && r@.template_id == r.template_id,
        p@.timestamp_ns == p.timestamp_ns && p@.message == p.message@ && p@.fields
            == p.fields.texts(),
{
}

} // verus!
