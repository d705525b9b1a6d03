//! Selector reads: field predicates over the records of a time range.

use vstd::prelude::*;

use crate::record;
use crate::record::Record;
use crate::strmap;
use crate::strmap::FieldMap;
use crate::text::same_text;

verus! {

/// Every filter names a field that is there with that very value.
pub open spec fn satisfies(
    fields: Map<Seq<char>, Seq<char>>,
    filters: Map<Seq<char>, Seq<char>>,
) -> bool {
    forall|k: Seq<char>| #[trigger]
        filters.dom().contains(k) ==> fields.dom().contains(k) && fields[k] == filters[k]
}

/// Whether a record's fields satisfy all filters.
pub fn fields_match(fields: &FieldMap, filters: &FieldMap) -> (r: bool)
    ensures
        r == satisfies(fields.texts(), filters.texts()),
{
    let n: usize = filters.count();
    let ghost all = strmap::listing(filters.texts());
    let mut i: usize = 0;
    while i < n
        invariant
            i <= n,
            n == all.len(),
            all == strmap::listing(filters.texts()),
            strmap::is_listing(all, filters.texts()),
            forall|j: int|
                0 <= j < i ==> fields.texts().dom().contains((#[trigger] all[j]).0)
                    && fields.texts()[all[j].0] == all[j].1,
        decreases n - i,
    {
        let (k, v) = filters.text_at(i);
        assert(filters.texts().dom().contains(all[i as int].0));
        match fields.get_text(k) {
            Some(actual) => {
                if !same_text(actual, v) {
                    return false;
                }
            },
            None => {
                return false;
            },
        }
        i = i + 1;
    }
    proof {
        assert forall|k: Seq<char>| #[trigger] filters.texts().dom().contains(k) implies fields
            .texts().dom().contains(k) && fields.texts()[k] == filters.texts()[k] by {
            assert(strmap::lists(all, k));
            let j = choose|j: int| 0 <= j < all.len() && (#[trigger] all[j]).0 == k;
            assert(filters.texts()[all[j].0] == all[j].1);
        }
    }
    true
}

pub open spec fn selected_by(filters: Map<Seq<char>, Seq<char>>) -> spec_fn(Record) -> bool {
    |r: Record| satisfies(r.fields.texts(), filters)
}

/// Keeps the records that satisfy every filter, in their order.
pub fn select(records: Vec<Record>, field_filters: &FieldMap) -> (out: Vec<Record>)
    ensures
        out@ == records@.filter(selected_by(field_filters.texts())),
{
    let ghost all = records@;
    let ghost keep = selected_by(field_filters.texts());
    let mut out: Vec<Record> = Vec::new();
    proof {
        reveal(Seq::filter);
    }
    for r in it: records.into_iter()
        invariant
            it.seq() == all,
            keep == selected_by(field_filters.texts()),
            out@ == all.take(it.index()).filter(keep),
    {
        proof {
            reveal(Seq::filter);
            assert(all.take(it.index() + 1).drop_last() =~= all.take(it.index()));
        }
        if fields_match(&r.fields, field_filters) {
            out.push(r);
        }
    }
    assert(all.take(all.len() as int) =~= all);
    out
}

/// No filter selects every record; one more filter keeps the records that have that very
/// value.
pub proof fn law_more_filters_select_less(
    fields: Map<Seq<char>, Seq<char>>,
    filters: Map<Seq<char>, Seq<char>>,
    k: Seq<char>,
    v: Seq<char>,
)
    requires
        !filters.dom().contains(k),
    ensures
        satisfies(fields, filters.insert(k, v)) <==> satisfies(fields, filters)
            && fields.dom().contains(k) && fields[k] == v,
        satisfies(fields, Map::empty()),
{
    let more = filters.insert(k, v);
    if satisfies(fields, more) {
        assert(more.dom().contains(k));
        assert forall|x: Seq<char>| #[trigger] filters.dom().contains(x) implies fields.dom()
            .contains(x) && fields[x] == filters[x] by {
            assert(more.dom().contains(x));
        }
    }
}

/// A stored record is selected by a field that its wire record had exactly when that field
/// is allowed and has the value asked for.
pub proof fn law_stored_fields_select(
    wire: record::Wire,
    allowed: Seq<String>,
    k: Seq<char>,
    v: Seq<char>,
)
    ensures
        satisfies(record::normalized(wire, allowed).fields, Map::empty().insert(k, v))
            <==> record::is_allowed(allowed, k) && wire.fields.dom().contains(k) && wire.fields[k]
            == v,
{
    let filters = Map::<Seq<char>, Seq<char>>::empty().insert(k, v);
    let fields = record::normalized(wire, allowed).fields;
    assert(filters.dom().contains(k));
    if record::is_allowed(allowed, k) && wire.fields.dom().contains(k) && wire.fields[k] == v {
        assert forall|x: Seq<char>| #[trigger] filters.dom().contains(x) implies fields.dom()
            .contains(x) && fields[x] == filters[x] by {}
    }
}

/// A record is selected exactly when the filters are part of its fields: every name asked
/// for is there with the very value asked for.
pub proof fn law_filters_are_part_of_the_fields(
    fields: Map<Seq<char>, Seq<char>>,
    filters: Map<Seq<char>, Seq<char>>,
    records: Seq<Record>,
    r: Record,
)
    ensures
        satisfies(fields, filters) <==> filters.submap_of(fields),
        records.filter(selected_by(filters)).contains(r) <==> records.contains(r)
            && filters.submap_of(r.fields.texts()),
{
    lemma_selected(records, filters, r);
}

proof fn lemma_selected(records: Seq<Record>, filters: Map<Seq<char>, Seq<char>>, r: Record)
    ensures
        records.filter(selected_by(filters)).contains(r) <==> records.contains(r)
            && filters.submap_of(r.fields.texts()),
    decreases records.len(),
{
    reveal(Seq::filter);
    let keep = selected_by(filters);
    assert(keep(r) <==> filters.submap_of(r.fields.texts()));
    if records.len() > 0 {
        let rest = records.drop_last();
        lemma_selected(rest, filters, r);
        assert(records =~= rest.push(records.last()));
        let kept = rest.filter(keep);
        assert(forall|x: Record| #[trigger]
            rest.push(records.last()).contains(x) <==> rest.contains(x) || x == records.last()) by {
            broadcast use vstd::seq_lib::group_seq_properties;

        }
        assert(forall|x: Record| #[trigger]
            kept.push(records.last()).contains(x) <==> kept.contains(x) || x == records.last()) by {
            broadcast use vstd::seq_lib::group_seq_properties;

        }
    }
}

} // verus!
