//! Field extraction from structured records. A record is an ordered sequence
//! of field strings produced by csv's delimiter-aware reader; the library
//! reads it through one trusted accessor and applies the position list in
//! verified code.

use vstd::prelude::*;

use crate::position::PosRange;
use crate::position::select_all;
use crate::position::select_range;

verus! {

#[verifier::external_type_specification]
#[verifier::external_body]
pub struct ExStringRecord(csv::StringRecord);

/// The ordered field values a record holds.
pub uninterp spec fn record_fields(rec: csv::StringRecord) -> Seq<Seq<char>>;

/// Relies on csv::StringRecord::get: returns the field at index `i`, or
/// `None` when no field at `i` exists.
#[verifier::external_body]
fn record_get<'a>(rec: &'a csv::StringRecord, i: usize) -> (r: Option<&'a str>)
    ensures
        match r {
            Some(f) => i < record_fields(*rec).len() && f@ == record_fields(*rec)[i as int],
            None => i >= record_fields(*rec).len(),
        },
{
    rec.get(i)
}

/// The field values of `record` selected by `field_pos`, in position-list
/// order; positions at or past the number of fields are dropped silently,
/// like the other extractors.
pub fn extract_fields<'a>(record: &'a csv::StringRecord, field_pos: &[PosRange]) -> (r: Vec<
    &'a str,
>)
    ensures
        r.deep_view() == select_all(record_fields(*record), field_pos@),
{
    let ghost fields = record_fields(*record);
    let mut result: Vec<&'a str> = Vec::new();
    let mut k: usize = 0;
    proof {
        assert(field_pos@.take(0) =~= Seq::<PosRange>::empty());
        assert(result.deep_view() =~= select_all(fields, field_pos@.take(0)));
    }
    while k < field_pos.len()
        invariant
            0 <= k <= field_pos@.len(),
            fields == record_fields(*record),
            result.deep_view() == select_all(fields, field_pos@.take(k as int)),
        decreases field_pos@.len() - k,
    {
        let rg = field_pos[k];
        let mut i = rg.start;
        while i < rg.end
            invariant
                rg.start <= i,
                rg.start < rg.end ==> i <= rg.end,
                rg.start >= rg.end ==> i == rg.start,
                fields == record_fields(*record),
                result.deep_view() == select_all(fields, field_pos@.take(k as int))
                    + select_range(fields, PosRange { start: rg.start, end: i }),
            decreases rg.end - i,
        {
            let ghost before = result.deep_view();
            match record_get(record, i) {
                Some(f) => {
                    result.push(f);
                    proof {
                        assert(result.deep_view() =~= before.push(f@));
                        assert(select_range(fields, PosRange { start: rg.start, end: (i + 1) as usize })
                            =~= select_range(fields, PosRange { start: rg.start, end: i }).push(
                            fields[i as int],
                        ));
                    }
                },
                None => {
                    proof {
                        assert(select_range(fields, PosRange { start: rg.start, end: (i + 1) as usize })
                            =~= select_range(fields, PosRange { start: rg.start, end: i }));
                    }
                },
            }
            i = i + 1;
        }
        proof {
            assert(select_range(fields, PosRange { start: rg.start, end: i }) =~= select_range(
                fields,
                rg,
            ));
            assert(field_pos@.take(k as int + 1).drop_last() =~= field_pos@.take(k as int));
            assert(field_pos@.take(k as int + 1).last() == field_pos@[k as int]);
        }
        k = k + 1;
    }
    proof {
        assert(field_pos@.take(field_pos@.len() as int) =~= field_pos@);
    }
    result
}

} // verus!
