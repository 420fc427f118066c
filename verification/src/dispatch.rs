//! The dispatcher's decision: one required-field check, then one clone per
//! configured output. Receiving from the ingestion channel and sending into
//! the per-output channels happen outside; this is what flows through them.

use crate::json::ValueS;
use crate::lookup_s;
use crate::Record;
use vstd::prelude::*;

verus! {

/// Whether the dispatcher accepts a record: the required `message` field
/// must be present.
pub open spec fn accepts(payload: Seq<(Seq<char>, ValueS)>) -> bool {
    lookup_s(payload, "message"@) is Some
}

/// The dispatcher's decision for one record: a record without the required
/// `message` field is dropped, so it is never delivered to any output; an
/// accepted record becomes one clone per output, each with the record's own
/// image, so no output can observe another's mutations.
pub fn route(payload: &Record, outputs: usize) -> (r: Option<Vec<Record>>)
    ensures
        (match r {
            Option::None => !accepts(payload@),
            Option::Some(v) => accepts(payload@) && v@.len() == outputs && forall|i: int|
                0 <= i < outputs ==> #[trigger] v@[i]@ == payload@,
        }),
{
    if payload.find("message").is_none() {
        return Option::None;
    }
    let mut v: Vec<Record> = Vec::new();
    let mut i: usize = 0;
    while i < outputs
        invariant
            0 <= i <= outputs,
            v@.len() == i,
            accepts(payload@),
            forall|j: int| 0 <= j < i ==> #[trigger] v@[j]@ == payload@,
        decreases outputs - i,
    {
        v.push(payload.clone());
        i = i + 1;
    }
    Option::Some(v)
}

} // verus!
