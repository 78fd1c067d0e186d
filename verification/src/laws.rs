//! General laws of the pipeline, stated once over the spec models.
//! The trimming laws — idempotence, and that a trimmed vector never ends
//! in a zero coefficient — stand beside the trim function itself, as
//! `sparse::lemma_trim_idempotent` and `sparse::lemma_trim_last_nonzero`.

use vstd::prelude::*;
use crate::coef::{ZERO_BITS, sub_bits};
use crate::sparse::reduce_s;
use crate::parse_s;

verus! {

/// Law: the front end is deterministic — one input string, one reduced
/// dense coefficient vector, however often it is run.
pub proof fn lemma_parse_deterministic(s1: Seq<char>, s2: Seq<char>)
    requires
        s1 == s2,
    ensures
        parse_s(s1) == parse_s(s2),
{
}

/// Law (sign symmetry of the reducer, right identity): an empty right
/// side leaves the left mapping exactly as it is.
pub proof fn lemma_reduce_empty_right(l: Map<u32, u32>)
    ensures
        reduce_s(l, Map::<u32, u32>::empty()) == l,
{
    assert(reduce_s(l, Map::<u32, u32>::empty()) =~= l);
}

/// Law (sign symmetry of the reducer, termwise shape): an empty left
/// side yields, degree for degree, zero minus the right side's
/// coefficient — the right side enters negated and nothing else.
pub proof fn lemma_reduce_empty_left(r: Map<u32, u32>)
    ensures
        reduce_s(Map::<u32, u32>::empty(), r).dom() == r.dom(),
        forall|k: u32| #[trigger]
            r.dom().contains(k) ==> reduce_s(Map::<u32, u32>::empty(), r)[k] == sub_bits(
                ZERO_BITS,
                r[k],
            ),
{
    assert(reduce_s(Map::<u32, u32>::empty(), r).dom() =~= r.dom());
}

} // verus!
