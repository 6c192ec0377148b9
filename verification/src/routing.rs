//! The routing table's keying rule.
//!
//! The routing table pairs each output identifier with one writer and the
//! rule that governs it. It is keyed by the output identifier alone, so when
//! two rules declare the same identifier the one inserted later — the last
//! in processing order — owns the file's writer.

use vstd::prelude::*;

use crate::config::FilterConfig;

verus! {

/// The rule that owns an output identifier's writer: the last rule, in
/// processing order, that declares this identifier, or `None` when no rule
/// does.
pub fn output_owner(configs: &Vec<FilterConfig>, output: &String) -> (r: Option<usize>)
    ensures
        r is Some <==> exists|i: int| 0 <= i < configs@.len() && (#[trigger] configs@[i]).output@
            == output@,
        r matches Some(i) ==> {
            &&& i < configs@.len()
            &&& configs@[i as int].output@ == output@
            &&& forall|j: int| i < j < configs@.len() ==> (#[trigger] configs@[j]).output@
                != output@
        },
{
    let mut owner: Option<usize> = None;
    let mut i: usize = 0;
    while i < configs.len()
        invariant
            i <= configs@.len(),
            owner is Some <==> exists|k: int| 0 <= k < i && (#[trigger] configs@[k]).output@
                == output@,
            owner matches Some(o) ==> {
                &&& o < i
                &&& configs@[o as int].output@ == output@
                &&& forall|j: int| o < j < i ==> (#[trigger] configs@[j]).output@ != output@
            },
        decreases configs@.len() - i,
    {
        if configs[i].output == *output {
            owner = Some(i);
        }
        i += 1;
    }
    owner
}

} // verus!
