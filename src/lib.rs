//! Reconstruction of a call tree from a flat stream of call and return
//! events, and its rendering as a self-contained HTML report.

pub mod call_node;
pub mod text;
pub mod reporter;
pub mod record;
pub mod laws;

use vstd::prelude::*;

use crate::call_node::{build_call_tree, call_tree, RawEvent};
use crate::record::{lemma_holds_no_fault, first_fault, parse_events, record_holds, error_is, FieldError, FieldValue};
use crate::reporter::{document, generate_html};

verus! {

/// Reads the event records, rebuilds the call tree over the window
/// `[start_ns, end_ns]` and renders its report under `api_name`; fails with
/// the first field that cannot be read.
pub fn process_events(
    events: &Vec<Vec<(String, FieldValue)>>,
    api_name: &str,
    start_ns: u64,
    end_ns: u64,
) -> (r: Result<String, FieldError>)
    ensures
        (forall|i: int| 0 <= i < events@.len() ==> #[trigger] first_fault(events@[i]@) is None) <==> r is Ok,
        r is Ok ==> exists|parsed: Seq<RawEvent>|
            parsed.len() == events@.len() && (forall|i: int|
                0 <= i < events@.len() ==> #[trigger] record_holds(events@[i]@, parsed[i]))
                && r->Ok_0@ == document(call_tree(parsed, api_name@, start_ns, end_ns), api_name@),
        forall|i: int|
            0 <= i < events@.len() && #[trigger] first_fault(events@[i]@) is Some && (forall|j: int|
                0 <= j < i ==> #[trigger] first_fault(events@[j]@) is None) ==> r is Err && error_is(
                r->Err_0,
                first_fault(events@[i]@)->0,
            ),
{
    let raw = match parse_events(events) {
        Ok(raw) => raw,
        Err(e) => {
            return Err(e);
        },
    };
    let ghost parsed = raw@;
    // A vector's length fits in usize, and so does the size of the tree.
    let _len: usize = raw.len();
    let root = build_call_tree(raw, api_name, start_ns, end_ns);
    let html = generate_html(&root, api_name);
    proof {
        assert forall|i: int| 0 <= i < events@.len() implies #[trigger] first_fault(events@[i]@) is None by {
            lemma_holds_no_fault(events@[i]@, parsed[i]);
        }
    }
    Ok(html)
}

} // verus!
