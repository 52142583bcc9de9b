//! Recording the responses of one measurement: a query for `start.example.` starts it, one for
//! `end.example.` ends it and hands out what was recorded.

use crate::load_sequence::{str_equals, AbstractQueryResponse};
use vstd::prelude::*;

verus! {

/// What a measurement records for a DNS message of `size` bytes at `time` with the question
/// `qname`: a start marker forgets what was recorded, an end marker hands it out (and forgets
/// it), any other message is recorded with its size (modulo 2^32).
pub fn record_message(
    recorded: &mut Vec<AbstractQueryResponse>,
    qname: &str,
    time: i128,
    size: usize,
) -> (r: Option<Vec<AbstractQueryResponse>>)
    ensures
        qname@ == "start.example."@ ==> r is None && final(recorded)@.len() == 0,
        qname@ == "end.example."@ ==> (r matches Some(v) && v@ == old(recorded)@),
        qname@ == "end.example."@ ==> final(recorded)@.len() == 0,
        qname@ != "start.example."@ && qname@ != "end.example."@ ==> r is None,
        qname@ != "start.example."@ && qname@ != "end.example."@ ==> final(recorded)@ == old(recorded)@.push(
            AbstractQueryResponse { time, size: (size as int % 0x1_0000_0000) as u32 },
        ),
{
    proof {
        reveal_strlit("start.example.");
        reveal_strlit("end.example.");
        assert("start.example."@[0] != "end.example."@[0]);
    }
    if str_equals(qname, "start.example.") {
        recorded.clear();
        None
    } else if str_equals(qname, "end.example.") {
        let mut out: Vec<AbstractQueryResponse> = Vec::new();
        std::mem::swap(&mut out, recorded);
        Some(out)
    } else {
        let size32: u32 = (size as u64 % 0x1_0000_0000) as u32;
        recorded.push(AbstractQueryResponse { time, size: size32 });
        None
    }
}

} // verus!
