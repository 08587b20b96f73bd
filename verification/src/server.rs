//! The query handler's decision logic.
//!
//! The handler itself sits at the UDP edge outside this library: it
//! receives one datagram, decodes it, takes the first question, drives the
//! resolution engine, and sends back what `make_response` builds here.

use vstd::prelude::*;
use crate::header::{DnsHeader, ResultCode};
use crate::packet::{DnsPacket, view_questions};
use crate::question::DnsQuestion;

verus! {

impl DnsPacket {
    /// Remove and return the first question, for the handler, which
    /// serves one question per message and ignores any extras.
    pub fn take_first_question(&mut self) -> (r: Option<DnsQuestion>)
        ensures
            final(self).header == old(self).header,
            final(self).answers == old(self).answers,
            final(self).authorities == old(self).authorities,
            final(self).resources == old(self).resources,
            old(self).questions@.len() == 0 ==> r is None && final(self).questions
                == old(self).questions,
            old(self).questions@.len() > 0 ==> r == Some(old(self).questions@[0])
                && final(self).questions@ == old(self).questions@.drop_first(),
    {
        if self.questions.len() == 0 {
            return None;
        }
        let q = self.questions.remove(0);
        proof {
            assert(self.questions@ =~= old(self).questions@.drop_first());
        }
        Some(q)
    }
}

/// The response the handler sends, built from the request's id, the
/// question it served, and what the resolution engine produced. With no
/// question the answer is `FORMERR`; with a question but no engine result
/// it is `SERVFAIL`; otherwise the engine's result code and sections are
/// taken over and the question echoed.
pub fn make_response(request_id: u16, question: Option<DnsQuestion>, outcome: Option<
    DnsPacket,
>) -> (r: DnsPacket)
    ensures
        r.header == (DnsHeader {
            id: request_id,
            response: true,
            recursion_desired: true,
            recursion_available: true,
            rescode: r.header.rescode,
            ..DnsHeader::spec_new()
        }),
        match question {
            None => r.header.rescode == ResultCode::FORMERR && r@.questions.len() == 0
                && r@.answers.len() == 0 && r@.authorities.len() == 0 && r@.resources.len() == 0,
            Some(q) => match outcome {
                Some(res) => r.header.rescode == res@.header.rescode && r@.questions == seq![q@]
                    && r@.answers == res@.answers && r@.authorities == res@.authorities
                    && r@.resources == res@.resources,
                None => r.header.rescode == ResultCode::SERVFAIL && r@.questions.len() == 0
                    && r@.answers.len() == 0 && r@.authorities.len() == 0 && r@.resources.len()
                    == 0,
            },
        },
{
    let mut response = DnsPacket::new();
    response.header.id = request_id;
    response.header.recursion_desired = true;
    response.header.recursion_available = true;
    response.header.response = true;
    match question {
        Some(q) => {
            match outcome {
                Some(result) => {
                    response.header.rescode = result.header.rescode;
                    response.questions.push(q);
                    response.answers = result.answers;
                    response.authorities = result.authorities;
                    response.resources = result.resources;
                    proof {
                        assert(view_questions(response.questions@) =~= seq![
                            response.questions@[0]@,
                        ]);
                    }
                },
                None => {
                    response.header.rescode = ResultCode::SERVFAIL;
                },
            }
        },
        None => {
            response.header.rescode = ResultCode::FORMERR;
        },
    }
    response
}

} // verus!
