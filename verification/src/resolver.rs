//! The recursive resolution engine.
//!
//! Resolution walks the delegation hierarchy from a hard-coded root
//! nameserver. The engine itself performs no I/O: it is a state machine
//! whose caller sends each requested query over the transport and feeds
//! the decoded response back in. A stack of frames carries the nested
//! sub-resolutions that unglued NS referrals demand; every frame below the
//! top holds the response it set aside while waiting for its nameserver's
//! address.

use vstd::prelude::*;
use crate::header::{DnsHeader, ResultCode};
use crate::name::{name_is_suffix, name_ends_with, bytes_eq, clone_bytes};
use crate::packet::{DnsPacket, SpecPacket, view_records};
use crate::question::SpecQuestion;
use crate::question::{DnsQuestion, QueryType};
use crate::record::{DnsRecord, SpecRecord, Ipv4Addr};

verus! {

/// The first `A` record among `resources` whose domain equals `host`: the
/// glue address for that nameserver, if the section carries one.
pub open spec fn spec_first_glue(resources: Seq<SpecRecord>, host: Seq<u8>) -> Option<Ipv4Addr>
    decreases resources.len(),
{
    if resources.len() == 0 {
        None
    } else {
        match resources[0] {
            SpecRecord::A { domain, addr, .. } => if domain == host {
                Some(addr)
            } else {
                spec_first_glue(resources.drop_first(), host)
            },
            _ => spec_first_glue(resources.drop_first(), host),
        }
    }
}

/// The address of the first authority `NS` whose domain is a suffix of
/// `qname` and whose host has a glue `A` record among `resources`.
pub open spec fn spec_resolved_ns(
    auths: Seq<SpecRecord>,
    resources: Seq<SpecRecord>,
    qname: Seq<u8>,
) -> Option<Ipv4Addr>
    decreases auths.len(),
{
    if auths.len() == 0 {
        None
    } else {
        let tail = spec_resolved_ns(auths.drop_first(), resources, qname);
        match auths[0] {
            SpecRecord::NS { domain, host, .. } => if name_is_suffix(qname, domain) {
                match spec_first_glue(resources, host) {
                    Some(a) => Some(a),
                    None => tail,
                }
            } else {
                tail
            },
            _ => tail,
        }
    }
}

/// The host of the first authority `NS` whose domain is a suffix of
/// `qname`, glued or not.
pub open spec fn spec_unresolved_ns(auths: Seq<SpecRecord>, qname: Seq<u8>) -> Option<Seq<u8>>
    decreases auths.len(),
{
    if auths.len() == 0 {
        None
    } else {
        match auths[0] {
            SpecRecord::NS { domain, host, .. } => if name_is_suffix(qname, domain) {
                Some(host)
            } else {
                spec_unresolved_ns(auths.drop_first(), qname)
            },
            _ => spec_unresolved_ns(auths.drop_first(), qname),
        }
    }
}

/// The address of the first `A` record among `answers`.
pub open spec fn spec_first_a(answers: Seq<SpecRecord>) -> Option<Ipv4Addr>
    decreases answers.len(),
{
    if answers.len() == 0 {
        None
    } else {
        match answers[0] {
            SpecRecord::A { addr, .. } => Some(addr),
            _ => spec_first_a(answers.drop_first()),
        }
    }
}

/// The glue search: the first `A` record in `resources` whose domain
/// equals `host`.
fn find_glue(resources: &Vec<DnsRecord>, host: &Vec<u8>) -> (r: Option<Ipv4Addr>)
    ensures
        r == spec_first_glue(view_records(resources@), host@),
{
    let ghost res = view_records(resources@);
    let mut j: usize = 0;
    proof {
        assert(res.skip(0) =~= res);
    }
    while j < resources.len()
        invariant
            j <= resources@.len(),
            res == view_records(resources@),
            spec_first_glue(res, host@) == spec_first_glue(res.skip(j as int), host@),
        decreases resources@.len() - j,
    {
        proof {
            assert(res.skip(j as int)[0] == res[j as int]);
            assert(res.skip(j as int).drop_first() =~= res.skip(j as int + 1));
            assert(resources@[j as int]@ == res[j as int]);
        }
        match &resources[j] {
            DnsRecord::A { domain: adomain, addr, .. } => {
                if bytes_eq(adomain, host) {
                    return Some(*addr);
                }
            },
            _ => (),
        }
        j = j + 1;
    }
    proof {
        assert(res.skip(resources@.len() as int).len() == 0);
    }
    None
}

impl DnsPacket {
    /// The next nameserver address for `qname` taken from a glued
    /// delegation: the first matching authority `NS` whose host has an `A`
    /// record in the additional section.
    pub fn get_resolved_ns(&self, qname: &Vec<u8>) -> (r: Option<Ipv4Addr>)
        ensures
            r == spec_resolved_ns(
                view_records(self.authorities@),
                view_records(self.resources@),
                qname@,
            ),
    {
        let ghost auths = view_records(self.authorities@);
        let ghost res = view_records(self.resources@);
        let mut i: usize = 0;
        proof {
            assert(auths.skip(0) =~= auths);
        }
        while i < self.authorities.len()
            invariant
                i <= self.authorities@.len(),
                auths == view_records(self.authorities@),
                res == view_records(self.resources@),
                spec_resolved_ns(auths, res, qname@) == spec_resolved_ns(
                    auths.skip(i as int),
                    res,
                    qname@,
                ),
            decreases self.authorities@.len() - i,
        {
            proof {
                assert(auths.skip(i as int)[0] == auths[i as int]);
                assert(auths.skip(i as int).drop_first() =~= auths.skip(i as int + 1));
                assert(self.authorities@[i as int]@ == auths[i as int]);
            }
            match &self.authorities[i] {
                DnsRecord::NS { domain, host, .. } => {
                    if name_ends_with(qname, domain) {
                        match find_glue(&self.resources, host) {
                            Some(a) => {
                                return Some(a);
                            },
                            None => (),
                        }
                    }
                },
                _ => (),
            }
            i = i + 1;
        }
        proof {
            assert(auths.skip(self.authorities@.len() as int).len() == 0);
        }
        None
    }

    /// The host of the first authority `NS` matching `qname`, for the
    /// unglued case; the caller resolves it from the root.
    pub fn get_unresolved_ns(&self, qname: &Vec<u8>) -> (r: Option<Vec<u8>>)
        ensures
            match r {
                Some(h) => spec_unresolved_ns(view_records(self.authorities@), qname@) == Some(h@),
                None => spec_unresolved_ns(view_records(self.authorities@), qname@) is None,
            },
    {
        let ghost auths = view_records(self.authorities@);
        let mut i: usize = 0;
        proof {
            assert(auths.skip(0) =~= auths);
        }
        while i < self.authorities.len()
            invariant
                i <= self.authorities@.len(),
                auths == view_records(self.authorities@),
                spec_unresolved_ns(auths, qname@) == spec_unresolved_ns(
                    auths.skip(i as int),
                    qname@,
                ),
            decreases self.authorities@.len() - i,
        {
            proof {
                assert(auths.skip(i as int)[0] == auths[i as int]);
                assert(auths.skip(i as int).drop_first() =~= auths.skip(i as int + 1));
                assert(self.authorities@[i as int]@ == auths[i as int]);
            }
            match &self.authorities[i] {
                DnsRecord::NS { domain, host, .. } => {
                    if name_ends_with(qname, domain) {
                        return Some(clone_bytes(host));
                    }
                },
                _ => (),
            }
            i = i + 1;
        }
        proof {
            assert(auths.skip(self.authorities@.len() as int).len() == 0);
        }
        None
    }

    /// The address of the first `A` record among the answers; which answer
    /// is taken is implementation-defined but stable, and this takes the
    /// first in section order.
    pub fn get_random_a(&self) -> (r: Option<Ipv4Addr>)
        ensures
            r == spec_first_a(view_records(self.answers@)),
    {
        let ghost ans = view_records(self.answers@);
        let mut i: usize = 0;
        proof {
            assert(ans.skip(0) =~= ans);
        }
        while i < self.answers.len()
            invariant
                i <= self.answers@.len(),
                ans == view_records(self.answers@),
                spec_first_a(ans) == spec_first_a(ans.skip(i as int)),
            decreases self.answers@.len() - i,
        {
            proof {
                assert(ans.skip(i as int)[0] == ans[i as int]);
                assert(ans.skip(i as int).drop_first() =~= ans.skip(i as int + 1));
                assert(self.answers@[i as int]@ == ans[i as int]);
            }
            match &self.answers[i] {
                DnsRecord::A { addr, .. } => {
                    return Some(*addr);
                },
                _ => (),
            }
            i = i + 1;
        }
        proof {
            assert(ans.skip(self.answers@.len() as int).len() == 0);
        }
        None
    }
}

/// The root nameserver the engine starts from: a.root-servers.net.
pub fn root_ns() -> (r: Ipv4Addr)
    ensures
        r == (Ipv4Addr { o0: 198, o1: 41, o2: 0, o3: 4 }),
{
    Ipv4Addr { o0: 198, o1: 41, o2: 0, o3: 4 }
}

/// A response that ends the delegation walk: answers under `NOERROR`, or
/// an authoritative `NXDOMAIN`.
pub open spec fn terminal_response(p: SpecPacket) -> bool {
    (p.answers.len() > 0 && p.header.rescode == ResultCode::NOERROR) || p.header.rescode
        == ResultCode::NXDOMAIN
}

/// One pending lookup: what is being asked, which nameserver is next, and
/// — for every frame below the top of the stack — the response set aside
/// while a nameserver address is resolved.
pub struct Frame {
    pub qname: Vec<u8>,
    pub qtype: QueryType,
    pub ns: Ipv4Addr,
    pub waiting: Option<DnsPacket>,
}

/// The mathematical model of a frame.
pub struct SpecFrame {
    pub qname: Seq<u8>,
    pub qtype: QueryType,
    pub ns: Ipv4Addr,
    pub waiting: Option<SpecPacket>,
}

impl View for Frame {
    type V = SpecFrame;

    open spec fn view(&self) -> SpecFrame {
        SpecFrame {
            qname: self.qname@,
            qtype: self.qtype,
            ns: self.ns,
            waiting: match self.waiting {
                Some(p) => Some(p@),
                None => None,
            },
        }
    }
}

/// The frames of a vector, as their models.
pub open spec fn view_frames(v: Seq<Frame>) -> Seq<SpecFrame> {
    v.map_values(|f: Frame| f@)
}

/// What the engine asks of its caller next: send one query and feed the
/// response back, or take the finished result.
pub enum ResolveAction {
    Query { ns: Ipv4Addr, qname: Vec<u8>, qtype: QueryType },
    Done(DnsPacket),
}

/// The mathematical model of an action.
pub enum SpecAction {
    Query { ns: Ipv4Addr, qname: Seq<u8>, qtype: QueryType },
    Done(SpecPacket),
}

impl View for ResolveAction {
    type V = SpecAction;

    open spec fn view(&self) -> SpecAction {
        match self {
            ResolveAction::Query { ns, qname, qtype } => SpecAction::Query {
                ns: *ns,
                qname: qname@,
                qtype: *qtype,
            },
            ResolveAction::Done(p) => SpecAction::Done(p@),
        }
    }
}

/// A finished lookup hands its packet back down the stack. The parent
/// frame adopts the first `A` answer as its next nameserver; without one
/// it gives up and returns the response it had set aside, and the handing
/// down repeats. An empty stack ends the resolution.
pub open spec fn spec_return(stack: Seq<SpecFrame>, pkt: SpecPacket) -> (
    Seq<SpecFrame>,
    SpecAction,
)
    decreases stack.len(),
{
    if stack.len() == 0 {
        (stack, SpecAction::Done(pkt))
    } else {
        let parent = stack.last();
        match spec_first_a(pkt.answers) {
            Some(a) => (
                stack.update(
                    stack.len() - 1,
                    SpecFrame { ns: a, waiting: None, ..parent },
                ),
                SpecAction::Query { ns: a, qname: parent.qname, qtype: parent.qtype },
            ),
            None => match parent.waiting {
                Some(prior) => spec_return(stack.drop_last(), prior),
                None => (stack.drop_last(), SpecAction::Done(pkt)),
            },
        }
    }
}

/// One step of the engine on the response to the top frame's query:
/// return on a terminal response; follow a glued delegation; push a
/// sub-resolution for an unglued one; else give the response back.
pub open spec fn spec_step(frames: Seq<SpecFrame>, resp: SpecPacket) -> (Seq<SpecFrame>, SpecAction)
    recommends
        frames.len() > 0,
{
    let f = frames.last();
    if terminal_response(resp) {
        spec_return(frames.drop_last(), resp)
    } else {
        match spec_resolved_ns(resp.authorities, resp.resources, f.qname) {
            Some(a) => (
                frames.update(frames.len() - 1, SpecFrame { ns: a, ..f }),
                SpecAction::Query { ns: a, qname: f.qname, qtype: f.qtype },
            ),
            None => match spec_unresolved_ns(resp.authorities, f.qname) {
                Some(host) => (
                    frames.update(frames.len() - 1, SpecFrame { waiting: Some(resp), ..f }).push(
                        SpecFrame {
                            qname: host,
                            qtype: QueryType::A,
                            ns: Ipv4Addr { o0: 198, o1: 41, o2: 0, o3: 4 },
                            waiting: None,
                        },
                    ),
                    SpecAction::Query {
                        ns: Ipv4Addr { o0: 198, o1: 41, o2: 0, o3: 4 },
                        qname: host,
                        qtype: QueryType::A,
                    },
                ),
                None => spec_return(frames.drop_last(), resp),
            },
        }
    }
}

/// The delegation-walking engine: a stack of pending lookups.
pub struct Resolver {
    pub frames: Vec<Frame>,
}

impl Resolver {
    /// Every frame below the top holds a set-aside response.
    pub open spec fn wf(self) -> bool {
        forall|i: int|
            0 <= i < self.frames@.len() - 1 ==> (#[trigger] self.frames@[i]@).waiting is Some
    }

    /// A resolution that has not produced its final packet yet.
    pub open spec fn in_progress(self) -> bool {
        self.frames@.len() > 0
    }

    /// Begin resolving `(qname, qtype)` at the root nameserver. The caller
    /// sends the returned query and feeds the response to `on_response`.
    pub fn start(qname: Vec<u8>, qtype: QueryType) -> (r: (Resolver, ResolveAction))
        ensures
            r.0.wf(),
            r.0.in_progress(),
            view_frames(r.0.frames@) == seq![
                SpecFrame {
                    qname: qname@,
                    qtype,
                    ns: (Ipv4Addr { o0: 198, o1: 41, o2: 0, o3: 4 }),
                    waiting: None,
                },
            ],
            r.1@ == (SpecAction::Query {
                ns: (Ipv4Addr { o0: 198, o1: 41, o2: 0, o3: 4 }),
                qname: qname@,
                qtype,
            }),
    {
        let ns = root_ns();
        let q2 = clone_bytes(&qname);
        let mut frames: Vec<Frame> = Vec::new();
        frames.push(Frame { qname, qtype, ns, waiting: None });
        let resolver = Resolver { frames };
        let action = ResolveAction::Query { ns, qname: q2, qtype };
        proof {
            assert(view_frames(resolver.frames@) =~= seq![
                SpecFrame {
                    qname: q2@,
                    qtype,
                    ns: (Ipv4Addr { o0: 198, o1: 41, o2: 0, o3: 4 }),
                    waiting: None,
                },
            ]);
        }
        (resolver, action)
    }

    /// Hand a finished packet back down the stack, as `spec_return`
    /// states.
    fn resume(&mut self, pkt: DnsPacket) -> (r: ResolveAction)
        requires
            forall|i: int|
                0 <= i < old(self).frames@.len() ==> (#[trigger] old(
                    self,
                ).frames@[i]@).waiting is Some,
        ensures
            final(self).wf(),
            (view_frames(final(self).frames@), r@) == spec_return(
                view_frames(old(self).frames@),
                pkt@,
            ),
            r is Query ==> final(self).in_progress(),
        decreases self.frames@.len(),
    {
        let ghost stack = view_frames(self.frames@);
        if self.frames.len() == 0 {
            return ResolveAction::Done(pkt);
        }
        proof {
            assert(stack.last() == self.frames@.last()@);
        }
        match pkt.get_random_a() {
            Some(a) => {
                let mut parent = match self.frames.pop() {
                    Some(f) => f,
                    None => {
                        proof {
                            assert(false);
                        }
                        return ResolveAction::Done(pkt);
                    },
                };
                parent.ns = a;
                parent.waiting = None;
                let q = clone_bytes(&parent.qname);
                let qt = parent.qtype;
                self.frames.push(parent);
                proof {
                    assert(view_frames(self.frames@) =~= stack.update(
                        stack.len() - 1,
                        SpecFrame { ns: a, waiting: None, ..stack.last() },
                    ));
                }
                ResolveAction::Query { ns: a, qname: q, qtype: qt }
            },
            None => {
                let parent = match self.frames.pop() {
                    Some(f) => f,
                    None => {
                        proof {
                            assert(false);
                        }
                        return ResolveAction::Done(pkt);
                    },
                };
                proof {
                    assert(view_frames(self.frames@) =~= stack.drop_last());
                }
                match parent.waiting {
                    Some(prior) => self.resume(prior),
                    None => {
                        proof {
                            assert(parent@.waiting is None);
                            assert(false);
                        }
                        ResolveAction::Done(pkt)
                    },
                }
            },
        }
    }

    /// Feed the engine the decoded response to the query it last asked
    /// for, as `spec_step` states. A transport or decode failure has no
    /// transition: the caller abandons the resolution instead.
    pub fn on_response(&mut self, response: DnsPacket) -> (r: ResolveAction)
        requires
            old(self).wf(),
            old(self).in_progress(),
        ensures
            final(self).wf(),
            (view_frames(final(self).frames@), r@) == spec_step(
                view_frames(old(self).frames@),
                response@,
            ),
            r is Query ==> final(self).in_progress(),
    {
        let ghost frames0 = view_frames(self.frames@);
        let terminal = (response.answers.len() > 0 && response.header.rescode
            == ResultCode::NOERROR) || response.header.rescode == ResultCode::NXDOMAIN;
        if terminal {
            let _ = self.frames.pop();
            proof {
                assert(view_frames(self.frames@) =~= frames0.drop_last());
            }
            return self.resume(response);
        }
        let last = self.frames.len() - 1;
        proof {
            assert(frames0.last() == self.frames@[last as int]@);
        }
        match response.get_resolved_ns(&self.frames[last].qname) {
            Some(a) => {
                let mut frame = match self.frames.pop() {
                    Some(f) => f,
                    None => {
                        proof {
                            assert(false);
                        }
                        return ResolveAction::Done(response);
                    },
                };
                frame.ns = a;
                let q = clone_bytes(&frame.qname);
                let qt = frame.qtype;
                self.frames.push(frame);
                proof {
                    assert(view_frames(self.frames@) =~= frames0.update(
                        frames0.len() - 1,
                        SpecFrame { ns: a, ..frames0.last() },
                    ));
                }
                ResolveAction::Query { ns: a, qname: q, qtype: qt }
            },
            None => {
                match response.get_unresolved_ns(&self.frames[last].qname) {
                    Some(host) => {
                        let mut frame = match self.frames.pop() {
                            Some(f) => f,
                            None => {
                                proof {
                                    assert(false);
                                }
                                return ResolveAction::Done(response);
                            },
                        };
                        frame.waiting = Some(response);
                        self.frames.push(frame);
                        let host2 = clone_bytes(&host);
                        let ns = root_ns();
                        self.frames.push(
                            Frame { qname: host, qtype: QueryType::A, ns, waiting: None },
                        );
                        proof {
                            assert(view_frames(self.frames@) =~= frames0.update(
                                frames0.len() - 1,
                                SpecFrame { waiting: Some(response@), ..frames0.last() },
                            ).push(
                                SpecFrame {
                                    qname: host2@,
                                    qtype: QueryType::A,
                                    ns: (Ipv4Addr { o0: 198, o1: 41, o2: 0, o3: 4 }),
                                    waiting: None,
                                },
                            ));
                        }
                        ResolveAction::Query { ns, qname: host2, qtype: QueryType::A }
                    },
                    None => {
                        let _ = self.frames.pop();
                        proof {
                            assert(view_frames(self.frames@) =~= frames0.drop_last());
                        }
                        self.resume(response)
                    },
                }
            },
        }
    }

}

/// The one-question query packet the engine sends upstream: recursion
/// desired, and the given transaction id.
pub fn build_query(id: u16, qname: Vec<u8>, qtype: QueryType) -> (r: DnsPacket)
    ensures
        r.header == (DnsHeader { id, recursion_desired: true, questions: 1, ..DnsHeader::spec_new() }),
        r@.questions == seq![SpecQuestion { name: qname@, qtype }],
        r@.answers.len() == 0,
        r@.authorities.len() == 0,
        r@.resources.len() == 0,
{
    let mut packet = DnsPacket::new();
    packet.header.id = id;
    packet.header.questions = 1;
    packet.header.recursion_desired = true;
    packet.questions.push(DnsQuestion::new(qname, qtype));
    proof {
        assert(view_records(packet.answers@).len() == 0);
        assert(packet@.questions =~= seq![
            SpecQuestion { name: packet.questions@[0].name@, qtype },
        ]);
    }
    packet
}

} // verus!
