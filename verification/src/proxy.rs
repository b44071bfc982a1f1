//! The per-query pipeline: decode the datagram, consult the denylist,
//! and either build the NXDOMAIN block reply, ask for the query to be
//! forwarded upstream, or drop it — plus the forwarder's decision
//! rules for trying upstreams in order.

use vstd::prelude::*;
use crate::packet::{BytePacketBuffer, PACKET_SIZE};
use crate::dns::{
    DnsPacket, DnsHeader, ResultCode, PacketModel, parse_packet, packet_bytes, packet_ok,
};
use crate::filter::{Filter, FilterModel, spec_should_filter, should_filter};
use crate::exchange::ExchangeState;

verus! {

/// What the pipeline decides for one datagram: send these bytes back
/// to the client, forward the raw request upstream, or drop it with
/// no reply.
#[derive(Debug, Clone, PartialEq, Eq)]
pub enum QueryAction {
    Reply(Vec<u8>),
    Forward,
    Drop,
}

/// Spec-level pipeline decision.
pub enum ActionModel {
    Reply(Seq<u8>),
    Forward,
    Drop,
}

impl View for QueryAction {
    type V = ActionModel;

    open spec fn view(&self) -> ActionModel {
        match self {
            QueryAction::Reply(data) => ActionModel::Reply(data@),
            QueryAction::Forward => ActionModel::Forward,
            QueryAction::Drop => ActionModel::Drop,
        }
    }
}

/// The block reply for a request: the request's header with the
/// response and recursion-available flags raised and the result code
/// NXDOMAIN, the request's questions echoed, and no records at all.
pub open spec fn block_reply_model(m: PacketModel) -> PacketModel {
    PacketModel {
        header: DnsHeader {
            response: true,
            recursion_available: true,
            result_code: ResultCode::NXDOMAIN,
            ..m.header
        },
        questions: m.questions,
        answers: Seq::empty(),
        authorities: Seq::empty(),
        resources: Seq::empty(),
    }
}

/// Law (block reply shape): the block reply keeps the request's id
/// and questions, answers NXDOMAIN as a response, and carries no
/// answer, authority or additional records.
pub proof fn lemma_block_reply_shape(m: PacketModel)
    ensures
        block_reply_model(m).header.id == m.header.id,
        block_reply_model(m).header.result_code == ResultCode::NXDOMAIN,
        block_reply_model(m).header.response,
        block_reply_model(m).questions == m.questions,
        block_reply_model(m).answers.len() == 0,
        block_reply_model(m).authorities.len() == 0,
        block_reply_model(m).resources.len() == 0,
{
}

/// What the pipeline does with a datagram: drop what does not decode
/// or has no question; for a blocked first question, reply with the
/// block reply's wire form (or drop it if it cannot be encoded);
/// forward everything else.
pub open spec fn spec_handle(buf: Seq<u8>, pos: int, list: Seq<FilterModel>) -> ActionModel {
    match parse_packet(buf, pos) {
        None => ActionModel::Drop,
        Some(m) => if m.questions.len() == 0 {
            ActionModel::Drop
        } else if spec_should_filter(m.questions[0].name, list) {
            if packet_ok(block_reply_model(m)) && packet_bytes(block_reply_model(m)).len()
                <= PACKET_SIZE {
                ActionModel::Reply(packet_bytes(block_reply_model(m)))
            } else {
                ActionModel::Drop
            }
        } else {
            ActionModel::Forward
        },
    }
}

/// The per-query pipeline around one shared denylist.
#[derive(Debug)]
pub struct DnsProxy {
    pub complete_block_list: Vec<Filter>,
}

impl DnsProxy {
    /// Whether the denylist blocks the given name.
    pub fn should_filter(&self, domain: &Vec<u8>) -> (r: bool)
        ensures
            r == spec_should_filter(domain@, self.complete_block_list.deep_view()),
    {
        should_filter(domain, &self.complete_block_list)
    }

    /// Decides one datagram: decode it, consult the denylist on the
    /// first question's name, and hand back the block reply's bytes,
    /// the order to forward, or the order to drop.
    pub fn handle(&self, req: &mut BytePacketBuffer) -> (r: QueryAction)
        requires
            old(req).wf(),
        ensures
            final(req).wf(),
            final(req).buf@ == old(req).buf@,
            r@ == spec_handle(
                old(req).buf@,
                old(req).pos as int,
                self.complete_block_list.deep_view(),
            ),
    {
        let ghost m_opt = parse_packet(old(req).buf@, old(req).pos as int);
        let mut request = match DnsPacket::from_buffer(req) {
            Ok(p) => p,
            Err(_) => {
                return QueryAction::Drop;
            },
        };
        let ghost m = m_opt->Some_0;
        if request.questions.len() == 0 {
            return QueryAction::Drop;
        }
        proof {
            assert(m.questions[0].name == request.questions@[0].name@);
        }
        let blocked = should_filter(&request.questions[0].name, &self.complete_block_list);
        if blocked {
            request.header.result_code = ResultCode::NXDOMAIN;
            request.header.response = true;
            request.header.recursion_available = true;
            request.answers = Vec::new();
            request.authorities = Vec::new();
            request.resources = Vec::new();
            proof {
                assert(request@ =~~= block_reply_model(m));
            }
            let mut res_buffer = BytePacketBuffer::new();
            match request.write(&mut res_buffer) {
                Ok(_) => {},
                Err(_) => {
                    return QueryAction::Drop;
                },
            }
            let pos = res_buffer.pos();
            match res_buffer.get_range(0, pos) {
                Ok(data) => {
                    proof {
                        assert(data@ =~= packet_bytes(block_reply_model(m)));
                    }
                    QueryAction::Reply(data)
                },
                Err(_) => QueryAction::Drop,
            }
        } else {
            QueryAction::Forward
        }
    }
}

/// The forward handler: its per-attempt decision rules.  The outside
/// work — binding an ephemeral socket, sending, awaiting a reply with
/// a timeout — happens around the library, which decides only which
/// upstream to try next and what the attempt's outcome means.
pub struct ProxyHandler;

impl ProxyHandler {
    /// Law (deterministic fallback): upstreams are tried one by one in
    /// configured order, so after `failed_attempts` failures the next
    /// upstream is exactly the one at that index, and none is left
    /// once every one has failed.
    pub fn next_upstream(upstream_count: usize, failed_attempts: usize) -> (r: Option<usize>)
        ensures
            r == if failed_attempts < upstream_count {
                Some(failed_attempts)
            } else {
                None::<usize>
            },
    {
        if failed_attempts < upstream_count {
            Some(failed_attempts)
        } else {
            None
        }
    }

    /// The exchange state once a forward attempt resolves: `OK` when
    /// an upstream answered and the reply reached the client, `FAILED`
    /// when the reply could not be sent to the client, and `INVALID`
    /// when every upstream timed out or failed, so no reply is owed.
    pub fn exec_outcome(got_reply: bool, sent_to_client: bool) -> (r: ExchangeState)
        ensures
            !got_reply ==> r is INVALID,
            got_reply && sent_to_client ==> r is OK,
            got_reply && !sent_to_client ==> r is FAILED,
    {
        if !got_reply {
            ExchangeState::INVALID
        } else if sent_to_client {
            ExchangeState::OK
        } else {
            ExchangeState::FAILED
        }
    }
}

} // verus!
