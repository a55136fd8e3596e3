//! The reply to one datagram: its header, its records, and when there is
//! none.

use crate::parser::{decoded, lemma_decoded_counts, lemma_status_of_request, parse};
use crate::parser::{parse_header_status, status_at};
use crate::parser::{Name, Req, ReqHeaderStatus, ReqView, Type};
use crate::record::{name_wire, record_wire, serialize_name, Record, RecordView};
use crate::text::to_owned_label;
use crate::wire::{be16, join_u16, put_u16, u16_be};
use crate::zone::{resolution, RecordStorage, ZoneView};
use vstd::prelude::*;
use vstd::slice::slice_subrange;

verus! {

/// The response codes.
#[derive(Debug, Clone, Copy, PartialEq, Eq, Structural)]
pub enum Rcode {
    OK,
    Format,
    Internal,
    Name,
    NotImpl,
    Refused,
}

impl Rcode {
    /// The number that stands for this code on the wire.
    pub open spec fn spec_code(&self) -> u8 {
        match self {
            Rcode::OK => 0,
            Rcode::Format => 1,
            Rcode::Internal => 2,
            Rcode::Name => 3,
            Rcode::NotImpl => 4,
            Rcode::Refused => 5,
        }
    }

    #[verifier::when_used_as_spec(spec_code)]
    pub fn code(&self) -> (n: u8)
        ensures
            n == self.spec_code(),
    {
        match self {
            Rcode::OK => 0,
            Rcode::Format => 1,
            Rcode::Internal => 2,
            Rcode::Name => 3,
            Rcode::NotImpl => 4,
            Rcode::Refused => 5,
        }
    }
}

/// The first flag byte of a response: the response bit, the opcode of the
/// request in the four bits below it, then AA, a clear TC, and the RD bit of
/// the request.
pub open spec fn flags_byte(status: ReqHeaderStatus, is_aa: bool) -> u8 {
    (128 + status.opcode.spec_code() * 8 + (if is_aa {
        4int
    } else {
        0int
    }) + (if status.rd {
        1int
    } else {
        0int
    })) as u8
}

/// The twelve bytes of a response header: the id, the flag byte, the response
/// code with RA, Z, AD and CD clear, and the four counts.
pub open spec fn header_wire(
    id: u16,
    rcode: Rcode,
    is_aa: bool,
    status: ReqHeaderStatus,
    cnts: Seq<u16>,
) -> Seq<u8> {
    u16_be(id) + seq![flags_byte(status, is_aa), rcode.spec_code()] + u16_be(cnts[0]) + u16_be(
        cnts[1],
    ) + u16_be(cnts[2]) + u16_be(cnts[3])
}

/// The four counts of a response that carries no record.
pub open spec fn no_counts() -> Seq<u16> {
    seq![0u16, 0u16, 0u16, 0u16]
}

/// The records of a response on the wire: each behind the name they were
/// found at.
pub open spec fn answers_wire(scope: Seq<Seq<char>>, answers: Seq<RecordView>) -> Seq<u8>
    decreases answers.len(),
{
    if answers.len() == 0 {
        Seq::empty()
    } else {
        answers_wire(scope, answers.drop_last()) + name_wire(scope) + record_wire(answers.last())
    }
}

/// Whether an answer is a referral: its first record is of type NS.
pub open spec fn is_referral(answers: Seq<RecordView>) -> bool {
    answers.len() > 0 && answers[0].inner.ty() == Type::NS
}

/// Whether a request asks for what this server does: one question, whose
/// name ends without a compression pointer.
pub open spec fn is_supported(req: ReqView) -> bool {
    req.questions.len() == 1 && req.questions[0].name.ptr is None
}

/// The reply to a request that asks for what this server does not do.
pub open spec fn not_implemented_wire(req: ReqView) -> Seq<u8> {
    header_wire(req.header.id, Rcode::NotImpl, true, req.header.status, no_counts())
}

/// The reply that carries the resolution of a question. Without records the
/// name is reported as unknown. A referral is not authoritative and counts its
/// records as authority records; any other answer is authoritative and counts
/// them as answers. The question count stays zero, and so does the count of
/// additional records. A count is the low sixteen bits of the number of
/// records.
pub open spec fn resolved_wire(
    id: u16,
    status: ReqHeaderStatus,
    scope: Seq<Seq<char>>,
    answers: Seq<RecordView>,
) -> Seq<u8> {
    let rcode = if answers.len() > 0 {
        Rcode::OK
    } else {
        Rcode::Name
    };
    let count = (answers.len() % 0x1_0000) as u16;
    let cnts = if is_referral(answers) {
        seq![0u16, 0u16, count, 0u16]
    } else {
        seq![0u16, count, 0u16, 0u16]
    };
    header_wire(id, rcode, !is_referral(answers), status, cnts) + answers_wire(scope, answers)
}

/// The reply to a decoded request.
pub open spec fn answer_wire(req: ReqView, zone: ZoneView) -> Seq<u8> {
    if !is_supported(req) {
        not_implemented_wire(req)
    } else {
        let question = req.questions[0];
        let found = resolution(zone, question.name.labels, question.ty);
        resolved_wire(req.header.id, req.header.status, found.0, found.1)
    }
}

/// The reply to a datagram that is no request: a format error under the id
/// and flags of the datagram, where it has four bytes and its flag bytes can
/// be read on their own; else none.
pub open spec fn format_error_wire(buf: Seq<u8>) -> Option<Seq<u8>> {
    if buf.len() < 4 {
        None
    } else {
        match status_at(buf.skip(2), 0) {
            Err(_) => None,
            Ok((status, _)) => Some(
                header_wire(be16(buf[0], buf[1]), Rcode::Format, true, status, no_counts()),
            ),
        }
    }
}

/// The reply to a datagram, if it gets one.
pub open spec fn response(buf: Seq<u8>, zone: ZoneView) -> Option<Seq<u8>> {
    match decoded(buf) {
        Ok(req) => Some(answer_wire(req, zone)),
        Err(_) => format_error_wire(buf),
    }
}

/// Appends a response header.
pub fn write_resp_header(
    writer: &mut Vec<u8>,
    id: u16,
    rcode: Rcode,
    is_aa: bool,
    req_status: &ReqHeaderStatus,
    cnts: [u16; 4],
)
    ensures
        final(writer)@ == old(writer)@ + header_wire(id, rcode, is_aa, *req_status, cnts@),
{
    put_u16(writer, id);
    let aa: u8 = if is_aa {
        4
    } else {
        0
    };
    let rd: u8 = if req_status.rd {
        1
    } else {
        0
    };
    writer.push(128 + req_status.opcode.code() * 8 + aa + rd);
    writer.push(rcode.code());
    put_u16(writer, cnts[0]);
    put_u16(writer, cnts[1]);
    put_u16(writer, cnts[2]);
    put_u16(writer, cnts[3]);
    assert(writer@ =~= old(writer)@ + header_wire(id, rcode, is_aa, *req_status, cnts@));
}

/// The labels of a decoded name in owned form.
pub fn owned_labels(name: &Name) -> (segs: Vec<String>)
    ensures
        segs.deep_view() == name@.labels,
{
    let mut segs: Vec<String> = Vec::new();
    let mut i: usize = 0;
    while i < name.labels.len()
        invariant
            i <= name.labels@.len(),
            segs@.len() == i,
            forall|k: int| 0 <= k < i ==> segs@[k]@ == name.labels@[k]@,
        decreases name.labels@.len() - i,
    {
        segs.push(to_owned_label(&name.labels[i]));
        i += 1;
    }
    assert(segs.deep_view() =~= name.labels.deep_view());
    segs
}

/// Writes the reply that carries an answer: the header, then each record
/// behind the name it was found at.
pub fn write_answers(
    writer: &mut Vec<u8>,
    id: u16,
    status: &ReqHeaderStatus,
    scope: &[String],
    answers: &Vec<&Record>,
)
    ensures
        final(writer)@ == old(writer)@ + resolved_wire(
            id,
            *status,
            scope.deep_view(),
            answers.deep_view(),
        ),
{
    let ghost views = answers.deep_view();
    let rcode = if answers.len() > 0 {
        Rcode::OK
    } else {
        Rcode::Name
    };
    let is_ns = answers.len() > 0 && answers[0].inner.ty() == Type::NS;
    let count = (answers.len() % 0x1_0000) as u16;
    let cnts: [u16; 4] = if is_ns {
        [0, 0, count, 0]
    } else {
        [0, count, 0, 0]
    };
    proof {
        assert(is_ns == is_referral(views));
        if is_ns {
            assert(cnts@ =~= seq![0u16, 0u16, count, 0u16]);
        } else {
            assert(cnts@ =~= seq![0u16, count, 0u16, 0u16]);
        }
    }
    write_resp_header(writer, id, rcode, !is_ns, status, cnts);
    let ghost head = writer@;
    let mut i: usize = 0;
    assert(views.take(0) =~= Seq::<RecordView>::empty());
    while i < answers.len()
        invariant
            i <= answers@.len(),
            views == answers.deep_view(),
            writer@ == head + answers_wire(scope.deep_view(), views.take(i as int)),
        decreases answers@.len() - i,
    {
        proof {
            let upto = views.take(i as int + 1);
            assert(upto.drop_last() =~= views.take(i as int));
            assert(upto.last() == answers@[i as int]@);
        }
        serialize_name(scope, writer);
        answers[i].serialize(writer);
        i += 1;
        assert(writer@ =~= head + answers_wire(scope.deep_view(), views.take(i as int)));
    }
    assert(views.take(i as int) =~= views);
    assert(writer@ =~= old(writer)@ + resolved_wire(id, *status, scope.deep_view(), views));
}

/// Answers a decoded request from the zone.
pub fn answer(req: &Req, storage: &RecordStorage) -> (out: Vec<u8>)
    ensures
        out@ == answer_wire(req@, storage@),
{
    let mut out: Vec<u8> = Vec::new();
    if req.questions.len() != 1 || req.questions[0].name.ptr.is_some() {
        write_resp_header(
            &mut out,
            req.header.id,
            Rcode::NotImpl,
            true,
            &req.header.status,
            [0, 0, 0, 0],
        );
        assert([0u16, 0u16, 0u16, 0u16]@ =~= no_counts());
        return out;
    }
    let q = &req.questions[0];
    let segs = owned_labels(&q.name);
    let labels = segs.as_slice();
    assert(labels.deep_view() =~= segs.deep_view());
    let (scope, answers) = storage.resolve(labels, q.ty);
    write_answers(&mut out, req.header.id, &req.header.status, scope, &answers);
    assert(out@ =~= answer_wire(req@, storage@));
    out
}

/// The reply to a datagram that could not be decoded.
pub fn format_error(buf: &[u8]) -> (out: Option<Vec<u8>>)
    ensures
        match format_error_wire(buf@) {
            Some(bytes) => out matches Some(v) && v@ == bytes,
            None => out is None,
        },
{
    if buf.len() < 4 {
        return None;
    }
    let id = join_u16(buf[0], buf[1]);
    let rest = slice_subrange(buf, 2, buf.len());
    assert(rest@ =~= buf@.skip(2));
    match parse_header_status(rest) {
        Err(_) => None,
        Ok((_, status)) => {
            let mut out: Vec<u8> = Vec::new();
            write_resp_header(&mut out, id, Rcode::Format, true, &status, [0, 0, 0, 0]);
            assert([0u16, 0u16, 0u16, 0u16]@ =~= no_counts());
            assert(out@ =~= header_wire(id, Rcode::Format, true, status, no_counts()));
            Some(out)
        },
    }
}

/// Handles one datagram: the bytes to send back, or nothing to send.
pub fn handle(buf: &[u8], storage: &RecordStorage) -> (out: Option<Vec<u8>>)
    ensures
        match response(buf@, storage@) {
            Some(bytes) => out matches Some(v) && v@ == bytes,
            None => out is None,
        },
{
    match parse(buf) {
        Ok((_, parsed)) => Some(answer(&parsed, storage)),
        Err(_) => format_error(buf),
    }
}

/// The reply is a function of the datagram and the zone: the same bytes asked
/// of the same zone get the same reply, byte for byte, or both get none.
pub proof fn lemma_same_input_same_reply(
    first: Seq<u8>,
    second: Seq<u8>,
    zone: ZoneView,
    other: ZoneView,
)
    requires
        first =~= second,
        zone =~= other,
    ensures
        response(first, zone) == response(second, other),
{
}

/// Every request gets a reply, and what is no request gets a reply only if
/// its flag bytes can be read.
pub proof fn lemma_who_gets_a_reply(buf: Seq<u8>, zone: ZoneView)
    ensures
        decoded(buf) is Ok ==> response(buf, zone) is Some,
        response(buf, zone) is Some ==> buf.len() >= 4 && status_at(buf.skip(2), 0) is Ok,
{
    lemma_decoded_counts(buf);
    if decoded(buf) is Ok {
        lemma_status_of_request(buf);
    }
}

/// A request with any number of questions but one is answered with "not
/// implemented": an authoritative header with every count at zero, and
/// nothing behind it.
pub proof fn lemma_question_count_not_implemented(buf: Seq<u8>, zone: ZoneView)
    requires
        decoded(buf) is Ok,
        decoded(buf)->Ok_0.header.qdcnt != 1,
    ensures
        response(buf, zone) == Some(
            header_wire(
                decoded(buf)->Ok_0.header.id,
                Rcode::NotImpl,
                true,
                decoded(buf)->Ok_0.header.status,
                no_counts(),
            ),
        ),
        response(buf, zone)->Some_0.len() == 12,
{
    lemma_decoded_counts(buf);
}

/// A question whose name ends in a compression pointer is answered with "not
/// implemented" in the same way.
pub proof fn lemma_pointer_not_implemented(buf: Seq<u8>, zone: ZoneView)
    requires
        decoded(buf) is Ok,
        decoded(buf)->Ok_0.questions.len() == 1,
        decoded(buf)->Ok_0.questions[0].name.ptr is Some,
    ensures
        response(buf, zone) == Some(not_implemented_wire(decoded(buf)->Ok_0)),
{
}

/// A datagram of fewer than four bytes gets no reply.
pub proof fn lemma_short_datagram_dropped(buf: Seq<u8>, zone: ZoneView)
    requires
        buf.len() < 4,
    ensures
        response(buf, zone) is None,
{
    lemma_decoded_counts(buf);
}

/// Every reply starts with a header of twelve bytes that echoes the id of the
/// datagram and has the response bit set.
pub proof fn lemma_reply_echoes_id(buf: Seq<u8>, zone: ZoneView)
    requires
        response(buf, zone) is Some,
    ensures
        response(buf, zone)->Some_0.len() >= 12,
        buf.len() >= 4,
        response(buf, zone)->Some_0[0] == buf[0],
        response(buf, zone)->Some_0[1] == buf[1],
        response(buf, zone)->Some_0[2] >= 128,
{
    lemma_decoded_counts(buf);
    match decoded(buf) {
        Ok(req) => {
            assert(req.header.id == be16(buf[0], buf[1]));
        },
        Err(_) => {},
    }
}

} // verus!
