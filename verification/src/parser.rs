//! Decoding a request from its wire form.
//!
//! The grammar is given twice: as specification functions over the byte
//! sequence and a position in it, and as executable functions whose contracts
//! say that they compute exactly those.

use crate::record::{label_wire, labels_wire, name_wire};
use crate::text::{decode_lossy, lemma_lossy_text_of_encoding, lossy_text};
use crate::wire::{be16, be32, join_u16, join_u32};
use std::borrow::Cow;
use vstd::prelude::*;
use vstd::slice::slice_subrange;
use vstd::utf8::encode_utf8;

verus! {

/// The kind of query, from the header's four opcode bits.
#[derive(Debug, Clone, Copy, PartialEq, Eq, Structural)]
pub enum OpCode {
    Query,
    IQuery,
    Status,
}

impl OpCode {
    /// The number that stands for this opcode on the wire.
    pub open spec fn spec_code(&self) -> u8 {
        match self {
            OpCode::Query => 0,
            OpCode::IQuery => 1,
            OpCode::Status => 2,
        }
    }

    /// The opcode that `raw` stands for, if it is one this server knows.
    pub open spec fn spec_from_code(raw: u8) -> Option<OpCode> {
        if raw == 0 {
            Some(OpCode::Query)
        } else if raw == 1 {
            Some(OpCode::IQuery)
        } else if raw == 2 {
            Some(OpCode::Status)
        } else {
            None
        }
    }

    #[verifier::when_used_as_spec(spec_code)]
    pub fn code(&self) -> (n: u8)
        ensures
            n == self.spec_code(),
    {
        match self {
            OpCode::Query => 0,
            OpCode::IQuery => 1,
            OpCode::Status => 2,
        }
    }

    #[verifier::when_used_as_spec(spec_from_code)]
    pub fn from_code(raw: u8) -> (op: Option<OpCode>)
        ensures
            op == OpCode::spec_from_code(raw),
    {
        if raw == 0 {
            Some(OpCode::Query)
        } else if raw == 1 {
            Some(OpCode::IQuery)
        } else if raw == 2 {
            Some(OpCode::Status)
        } else {
            None
        }
    }
}

/// A record type that may be asked for.
#[derive(Debug, Clone, Copy, PartialEq, Eq, Structural)]
pub enum Type {
    A,
    NS,
    CNAME,
    SOA,
    PTR,
    MX,
    TXT,
    AAAA,
    OPT,
    AXFR,
    ANY,
}

impl Type {
    /// The type's 16-bit code.
    pub open spec fn spec_code(&self) -> u16 {
        match self {
            Type::A => 1,
            Type::NS => 2,
            Type::CNAME => 5,
            Type::SOA => 6,
            Type::PTR => 12,
            Type::MX => 15,
            Type::TXT => 16,
            Type::AAAA => 28,
            Type::OPT => 41,
            Type::AXFR => 252,
            Type::ANY => 255,
        }
    }

    /// The type with the given code, if there is one.
    pub open spec fn spec_from_code(code: u16) -> Option<Type> {
        if code == 1 {
            Some(Type::A)
        } else if code == 2 {
            Some(Type::NS)
        } else if code == 5 {
            Some(Type::CNAME)
        } else if code == 6 {
            Some(Type::SOA)
        } else if code == 12 {
            Some(Type::PTR)
        } else if code == 15 {
            Some(Type::MX)
        } else if code == 16 {
            Some(Type::TXT)
        } else if code == 28 {
            Some(Type::AAAA)
        } else if code == 41 {
            Some(Type::OPT)
        } else if code == 252 {
            Some(Type::AXFR)
        } else if code == 255 {
            Some(Type::ANY)
        } else {
            None
        }
    }

    /// Whether a lookup of this type climbs to enclosing names: true of the
    /// types that mark a zone cut.
    pub open spec fn spec_need_recursive(&self) -> bool {
        *self == Type::NS || *self == Type::SOA
    }

    #[verifier::when_used_as_spec(spec_code)]
    pub fn code(&self) -> (n: u16)
        ensures
            n == self.spec_code(),
    {
        match self {
            Type::A => 1,
            Type::NS => 2,
            Type::CNAME => 5,
            Type::SOA => 6,
            Type::PTR => 12,
            Type::MX => 15,
            Type::TXT => 16,
            Type::AAAA => 28,
            Type::OPT => 41,
            Type::AXFR => 252,
            Type::ANY => 255,
        }
    }

    #[verifier::when_used_as_spec(spec_from_code)]
    pub fn from_code(code: u16) -> (ty: Option<Type>)
        ensures
            ty == Type::spec_from_code(code),
    {
        if code == 1 {
            Some(Type::A)
        } else if code == 2 {
            Some(Type::NS)
        } else if code == 5 {
            Some(Type::CNAME)
        } else if code == 6 {
            Some(Type::SOA)
        } else if code == 12 {
            Some(Type::PTR)
        } else if code == 15 {
            Some(Type::MX)
        } else if code == 16 {
            Some(Type::TXT)
        } else if code == 28 {
            Some(Type::AAAA)
        } else if code == 41 {
            Some(Type::OPT)
        } else if code == 252 {
            Some(Type::AXFR)
        } else if code == 255 {
            Some(Type::ANY)
        } else {
            None
        }
    }

    #[verifier::when_used_as_spec(spec_need_recursive)]
    pub fn need_recursive(&self) -> (r: bool)
        ensures
            r == self.spec_need_recursive(),
    {
        match self {
            Type::NS => true,
            Type::SOA => true,
            _ => false,
        }
    }

    /// A code names the type it was taken from, and only that one.
    pub proof fn lemma_code_round_trip(self)
        ensures
            Type::spec_from_code(self.spec_code()) == Some(self),
    {
    }

    /// A code that names a type is that type's code.
    pub proof fn lemma_from_code_inverse(code: u16)
        ensures
            Type::spec_from_code(code) matches Some(ty) ==> ty.spec_code() == code,
    {
    }
}

/// Why a byte sequence is no request.
#[derive(Debug, Clone, Copy, PartialEq, Eq, Structural)]
pub enum Reason {
    /// The input ends inside the field that starts at the offset.
    Truncated,
    /// A header bit that a request must leave clear is set: AA, TC, RA, Z or
    /// a response code.
    ReservedBits,
    /// The opcode is none of query, inverse query, status.
    BadOpcode,
    /// The header announces answer or authority records.
    RecordCount,
    /// The type code names no known record type.
    UnknownType,
    /// Bytes follow the last announced record.
    TrailingBytes,
}

/// A decoding failure: what is wrong, and the offset of the field at which
/// decoding stopped.
#[derive(Debug, Clone, Copy, PartialEq, Eq, Structural)]
pub struct Malformed {
    pub offset: usize,
    pub reason: Reason,
}

/// The flags of a request header that a request may set.
#[derive(Debug, Clone, Copy, PartialEq, Eq, Structural)]
pub struct ReqHeaderStatus {
    pub qr: bool,
    pub opcode: OpCode,
    pub rd: bool,
    pub ad: bool,
    pub cd: bool,
}

/// A request header. The answer and authority counts are not kept: a request
/// has them zero.
#[derive(Debug, Clone, Copy, PartialEq, Eq, Structural)]
pub struct ReqHeader {
    pub id: u16,
    pub status: ReqHeaderStatus,
    pub qdcnt: u16,
    pub arcnt: u16,
}

/// A domain name as it was read: labels as they appear on the wire, left to
/// right, borrowed from the input where the bytes were text already, and the
/// compression pointer that ended the name, if one did.
#[derive(Debug)]
pub struct Name<'a> {
    pub labels: Vec<Cow<'a, str>>,
    pub ptr: Option<u16>,
}

/// A question: a name and the type asked for. The class is read and dropped.
#[derive(Debug)]
pub struct Question<'a> {
    pub name: Name<'a>,
    pub ty: Type,
}

/// An additional record. Its payload is kept as it came.
#[derive(Debug)]
pub struct RR<'a> {
    pub name: Name<'a>,
    pub ty: Type,
    pub ttl: u32,
    pub rdata: &'a [u8],
}

/// A decoded request.
#[derive(Debug)]
pub struct Req<'a> {
    pub header: ReqHeader,
    pub questions: Vec<Question<'a>>,
    pub additionals: Vec<RR<'a>>,
}

/// What a [`Name`] holds.
pub struct NameView {
    pub labels: Seq<Seq<char>>,
    pub ptr: Option<u16>,
}

/// What a [`Question`] holds.
pub struct QuestionView {
    pub name: NameView,
    pub ty: Type,
}

/// What an [`RR`] holds.
pub struct RRView {
    pub name: NameView,
    pub ty: Type,
    pub ttl: u32,
    pub rdata: Seq<u8>,
}

/// What a [`Req`] holds.
pub struct ReqView {
    pub header: ReqHeader,
    pub questions: Seq<QuestionView>,
    pub additionals: Seq<RRView>,
}

impl<'a> View for Name<'a> {
    type V = NameView;

    open spec fn view(&self) -> NameView {
        NameView { labels: self.labels.deep_view(), ptr: self.ptr }
    }
}

impl<'a> View for Question<'a> {
    type V = QuestionView;

    open spec fn view(&self) -> QuestionView {
        QuestionView { name: self.name@, ty: self.ty }
    }
}

impl<'a> View for RR<'a> {
    type V = RRView;

    open spec fn view(&self) -> RRView {
        RRView { name: self.name@, ty: self.ty, ttl: self.ttl, rdata: self.rdata@ }
    }
}

impl<'a> View for Req<'a> {
    type V = ReqView;

    open spec fn view(&self) -> ReqView {
        ReqView {
            header: self.header,
            questions: self.questions@.map_values(|q: Question<'a>| q@),
            additionals: self.additionals@.map_values(|r: RR<'a>| r@),
        }
    }
}

/// The failure that stands for input ending inside the field at `at`.
pub open spec fn truncated(at: int) -> Malformed {
    Malformed { offset: at as usize, reason: Reason::Truncated }
}

/// The two flag bytes of a request header, read at `pos`.
///
/// The first byte holds, from the top bit down: QR, four bits of opcode, AA,
/// TC, RD. The second holds RA, Z, AD, CD and four bits of response code. A
/// request leaves AA, TC, RA, Z and the response code clear, and its opcode is
/// one this server knows. The checks come in the order of the bits, the opcode
/// last.
pub open spec fn status_at(s: Seq<u8>, pos: int) -> Result<(ReqHeaderStatus, int), Malformed> {
    if pos < 0 || s.len() <= pos {
        Err(truncated(pos))
    } else if (s[pos] / 2) % 4 != 0 {
        Err(Malformed { offset: pos as usize, reason: Reason::ReservedBits })
    } else if s.len() <= pos + 1 {
        Err(truncated(pos + 1))
    } else if s[pos + 1] / 64 != 0 || s[pos + 1] % 16 != 0 {
        Err(Malformed { offset: (pos + 1) as usize, reason: Reason::ReservedBits })
    } else {
        match OpCode::spec_from_code((s[pos] / 8) % 16) {
            None => Err(Malformed { offset: pos as usize, reason: Reason::BadOpcode }),
            Some(opcode) => Ok(
                (
                    ReqHeaderStatus {
                        qr: s[pos] >= 128,
                        opcode,
                        rd: s[pos] % 2 == 1,
                        ad: (s[pos + 1] / 32) % 2 == 1,
                        cd: (s[pos + 1] / 16) % 2 == 1,
                    },
                    pos + 2,
                ),
            ),
        }
    }
}

/// A 16-bit integer in network byte order, read at `pos`.
pub open spec fn u16_at(s: Seq<u8>, pos: int) -> Result<(u16, int), Malformed> {
    if pos < 0 || s.len() < pos + 2 {
        Err(truncated(pos))
    } else {
        Ok((be16(s[pos], s[pos + 1]), pos + 2))
    }
}

/// A 32-bit integer in network byte order, read at `pos`.
pub open spec fn u32_at(s: Seq<u8>, pos: int) -> Result<(u32, int), Malformed> {
    if pos < 0 || s.len() < pos + 4 {
        Err(truncated(pos))
    } else {
        Ok((be32(s[pos], s[pos + 1], s[pos + 2], s[pos + 3]), pos + 4))
    }
}

/// A count that a request must leave at zero, read at `pos`.
pub open spec fn zero_count_at(s: Seq<u8>, pos: int) -> Result<int, Malformed> {
    match u16_at(s, pos) {
        Err(e) => Err(e),
        Ok((n, end)) => if n != 0 {
            Err(Malformed { offset: pos as usize, reason: Reason::RecordCount })
        } else {
            Ok(end)
        },
    }
}

/// The twelve bytes of a request header, read at `pos`: the id, the flags,
/// the question count, the answer and authority counts, which must be zero,
/// and the count of additional records.
pub open spec fn header_at(s: Seq<u8>, pos: int) -> Result<(ReqHeader, int), Malformed> {
    match u16_at(s, pos) {
        Err(e) => Err(e),
        Ok((id, pos1)) => match status_at(s, pos1) {
            Err(e) => Err(e),
            Ok((status, pos2)) => match u16_at(s, pos2) {
                Err(e) => Err(e),
                Ok((qdcnt, pos3)) => match zero_count_at(s, pos3) {
                    Err(e) => Err(e),
                    Ok(pos4) => match zero_count_at(s, pos4) {
                        Err(e) => Err(e),
                        Ok(pos5) => match u16_at(s, pos5) {
                            Err(e) => Err(e),
                            Ok((arcnt, pos6)) => Ok((ReqHeader { id, status, qdcnt, arcnt }, pos6)),
                        },
                    },
                },
            },
        }
    }
}

/// Reads a 16-bit integer at `pos`.
pub fn read_u16(input: &[u8], pos: usize) -> (r: Result<(u16, usize), Malformed>)
    ensures
        match u16_at(input@, pos as int) {
            Ok((x, end)) => r matches Ok((v, p)) && v == x && p == end,
            Err(e) => r matches Err(flaw) && flaw == e,
        },
{
    if pos > input.len() || input.len() - pos < 2 {
        return Err(Malformed { offset: pos, reason: Reason::Truncated });
    }
    Ok((join_u16(input[pos], input[pos + 1]), pos + 2))
}

/// Reads a 32-bit integer at `pos`.
pub fn read_u32(input: &[u8], pos: usize) -> (r: Result<(u32, usize), Malformed>)
    ensures
        match u32_at(input@, pos as int) {
            Ok((x, end)) => r matches Ok((v, p)) && v == x && p == end,
            Err(e) => r matches Err(flaw) && flaw == e,
        },
{
    if pos > input.len() || input.len() - pos < 4 {
        return Err(Malformed { offset: pos, reason: Reason::Truncated });
    }
    Ok((join_u32(input[pos], input[pos + 1], input[pos + 2], input[pos + 3]), pos + 4))
}

/// Reads the flag bytes of a request header at `pos`.
pub fn parse_status(input: &[u8], pos: usize) -> (r: Result<(ReqHeaderStatus, usize), Malformed>)
    ensures
        match status_at(input@, pos as int) {
            Ok((st, end)) => r matches Ok((status, p)) && status == st && p == end,
            Err(e) => r matches Err(flaw) && flaw == e,
        },
{
    if pos >= input.len() {
        return Err(Malformed { offset: pos, reason: Reason::Truncated });
    }
    let b0 = input[pos];
    if (b0 / 2) % 4 != 0 {
        return Err(Malformed { offset: pos, reason: Reason::ReservedBits });
    }
    if input.len() - pos < 2 {
        return Err(Malformed { offset: pos + 1, reason: Reason::Truncated });
    }
    let b1 = input[pos + 1];
    if b1 / 64 != 0 || b1 % 16 != 0 {
        return Err(Malformed { offset: pos + 1, reason: Reason::ReservedBits });
    }
    match OpCode::from_code((b0 / 8) % 16) {
        None => Err(Malformed { offset: pos, reason: Reason::BadOpcode }),
        Some(opcode) => Ok(
            (
                ReqHeaderStatus {
                    qr: b0 >= 128,
                    opcode,
                    rd: b0 % 2 == 1,
                    ad: (b1 / 32) % 2 == 1,
                    cd: (b1 / 16) % 2 == 1,
                },
                pos + 2,
            ),
        ),
    }
}

/// Decodes the two flag bytes at the start of `input`, and hands back what
/// follows them.
pub fn parse_header_status(input: &[u8]) -> (r: Result<(&[u8], ReqHeaderStatus), Malformed>)
    ensures
        match status_at(input@, 0) {
            Ok((st, end)) => r matches Ok((rest, status)) && status == st && rest@
                == input@.skip(end),
            Err(e) => r matches Err(flaw) && flaw == e,
        },
{
    match parse_status(input, 0) {
        Err(e) => Err(e),
        Ok((status, end)) => Ok((slice_subrange(input, end, input.len()), status)),
    }
}

/// Reads a count that must be zero.
fn parse_zero_count(input: &[u8], pos: usize) -> (r: Result<usize, Malformed>)
    ensures
        match zero_count_at(input@, pos as int) {
            Ok(end) => r matches Ok(p) && p == end,
            Err(e) => r matches Err(flaw) && flaw == e,
        },
{
    match read_u16(input, pos) {
        Err(e) => Err(e),
        Ok((n, end)) => if n != 0 {
            Err(Malformed { offset: pos, reason: Reason::RecordCount })
        } else {
            Ok(end)
        },
    }
}

/// Reads a request header at `pos`.
pub fn parse_header(input: &[u8], pos: usize) -> (r: Result<(ReqHeader, usize), Malformed>)
    ensures
        match header_at(input@, pos as int) {
            Ok((h, end)) => r matches Ok((header, p)) && header == h && p == end,
            Err(e) => r matches Err(flaw) && flaw == e,
        },
{
    let (id, pos1) = match read_u16(input, pos) {
        Err(e) => { return Err(e); },
        Ok(v) => v,
    };
    let (status, pos2) = match parse_status(input, pos1) {
        Err(e) => { return Err(e); },
        Ok(v) => v,
    };
    let (qdcnt, pos3) = match read_u16(input, pos2) {
        Err(e) => { return Err(e); },
        Ok(v) => v,
    };
    let pos4 = match parse_zero_count(input, pos3) {
        Err(e) => { return Err(e); },
        Ok(v) => v,
    };
    let pos5 = match parse_zero_count(input, pos4) {
        Err(e) => { return Err(e); },
        Ok(v) => v,
    };
    let (arcnt, pos6) = match read_u16(input, pos5) {
        Err(e) => { return Err(e); },
        Ok(v) => v,
    };
    Ok((ReqHeader { id, status, qdcnt, arcnt }, pos6))
}

/// The offset that a compression pointer holds: the fourteen bits below the
/// two marker bits of its first byte.
pub open spec fn pointer_offset(hi: u8, lo: u8) -> u16
    recommends
        hi >= 192,
{
    ((hi as int - 192) * 256 + lo as int) as u16
}

/// What ends a name at `pos`, if anything does there: a zero byte, or a
/// two-byte compression pointer, whose first byte has its two top bits set.
/// The result is the pointer's offset, if it was a pointer, and the position
/// after the terminator.
pub open spec fn ptr_at(s: Seq<u8>, pos: int) -> Option<(Option<u16>, int)> {
    if pos < 0 || pos >= s.len() {
        None
    } else if s[pos] == 0 {
        Some((None, pos + 1))
    } else if s[pos] >= 192 && pos + 1 < s.len() {
        Some((Some(pointer_offset(s[pos], s[pos + 1])), pos + 2))
    } else {
        None
    }
}

/// A label at `pos`: a length byte, then that many bytes of text.
pub open spec fn label_at(s: Seq<u8>, pos: int) -> Result<(Seq<char>, int), Malformed> {
    if pos < 0 || pos >= s.len() {
        Err(truncated(pos))
    } else if s.len() < pos + 1 + s[pos] {
        Err(truncated(pos + 1))
    } else {
        Ok((lossy_text(s.subrange(pos + 1, pos + 1 + s[pos])), pos + 1 + s[pos]))
    }
}

/// A name at `pos`: labels up to the first terminator. At each position a
/// terminator is looked for before a label is.
pub open spec fn name_at(s: Seq<u8>, pos: int) -> Result<(NameView, int), Malformed>
    decreases s.len() - pos,
{
    match ptr_at(s, pos) {
        Some((ptr, end)) => Ok((NameView { labels: Seq::empty(), ptr }, end)),
        None => match label_at(s, pos) {
            Err(e) => Err(e),
            Ok((label, next)) => match name_at(s, next) {
                Err(e) => Err(e),
                Ok((rest, end)) => Ok(
                    (NameView { labels: seq![label] + rest.labels, ptr: rest.ptr }, end),
                ),
            },
        },
    }
}

/// A record type at `pos`, by its 16-bit code.
pub open spec fn type_at(s: Seq<u8>, pos: int) -> Result<(Type, int), Malformed> {
    match u16_at(s, pos) {
        Err(e) => Err(e),
        Ok((code, end)) => match Type::spec_from_code(code) {
            None => Err(Malformed { offset: pos as usize, reason: Reason::UnknownType }),
            Some(ty) => Ok((ty, end)),
        },
    }
}

/// A question at `pos`: a name, a type, and a class that is skipped.
pub open spec fn question_at(s: Seq<u8>, pos: int) -> Result<(QuestionView, int), Malformed> {
    match name_at(s, pos) {
        Err(e) => Err(e),
        Ok((name, pos1)) => match type_at(s, pos1) {
            Err(e) => Err(e),
            Ok((ty, pos2)) => match u16_at(s, pos2) {
                Err(e) => Err(e),
                Ok((_, pos3)) => Ok((QuestionView { name, ty }, pos3)),
            },
        },
    }
}

/// The payload of a record at `pos`: a 16-bit length, then that many bytes.
pub open spec fn rdata_at(s: Seq<u8>, pos: int) -> Result<(Seq<u8>, int), Malformed> {
    match u16_at(s, pos) {
        Err(e) => Err(e),
        Ok((len, start)) => if s.len() < start + len {
            Err(truncated(start))
        } else {
            Ok((s.subrange(start, start + len), start + len))
        },
    }
}

/// An additional record at `pos`: a name, a type, a class that is skipped, a
/// time to live and a payload.
pub open spec fn rr_at(s: Seq<u8>, pos: int) -> Result<(RRView, int), Malformed> {
    match name_at(s, pos) {
        Err(e) => Err(e),
        Ok((name, pos1)) => match type_at(s, pos1) {
            Err(e) => Err(e),
            Ok((ty, pos2)) => match u16_at(s, pos2) {
                Err(e) => Err(e),
                Ok((_, pos3)) => match u32_at(s, pos3) {
                    Err(e) => Err(e),
                    Ok((ttl, pos4)) => match rdata_at(s, pos4) {
                        Err(e) => Err(e),
                        Ok((rdata, pos5)) => Ok((RRView { name, ty, ttl, rdata }, pos5)),
                    },
                },
            },
        },
    }
}

/// `n` questions in a row, from `pos`.
pub open spec fn questions_at(s: Seq<u8>, pos: int, n: nat) -> Result<
    (Seq<QuestionView>, int),
    Malformed,
>
    decreases n,
{
    if n == 0 {
        Ok((Seq::empty(), pos))
    } else {
        match question_at(s, pos) {
            Err(e) => Err(e),
            Ok((q, next)) => match questions_at(s, next, (n - 1) as nat) {
                Err(e) => Err(e),
                Ok((rest, end)) => Ok((seq![q] + rest, end)),
            },
        }
    }
}

/// `n` additional records in a row, from `pos`.
pub open spec fn rrs_at(s: Seq<u8>, pos: int, n: nat) -> Result<(Seq<RRView>, int), Malformed>
    decreases n,
{
    if n == 0 {
        Ok((Seq::empty(), pos))
    } else {
        match rr_at(s, pos) {
            Err(e) => Err(e),
            Ok((r, next)) => match rrs_at(s, next, (n - 1) as nat) {
                Err(e) => Err(e),
                Ok((rest, end)) => Ok((seq![r] + rest, end)),
            },
        }
    }
}

/// A request at the start of `s`: the header, then as many questions and
/// additional records as the header announces.
pub open spec fn request_at(s: Seq<u8>) -> Result<(ReqView, int), Malformed> {
    match header_at(s, 0) {
        Err(e) => Err(e),
        Ok((header, pos1)) => match questions_at(s, pos1, header.qdcnt as nat) {
            Err(e) => Err(e),
            Ok((questions, pos2)) => match rrs_at(s, pos2, header.arcnt as nat) {
                Err(e) => Err(e),
                Ok((additionals, pos3)) => Ok((ReqView { header, questions, additionals }, pos3)),
            },
        },
    }
}

/// The request that `s` is, if it is one: a request that ends where `s` ends.
pub open spec fn decoded(s: Seq<u8>) -> Result<ReqView, Malformed> {
    match request_at(s) {
        Err(e) => Err(e),
        Ok((req, end)) => if end != s.len() {
            Err(Malformed { offset: end as usize, reason: Reason::TrailingBytes })
        } else {
            Ok(req)
        },
    }
}

/// The labels `prefix` put in front of a name that was read.
spec fn prepend(prefix: Seq<Seq<char>>, r: Result<(NameView, int), Malformed>) -> Result<
    (NameView, int),
    Malformed,
> {
    match r {
        Err(e) => Err(e),
        Ok((name, end)) => Ok((NameView { labels: prefix + name.labels, ptr: name.ptr }, end)),
    }
}

/// The items `prefix` put in front of a run of items that was read.
spec fn extend<T>(prefix: Seq<T>, r: Result<(Seq<T>, int), Malformed>) -> Result<
    (Seq<T>, int),
    Malformed,
> {
    match r {
        Err(e) => Err(e),
        Ok((rest, end)) => Ok((prefix + rest, end)),
    }
}

/// Looks for the end of a name at `pos`.
pub fn parse_ptr(input: &[u8], pos: usize) -> (r: Option<(Option<u16>, usize)>)
    ensures
        match ptr_at(input@, pos as int) {
            Some((ptr, end)) => r matches Some((v, p)) && v == ptr && p == end,
            None => r is None,
        },
{
    if pos >= input.len() {
        return None;
    }
    let b = input[pos];
    if b == 0 {
        Some((None, pos + 1))
    } else if b >= 192 && input.len() - pos >= 2 {
        Some((Some(((b - 192) as u16) * 256 + (input[pos + 1] as u16)), pos + 2))
    } else {
        None
    }
}

/// Reads one label at `pos`.
pub fn parse_label<'a>(input: &'a [u8], pos: usize) -> (r: Result<(Cow<'a, str>, usize), Malformed>)
    ensures
        match label_at(input@, pos as int) {
            Ok((text, end)) => r matches Ok((label, p)) && label@ == text && p == end,
            Err(e) => r matches Err(flaw) && flaw == e,
        },
{
    if pos >= input.len() {
        return Err(Malformed { offset: pos, reason: Reason::Truncated });
    }
    let len = input[pos] as usize;
    if input.len() - (pos + 1) < len {
        return Err(Malformed { offset: pos + 1, reason: Reason::Truncated });
    }
    let end = pos + 1 + len;
    Ok((decode_lossy(slice_subrange(input, pos + 1, end)), end))
}

/// Reads a name at `pos`.
pub fn parse_name<'a>(input: &'a [u8], pos: usize) -> (r: Result<(Name<'a>, usize), Malformed>)
    ensures
        match name_at(input@, pos as int) {
            Ok((v, end)) => r matches Ok((name, p)) && name@ == v && p == end,
            Err(e) => r matches Err(flaw) && flaw == e,
        },
{
    let mut labels: Vec<Cow<'a, str>> = Vec::new();
    let mut cur = pos;
    assert(labels.deep_view() =~= Seq::<Seq<char>>::empty());
    loop
        invariant
            name_at(input@, pos as int) == prepend(
                labels.deep_view(),
                name_at(input@, cur as int),
            ),
        decreases input@.len() - cur,
    {
        match parse_ptr(input, cur) {
            Some((ptr, end)) => {
                assert(labels.deep_view() + Seq::<Seq<char>>::empty() =~= labels.deep_view());
                return Ok((Name { labels, ptr }, end));
            },
            None => {},
        }
        let (label, next) = match parse_label(input, cur) {
            Err(e) => { return Err(e); },
            Ok(v) => v,
        };
        proof {
            let before = labels.deep_view();
            let grown = before.push(label@);
            match name_at(input@, next as int) {
                Ok((rest, end)) => {
                    assert(before + (seq![label@] + rest.labels) =~= grown + rest.labels);
                },
                Err(_) => {},
            }
        }
        let ghost before = labels.deep_view();
        labels.push(label);
        assert(labels.deep_view() =~= before.push(label@));
        cur = next;
    }
}

/// Reads a record type at `pos`.
pub fn parse_type(input: &[u8], pos: usize) -> (r: Result<(Type, usize), Malformed>)
    ensures
        match type_at(input@, pos as int) {
            Ok((t, end)) => r matches Ok((ty, p)) && ty == t && p == end,
            Err(e) => r matches Err(flaw) && flaw == e,
        },
{
    match read_u16(input, pos) {
        Err(e) => Err(e),
        Ok((code, end)) => match Type::from_code(code) {
            None => Err(Malformed { offset: pos, reason: Reason::UnknownType }),
            Some(ty) => Ok((ty, end)),
        },
    }
}

/// Reads a question at `pos`.
pub fn parse_question<'a>(input: &'a [u8], pos: usize) -> (r: Result<
    (Question<'a>, usize),
    Malformed,
>)
    ensures
        match question_at(input@, pos as int) {
            Ok((v, end)) => r matches Ok((q, p)) && q@ == v && p == end,
            Err(e) => r matches Err(flaw) && flaw == e,
        },
{
    let (name, pos1) = match parse_name(input, pos) {
        Err(e) => { return Err(e); },
        Ok(v) => v,
    };
    let (ty, pos2) = match parse_type(input, pos1) {
        Err(e) => { return Err(e); },
        Ok(v) => v,
    };
    let (_, pos3) = match read_u16(input, pos2) {
        Err(e) => { return Err(e); },
        Ok(v) => v,
    };
    Ok((Question { name, ty }, pos3))
}

/// Reads the payload of a record at `pos`.
fn parse_rdata<'a>(input: &'a [u8], pos: usize) -> (r: Result<(&'a [u8], usize), Malformed>)
    ensures
        match rdata_at(input@, pos as int) {
            Ok((v, end)) => r matches Ok((rdata, p)) && rdata@ == v && p == end,
            Err(e) => r matches Err(flaw) && flaw == e,
        },
{
    let (len, start) = match read_u16(input, pos) {
        Err(e) => { return Err(e); },
        Ok(v) => v,
    };
    if input.len() - start < len as usize {
        return Err(Malformed { offset: start, reason: Reason::Truncated });
    }
    let end = start + len as usize;
    Ok((slice_subrange(input, start, end), end))
}

/// Reads an additional record at `pos`.
pub fn parse_rr<'a>(input: &'a [u8], pos: usize) -> (r: Result<(RR<'a>, usize), Malformed>)
    ensures
        match rr_at(input@, pos as int) {
            Ok((v, end)) => r matches Ok((rr, p)) && rr@ == v && p == end,
            Err(e) => r matches Err(flaw) && flaw == e,
        },
{
    let (name, pos1) = match parse_name(input, pos) {
        Err(e) => { return Err(e); },
        Ok(v) => v,
    };
    let (ty, pos2) = match parse_type(input, pos1) {
        Err(e) => { return Err(e); },
        Ok(v) => v,
    };
    let (_, pos3) = match read_u16(input, pos2) {
        Err(e) => { return Err(e); },
        Ok(v) => v,
    };
    let (ttl, pos4) = match read_u32(input, pos3) {
        Err(e) => { return Err(e); },
        Ok(v) => v,
    };
    let (rdata, pos5) = match parse_rdata(input, pos4) {
        Err(e) => { return Err(e); },
        Ok(v) => v,
    };
    Ok((RR { name, ty, ttl, rdata }, pos5))
}

/// Reads `n` questions from `pos`.
fn parse_questions<'a>(input: &'a [u8], pos: usize, n: u16) -> (r: Result<
    (Vec<Question<'a>>, usize),
    Malformed,
>)
    ensures
        match questions_at(input@, pos as int, n as nat) {
            Ok((v, end)) => r matches Ok((qs, p)) && qs@.map_values(|q: Question<'a>| q@) == v
                && p == end,
            Err(e) => r matches Err(flaw) && flaw == e,
        },
{
    let mut questions: Vec<Question<'a>> = Vec::new();
    let mut cur = pos;
    let mut i: u16 = 0;
    assert(questions@.map_values(|q: Question<'a>| q@) =~= Seq::<QuestionView>::empty());
    while i < n
        invariant
            i <= n,
            questions_at(input@, pos as int, n as nat) == extend(
                questions@.map_values(|q: Question<'a>| q@),
                questions_at(input@, cur as int, (n - i) as nat),
            ),
        decreases n - i,
    {
        let (q, next) = match parse_question(input, cur) {
            Err(e) => { return Err(e); },
            Ok(v) => v,
        };
        let ghost before = questions@.map_values(|q: Question<'a>| q@);
        proof {
            match questions_at(input@, next as int, (n - i - 1) as nat) {
                Ok((rest, end)) => {
                    assert(before + (seq![q@] + rest) =~= before.push(q@) + rest);
                },
                Err(_) => {},
            }
        }
        questions.push(q);
        assert(questions@.map_values(|q: Question<'a>| q@) =~= before.push(q@));
        cur = next;
        i += 1;
    }
    assert(questions@.map_values(|q: Question<'a>| q@) + Seq::<QuestionView>::empty()
        =~= questions@.map_values(|q: Question<'a>| q@));
    Ok((questions, cur))
}

/// Reads `n` additional records from `pos`.
fn parse_rrs<'a>(input: &'a [u8], pos: usize, n: u16) -> (r: Result<
    (Vec<RR<'a>>, usize),
    Malformed,
>)
    ensures
        match rrs_at(input@, pos as int, n as nat) {
            Ok((v, end)) => r matches Ok((rrs, p)) && rrs@.map_values(|r: RR<'a>| r@) == v && p
                == end,
            Err(e) => r matches Err(flaw) && flaw == e,
        },
{
    let mut rrs: Vec<RR<'a>> = Vec::new();
    let mut cur = pos;
    let mut i: u16 = 0;
    assert(rrs@.map_values(|r: RR<'a>| r@) =~= Seq::<RRView>::empty());
    while i < n
        invariant
            i <= n,
            rrs_at(input@, pos as int, n as nat) == extend(
                rrs@.map_values(|r: RR<'a>| r@),
                rrs_at(input@, cur as int, (n - i) as nat),
            ),
        decreases n - i,
    {
        let (rr, next) = match parse_rr(input, cur) {
            Err(e) => { return Err(e); },
            Ok(v) => v,
        };
        let ghost before = rrs@.map_values(|r: RR<'a>| r@);
        proof {
            match rrs_at(input@, next as int, (n - i - 1) as nat) {
                Ok((rest, end)) => {
                    assert(before + (seq![rr@] + rest) =~= before.push(rr@) + rest);
                },
                Err(_) => {},
            }
        }
        rrs.push(rr);
        assert(rrs@.map_values(|r: RR<'a>| r@) =~= before.push(rr@));
        cur = next;
        i += 1;
    }
    assert(rrs@.map_values(|r: RR<'a>| r@) + Seq::<RRView>::empty() =~= rrs@.map_values(
        |r: RR<'a>| r@,
    ));
    Ok((rrs, cur))
}

/// Reads a request from the start of `input`, and says where it ends.
pub fn parse_request<'a>(input: &'a [u8]) -> (r: Result<(Req<'a>, usize), Malformed>)
    ensures
        match request_at(input@) {
            Ok((v, end)) => r matches Ok((req, p)) && req@ == v && p == end,
            Err(e) => r matches Err(flaw) && flaw == e,
        },
{
    let (header, pos1) = match parse_header(input, 0) {
        Err(e) => { return Err(e); },
        Ok(v) => v,
    };
    let (questions, pos2) = match parse_questions(input, pos1, header.qdcnt) {
        Err(e) => { return Err(e); },
        Ok(v) => v,
    };
    let (additionals, pos3) = match parse_rrs(input, pos2, header.arcnt) {
        Err(e) => { return Err(e); },
        Ok(v) => v,
    };
    Ok((Req { header, questions, additionals }, pos3))
}

/// Decodes a whole datagram as one request. On success nothing of the input
/// is left over, and the first component is empty.
pub fn parse<'a>(input: &'a [u8]) -> (r: Result<(&'a [u8], Req<'a>), Malformed>)
    ensures
        match decoded(input@) {
            Ok(v) => r matches Ok((rest, req)) && req@ == v && rest@.len() == 0,
            Err(e) => r matches Err(flaw) && flaw == e,
        },
{
    match parse_request(input) {
        Err(e) => Err(e),
        Ok((req, end)) => if end != input.len() {
            Err(Malformed { offset: end, reason: Reason::TrailingBytes })
        } else {
            Ok((slice_subrange(input, end, input.len()), req))
        },
    }
}

/// A name reads back from its wire form. Wherever the wire form of `labels`
/// stands in `s`, a name is read there: the same labels, no pointer, and the
/// position behind the wire form. This holds of labels of 1 to 191 bytes: an
/// empty label is written as the byte that ends a name, and a length byte from
/// 192 up reads as the start of a compression pointer.
pub proof fn lemma_name_round_trip(labels: Seq<Seq<char>>, s: Seq<u8>, pos: int)
    requires
        forall|i: int|
            0 <= i < labels.len() ==> 1 <= encode_utf8(#[trigger] labels[i]).len() <= 191,
        0 <= pos,
        pos + name_wire(labels).len() <= s.len(),
        s.subrange(pos, pos + name_wire(labels).len()) == name_wire(labels),
    ensures
        name_at(s, pos) == Ok::<(NameView, int), Malformed>(
            (NameView { labels, ptr: None }, pos + name_wire(labels).len()),
        ),
    decreases labels.len(),
{
    let wire = name_wire(labels);
    assert forall|k: int| 0 <= k < wire.len() implies s[pos + k] == wire[k] by {
        assert(s.subrange(pos, pos + wire.len())[k] == s[pos + k]);
    }
    if labels.len() == 0 {
        assert(wire[0] == 0u8);
        assert(s[pos] == 0u8);
        assert(labels =~= Seq::<Seq<char>>::empty());
    } else {
        let first = labels[0];
        let rest = labels.drop_first();
        let bytes = encode_utf8(first);
        let n = bytes.len() as int;
        let next = pos + 1 + n;
        assert(labels_wire(labels) == label_wire(first) + labels_wire(rest));
        assert(wire =~= seq![(n % 256) as u8] + bytes + name_wire(rest));
        assert(wire[0] == n as u8);
        assert(s[pos] == n as u8);
        assert(ptr_at(s, pos) is None);
        assert(s.subrange(pos + 1, next) =~= bytes) by {
            assert forall|k: int| 0 <= k < n implies s[pos + 1 + k] == bytes[k] by {
                assert(wire[1 + k] == bytes[k]);
            }
        }
        lemma_lossy_text_of_encoding(first);
        assert(label_at(s, pos) == Ok::<(Seq<char>, int), Malformed>((first, next)));
        assert(s.subrange(next, next + name_wire(rest).len()) =~= name_wire(rest)) by {
            assert forall|k: int| 0 <= k < name_wire(rest).len() implies s[next + k] == name_wire(
                rest,
            )[k] by {
                assert(wire[1 + n + k] == name_wire(rest)[k]);
            }
        }
        assert forall|i: int| 0 <= i < rest.len() implies 1 <= encode_utf8(#[trigger] rest[i]).len()
            <= 191 by {
            assert(rest[i] == labels[i + 1]);
        }
        lemma_name_round_trip(rest, s, next);
        assert(seq![first] + rest =~= labels);
    }
}

/// A run of questions that was read has as many questions as were asked for.
pub proof fn lemma_questions_count(s: Seq<u8>, pos: int, n: nat)
    ensures
        questions_at(s, pos, n) matches Ok((qs, _)) ==> qs.len() == n,
    decreases n,
{
    if n > 0 {
        match question_at(s, pos) {
            Ok((_, next)) => {
                lemma_questions_count(s, next, (n - 1) as nat);
            },
            Err(_) => {},
        }
    }
}

/// A run of additional records that was read has as many records as were
/// asked for.
pub proof fn lemma_rrs_count(s: Seq<u8>, pos: int, n: nat)
    ensures
        rrs_at(s, pos, n) matches Ok((rrs, _)) ==> rrs.len() == n,
    decreases n,
{
    if n > 0 {
        match rr_at(s, pos) {
            Ok((_, next)) => {
                lemma_rrs_count(s, next, (n - 1) as nat);
            },
            Err(_) => {},
        }
    }
}

/// A decoded request holds as many questions and additional records as its
/// header announces, and takes at least the twelve bytes of a header.
pub proof fn lemma_decoded_counts(s: Seq<u8>)
    ensures
        decoded(s) matches Ok(req) ==> req.questions.len() == req.header.qdcnt
            && req.additionals.len() == req.header.arcnt && s.len() >= 12,
{
    match header_at(s, 0) {
        Ok((header, pos1)) => {
            lemma_questions_count(s, pos1, header.qdcnt as nat);
            match questions_at(s, pos1, header.qdcnt as nat) {
                Ok((_, pos2)) => {
                    lemma_rrs_count(s, pos2, header.arcnt as nat);
                },
                Err(_) => {},
            }
        },
        Err(_) => {},
    }
}

/// The flag bytes of a request can be read on their own, and read the same
/// as within the request.
pub proof fn lemma_status_of_request(s: Seq<u8>)
    requires
        decoded(s) is Ok,
    ensures
        s.len() >= 4,
        status_at(s.skip(2), 0) == Ok::<(ReqHeaderStatus, int), Malformed>(
            (decoded(s)->Ok_0.header.status, 2),
        ),
{
    lemma_decoded_counts(s);
    assert(s.skip(2)[0] == s[2]);
    assert(s.skip(2)[1] == s[3]);
}

} // verus!
