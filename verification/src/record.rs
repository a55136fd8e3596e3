//! Resource records as the zone holds them, and their wire form.

use crate::parser::Type;
use crate::wire::{put_bytes, put_u16, put_u32, u16_be, u32_be};
use vstd::prelude::*;
use vstd::string::*;
use vstd::utf8::encode_utf8;

verus! {

/// A domain name in owned form: its labels, left to right as on the wire.
/// Names are equal when their label sequences are; case is kept.
#[derive(Debug)]
pub struct Name(pub Vec<String>);

impl View for Name {
    type V = Seq<Seq<char>>;

    open spec fn view(&self) -> Seq<Seq<char>> {
        self.0.deep_view()
    }
}

/// Where the first dot stands in `text`, or the length of `text` if there
/// is none.
pub open spec fn first_dot(text: Seq<char>) -> int
    decreases text.len(),
{
    if text.len() == 0 || text[0] == '.' {
        0
    } else {
        1 + first_dot(text.drop_first())
    }
}

/// The labels of a name in dotted notation: the pieces between its dots.
/// There is one piece more than there are dots, so the empty text is one
/// empty label.
pub open spec fn split_dots(text: Seq<char>) -> Seq<Seq<char>>
    decreases text.len(),
{
    let at = first_dot(text);
    if 0 <= at < text.len() {
        seq![text.take(at)] + split_dots(text.skip(at + 1))
    } else {
        seq![text]
    }
}

/// The first dot is found by its place: nothing before it is a dot, and it
/// is one, or the text ends there.
pub proof fn lemma_first_dot(text: Seq<char>, at: int)
    requires
        0 <= at <= text.len(),
        forall|k: int| 0 <= k < at ==> text[k] != '.',
        at < text.len() ==> text[at] == '.',
    ensures
        first_dot(text) == at,
    decreases text.len(),
{
    if at > 0 {
        let rest = text.drop_first();
        assert forall|k: int| 0 <= k < at - 1 implies rest[k] != '.' by {
            assert(rest[k] == text[k + 1]);
        }
        lemma_first_dot(rest, at - 1);
    }
}

impl Name {
    /// Reads a name in dotted notation, as `www.example.com`.
    pub fn from_dotted(text: &str) -> (name: Name)
        ensures
            name@ == split_dots(text@),
    {
        let n = text.unicode_len();
        let mut labels: Vec<String> = Vec::new();
        let mut start: usize = 0;
        let mut i: usize = 0;
        assert(text@.skip(0) =~= text@);
        assert(labels.deep_view() + split_dots(text@) =~= split_dots(text@));
        while i < n
            invariant
                start <= i <= n,
                n == text@.len(),
                forall|k: int| start <= k < i ==> text@[k] != '.',
                split_dots(text@) == labels.deep_view() + split_dots(text@.skip(start as int)),
            decreases n - i,
        {
            if text.get_char(i) == '.' {
                let piece = text.substring_char(start, i).to_owned();
                proof {
                    let tail = text@.skip(start as int);
                    lemma_first_dot(tail, i - start);
                    assert(tail.take(i - start) =~= piece@);
                    assert(tail.skip(i - start + 1) =~= text@.skip(i as int + 1));
                    assert(labels.deep_view().push(piece@) + split_dots(text@.skip(i as int + 1))
                        =~= labels.deep_view() + split_dots(tail));
                }
                let ghost before = labels.deep_view();
                labels.push(piece);
                assert(labels.deep_view() =~= before.push(piece@));
                start = i + 1;
            }
            i += 1;
        }
        let piece = text.substring_char(start, n).to_owned();
        proof {
            let tail = text@.skip(start as int);
            lemma_first_dot(tail, n - start);
            assert(tail =~= piece@);
            assert(split_dots(tail) == seq![tail]);
        }
        let ghost before = labels.deep_view();
        labels.push(piece);
        assert(labels.deep_view() =~= before.push(piece@));
        Name(labels)
    }

    /// The labels of the name.
    pub fn labels(&self) -> (segs: &[String])
        ensures
            segs.deep_view() == self@,
    {
        let segs = self.0.as_slice();
        assert(segs.deep_view() =~= self.0.deep_view());
        segs
    }
}

/// What a record carries for its type.
#[derive(Debug)]
#[allow(inconsistent_fields)]
pub enum RecordInner {
    SOA {
        serial: u32,
        mname: Name,
        rname: Name,
        refresh: u32,
        retry: u32,
        expire: u32,
        minimum: u32,
    },
    NS { ns: Name },
    A { addr: [u8; 4] },
    AAAA { addr: [u8; 16] },
    CNAME { to: Name },
    TXT { content: String },
}

/// A record of the zone: its payload and its time to live in seconds.
#[derive(Debug)]
pub struct Record {
    pub inner: RecordInner,
    pub ttl: u32,
}

/// What a [`RecordInner`] holds.
pub enum RecordInnerView {
    SOA {
        serial: u32,
        mname: Seq<Seq<char>>,
        rname: Seq<Seq<char>>,
        refresh: u32,
        retry: u32,
        expire: u32,
        minimum: u32,
    },
    NS { ns: Seq<Seq<char>> },
    A { addr: Seq<u8> },
    AAAA { addr: Seq<u8> },
    CNAME { to: Seq<Seq<char>> },
    TXT { content: Seq<char> },
}

/// What a [`Record`] holds.
pub struct RecordView {
    pub inner: RecordInnerView,
    pub ttl: u32,
}

impl View for RecordInner {
    type V = RecordInnerView;

    open spec fn view(&self) -> RecordInnerView {
        match self {
            RecordInner::SOA { serial, mname, rname, refresh, retry, expire, minimum } => {
                RecordInnerView::SOA {
                    serial: *serial,
                    mname: mname@,
                    rname: rname@,
                    refresh: *refresh,
                    retry: *retry,
                    expire: *expire,
                    minimum: *minimum,
                }
            },
            RecordInner::NS { ns } => RecordInnerView::NS { ns: ns@ },
            RecordInner::A { addr } => RecordInnerView::A { addr: addr@ },
            RecordInner::AAAA { addr } => RecordInnerView::AAAA { addr: addr@ },
            RecordInner::CNAME { to } => RecordInnerView::CNAME { to: to@ },
            RecordInner::TXT { content } => RecordInnerView::TXT { content: content@ },
        }
    }
}

impl View for Record {
    type V = RecordView;

    open spec fn view(&self) -> RecordView {
        RecordView { inner: self.inner@, ttl: self.ttl }
    }
}

impl DeepView for Record {
    type V = RecordView;

    open spec fn deep_view(&self) -> RecordView {
        self@
    }
}

impl RecordInnerView {
    /// The record type of the payload.
    pub open spec fn ty(self) -> Type {
        match self {
            RecordInnerView::SOA { .. } => Type::SOA,
            RecordInnerView::NS { .. } => Type::NS,
            RecordInnerView::A { .. } => Type::A,
            RecordInnerView::AAAA { .. } => Type::AAAA,
            RecordInnerView::CNAME { .. } => Type::CNAME,
            RecordInnerView::TXT { .. } => Type::TXT,
        }
    }
}

/// One label on the wire: the low eight bits of its length in bytes, then
/// its bytes.
pub open spec fn label_wire(label: Seq<char>) -> Seq<u8> {
    let bytes = encode_utf8(label);
    seq![(bytes.len() % 256) as u8] + bytes
}

/// The labels of a name on the wire, one after the other.
pub open spec fn labels_wire(labels: Seq<Seq<char>>) -> Seq<u8>
    decreases labels.len(),
{
    if labels.len() == 0 {
        Seq::empty()
    } else {
        label_wire(labels[0]) + labels_wire(labels.drop_first())
    }
}

/// A name on the wire: its labels, then a zero byte. Nothing is compressed.
pub open spec fn name_wire(labels: Seq<Seq<char>>) -> Seq<u8> {
    labels_wire(labels) + seq![0u8]
}

/// The payload of a record on the wire.
pub open spec fn rdata_wire(inner: RecordInnerView) -> Seq<u8> {
    match inner {
        RecordInnerView::SOA { serial, mname, rname, refresh, retry, expire, minimum } => {
            name_wire(mname) + name_wire(rname) + u32_be(serial) + u32_be(refresh) + u32_be(retry)
                + u32_be(expire) + u32_be(minimum)
        },
        RecordInnerView::NS { ns } => name_wire(ns),
        RecordInnerView::A { addr } => addr,
        RecordInnerView::AAAA { addr } => addr,
        RecordInnerView::CNAME { to } => name_wire(to),
        RecordInnerView::TXT { content } => encode_utf8(content),
    }
}

/// A record on the wire, after its owner name: type, class `IN`, time to
/// live, the low sixteen bits of the payload's length, and the payload.
pub open spec fn record_wire(r: RecordView) -> Seq<u8> {
    let rdata = rdata_wire(r.inner);
    u16_be(r.inner.ty().spec_code()) + seq![0u8, 1u8] + u32_be(r.ttl) + u16_be(
        (rdata.len() % 0x1_0000) as u16,
    ) + rdata
}

/// The labels of a name, taken from the back, are the labels before the last
/// and then the last.
pub proof fn lemma_labels_wire_push(labels: Seq<Seq<char>>, label: Seq<char>)
    ensures
        labels_wire(labels.push(label)) == labels_wire(labels) + label_wire(label),
    decreases labels.len(),
{
    let grown = labels.push(label);
    if labels.len() == 0 {
        assert(grown.drop_first() =~= Seq::<Seq<char>>::empty());
        assert(labels_wire(grown) =~= labels_wire(labels) + label_wire(label));
    } else {
        assert(grown.drop_first() =~= labels.drop_first().push(label));
        lemma_labels_wire_push(labels.drop_first(), label);
        assert(grown[0] == labels[0]);
        assert(labels_wire(grown) == label_wire(grown[0]) + labels_wire(grown.drop_first()));
        assert(labels_wire(labels) == label_wire(labels[0]) + labels_wire(labels.drop_first()));
        assert(labels_wire(grown) =~= labels_wire(labels) + label_wire(label));
    }
}

impl RecordInner {
    /// The record type of the payload.
    pub fn ty(&self) -> (t: Type)
        ensures
            t == self@.ty(),
    {
        match self {
            RecordInner::SOA { .. } => Type::SOA,
            RecordInner::NS { .. } => Type::NS,
            RecordInner::A { .. } => Type::A,
            RecordInner::AAAA { .. } => Type::AAAA,
            RecordInner::CNAME { .. } => Type::CNAME,
            RecordInner::TXT { .. } => Type::TXT,
        }
    }

    /// The payload in wire form.
    pub fn serialize(&self) -> (ret: Vec<u8>)
        ensures
            ret@ == rdata_wire(self@),
    {
        let mut ret: Vec<u8> = Vec::new();
        match self {
            RecordInner::SOA { serial, mname, rname, refresh, retry, expire, minimum } => {
                serialize_name(mname.labels(), &mut ret);
                serialize_name(rname.labels(), &mut ret);
                put_u32(&mut ret, *serial);
                put_u32(&mut ret, *refresh);
                put_u32(&mut ret, *retry);
                put_u32(&mut ret, *expire);
                put_u32(&mut ret, *minimum);
            },
            RecordInner::NS { ns } => {
                serialize_name(ns.labels(), &mut ret);
            },
            RecordInner::A { addr } => {
                put_bytes(&mut ret, addr.as_slice());
            },
            RecordInner::AAAA { addr } => {
                put_bytes(&mut ret, addr.as_slice());
            },
            RecordInner::CNAME { to } => {
                serialize_name(to.labels(), &mut ret);
            },
            RecordInner::TXT { content } => {
                put_bytes(&mut ret, content.as_str().as_bytes());
            },
        }
        assert(ret@ =~= rdata_wire(self@));
        ret
    }
}

impl Record {
    /// Appends the record in wire form, without its owner name.
    pub fn serialize(&self, w: &mut Vec<u8>)
        ensures
            final(w)@ == old(w)@ + record_wire(self@),
    {
        put_u16(w, self.inner.ty().code());
        w.push(0);
        w.push(1);
        put_u32(w, self.ttl);
        let rdata = self.inner.serialize();
        put_u16(w, (rdata.len() % 0x1_0000) as u16);
        put_bytes(w, rdata.as_slice());
        assert(w@ =~= old(w)@ + record_wire(self@));
    }
}

/// Appends a name in wire form: each label behind its length byte, then a
/// zero byte.
pub fn serialize_name(segs: &[String], w: &mut Vec<u8>)
    ensures
        final(w)@ == old(w)@ + name_wire(segs.deep_view()),
{
    let ghost labels = segs.deep_view();
    let mut i: usize = 0;
    assert(labels.take(0) =~= Seq::<Seq<char>>::empty());
    while i < segs.len()
        invariant
            i <= segs@.len(),
            labels == segs.deep_view(),
            labels.len() == segs@.len(),
            w@ == old(w)@ + labels_wire(labels.take(i as int)),
        decreases segs@.len() - i,
    {
        let seg = segs[i].as_str();
        let bytes = seg.as_bytes();
        proof {
            lemma_labels_wire_push(labels.take(i as int), labels[i as int]);
            assert(labels.take(i as int).push(labels[i as int]) =~= labels.take(i as int + 1));
        }
        w.push((bytes.len() % 256) as u8);
        put_bytes(w, bytes);
        i += 1;
        assert(w@ =~= old(w)@ + labels_wire(labels.take(i as int)));
    }
    assert(labels.take(i as int) =~= labels);
    w.push(0);
    assert(w@ =~= old(w)@ + name_wire(labels));
}

} // verus!
