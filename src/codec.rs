use crate::error::MdnsError;
use vstd::prelude::*;
use vstd::utf8::encode_utf8;

verus! {

// ---------------------------------------------------------------------------
// Big-endian integers
// ---------------------------------------------------------------------------

pub open spec fn be16(v: u16) -> Seq<u8> {
    seq![(v / 256) as u8, (v % 256) as u8]
}

pub open spec fn be32(v: u32) -> Seq<u8> {
    seq![(v / 0x100_0000) as u8, ((v / 0x1_0000) % 256) as u8, ((v / 256) % 256) as u8, (v % 256) as u8]
}

/// The 16-bit big-endian value at the front of `s`.
pub open spec fn read16(s: Seq<u8>) -> u16 {
    (s[0] as int * 256 + s[1] as int) as u16
}

/// The 32-bit big-endian value at the front of `s`.
pub open spec fn read32(s: Seq<u8>) -> u32 {
    (s[0] as int * 0x100_0000 + s[1] as int * 0x1_0000 + s[2] as int * 256 + s[3] as int) as u32
}

proof fn lemma_be16(v: u16, t: Seq<u8>)
    ensures
        read16(be16(v) + t) == v,
        (be16(v) + t).skip(2) == t,
{
    assert((be16(v) + t).skip(2) =~= t);
}

proof fn lemma_be32(v: u32, t: Seq<u8>)
    ensures
        read32(be32(v) + t) == v,
        (be32(v) + t).skip(4) == t,
{
    assert((be32(v) + t).skip(4) =~= t);
}

fn push16(out: &mut Vec<u8>, v: u16)
    ensures
        final(out)@ == old(out)@ + be16(v),
{
    out.push((v / 256) as u8);
    out.push((v % 256) as u8);
    assert(final(out)@ =~= old(out)@ + be16(v));
}

fn push32(out: &mut Vec<u8>, v: u32)
    ensures
        final(out)@ == old(out)@ + be32(v),
{
    out.push((v / 0x100_0000) as u8);
    out.push(((v / 0x1_0000) % 256) as u8);
    out.push(((v / 256) % 256) as u8);
    out.push((v % 256) as u8);
    assert(final(out)@ =~= old(out)@ + be32(v));
}

fn get16(buf: &[u8], pos: usize) -> (r: u16)
    requires
        pos + 2 <= buf@.len(),
    ensures
        r == read16(buf@.skip(pos as int)),
{
    buf[pos] as u16 * 256 + buf[pos + 1] as u16
}

fn get32(buf: &[u8], pos: usize) -> (r: u32)
    requires
        pos + 4 <= buf@.len(),
    ensures
        r == read32(buf@.skip(pos as int)),
{
    buf[pos] as u32 * 0x100_0000 + buf[pos + 1] as u32 * 0x1_0000 + buf[pos + 2] as u32 * 256
        + buf[pos + 3] as u32
}

// ---------------------------------------------------------------------------
// Names
// ---------------------------------------------------------------------------

/// A label on the wire holds one to 63 bytes.
pub open spec fn label_ok(l: Seq<u8>) -> bool {
    1 <= l.len() <= 63
}

/// A label with its length prefix.
pub open spec fn enc_label(l: Seq<u8>) -> Seq<u8> {
    seq![l.len() as u8] + l
}

/// The labels of a name, each with its length prefix, and the closing zero byte.
pub open spec fn enc_name(ls: Seq<Seq<u8>>) -> Seq<u8> {
    ls.map_values(|l: Seq<u8>| enc_label(l)).flatten() + seq![0u8]
}

/// A name is valid when every label is, and its wire form takes at most 255 bytes.
pub open spec fn name_ok(ls: Seq<Seq<u8>>) -> bool {
    &&& forall|i: int| 0 <= i < ls.len() ==> label_ok(#[trigger] ls[i])
    &&& enc_name(ls).len() <= 255
}

/// Reads length-prefixed labels up to the closing zero byte; returns them and what follows.
pub open spec fn parse_labels(s: Seq<u8>) -> Option<(Seq<Seq<u8>>, Seq<u8>)>
    decreases s.len(),
{
    if s.len() == 0 {
        None
    } else if s[0] == 0 {
        Some((Seq::empty(), s.drop_first()))
    } else if s[0] > 63 || s.len() < 1 + s[0] {
        None
    } else {
        match parse_labels(s.skip(1 + s[0])) {
            Some((ls, rest)) => Some((seq![s.subrange(1, 1 + s[0])] + ls, rest)),
            None => None,
        }
    }
}

/// Reads a name at the front of `s`; returns it and what follows.
pub open spec fn parse_name(s: Seq<u8>) -> Option<(Seq<Seq<u8>>, Seq<u8>)> {
    match parse_labels(s) {
        Some((ls, rest)) => if enc_name(ls).len() <= 255 {
            Some((ls, rest))
        } else {
            None
        },
        None => None,
    }
}

proof fn lemma_enc_name_front(ls: Seq<Seq<u8>>)
    requires
        ls.len() > 0,
    ensures
        enc_name(ls) == enc_label(ls[0]) + enc_name(ls.drop_first()),
{
    let m = ls.map_values(|l: Seq<u8>| enc_label(l));
    assert(m.drop_first() =~= ls.drop_first().map_values(|l: Seq<u8>| enc_label(l)));
    assert(enc_name(ls) =~= enc_label(ls[0]) + enc_name(ls.drop_first()));
}

proof fn lemma_enc_name_push(ls: Seq<Seq<u8>>, l: Seq<u8>)
    ensures
        ls.push(l).map_values(|x: Seq<u8>| enc_label(x)).flatten()
            == ls.map_values(|x: Seq<u8>| enc_label(x)).flatten() + enc_label(l),
{
    let m = ls.map_values(|x: Seq<u8>| enc_label(x));
    assert(ls.push(l).map_values(|x: Seq<u8>| enc_label(x)) =~= m.push(enc_label(l)));
    m.lemma_flatten_push(enc_label(l));
}

/// Reading the wire form of a valid name gives the name back, and leaves what followed it.
proof fn lemma_labels_round_trip(ls: Seq<Seq<u8>>, t: Seq<u8>)
    requires
        forall|i: int| 0 <= i < ls.len() ==> label_ok(#[trigger] ls[i]),
    ensures
        parse_labels(enc_name(ls) + t) == Some((ls, t)),
    decreases ls.len(),
{
    let s = enc_name(ls) + t;
    if ls.len() == 0 {
        assert(enc_name(ls) =~= seq![0u8]);
        assert(s.drop_first() =~= t);
        assert(ls =~= Seq::<Seq<u8>>::empty());
    } else {
        lemma_enc_name_front(ls);
        let l = ls[0];
        assert(label_ok(l));
        let tail = ls.drop_first();
        assert forall|i: int| 0 <= i < tail.len() implies label_ok(#[trigger] tail[i]) by {
            assert(tail[i] == ls[i + 1]);
        }
        lemma_labels_round_trip(tail, t);
        assert(s[0] == l.len() as u8);
        assert(s.subrange(1, 1 + s[0]) =~= l);
        assert(s.skip(1 + s[0]) =~= enc_name(tail) + t);
        assert(seq![l] + tail =~= ls);
    }
}

/// What reading a name gives back has valid labels and is exactly the bytes consumed.
proof fn lemma_labels_inverse(s: Seq<u8>)
    ensures
        parse_labels(s) matches Some((ls, rest)) ==> {
            &&& forall|i: int| 0 <= i < ls.len() ==> label_ok(#[trigger] ls[i])
            &&& s == enc_name(ls) + rest
        },
    decreases s.len(),
{
    if s.len() == 0 {
    } else if s[0] == 0 {
        if let Some((ls, rest)) = parse_labels(s) {
            assert(ls =~= Seq::<Seq<u8>>::empty());
            assert(enc_name(ls) =~= seq![0u8]);
            assert(s =~= enc_name(ls) + rest);
        }
    } else if s[0] > 63 || s.len() < 1 + s[0] {
    } else {
        lemma_labels_inverse(s.skip(1 + s[0]));
        if let Some((ls, rest)) = parse_labels(s) {
            let l = s.subrange(1, 1 + s[0]);
            let (tail, r2) = parse_labels(s.skip(1 + s[0])).unwrap();
            assert(ls == seq![l] + tail);
            assert(ls.drop_first() =~= tail);
            assert(ls[0] == l);
            lemma_enc_name_front(ls);
            assert forall|i: int| 0 <= i < ls.len() implies label_ok(#[trigger] ls[i]) by {
                if i > 0 {
                    assert(ls[i] == tail[i - 1]);
                }
            }
            assert(l.len() == s[0] as int);
            assert(s =~= enc_label(l) + s.skip(1 + s[0]));
            assert(s.skip(1 + s[0]) == enc_name(tail) + rest);
            assert(s =~= enc_name(ls) + rest);
        }
    }
}

pub proof fn lemma_name_round_trip(ls: Seq<Seq<u8>>, t: Seq<u8>)
    requires
        name_ok(ls),
    ensures
        parse_name(enc_name(ls) + t) == Some((ls, t)),
{
    lemma_labels_round_trip(ls, t);
}

// ---------------------------------------------------------------------------
// Names as text
// ---------------------------------------------------------------------------

/// The byte sequence `b` cut at each `.`; a trailing or doubled `.` gives an empty piece.
pub open spec fn split_dots(b: Seq<u8>) -> Seq<Seq<u8>>
    decreases b.len(),
{
    if b.len() == 0 {
        seq![Seq::empty()]
    } else {
        let p = split_dots(b.drop_last());
        if b.last() == 46u8 {
            p.push(Seq::empty())
        } else {
            p.update(p.len() - 1, p.last().push(b.last()))
        }
    }
}

/// The labels that a dotted text names: none for the empty text (the root).
pub open spec fn labels_of_text(b: Seq<u8>) -> Seq<Seq<u8>> {
    if b.len() == 0 {
        Seq::empty()
    } else {
        split_dots(b)
    }
}

/// The dotted text of a sequence of labels.
pub open spec fn dotted(ls: Seq<Seq<u8>>) -> Seq<u8>
    decreases ls.len(),
{
    if ls.len() == 0 {
        Seq::empty()
    } else if ls.len() == 1 {
        ls[0]
    } else {
        dotted(ls.drop_last()) + seq![46u8] + ls.last()
    }
}

proof fn lemma_split_dots_nonempty(b: Seq<u8>)
    ensures
        split_dots(b).len() >= 1,
    decreases b.len(),
{
    if b.len() > 0 {
        lemma_split_dots_nonempty(b.drop_last());
    }
}

pub open spec fn labels_view(v: Seq<Vec<u8>>) -> Seq<Seq<u8>> {
    v.map_values(|l: Vec<u8>| l@)
}

/// A domain name: a sequence of labels, each of one to 63 bytes, at most 255 bytes on the wire.
#[derive(Debug, Clone, PartialEq, Eq)]
pub struct DnsName {
    pub labels: Vec<Vec<u8>>,
}

impl View for DnsName {
    type V = Seq<Seq<u8>>;

    open spec fn view(&self) -> Seq<Seq<u8>> {
        labels_view(self.labels@)
    }
}

fn copy_range(buf: &[u8], start: usize, end: usize) -> (r: Vec<u8>)
    requires
        start <= end <= buf@.len(),
    ensures
        r@ == buf@.subrange(start as int, end as int),
{
    let mut r: Vec<u8> = Vec::new();
    let mut i: usize = start;
    while i < end
        invariant
            start <= i <= end <= buf@.len(),
            r@ == buf@.subrange(start as int, i as int),
        decreases end - i,
    {
        r.push(buf[i]);
        i = i + 1;
        assert(r@ =~= buf@.subrange(start as int, i as int));
    }
    r
}

/// Whether the labels form a valid name.
fn check_labels(v: &Vec<Vec<u8>>) -> (r: bool)
    ensures
        r == name_ok(labels_view(v@)),
{
    let ghost ls = labels_view(v@);
    let mut total: usize = 1;
    let mut i: usize = 0;
    while i < v.len()
        invariant
            i <= v@.len(),
            ls == labels_view(v@),
            total <= 255,
            total == ls.take(i as int).map_values(|x: Seq<u8>| enc_label(x)).flatten().len() + 1,
            forall|j: int| 0 <= j < i ==> label_ok(#[trigger] ls[j]),
        decreases v@.len() - i,
    {
        let n = v[i].len();
        proof {
            assert(ls.take(i + 1) =~= ls.take(i as int).push(ls[i as int]));
            lemma_enc_name_push(ls.take(i as int), ls[i as int]);
        }
        if n == 0 || n > 63 {
            return false;
        }
        if total + 1 + n > 255 {
            proof {
                assert(ls.take(i + 1).map_values(|x: Seq<u8>| enc_label(x)).flatten().len() + 1 > 255);
                lemma_enc_name_prefix_len(ls, i + 1);
            }
            return false;
        }
        total = total + 1 + n;
        i = i + 1;
    }
    assert(ls.take(i as int) =~= ls);
    true
}

proof fn lemma_enc_name_prefix_len(ls: Seq<Seq<u8>>, k: int)
    requires
        0 <= k <= ls.len(),
    ensures
        ls.take(k).map_values(|x: Seq<u8>| enc_label(x)).flatten().len() <= enc_name(ls).len() - 1,
    decreases ls.len() - k,
{
    if k < ls.len() {
        lemma_enc_name_prefix_len(ls, k + 1);
        assert(ls.take(k + 1) =~= ls.take(k).push(ls[k]));
        lemma_enc_name_push(ls.take(k), ls[k]);
    } else {
        assert(ls.take(k) =~= ls);
    }
}

impl DnsName {
    /// Builds a name from its dotted text; fails when a label is empty or over 63 bytes,
    /// or the wire form would exceed 255 bytes. The empty text names the root.
    pub fn new(text: &str) -> (r: Result<DnsName, MdnsError>)
        ensures
            match r {
                Ok(n) => n@ == labels_of_text(encode_utf8(text@)) && name_ok(n@),
                Err(e) => e == MdnsError::InvalidName && !name_ok(labels_of_text(encode_utf8(text@))),
            },
    {
        let b = text.as_bytes();
        let ghost bs = b@;
        let mut labels: Vec<Vec<u8>> = Vec::new();
        if b.len() == 0 {
            proof {
                assert(labels_view(labels@) =~= labels_of_text(bs));
                assert(enc_name(Seq::<Seq<u8>>::empty()) =~= seq![0u8]);
            }
            return Ok(DnsName { labels });
        }
        let mut cur: Vec<u8> = Vec::new();
        let mut i: usize = 0;
        while i < b.len()
            invariant
                i <= bs.len(),
                b@ == bs,
                split_dots(bs.take(i as int)) == labels_view(labels@).push(cur@),
            decreases bs.len() - i,
        {
            let c = b[i];
            proof {
                assert(bs.take(i + 1).drop_last() =~= bs.take(i as int));
                lemma_split_dots_nonempty(bs.take(i as int));
            }
            if c == 46u8 {
                labels.push(cur);
                cur = Vec::new();
                proof {
                    assert(split_dots(bs.take(i + 1)) =~= labels_view(labels@).push(cur@));
                }
            } else {
                cur.push(c);
                proof {
                    assert(split_dots(bs.take(i + 1)) =~= labels_view(labels@).push(cur@));
                }
            }
            i = i + 1;
        }
        labels.push(cur);
        proof {
            assert(bs.take(bs.len() as int) =~= bs);
            assert(labels_view(labels@) =~= labels_of_text(bs));
        }
        if check_labels(&labels) {
            Ok(DnsName { labels })
        } else {
            Err(MdnsError::InvalidName)
        }
    }

    /// The dotted text of this name, as bytes.
    pub fn text_bytes(&self) -> (r: Vec<u8>)
        ensures
            r@ == dotted(self@),
    {
        let ghost ls = self@;
        let mut r: Vec<u8> = Vec::new();
        let mut i: usize = 0;
        while i < self.labels.len()
            invariant
                i <= ls.len(),
                ls == self@,
                r@ == dotted(ls.take(i as int)),
            decreases ls.len() - i,
        {
            if i > 0 {
                r.push(46u8);
            }
            let l = &self.labels[i];
            let mut j: usize = 0;
            let ghost r0 = r@;
            while j < l.len()
                invariant
                    j <= l@.len(),
                    r@ == r0 + l@.take(j as int),
                decreases l@.len() - j,
            {
                r.push(l[j]);
                j = j + 1;
                assert(r@ =~= r0 + l@.take(j as int));
            }
            proof {
                assert(l@.take(j as int) =~= l@);
                assert(ls.take(i + 1).drop_last() =~= ls.take(i as int));
                assert(ls[i as int] == l@);
                if i == 0 {
                    assert(r@ =~= dotted(ls.take(1)));
                } else {
                    assert(r@ =~= dotted(ls.take(i + 1)));
                }
            }
            i = i + 1;
        }
        assert(ls.take(i as int) =~= ls);
        r
    }

    /// Appends the wire form of this name.
    pub fn encode_into(&self, out: &mut Vec<u8>)
        requires
            name_ok(self@),
        ensures
            final(out)@ == old(out)@ + enc_name(self@),
    {
        let ghost ls = self@;
        let mut i: usize = 0;
        while i < self.labels.len()
            invariant
                i <= ls.len(),
                ls == self@,
                name_ok(ls),
                out@ == old(out)@ + ls.take(i as int).map_values(|x: Seq<u8>| enc_label(x)).flatten(),
            decreases ls.len() - i,
        {
            let l = &self.labels[i];
            assert(label_ok(ls[i as int]));
            out.push(l.len() as u8);
            let ghost o0 = out@;
            let mut j: usize = 0;
            while j < l.len()
                invariant
                    j <= l@.len(),
                    out@ == o0 + l@.take(j as int),
                decreases l@.len() - j,
            {
                out.push(l[j]);
                j = j + 1;
                assert(out@ =~= o0 + l@.take(j as int));
            }
            proof {
                assert(l@.take(j as int) =~= l@);
                assert(ls.take(i + 1) =~= ls.take(i as int).push(ls[i as int]));
                lemma_enc_name_push(ls.take(i as int), ls[i as int]);
                assert(out@ =~= old(out)@ + ls.take(i + 1).map_values(|x: Seq<u8>| enc_label(x)).flatten());
            }
            i = i + 1;
        }
        out.push(0u8);
        assert(ls.take(i as int) =~= ls);
        assert(out@ =~= old(out)@ + enc_name(ls));
    }

    /// Reads a name at `pos`; returns it and the position after it.
    pub fn read(buf: &[u8], pos: usize) -> (r: Option<(DnsName, usize)>)
        requires
            pos <= buf@.len(),
        ensures
            match r {
                Some((n, p)) => pos <= p <= buf@.len() && parse_name(buf@.skip(pos as int)) == Some((n@, buf@.skip(p as int))),
                None => parse_name(buf@.skip(pos as int)) is None,
            },
    {
        let mut labels: Vec<Vec<u8>> = Vec::new();
        let mut p: usize = pos;
        loop
            invariant
                pos <= p <= buf@.len(),
                parse_labels(buf@.skip(pos as int)) == (match parse_labels(buf@.skip(p as int)) {
                    Some((ls, rest)) => Some((labels_view(labels@) + ls, rest)),
                    None => None,
                }),
            decreases buf@.len() - p,
        {
            let ghost s = buf@.skip(p as int);
            if p >= buf.len() {
                return None;
            }
            let n = buf[p] as usize;
            if n == 0 {
                proof {
                    assert(s.drop_first() =~= buf@.skip(p + 1));
                    assert(labels_view(labels@) + Seq::<Seq<u8>>::empty() =~= labels_view(labels@));
                }
                let name = DnsName { labels };
                if check_labels(&name.labels) {
                    return Some((name, p + 1));
                } else {
                    proof {
                        lemma_labels_inverse(buf@.skip(pos as int));
                    }
                    return None;
                }
            }
            if n > 63 || buf.len() - p < 1 + n {
                return None;
            }
            let l = copy_range(buf, p + 1, p + 1 + n);
            proof {
                assert(s.skip(1 + s[0]) =~= buf@.skip(p + 1 + n));
                assert(s.subrange(1, 1 + s[0]) =~= l@);
            }
            let ghost old_labels = labels_view(labels@);
            labels.push(l);
            proof {
                assert(labels_view(labels@) =~= old_labels.push(l@));
                match parse_labels(buf@.skip(p + 1 + n)) {
                    Some((ls, rest)) => {
                        assert(old_labels + (seq![l@] + ls) =~= labels_view(labels@) + ls);
                    },
                    None => {},
                }
            }
            p = p + 1 + n;
        }
    }
}

// ---------------------------------------------------------------------------
// Messages: the mathematical model
// ---------------------------------------------------------------------------

pub struct QuestionView {
    pub name: Seq<Seq<u8>>,
    pub qtype: u16,
    pub qclass: u16,
}

pub enum RecordView {
    A { name: Seq<Seq<u8>>, ttl: u32, ip: Seq<u8> },
    PTR { name: Seq<Seq<u8>>, ttl: u32, ptr_name: Seq<Seq<u8>> },
    SRV {
        name: Seq<Seq<u8>>,
        ttl: u32,
        priority: u16,
        weight: u16,
        port: u16,
        target: Seq<Seq<u8>>,
    },
}

pub struct PacketView {
    pub flags: u16,
    pub questions: Seq<QuestionView>,
    pub answers: Seq<RecordView>,
}

pub const TYPE_A: u16 = 1;
pub const TYPE_PTR: u16 = 12;
pub const TYPE_SRV: u16 = 33;
pub const CLASS_IN: u16 = 1;

pub open spec fn question_ok(q: QuestionView) -> bool {
    name_ok(q.name)
}

pub open spec fn record_ok(r: RecordView) -> bool {
    match r {
        RecordView::A { name, ip, .. } => name_ok(name) && ip.len() == 4,
        RecordView::PTR { name, ptr_name, .. } => name_ok(name) && name_ok(ptr_name),
        RecordView::SRV { name, target, .. } => name_ok(name) && name_ok(target),
    }
}

/// A message that the wire format can carry: valid names, and counts that fit in 16 bits.
pub open spec fn packet_ok(m: PacketView) -> bool {
    &&& m.questions.len() <= 0xffff
    &&& m.answers.len() <= 0xffff
    &&& forall|i: int| 0 <= i < m.questions.len() ==> question_ok(#[trigger] m.questions[i])
    &&& forall|i: int| 0 <= i < m.answers.len() ==> record_ok(#[trigger] m.answers[i])
}

pub open spec fn enc_question(q: QuestionView) -> Seq<u8> {
    enc_name(q.name) + be16(q.qtype) + be16(q.qclass)
}

pub open spec fn record_type(r: RecordView) -> u16 {
    match r {
        RecordView::A { .. } => TYPE_A,
        RecordView::PTR { .. } => TYPE_PTR,
        RecordView::SRV { .. } => TYPE_SRV,
    }
}

pub open spec fn record_name(r: RecordView) -> Seq<Seq<u8>> {
    match r {
        RecordView::A { name, .. } => name,
        RecordView::PTR { name, .. } => name,
        RecordView::SRV { name, .. } => name,
    }
}

pub open spec fn record_ttl(r: RecordView) -> u32 {
    match r {
        RecordView::A { ttl, .. } => ttl,
        RecordView::PTR { ttl, .. } => ttl,
        RecordView::SRV { ttl, .. } => ttl,
    }
}

pub open spec fn enc_rdata(r: RecordView) -> Seq<u8> {
    match r {
        RecordView::A { ip, .. } => ip,
        RecordView::PTR { ptr_name, .. } => enc_name(ptr_name),
        RecordView::SRV { priority, weight, port, target, .. } => be16(priority) + be16(weight)
            + be16(port) + enc_name(target),
    }
}

/// A resource record: name, type, class IN, ttl, data length, data.
pub open spec fn enc_record(r: RecordView) -> Seq<u8> {
    enc_name(record_name(r)) + be16(record_type(r)) + be16(CLASS_IN) + be32(record_ttl(r)) + be16(
        enc_rdata(r).len() as u16,
    ) + enc_rdata(r)
}

pub open spec fn question_encoder() -> spec_fn(QuestionView) -> Seq<u8> {
    |q: QuestionView| enc_question(q)
}

pub open spec fn record_encoder() -> spec_fn(RecordView) -> Seq<u8> {
    |r: RecordView| enc_record(r)
}

pub open spec fn enc_all<T>(vs: Seq<T>, enc: spec_fn(T) -> Seq<u8>) -> Seq<u8> {
    vs.map_values(enc).flatten()
}

/// The twelve-byte header (id and the last two counts zero), the questions, then the answers.
pub open spec fn enc_packet(m: PacketView) -> Seq<u8> {
    seq![0u8, 0u8] + be16(m.flags) + be16(m.questions.len() as u16) + be16(m.answers.len() as u16)
        + seq![0u8, 0u8, 0u8, 0u8] + enc_all(m.questions, question_encoder())
        + enc_all(m.answers, record_encoder())
}

pub open spec fn parse_question(s: Seq<u8>) -> Option<(QuestionView, Seq<u8>)> {
    match parse_name(s) {
        Some((n, r)) => if r.len() >= 4 {
            Some((QuestionView { name: n, qtype: read16(r), qclass: read16(r.skip(2)) }, r.skip(4)))
        } else {
            None
        },
        None => None,
    }
}

/// The record that data `rd` of type `rtype` describes, if it is one of A, PTR, SRV and well formed.
pub open spec fn parse_rdata(rtype: u16, name: Seq<Seq<u8>>, ttl: u32, rd: Seq<u8>) -> Option<RecordView> {
    if rtype == TYPE_A {
        if rd.len() == 4 {
            Some(RecordView::A { name, ttl, ip: rd })
        } else {
            None
        }
    } else if rtype == TYPE_PTR {
        match parse_name(rd) {
            Some((p, r)) => if r.len() == 0 {
                Some(RecordView::PTR { name, ttl, ptr_name: p })
            } else {
                None
            },
            None => None,
        }
    } else if rtype == TYPE_SRV {
        if rd.len() >= 6 {
            match parse_name(rd.skip(6)) {
                Some((t, r)) => if r.len() == 0 {
                    Some(
                        RecordView::SRV {
                            name,
                            ttl,
                            priority: read16(rd),
                            weight: read16(rd.skip(2)),
                            port: read16(rd.skip(4)),
                            target: t,
                        },
                    )
                } else {
                    None
                },
                None => None,
            }
        } else {
            None
        }
    } else {
        None
    }
}

/// Reads a record; the class field is read and not kept. A data length that runs past
/// the end, or a record of another type, fails.
pub open spec fn parse_record(s: Seq<u8>) -> Option<(RecordView, Seq<u8>)> {
    match parse_name(s) {
        Some((n, r)) => if r.len() < 10 {
            None
        } else {
            let len = read16(r.skip(8));
            let body = r.skip(10);
            if len > body.len() {
                None
            } else {
                match parse_rdata(read16(r), n, read32(r.skip(4)), body.take(len as int)) {
                    Some(rec) => Some((rec, body.skip(len as int))),
                    None => None,
                }
            }
        },
        None => None,
    }
}

pub open spec fn question_parser() -> spec_fn(Seq<u8>) -> Option<(QuestionView, Seq<u8>)> {
    |x: Seq<u8>| parse_question(x)
}

pub open spec fn record_parser() -> spec_fn(Seq<u8>) -> Option<(RecordView, Seq<u8>)> {
    |x: Seq<u8>| parse_record(x)
}

/// Reads `n` items in a row with `f`.
pub open spec fn parse_many<T>(s: Seq<u8>, n: nat, f: spec_fn(Seq<u8>) -> Option<(T, Seq<u8>)>) -> Option<
    (Seq<T>, Seq<u8>),
>
    decreases n,
{
    if n == 0 {
        Some((Seq::empty(), s))
    } else {
        match f(s) {
            Some((v, r)) => match parse_many(r, (n - 1) as nat, f) {
                Some((vs, r2)) => Some((seq![v] + vs, r2)),
                None => None,
            },
            None => None,
        }
    }
}

/// Reads a message and returns it with the bytes after its answers (the authority and
/// additional sections, which are not kept).
pub open spec fn parse_packet_rest(s: Seq<u8>) -> Option<(PacketView, Seq<u8>)> {
    if s.len() < 12 {
        None
    } else {
        match parse_many(s.skip(12), read16(s.skip(4)) as nat, question_parser()) {
            Some((qs, r)) => match parse_many(r, read16(s.skip(6)) as nat, record_parser()) {
                Some((rs, r2)) => Some((PacketView { flags: read16(s.skip(2)), questions: qs, answers: rs }, r2)),
                None => None,
            },
            None => None,
        }
    }
}

pub open spec fn parse_packet(s: Seq<u8>) -> Option<PacketView> {
    match parse_packet_rest(s) {
        Some((m, _)) => Some(m),
        None => None,
    }
}

// ---------------------------------------------------------------------------
// Messages: round trip and truncation
// ---------------------------------------------------------------------------

proof fn lemma_question_round_trip(q: QuestionView, t: Seq<u8>)
    requires
        question_ok(q),
    ensures
        parse_question(enc_question(q) + t) == Some((q, t)),
{
    let r = be16(q.qtype) + be16(q.qclass) + t;
    assert(enc_question(q) + t =~= enc_name(q.name) + r);
    lemma_name_round_trip(q.name, r);
    lemma_be16(q.qtype, be16(q.qclass) + t);
    assert(r =~= be16(q.qtype) + (be16(q.qclass) + t));
    lemma_be16(q.qclass, t);
}

#[verifier::rlimit(80)]
proof fn lemma_record_round_trip(rec: RecordView, t: Seq<u8>)
    requires
        record_ok(rec),
    ensures
        parse_record(enc_record(rec) + t) == Some((rec, t)),
{
    let rd = enc_rdata(rec);
    let r = be16(record_type(rec)) + be16(CLASS_IN) + be32(record_ttl(rec)) + be16(rd.len() as u16) + rd + t;
    assert(enc_record(rec) + t =~= enc_name(record_name(rec)) + r);
    lemma_name_round_trip(record_name(rec), r);
    assert(rd.len() <= 6 + 255) by {
        match rec {
            RecordView::A { .. } => {},
            RecordView::PTR { .. } => {},
            RecordView::SRV { .. } => {},
        }
    }
    lemma_be16(record_type(rec), r.skip(2));
    assert(r =~= be16(record_type(rec)) + r.skip(2));
    assert(r.skip(4) =~= be32(record_ttl(rec)) + r.skip(8));
    lemma_be32(record_ttl(rec), r.skip(8));
    assert(r.skip(8) =~= be16(rd.len() as u16) + (rd + t));
    lemma_be16(rd.len() as u16, rd + t);
    let body = r.skip(10);
    assert(body =~= rd + t);
    assert(body.take(rd.len() as int) =~= rd);
    assert(body.skip(rd.len() as int) =~= t);
    match rec {
        RecordView::A { .. } => {},
        RecordView::PTR { ptr_name, .. } => {
            assert(rd =~= enc_name(ptr_name) + Seq::<u8>::empty());
            lemma_name_round_trip(ptr_name, Seq::<u8>::empty());
        },
        RecordView::SRV { priority, weight, port, target, .. } => {
            assert(rd.skip(6) =~= enc_name(target) + Seq::<u8>::empty());
            lemma_name_round_trip(target, Seq::<u8>::empty());
            lemma_be16(priority, rd.skip(2));
            assert(rd =~= be16(priority) + rd.skip(2));
            assert(rd.skip(2) =~= be16(weight) + rd.skip(4));
            lemma_be16(weight, rd.skip(4));
            assert(rd.skip(2).skip(2) =~= rd.skip(4));
            assert(rd.skip(4) =~= be16(port) + rd.skip(6));
            lemma_be16(port, rd.skip(6));
        },
    }
}

proof fn lemma_many_round_trip<T>(
    vs: Seq<T>,
    t: Seq<u8>,
    enc: spec_fn(T) -> Seq<u8>,
    f: spec_fn(Seq<u8>) -> Option<(T, Seq<u8>)>,
    ok: spec_fn(T) -> bool,
)
    requires
        forall|i: int| 0 <= i < vs.len() ==> ok(#[trigger] vs[i]),
        forall|v: T, u: Seq<u8>| ok(v) ==> #[trigger] f(enc(v) + u) == Some((v, u)),
    ensures
        parse_many(enc_all(vs, enc) + t, vs.len(), f) == Some((vs, t)),
    decreases vs.len(),
{
    if vs.len() == 0 {
        assert(enc_all(vs, enc) + t =~= t);
        assert(vs =~= Seq::<T>::empty());
    } else {
        let m = vs.map_values(enc);
        let tail = vs.drop_first();
        assert(m.drop_first() =~= tail.map_values(enc));
        assert(enc_all(vs, enc) + t =~= enc(vs[0]) + (enc_all(tail, enc) + t));
        assert(ok(vs[0]));
        assert forall|i: int| 0 <= i < tail.len() implies ok(#[trigger] tail[i]) by {
            assert(tail[i] == vs[i + 1]);
        }
        lemma_many_round_trip(tail, t, enc, f, ok);
        assert(seq![vs[0]] + tail =~= vs);
    }
}

/// Decoding the encoding of a well-formed message gives the message back, and nothing is left over.
pub proof fn lemma_packet_round_trip_rest(m: PacketView)
    requires
        packet_ok(m),
    ensures
        parse_packet_rest(enc_packet(m)) == Some((m, Seq::<u8>::empty())),
{
    let s = enc_packet(m);
    let eq = question_encoder();
    let er = record_encoder();
    let pq = question_parser();
    let pr = record_parser();
    let qb = enc_all(m.questions, eq);
    let ab = enc_all(m.answers, er);
    assert(s.skip(2) =~= be16(m.flags) + s.skip(4));
    lemma_be16(m.flags, s.skip(4));
    assert(s.skip(4) =~= be16(m.questions.len() as u16) + s.skip(6));
    lemma_be16(m.questions.len() as u16, s.skip(6));
    assert(s.skip(6) =~= be16(m.answers.len() as u16) + s.skip(8));
    lemma_be16(m.answers.len() as u16, s.skip(8));
    assert(s.skip(12) =~= qb + ab);
    assert forall|v: QuestionView, u: Seq<u8>| question_ok(v) implies #[trigger] pq(eq(v) + u) == Some((v, u)) by {
        lemma_question_round_trip(v, u);
    }
    lemma_many_round_trip(m.questions, ab, eq, pq, |q: QuestionView| question_ok(q));
    assert forall|v: RecordView, u: Seq<u8>| record_ok(v) implies #[trigger] pr(er(v) + u) == Some((v, u)) by {
        lemma_record_round_trip(v, u);
    }
    assert(ab =~= ab + Seq::<u8>::empty());
    lemma_many_round_trip(m.answers, Seq::<u8>::empty(), er, pr, |r: RecordView| record_ok(r));
}

/// Round trip: decoding the encoding of any well-formed message reproduces it field for field.
pub proof fn lemma_packet_round_trip(m: PacketView)
    requires
        packet_ok(m),
    ensures
        parse_packet(enc_packet(m)) == Some(m),
{
    lemma_packet_round_trip_rest(m);
}

proof fn lemma_labels_extend(s: Seq<u8>, t: Seq<u8>)
    ensures
        parse_labels(s) matches Some((ls, r)) ==> parse_labels(s + t) == Some((ls, r + t)),
    decreases s.len(),
{
    if s.len() == 0 {
    } else if s[0] == 0 {
        assert((s + t).drop_first() =~= s.drop_first() + t);
    } else if s[0] > 63 || s.len() < 1 + s[0] {
    } else {
        lemma_labels_extend(s.skip(1 + s[0]), t);
        assert((s + t).skip(1 + s[0]) =~= s.skip(1 + s[0]) + t);
        assert((s + t).subrange(1, 1 + s[0]) =~= s.subrange(1, 1 + s[0]));
    }
}

proof fn lemma_name_extend(s: Seq<u8>, t: Seq<u8>)
    ensures
        parse_name(s) matches Some((ls, r)) ==> parse_name(s + t) == Some((ls, r + t)),
{
    lemma_labels_extend(s, t);
}

proof fn lemma_question_extend(s: Seq<u8>, t: Seq<u8>)
    ensures
        parse_question(s) matches Some((q, r)) ==> parse_question(s + t) == Some((q, r + t)),
{
    lemma_name_extend(s, t);
    if let Some((n, r)) = parse_name(s) {
        if r.len() >= 4 {
            assert((r + t).skip(2) =~= r.skip(2) + t);
            assert((r + t).skip(4) =~= r.skip(4) + t);
            assert(read16(r + t) == read16(r));
            assert(read16((r + t).skip(2)) == read16(r.skip(2)));
        }
    }
}

proof fn lemma_record_extend(s: Seq<u8>, t: Seq<u8>)
    ensures
        parse_record(s) matches Some((rec, r)) ==> parse_record(s + t) == Some((rec, r + t)),
{
    lemma_name_extend(s, t);
    if let Some((n, r)) = parse_name(s) {
        if r.len() >= 10 {
            let rt = r + t;
            assert(read16(rt) == read16(r));
            assert(rt.skip(4).subrange(0, 4) =~= r.skip(4).subrange(0, 4));
            assert(read32(rt.skip(4)) == read32(r.skip(4)));
            assert(read16(rt.skip(8)) == read16(r.skip(8)));
            let len = read16(r.skip(8));
            assert(rt.skip(10) =~= r.skip(10) + t);
            if len <= r.skip(10).len() {
                assert(rt.skip(10).take(len as int) =~= r.skip(10).take(len as int));
                assert(rt.skip(10).skip(len as int) =~= r.skip(10).skip(len as int) + t);
            }
        }
    }
}

proof fn lemma_many_extend<T>(s: Seq<u8>, t: Seq<u8>, n: nat, f: spec_fn(Seq<u8>) -> Option<(T, Seq<u8>)>)
    requires
        forall|x: Seq<u8>, u: Seq<u8>| #![trigger f(x), f(x + u)]
            f(x) matches Some((v, r)) ==> f(x + u) == Some((v, r + u)),
    ensures
        parse_many(s, n, f) matches Some((vs, r)) ==> parse_many(s + t, n, f) == Some((vs, r + t)),
    decreases n,
{
    if n > 0 {
        if let Some((v, r)) = f(s) {
            assert(f(s + t) == Some((v, r + t)));
            lemma_many_extend(r, t, (n - 1) as nat, f);
        }
    }
}

proof fn lemma_packet_extend(s: Seq<u8>, t: Seq<u8>)
    ensures
        parse_packet_rest(s) matches Some((m, r)) ==> parse_packet_rest(s + t) == Some((m, r + t)),
{
    if s.len() >= 12 {
        let st = s + t;
        assert(st.skip(12) =~= s.skip(12) + t);
        assert(read16(st.skip(2)) == read16(s.skip(2)));
        assert(read16(st.skip(4)) == read16(s.skip(4)));
        assert(read16(st.skip(6)) == read16(s.skip(6)));
        let pq = question_parser();
        let pr = record_parser();
        assert forall|x: Seq<u8>, u: Seq<u8>| #![trigger pq(x), pq(x + u)]
            (pq(x) matches Some((v, r)) ==> pq(x + u) == Some((v, r + u))) by {
            lemma_question_extend(x, u);
        }
        assert forall|x: Seq<u8>, u: Seq<u8>| #![trigger pr(x), pr(x + u)]
            (pr(x) matches Some((v, r)) ==> pr(x + u) == Some((v, r + u))) by {
            lemma_record_extend(x, u);
        }
        lemma_many_extend(s.skip(12), t, read16(s.skip(4)) as nat, pq);
        if let Some((qs, r)) = parse_many(s.skip(12), read16(s.skip(4)) as nat, pq) {
            lemma_many_extend(r, t, read16(s.skip(6)) as nat, pr);
        }
    }
}

proof fn lemma_name_parsed_ok(s: Seq<u8>)
    ensures
        parse_name(s) matches Some((ls, _)) ==> name_ok(ls),
{
    lemma_labels_inverse(s);
}

proof fn lemma_record_parsed_ok(s: Seq<u8>)
    ensures
        parse_record(s) matches Some((rec, _)) ==> record_ok(rec),
{
    lemma_name_parsed_ok(s);
    if let Some((n, r)) = parse_name(s) {
        if r.len() >= 10 {
            let len = read16(r.skip(8));
            let rd = r.skip(10).take(len as int);
            lemma_name_parsed_ok(rd);
            lemma_name_parsed_ok(rd.skip(6));
        }
    }
}

proof fn lemma_many_parsed_ok<T>(s: Seq<u8>, n: nat, f: spec_fn(Seq<u8>) -> Option<(T, Seq<u8>)>, ok: spec_fn(T) -> bool)
    requires
        forall|x: Seq<u8>| #[trigger] f(x) matches Some((v, _)) ==> ok(v),
    ensures
        parse_many(s, n, f) matches Some((vs, _)) ==> vs.len() == n && forall|i: int| 0 <= i < vs.len() ==> ok(#[trigger] vs[i]),
    decreases n,
{
    if n > 0 {
        if let Some((v, r)) = f(s) {
            lemma_many_parsed_ok(r, (n - 1) as nat, f, ok);
            if let Some((vs, _)) = parse_many(s, n, f) {
                let (tail, _) = parse_many(r, (n - 1) as nat, f).unwrap();
                assert(vs == seq![v] + tail);
                assert forall|i: int| 0 <= i < vs.len() implies ok(#[trigger] vs[i]) by {
                    if i > 0 {
                        assert(vs[i] == tail[i - 1]);
                    }
                }
            }
        }
    }
}

/// Whatever decodes is a well-formed message: it can be encoded again.
pub proof fn lemma_parsed_packet_ok(s: Seq<u8>)
    ensures
        parse_packet(s) matches Some(m) ==> packet_ok(m),
{
    if s.len() >= 12 {
        let pq = question_parser();
        let pr = record_parser();
        assert forall|x: Seq<u8>| (#[trigger] pq(x) matches Some((v, _)) ==> question_ok(v)) by {
            lemma_name_parsed_ok(x);
        }
        assert forall|x: Seq<u8>| (#[trigger] pr(x) matches Some((v, _)) ==> record_ok(v)) by {
            lemma_record_parsed_ok(x);
        }
        lemma_many_parsed_ok(s.skip(12), read16(s.skip(4)) as nat, pq, |q: QuestionView| question_ok(q));
        if let Some((qs, r)) = parse_many(s.skip(12), read16(s.skip(4)) as nat, pq) {
            lemma_many_parsed_ok(r, read16(s.skip(6)) as nat, pr, |x: RecordView| record_ok(x));
        }
    }
}

/// Decoding any proper prefix of the encoding of a well-formed message fails.
pub proof fn lemma_truncated_fails(m: PacketView, n: int)
    requires
        packet_ok(m),
        0 <= n < enc_packet(m).len(),
    ensures
        parse_packet(enc_packet(m).take(n)) is None,
{
    let e = enc_packet(m);
    let p = e.take(n);
    let t = e.skip(n);
    assert(p + t =~= e);
    lemma_packet_round_trip_rest(m);
    lemma_packet_extend(p, t);
    if let Some((m2, r)) = parse_packet_rest(p) {
        assert((r + t).len() == 0);
    }
}

proof fn lemma_many_stops<T>(s: Seq<u8>, k: nat, n: nat, f: spec_fn(Seq<u8>) -> Option<(T, Seq<u8>)>)
    requires
        k < n,
        parse_many(s, k, f) matches Some((_, r)) && f(r) is None,
    ensures
        parse_many(s, n, f) is None,
    decreases k,
{
    if k > 0 {
        let (v, r) = f(s).unwrap();
        lemma_many_stops(r, (k - 1) as nat, (n - 1) as nat, f);
    }
}

/// A message fails to decode when the answer after the first `k` that decode declares a
/// data length running past the end of the buffer.
pub proof fn lemma_message_overlong_rdata_fails(s: Seq<u8>, k: nat)
    requires
        s.len() >= 12,
        k < read16(s.skip(6)),
        parse_many(s.skip(12), read16(s.skip(4)) as nat, question_parser()) matches Some((_, r))
            && parse_many(r, k, record_parser()) matches Some((_, r2))
            && parse_name(r2) matches Some((_, r3))
            && r3.len() >= 10
            && read16(r3.skip(8)) > r3.len() - 10,
    ensures
        parse_packet(s) is None,
{
    let (qs, r) = parse_many(s.skip(12), read16(s.skip(4)) as nat, question_parser()).unwrap();
    let (rs, r2) = parse_many(r, k, record_parser()).unwrap();
    lemma_overlong_rdata_fails(r2);
    lemma_many_stops(r, k, read16(s.skip(6)) as nat, record_parser());
}

/// A record whose declared data length runs past the end of the buffer fails to decode.
pub proof fn lemma_overlong_rdata_fails(s: Seq<u8>)
    requires
        parse_name(s) matches Some((n, r)) && r.len() >= 10 && read16(r.skip(8)) > r.len() - 10,
    ensures
        parse_record(s) is None,
{
}

// ---------------------------------------------------------------------------
// Messages: executable types
// ---------------------------------------------------------------------------

/// A question: a name, a record type and a class.
#[derive(Debug, Clone, PartialEq, Eq)]
pub struct DnsQuestion {
    pub qname: DnsName,
    pub qtype: u16,
    pub qclass: u16,
}

impl View for DnsQuestion {
    type V = QuestionView;

    open spec fn view(&self) -> QuestionView {
        QuestionView { name: self.qname@, qtype: self.qtype, qclass: self.qclass }
    }
}

/// An answer record of one of the three types the engine uses.
#[derive(Debug, Clone, PartialEq, Eq)]
pub enum DnsRecord {
    A { name: DnsName, ttl: u32, ip: [u8; 4] },
    PTR { name: DnsName, ttl: u32, ptr_name: DnsName },
    SRV { name: DnsName, ttl: u32, priority: u16, weight: u16, port: u16, target: DnsName },
}

impl View for DnsRecord {
    type V = RecordView;

    open spec fn view(&self) -> RecordView {
        match self {
            DnsRecord::A { name, ttl, ip } => RecordView::A { name: name@, ttl: *ttl, ip: ip@ },
            DnsRecord::PTR { name, ttl, ptr_name } => RecordView::PTR {
                name: name@,
                ttl: *ttl,
                ptr_name: ptr_name@,
            },
            DnsRecord::SRV { name, ttl, priority, weight, port, target } => RecordView::SRV {
                name: name@,
                ttl: *ttl,
                priority: *priority,
                weight: *weight,
                port: *port,
                target: target@,
            },
        }
    }
}

/// A message: header flags, questions and answers, in order.
#[derive(Debug, Clone, PartialEq, Eq)]
pub struct DnsPacket {
    pub flags: u16,
    pub questions: Vec<DnsQuestion>,
    pub answers: Vec<DnsRecord>,
}

pub open spec fn questions_view(v: Seq<DnsQuestion>) -> Seq<QuestionView> {
    v.map_values(|q: DnsQuestion| q@)
}

pub open spec fn answers_view(v: Seq<DnsRecord>) -> Seq<RecordView> {
    v.map_values(|r: DnsRecord| r@)
}

impl View for DnsPacket {
    type V = PacketView;

    open spec fn view(&self) -> PacketView {
        PacketView {
            flags: self.flags,
            questions: questions_view(self.questions@),
            answers: answers_view(self.answers@),
        }
    }
}

proof fn lemma_enc_all_push<T>(vs: Seq<T>, v: T, enc: spec_fn(T) -> Seq<u8>)
    ensures
        enc_all(vs.push(v), enc) == enc_all(vs, enc) + enc(v),
{
    assert(vs.push(v).map_values(enc) =~= vs.map_values(enc).push(enc(v)));
    vs.map_values(enc).lemma_flatten_push(enc(v));
}

impl DnsQuestion {
    /// Appends the wire form of this question.
    pub fn encode_into(&self, out: &mut Vec<u8>)
        requires
            question_ok(self@),
        ensures
            final(out)@ == old(out)@ + enc_question(self@),
    {
        self.qname.encode_into(out);
        push16(out, self.qtype);
        push16(out, self.qclass);
        assert(final(out)@ =~= old(out)@ + enc_question(self@));
    }

    /// Reads a question at `pos`; returns it and the position after it.
    pub fn read(buf: &[u8], pos: usize) -> (r: Option<(DnsQuestion, usize)>)
        requires
            pos <= buf@.len(),
        ensures
            match r {
                Some((q, p)) => pos <= p <= buf@.len() && parse_question(buf@.skip(pos as int)) == Some((q@, buf@.skip(p as int))),
                None => parse_question(buf@.skip(pos as int)) is None,
            },
    {
        match DnsName::read(buf, pos) {
            None => None,
            Some((qname, p)) => {
                if buf.len() - p < 4 {
                    return None;
                }
                let qtype = get16(buf, p);
                let qclass = get16(buf, p + 2);
                proof {
                    assert(buf@.skip(p as int).skip(2) =~= buf@.skip(p + 2));
                    assert(buf@.skip(p as int).skip(4) =~= buf@.skip(p + 4));
                }
                Some((DnsQuestion { qname, qtype, qclass }, p + 4))
            },
        }
    }
}

impl DnsRecord {
    /// Appends the wire form of this record.
    pub fn encode_into(&self, out: &mut Vec<u8>)
        requires
            record_ok(self@),
        ensures
            final(out)@ == old(out)@ + enc_record(self@),
    {
        let mut rd: Vec<u8> = Vec::new();
        let (name, rtype, ttl) = match self {
            DnsRecord::A { name, ttl, ip } => {
                rd.push(ip[0]);
                rd.push(ip[1]);
                rd.push(ip[2]);
                rd.push(ip[3]);
                assert(rd@ =~= ip@);
                (name, TYPE_A, *ttl)
            },
            DnsRecord::PTR { name, ttl, ptr_name } => {
                ptr_name.encode_into(&mut rd);
                assert(rd@ =~= enc_name(ptr_name@));
                (name, TYPE_PTR, *ttl)
            },
            DnsRecord::SRV { name, ttl, priority, weight, port, target } => {
                push16(&mut rd, *priority);
                push16(&mut rd, *weight);
                push16(&mut rd, *port);
                target.encode_into(&mut rd);
                assert(rd@ =~= enc_rdata(self@));
                (name, TYPE_SRV, *ttl)
            },
        };
        assert(rd@ == enc_rdata(self@));
        assert(rd@.len() <= 6 + 255);
        name.encode_into(out);
        push16(out, rtype);
        push16(out, CLASS_IN);
        push32(out, ttl);
        push16(out, rd.len() as u16);
        let ghost o0 = out@;
        let mut j: usize = 0;
        while j < rd.len()
            invariant
                j <= rd@.len(),
                out@ == o0 + rd@.take(j as int),
            decreases rd@.len() - j,
        {
            out.push(rd[j]);
            j = j + 1;
            assert(out@ =~= o0 + rd@.take(j as int));
        }
        assert(rd@.take(j as int) =~= rd@);
        assert(final(out)@ =~= old(out)@ + enc_record(self@));
    }

    /// Reads a record at `pos`; returns it and the position after it.
    pub fn read(buf: &[u8], pos: usize) -> (r: Option<(DnsRecord, usize)>)
        requires
            pos <= buf@.len(),
        ensures
            match r {
                Some((rec, p)) => pos <= p <= buf@.len() && parse_record(buf@.skip(pos as int)) == Some((rec@, buf@.skip(p as int))),
                None => parse_record(buf@.skip(pos as int)) is None,
            },
    {
        let (name, p) = match DnsName::read(buf, pos) {
            None => return None,
            Some(x) => x,
        };
        if buf.len() - p < 10 {
            return None;
        }
        let ghost r = buf@.skip(p as int);
        let rtype = get16(buf, p);
        let ttl = get32(buf, p + 4);
        let len = get16(buf, p + 8) as usize;
        proof {
            assert(r.skip(4) =~= buf@.skip(p + 4));
            assert(r.skip(8) =~= buf@.skip(p + 8));
            assert(r.skip(10) =~= buf@.skip(p + 10));
        }
        let start = p + 10;
        if len > buf.len() - start {
            return None;
        }
        let end = start + len;
        let rd = copy_range(buf, start, end);
        proof {
            assert(r.skip(10).take(len as int) =~= rd@);
            assert(r.skip(10).skip(len as int) =~= buf@.skip(end as int));
        }
        if rtype == TYPE_A {
            if len != 4 {
                return None;
            }
            let ip: [u8; 4] = [rd[0], rd[1], rd[2], rd[3]];
            assert(ip@ =~= rd@);
            Some((DnsRecord::A { name, ttl, ip }, end))
        } else if rtype == TYPE_PTR {
            match DnsName::read(rd.as_slice(), 0) {
                Some((ptr_name, q)) => {
                    assert(rd@.skip(0) =~= rd@);
                    if q != len {
                        return None;
                    }
                    Some((DnsRecord::PTR { name, ttl, ptr_name }, end))
                },
                None => {
                    assert(rd@.skip(0) =~= rd@);
                    None
                },
            }
        } else if rtype == TYPE_SRV {
            if len < 6 {
                return None;
            }
            let priority = get16(rd.as_slice(), 0);
            let weight = get16(rd.as_slice(), 2);
            let port = get16(rd.as_slice(), 4);
            assert(rd@.skip(0) =~= rd@);
            match DnsName::read(rd.as_slice(), 6) {
                Some((target, q)) => {
                    if q != len {
                        return None;
                    }
                    Some((DnsRecord::SRV { name, ttl, priority, weight, port, target }, end))
                },
                None => None,
            }
        } else {
            None
        }
    }
}

impl DnsPacket {
    /// An empty message with all flags clear.
    pub fn new() -> (r: DnsPacket)
        ensures
            r@ == (PacketView { flags: 0, questions: Seq::empty(), answers: Seq::empty() }),
    {
        let r = DnsPacket { flags: 0, questions: Vec::new(), answers: Vec::new() };
        assert(r@.questions =~= Seq::<QuestionView>::empty());
        assert(r@.answers =~= Seq::<RecordView>::empty());
        r
    }

    /// Whether the QR bit (bit 15) is set: the message is a response.
    pub fn is_response(&self) -> (r: bool)
        ensures
            r == (self.flags & 0x8000 != 0),
    {
        self.flags & 0x8000 != 0
    }

    /// Whether this message can be encoded: valid names, A addresses of four bytes, and
    /// counts that fit in 16 bits.
    pub fn is_well_formed(&self) -> (r: bool)
        ensures
            r == packet_ok(self@),
    {
        if self.questions.len() > 0xffff || self.answers.len() > 0xffff {
            return false;
        }
        let ghost m = self@;
        let mut i: usize = 0;
        while i < self.questions.len()
            invariant
                i <= m.questions.len(),
                m == self@,
                forall|k: int| 0 <= k < i ==> question_ok(#[trigger] m.questions[k]),
            decreases m.questions.len() - i,
        {
            assert(m.questions[i as int] == self.questions@[i as int]@);
            if !check_labels(&self.questions[i].qname.labels) {
                assert(!question_ok(m.questions[i as int]));
                return false;
            }
            i = i + 1;
        }
        let mut j: usize = 0;
        while j < self.answers.len()
            invariant
                j <= m.answers.len(),
                m == self@,
                forall|k: int| 0 <= k < j ==> record_ok(#[trigger] m.answers[k]),
            decreases m.answers.len() - j,
        {
            assert(m.answers[j as int] == self.answers@[j as int]@);
            let ok = match &self.answers[j] {
                DnsRecord::A { name, .. } => check_labels(&name.labels),
                DnsRecord::PTR { name, ptr_name, .. } => check_labels(&name.labels) && check_labels(&ptr_name.labels),
                DnsRecord::SRV { name, target, .. } => check_labels(&name.labels) && check_labels(&target.labels),
            };
            assert(ok == record_ok(m.answers[j as int]));
            if !ok {
                return false;
            }
            j = j + 1;
        }
        true
    }

    /// The wire form of this message.
    pub fn serialize(&self) -> (r: Vec<u8>)
        requires
            packet_ok(self@),
        ensures
            r@ == enc_packet(self@),
    {
        let ghost m = self@;
        let mut out: Vec<u8> = Vec::new();
        push16(&mut out, 0);
        push16(&mut out, self.flags);
        push16(&mut out, self.questions.len() as u16);
        push16(&mut out, self.answers.len() as u16);
        push16(&mut out, 0);
        push16(&mut out, 0);
        proof {
            assert(be16(0) =~= seq![0u8, 0u8]);
            assert(out@ =~= seq![0u8, 0u8] + be16(m.flags) + be16(m.questions.len() as u16) + be16(m.answers.len() as u16) + seq![0u8, 0u8, 0u8, 0u8]);
        }
        let ghost head = out@;
        let ghost eq = question_encoder();
        let ghost er = record_encoder();
        let mut i: usize = 0;
        while i < self.questions.len()
            invariant
                i <= m.questions.len(),
                m == self@,
                eq == question_encoder(),
                packet_ok(m),
                out@ == head + enc_all(m.questions.take(i as int), eq),
            decreases m.questions.len() - i,
        {
            assert(question_ok(m.questions[i as int]));
            self.questions[i].encode_into(&mut out);
            proof {
                assert(m.questions.take(i + 1) =~= m.questions.take(i as int).push(m.questions[i as int]));
                lemma_enc_all_push(m.questions.take(i as int), m.questions[i as int], eq);
                assert(out@ =~= head + enc_all(m.questions.take(i + 1), eq));
            }
            i = i + 1;
        }
        assert(m.questions.take(i as int) =~= m.questions);
        let ghost mid = out@;
        let mut k: usize = 0;
        while k < self.answers.len()
            invariant
                k <= m.answers.len(),
                m == self@,
                er == record_encoder(),
                packet_ok(m),
                out@ == mid + enc_all(m.answers.take(k as int), er),
            decreases m.answers.len() - k,
        {
            assert(record_ok(m.answers[k as int]));
            self.answers[k].encode_into(&mut out);
            proof {
                assert(m.answers.take(k + 1) =~= m.answers.take(k as int).push(m.answers[k as int]));
                lemma_enc_all_push(m.answers.take(k as int), m.answers[k as int], er);
                assert(out@ =~= mid + enc_all(m.answers.take(k + 1), er));
            }
            k = k + 1;
        }
        assert(m.answers.take(k as int) =~= m.answers);
        assert(out@ =~= enc_packet(m));
        out
    }

    /// Decodes a message. Fails, without reading out of bounds, when the buffer is shorter
    /// than the header, a name or record runs past the end, a label is over 63 bytes,
    /// a record's data length is inconsistent, or a record is not of type A, PTR or SRV.
    pub fn parse(buf: &[u8]) -> (r: Result<DnsPacket, MdnsError>)
        ensures
            match r {
                Ok(p) => parse_packet(buf@) == Some(p@) && packet_ok(p@),
                Err(e) => parse_packet(buf@) is None && e == MdnsError::DecodeError,
            },
    {
        if buf.len() < 12 {
            return Err(MdnsError::DecodeError);
        }
        let flags = get16(buf, 2);
        let qd = get16(buf, 4);
        let an = get16(buf, 6);
        let ghost pq = question_parser();
        let ghost pr = record_parser();
        let mut questions: Vec<DnsQuestion> = Vec::new();
        let mut p: usize = 12;
        let mut i: u16 = 0;
        while i < qd
            invariant
                12 <= p <= buf@.len(),
                i <= qd,
                pq == question_parser(),
                qd == read16(buf@.skip(4)),
                parse_many(buf@.skip(12), qd as nat, pq) == (match parse_many(buf@.skip(p as int), (qd - i) as nat, pq) {
                    Some((vs, r)) => Some((questions_view(questions@) + vs, r)),
                    None => None,
                }),
            decreases qd - i,
        {
            let ghost s0 = buf@.skip(p as int);
            let ghost n0 = (qd - i) as nat;
            assert(parse_many(s0, n0, pq) == (match pq(s0) {
                Some((v, r)) => match parse_many(r, (n0 - 1) as nat, pq) {
                    Some((vs, r2)) => Some((seq![v] + vs, r2)),
                    None => None,
                },
                None => None,
            }));
            match DnsQuestion::read(buf, p) {
                None => {
                    assert(pq(s0) is None);
                    return Err(MdnsError::DecodeError);
                },
                Some((q, np)) => {
                    assert(pq(s0) == Some((q@, buf@.skip(np as int))));
                    assert((n0 - 1) as nat == (qd - (i + 1)) as nat);
                    let ghost old_q = questions_view(questions@);
                    questions.push(q);
                    proof {
                        assert(questions_view(questions@) =~= old_q.push(q@));
                        match parse_many(buf@.skip(np as int), (qd - i - 1) as nat, pq) {
                            Some((vs, r)) => {
                                assert(old_q + (seq![q@] + vs) =~= questions_view(questions@) + vs);
                            },
                            None => {},
                        }
                    }
                    p = np;
                    i = i + 1;
                },
            }
        }
        let ghost qend = p;
        assert(parse_many(buf@.skip(12), qd as nat, pq) == Some((questions_view(questions@), buf@.skip(p as int)))) by {
            assert(questions_view(questions@) + Seq::<QuestionView>::empty() =~= questions_view(questions@));
        }
        let mut answers: Vec<DnsRecord> = Vec::new();
        let mut j: u16 = 0;
        while j < an
            invariant
                qend <= p <= buf@.len(),
                j <= an,
                pr == record_parser(),
                flags == read16(buf@.skip(2)),
                qd == read16(buf@.skip(4)),
                an == read16(buf@.skip(6)),
                buf@.len() >= 12,
                parse_many(buf@.skip(12), qd as nat, question_parser()) == Some((questions_view(questions@), buf@.skip(qend as int))),
                parse_many(buf@.skip(qend as int), an as nat, pr) == (match parse_many(buf@.skip(p as int), (an - j) as nat, pr) {
                    Some((vs, r)) => Some((answers_view(answers@) + vs, r)),
                    None => None,
                }),
            decreases an - j,
        {
            let ghost s0 = buf@.skip(p as int);
            let ghost n0 = (an - j) as nat;
            assert(parse_many(s0, n0, pr) == (match pr(s0) {
                Some((v, r)) => match parse_many(r, (n0 - 1) as nat, pr) {
                    Some((vs, r2)) => Some((seq![v] + vs, r2)),
                    None => None,
                },
                None => None,
            }));
            match DnsRecord::read(buf, p) {
                None => {
                    assert(pr(s0) is None);
                    return Err(MdnsError::DecodeError);
                },
                Some((rec, np)) => {
                    assert(pr(s0) == Some((rec@, buf@.skip(np as int))));
                    assert((n0 - 1) as nat == (an - (j + 1)) as nat);
                    let ghost old_a = answers_view(answers@);
                    answers.push(rec);
                    proof {
                        assert(answers_view(answers@) =~= old_a.push(rec@));
                        match parse_many(buf@.skip(np as int), (an - j - 1) as nat, pr) {
                            Some((vs, r)) => {
                                assert(old_a + (seq![rec@] + vs) =~= answers_view(answers@) + vs);
                            },
                            None => {},
                        }
                    }
                    p = np;
                    j = j + 1;
                },
            }
        }
        assert(answers_view(answers@) + Seq::<RecordView>::empty() =~= answers_view(answers@));
        proof {
            lemma_parsed_packet_ok(buf@);
        }
        Ok(DnsPacket { flags, questions, answers })
    }
}

} // verus!
