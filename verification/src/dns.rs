//! DNS message codec: encodes a query (header, question, EDNS0 OPT record)
//! around a tunnel qname, decodes a received query back into its payload
//! while tolerating case-mangled names, and encodes/decodes responses whose
//! answer records (TXT or A) carry a payload.

use vstd::prelude::*;

verus! {

/// Protocol ceiling on the textual length of a DNS name.
pub const MAX_DNS_NAME_LEN: usize = 255;

/// The Internet class.
pub const CLASS_IN: u16 = 1;

/// Record type: IPv4 address.
pub const RR_A: u16 = 1;

/// Record type: free-form text.
pub const RR_TXT: u16 = 16;

/// Pseudo record type: EDNS0 OPT.
pub const RR_OPT: u16 = 41;

/// UDP payload size advertised in the OPT record of every query.
pub const EDNS_UDP_PAYLOAD: u16 = 4096;

/// Failures of qname construction, capacity planning and message encoding.
#[derive(Debug, Clone, Copy, PartialEq, Eq, Structural)]
pub enum DnsError {
    /// The domain reduces to nothing once trailing dots are trimmed.
    EmptyDomain,
    /// The domain or the composed name exceeds the 255-character budget.
    DomainTooLong,
    /// The payload exceeds the computed capacity for the domain.
    PayloadTooLarge,
    /// The composed subdomain exceeds an explicitly supplied ceiling.
    SubdomainTooLong,
    /// A name is structurally unusable: an empty or over-long label, or a
    /// character outside ASCII.
    MalformedName,
    /// A packet is structurally invalid: truncated, or a label runs past
    /// the end of the buffer.
    MalformedPacket,
    /// A response answer uses a record type this codec does not reassemble.
    UnsupportedRecordType,
}

/// Failures of query decoding.
#[derive(Debug, Clone, Copy, PartialEq, Eq, Structural)]
pub enum DecodeQueryError {
    /// The packet is truncated or its question's name is malformed.
    MalformedPacket,
    /// The qname does not end with the expected domain suffix under the
    /// active case policy.
    DomainMismatch,
    /// The subdomain holds characters outside the base32 alphabet.
    Base32Invalid,
}

/// Inputs for query encoding.
pub struct QueryParams<'a> {
    pub id: u16,
    pub qname: &'a str,
    pub qtype: u16,
    pub qclass: u16,
    pub rd: bool,
    pub cd: bool,
    pub qdcount: u16,
    pub is_query: bool,
}

/// What query decoding recovers.
#[derive(Debug)]
pub struct DecodedQuery {
    /// The payload carried by the qname's subdomain.
    pub payload: Vec<u8>,
    /// The domain suffix as it appeared in the received qname.
    pub domain: String,
    pub qtype: u16,
    pub qclass: u16,
    pub id: u16,
    pub rd: bool,
    pub cd: bool,
}

/// A DNS response status code; values 6 to 15 pass through as `Reserved`.
#[derive(Debug, Clone, Copy, PartialEq, Eq, Structural)]
pub enum Rcode {
    NoError,
    FormatError,
    ServerFailure,
    NameError,
    NotImplemented,
    Refused,
    Reserved(u8),
}

/// The 4-bit wire value of a status code.
pub open spec fn rcode_val(r: Rcode) -> u8 {
    match r {
        Rcode::NoError => 0,
        Rcode::FormatError => 1,
        Rcode::ServerFailure => 2,
        Rcode::NameError => 3,
        Rcode::NotImplemented => 4,
        Rcode::Refused => 5,
        Rcode::Reserved(v) => v,
    }
}

/// The status code a 4-bit wire value denotes.
pub open spec fn rcode_of(v: u8) -> Rcode {
    if v == 0 {
        Rcode::NoError
    } else if v == 1 {
        Rcode::FormatError
    } else if v == 2 {
        Rcode::ServerFailure
    } else if v == 3 {
        Rcode::NameError
    } else if v == 4 {
        Rcode::NotImplemented
    } else if v == 5 {
        Rcode::Refused
    } else {
        Rcode::Reserved(v)
    }
}

impl Rcode {
    /// The code's wire value.
    pub fn to_u8(&self) -> (v: u8)
        ensures
            v == rcode_val(*self),
    {
        match *self {
            Rcode::NoError => 0,
            Rcode::FormatError => 1,
            Rcode::ServerFailure => 2,
            Rcode::NameError => 3,
            Rcode::NotImplemented => 4,
            Rcode::Refused => 5,
            Rcode::Reserved(v) => v,
        }
    }

    /// The code a wire value denotes.
    pub fn from_u8(v: u8) -> (r: Rcode)
        ensures
            r == rcode_of(v),
    {
        if v == 0 {
            Rcode::NoError
        } else if v == 1 {
            Rcode::FormatError
        } else if v == 2 {
            Rcode::ServerFailure
        } else if v == 3 {
            Rcode::NameError
        } else if v == 4 {
            Rcode::NotImplemented
        } else if v == 5 {
            Rcode::Refused
        } else {
            Rcode::Reserved(v)
        }
    }
}

/// A question as it is echoed into a response.
pub struct Question<'a> {
    pub qname: &'a str,
    pub qtype: u16,
    pub qclass: u16,
}

/// Inputs for response encoding.
pub struct ResponseParams<'a> {
    pub id: u16,
    pub question: Question<'a>,
    pub rcode: Rcode,
    pub payload: &'a [u8],
    pub ra: bool,
    pub ad: bool,
    pub cd: bool,
}

// --- names as label sequences ---

/// The pieces of `s` between dots; always at least one piece.
pub open spec fn split_dots(s: Seq<char>) -> Seq<Seq<char>>
    decreases s.len(),
{
    if s.len() == 0 {
        seq![Seq::<char>::empty()]
    } else if s[0] == '.' {
        seq![Seq::<char>::empty()] + split_dots(s.drop_first())
    } else {
        let r = split_dots(s.drop_first());
        seq![seq![s[0]] + r[0]] + r.drop_first()
    }
}

/// `s` without a single trailing dot, if it has one.
pub open spec fn strip_dot(s: Seq<char>) -> Seq<char> {
    if s.len() > 0 && s.last() == '.' {
        s.drop_last()
    } else {
        s
    }
}

/// A usable DNS label: 1 to 63 characters, all ASCII, no dot.
pub open spec fn label_ok(l: Seq<char>) -> bool {
    &&& 1 <= l.len() <= 63
    &&& forall|i: int| 0 <= i < l.len() ==> (#[trigger] l[i] as u32) < 128 && l[i] != '.'
}

/// All labels of a name usable.
pub open spec fn labels_ok(ls: Seq<Seq<char>>) -> bool {
    forall|i: int| 0 <= i < ls.len() ==> label_ok(#[trigger] ls[i])
}

/// A qname the encoder accepts: at most 255 characters once the trailing
/// dot is stripped, and every label usable.
pub open spec fn name_ok(s: Seq<char>) -> bool {
    &&& strip_dot(s).len() <= 255
    &&& labels_ok(split_dots(strip_dot(s)))
}

/// A label's characters as bytes.
pub open spec fn label_bytes(l: Seq<char>) -> Seq<u8> {
    l.map_values(|c: char| c as u8)
}

/// Length-prefixed labels followed by the zero terminator.
pub open spec fn labels_wire(ls: Seq<Seq<char>>) -> Seq<u8>
    decreases ls.len(),
{
    if ls.len() == 0 {
        seq![0u8]
    } else {
        seq![ls[0].len() as u8] + label_bytes(ls[0]) + labels_wire(ls.drop_first())
    }
}

/// The wire form of a qname string.
pub open spec fn name_wire(s: Seq<char>) -> Seq<u8> {
    labels_wire(split_dots(strip_dot(s)))
}

/// A 16-bit value in network byte order.
pub open spec fn u16_bytes(v: u16) -> Seq<u8> {
    seq![(v >> 8) as u8, (v & 0xff) as u8]
}

/// The EDNS0 OPT pseudo-record every query advertises: root name, type
/// OPT, the UDP payload size as its class, zero TTL and no RDATA.
pub open spec fn opt_record_wire() -> Seq<u8> {
    seq![0u8] + u16_bytes(RR_OPT) + u16_bytes(EDNS_UDP_PAYLOAD) + seq![0u8, 0u8, 0u8, 0u8]
        + u16_bytes(0)
}

/// The whole query packet: header, one question, the OPT record.
pub open spec fn spec_encode_query(
    id: u16,
    qname: Seq<char>,
    qtype: u16,
    qclass: u16,
    rd: bool,
    cd: bool,
    qdcount: u16,
    is_query: bool,
) -> Seq<u8> {
    u16_bytes(id) + seq![
        (if is_query { 0u8 } else { 0x80u8 }) | (if rd { 1u8 } else { 0u8 }),
        (if cd { 0x10u8 } else { 0u8 }),
    ] + u16_bytes(qdcount) + u16_bytes(0) + u16_bytes(0) + u16_bytes(1) + name_wire(qname)
        + u16_bytes(qtype) + u16_bytes(qclass) + opt_record_wire()
}

// --- parsing ---

/// Parses length-prefixed labels at `pos` up to the zero terminator,
/// rejecting compression pointers (length over 63) and labels running past
/// the buffer; returns the labels' bytes and the position after the
/// terminator.
pub open spec fn parse_labels(b: Seq<u8>, pos: int) -> Option<(Seq<Seq<u8>>, int)>
    decreases b.len() - pos,
{
    if pos < 0 || pos >= b.len() {
        None
    } else if b[pos] == 0 {
        Some((Seq::<Seq<u8>>::empty(), pos + 1))
    } else if b[pos] > 63 {
        None
    } else if pos + 1 + b[pos] > b.len() {
        None
    } else {
        match parse_labels(b, pos + 1 + b[pos]) {
            None => None,
            Some((ls, end)) => Some(
                (seq![b.subrange(pos + 1, pos + 1 + b[pos])] + ls, end),
            ),
        }
    }
}

/// The textual name of parsed labels: each label's bytes as characters,
/// each label followed by a dot.
pub open spec fn labels_chars(ls: Seq<Seq<u8>>) -> Seq<char>
    decreases ls.len(),
{
    if ls.len() == 0 {
        Seq::<char>::empty()
    } else {
        ls[0].map_values(|x: u8| x as char) + seq!['.'] + labels_chars(ls.drop_first())
    }
}

/// The 16-bit value at byte offset `i`.
pub open spec fn u16_at(b: Seq<u8>, i: int) -> u16 {
    ((b[i] as u16) * 256 + (b[i + 1] as u16)) as u16
}

/// Whether `name` ends with `suffix`, exactly or up to ASCII letter case.
pub open spec fn suffix_matches(name: Seq<char>, suffix: Seq<char>, normalize: bool) -> bool {
    &&& name.len() >= suffix.len()
    &&& if normalize {
        crate::text::case_variant(name.skip(name.len() - suffix.len()), suffix)
    } else {
        name.skip(name.len() - suffix.len()) == suffix
    }
}

/// What query decoding returns: payload bytes, the received domain suffix,
/// qtype, qclass, transaction id, and the RD and CD flags, or the first
/// error the decoder meets.
pub open spec fn spec_decode_query(b: Seq<u8>, domain: Seq<char>, normalize: bool) -> Result<
    (Seq<u8>, Seq<char>, u16, u16, u16, bool, bool),
    DecodeQueryError,
> {
    if b.len() < 12 {
        Err(DecodeQueryError::MalformedPacket)
    } else {
        match parse_labels(b, 12) {
            None => Err(DecodeQueryError::MalformedPacket),
            Some((ls, end)) => if end + 4 > b.len() {
                Err(DecodeQueryError::MalformedPacket)
            } else {
                let name = labels_chars(ls);
                let t = crate::spec_trim_dots(domain);
                let suffix = seq!['.'] + t + seq!['.'];
                if !suffix_matches(name, suffix, normalize) {
                    Err(DecodeQueryError::DomainMismatch)
                } else {
                    let sub = name.take(name.len() - suffix.len());
                    let undotted = crate::dots::spec_undotify(sub);
                    if !crate::base32::spec_valid(undotted) {
                        Err(DecodeQueryError::Base32Invalid)
                    } else {
                        Ok(
                            (
                                crate::base32::spec_decode(undotted),
                                name.subrange(
                                    name.len() - suffix.len() + 1,
                                    name.len() - 1,
                                ),
                                u16_at(b, end),
                                u16_at(b, end + 2),
                                u16_at(b, 0),
                                (b[2] & 1) == 1,
                                (b[3] & 0x10) == 0x10,
                            ),
                        )
                    }
                }
            },
        }
    }
}

// --- executable encoding ---

/// Appends a 16-bit value in network byte order.
fn push_u16(out: &mut Vec<u8>, v: u16)
    ensures
        final(out)@ == old(out)@ + u16_bytes(v),
{
    out.push((v >> 8) as u8);
    out.push((v & 0xff) as u8);
    proof {
        assert(out@ =~= old(out)@ + u16_bytes(v));
    }
}

/// Writes the stripped name's labels, length-prefixed and terminated;
/// reports whether every label was usable.
fn append_name(t: &Vec<char>, out: &mut Vec<u8>) -> (ok: bool)
    ensures
        ok == labels_ok(split_dots(t@)),
        ok ==> final(out)@ == old(out)@ + labels_wire(split_dots(t@)),
{
    let n = t.len();
    let mut pos: usize = 0;
    let ghost mut written: Seq<u8> = Seq::empty();
    proof {
        assert(t@.skip(0) =~= t@);
        assert(written + labels_wire(split_dots(t@)) =~= labels_wire(split_dots(t@)));
    }
    loop
        invariant
            n == t@.len(),
            pos <= n,
            out@ == old(out)@ + written,
            labels_ok(split_dots(t@)) ==> labels_ok(split_dots(t@.skip(pos as int))),
            labels_ok(split_dots(t@.skip(pos as int))) ==> labels_ok(split_dots(t@)),
            labels_ok(split_dots(t@)) ==> labels_wire(split_dots(t@)) == written + labels_wire(
                split_dots(t@.skip(pos as int)),
            ),
        decreases n - pos,
    {
        let ghost tail = t@.skip(pos as int);
        let mut j: usize = pos;
        while j < n && t[j] != '.' && (t[j] as u32) < 128
            invariant
                n == t@.len(),
                pos <= j <= n,
                forall|i: int| pos <= i < j ==> t@[i] != '.' && (#[trigger] t@[i] as u32) < 128,
            decreases n - j,
        {
            j = j + 1;
        }
        if j < n && (t[j] as u32) >= 128 {
            // a non-ASCII character cannot go on the wire as one byte
            proof {
                lemma_split_leading_bad(t@, pos as int, j as int);
            }
            return false;
        }
        let label_len = j - pos;
        if label_len == 0 || label_len > 63 {
            proof {
                lemma_split_leading(t@, pos as int, j as int);
            }
            return false;
        }
        proof {
            lemma_split_leading(t@, pos as int, j as int);
        }
        out.push(label_len as u8);
        let mut k: usize = pos;
        while k < j
            invariant
                n == t@.len(),
                pos <= k <= j <= n,
                forall|i: int| pos <= i < j ==> t@[i] != '.' && (#[trigger] t@[i] as u32) < 128,
                out@ == old(out)@ + written + seq![(j - pos) as u8] + label_bytes(
                    t@.subrange(pos as int, k as int),
                ),
            decreases j - k,
        {
            out.push((t[k] as u32) as u8);
            k = k + 1;
            proof {
                let c = t@[k - 1];
                assert((c as u32) < 128);
                crate::text::lemma_ascii_byte(c);
                assert(t@.subrange(pos as int, k as int) =~= t@.subrange(
                    pos as int,
                    k - 1,
                ).push(c));
                assert(label_bytes(t@.subrange(pos as int, k as int)) =~= label_bytes(
                    t@.subrange(pos as int, k - 1),
                ).push(c as u8));
                assert(out@ =~= old(out)@ + written + seq![(j - pos) as u8] + label_bytes(
                    t@.subrange(pos as int, k as int),
                ));
            }
        }
        let ghost lbl = t@.subrange(pos as int, j as int);
        if j == n {
            out.push(0);
            proof {
                assert(lbl =~= tail);
                let ls = split_dots(tail);
                assert(ls == seq![tail]);
                assert(ls[0] == lbl);
                assert(ls.drop_first() =~= Seq::<Seq<char>>::empty());
                assert(labels_wire(ls.drop_first()) == seq![0u8]);
                assert(labels_wire(ls) == seq![lbl.len() as u8] + label_bytes(lbl) + seq![0u8]);
                assert(label_ok(lbl));
                assert(labels_ok(ls)) by {
                    assert forall|i: int| 0 <= i < ls.len() implies label_ok(
                        #[trigger] ls[i],
                    ) by {
                        assert(ls[i] == lbl);
                    }
                }
                written = written + seq![lbl.len() as u8] + label_bytes(lbl) + seq![0u8];
                assert(out@ =~= old(out)@ + written);
                assert(labels_wire(split_dots(t@)) =~= written);
            }
            return true;
        }
        proof {
            assert(t@[j as int] == '.');
            let rest = t@.skip(j + 1);
            assert(split_dots(tail) == seq![lbl] + split_dots(rest));
            assert(split_dots(tail)[0] == lbl);
            assert(split_dots(tail).drop_first() =~= split_dots(rest));
            assert(labels_wire(split_dots(tail)) == seq![lbl.len() as u8] + label_bytes(lbl)
                + labels_wire(split_dots(rest)));
            written = written + seq![lbl.len() as u8] + label_bytes(lbl);
            assert(out@ =~= old(out)@ + written);
            if labels_ok(split_dots(t@)) {
                assert(labels_wire(split_dots(t@)) =~= written + labels_wire(split_dots(rest)));
            }
            assert(labels_ok(split_dots(tail)) == (label_ok(lbl) && labels_ok(split_dots(rest))))
                by {
                if label_ok(lbl) && labels_ok(split_dots(rest)) {
                    assert forall|i: int| 0 <= i < split_dots(tail).len() implies label_ok(
                        #[trigger] split_dots(tail)[i],
                    ) by {
                        if i > 0 {
                            assert(split_dots(tail)[i] == split_dots(rest)[i - 1]);
                        }
                    }
                }
            }
        }
        pos = j + 1;
    }
}

/// The run of non-dot characters starting the tail of `s` at `k` is the
/// tail's first piece.
proof fn lemma_split_leading(s: Seq<char>, pos: int, k: int)
    requires
        0 <= pos <= k <= s.len(),
        forall|i: int| pos <= i < k ==> s[i] != '.',
        k == s.len() || s[k] == '.',
    ensures
        k == s.len() ==> split_dots(s.skip(pos)) == seq![s.skip(pos)],
        k < s.len() ==> split_dots(s.skip(pos)) == seq![s.subrange(pos, k)] + split_dots(
            s.skip(k + 1),
        ),
        split_dots(s.skip(pos))[0] == s.subrange(pos, k),
    decreases k - pos,
{
    let tail = s.skip(pos);
    if pos == k {
        if k == s.len() {
            assert(tail =~= Seq::<char>::empty());
            assert(split_dots(tail) == seq![Seq::<char>::empty()]);
            assert(s.skip(pos) =~= s.subrange(pos, k));
        } else {
            assert(tail[0] == s[k]);
            assert(tail.drop_first() =~= s.skip(k + 1));
            assert(s.subrange(pos, k) =~= Seq::<char>::empty());
        }
    } else {
        assert(tail[0] == s[pos]);
        assert(tail[0] != '.');
        assert(tail.drop_first() =~= s.skip(pos + 1));
        lemma_split_leading(s, pos + 1, k);
        let r = split_dots(s.skip(pos + 1));
        assert(seq![tail[0]] + r[0] =~= s.subrange(pos, k)) by {
            assert(r[0] == s.subrange(pos + 1, k));
        }
        if k == s.len() {
            assert(r =~= seq![s.skip(pos + 1)]);
            assert(split_dots(tail) =~= seq![s.subrange(pos, k)]);
            assert(s.subrange(pos, k) =~= s.skip(pos));
        } else {
            assert(r.drop_first() =~= split_dots(s.skip(k + 1)));
            assert(split_dots(tail) =~= seq![s.subrange(pos, k)] + split_dots(s.skip(k + 1)));
        }
    }
}

/// A tail whose first piece holds a non-ASCII character has no usable
/// label decomposition.
proof fn lemma_split_leading_bad(s: Seq<char>, pos: int, k: int)
    requires
        0 <= pos <= k < s.len(),
        forall|i: int| pos <= i < k ==> s[i] != '.',
        s[k] != '.',
        (s[k] as u32) >= 128,
    ensures
        !labels_ok(split_dots(s.skip(pos))),
    decreases k - pos,
{
    let tail = s.skip(pos);
    assert(tail[0] == s[pos]);
    assert(tail.drop_first() =~= s.skip(pos + 1));
    if pos == k {
        let r = split_dots(s.skip(pos + 1));
        let first = split_dots(tail)[0];
        assert(first == seq![tail[0]] + r[0]);
        assert(first[0] == s[k]);
        assert(!label_ok(first));
    } else {
        lemma_split_leading_bad(s, pos + 1, k);
        let r = split_dots(s.skip(pos + 1));
        let bad = choose|i: int| 0 <= i < r.len() && !label_ok(#[trigger] r[i]);
        if bad == 0 {
            let first = split_dots(tail)[0];
            assert(first == seq![tail[0]] + r[0]);
            assert(!label_ok(first)) by {
                if label_ok(first) {
                    assert forall|i: int| 0 <= i < r[0].len() implies (
                    #[trigger] r[0][i] as u32) < 128 && r[0][i] != '.' by {
                        assert(first[i + 1] == r[0][i]);
                    }
                    if r[0].len() == 0 {
                        assert(r[0] == s.subrange(pos + 1, k)) by {
                            lemma_split_leading(s, pos + 1, k);
                        }
                        assert(false);
                    }
                    assert(first.len() <= 63 ==> r[0].len() <= 63);
                    assert(label_ok(r[0]));
                }
            }
        } else {
            assert(split_dots(tail)[bad] == r[bad]);
        }
    }
}

/// Encodes a query packet: a 12-byte header carrying the transaction id,
/// flags and counts, the question (qname, qtype, qclass), and an EDNS0 OPT
/// record accounted for by ARCOUNT = 1.
pub fn encode_query(params: &QueryParams<'_>) -> (r: Result<Vec<u8>, DnsError>)
    ensures
        (r is Ok) == name_ok(params.qname@),
        (match r {
            Ok(w) => w@ == spec_encode_query(
                params.id,
                params.qname@,
                params.qtype,
                params.qclass,
                params.rd,
                params.cd,
                params.qdcount,
                params.is_query,
            ),
            Err(e) => e == (if strip_dot(params.qname@).len() > 255 {
                DnsError::DomainTooLong
            } else {
                DnsError::MalformedName
            }),
        }),
{
    let mut t = crate::text::str_to_chars(params.qname);
    if t.len() > 0 && t[t.len() - 1] == '.' {
        proof {
            assert(t@.drop_last() =~= t@.take(t@.len() - 1));
        }
        let _ = t.pop();
    }
    proof {
        assert(t@ == strip_dot(params.qname@));
    }
    if t.len() > MAX_DNS_NAME_LEN {
        return Err(DnsError::DomainTooLong);
    }
    let mut out: Vec<u8> = Vec::new();
    push_u16(&mut out, params.id);
    let f1: u8 = (if params.is_query {
        0
    } else {
        0x80
    }) | (if params.rd {
        1
    } else {
        0
    });
    let f2: u8 = if params.cd {
        0x10
    } else {
        0
    };
    out.push(f1);
    out.push(f2);
    push_u16(&mut out, params.qdcount);
    push_u16(&mut out, 0);
    push_u16(&mut out, 0);
    push_u16(&mut out, 1);
    if !append_name(&t, &mut out) {
        return Err(DnsError::MalformedName);
    }
    push_u16(&mut out, params.qtype);
    push_u16(&mut out, params.qclass);
    out.push(0);
    push_u16(&mut out, RR_OPT);
    push_u16(&mut out, EDNS_UDP_PAYLOAD);
    out.push(0);
    out.push(0);
    out.push(0);
    out.push(0);
    push_u16(&mut out, 0);
    proof {
        assert(out@ =~= spec_encode_query(
            params.id,
            params.qname@,
            params.qtype,
            params.qclass,
            params.rd,
            params.cd,
            params.qdcount,
            params.is_query,
        ));
    }
    Ok(out)
}

/// Parses the question's name at `pos`, appending its textual form (each
/// label followed by a dot) to `out`; returns the position after the
/// terminating zero octet.
fn parse_name_chars(b: &[u8], pos: usize, out: &mut Vec<char>) -> (r: Option<usize>)
    ensures
        (match (r, parse_labels(b@, pos as int)) {
            (Some(end), Some(p)) => end == p.1 && end <= b@.len() && final(out)@ == old(out)@
                + labels_chars(p.0),
            (None, None) => true,
            _ => false,
        }),
    decreases b@.len() - pos,
{
    if pos >= b.len() {
        return None;
    }
    let l = b[pos];
    if l == 0 {
        return Some(pos + 1);
    }
    if l > 63 {
        return None;
    }
    let ll = l as usize;
    if ll > b.len() - pos - 1 {
        return None;
    }
    let ghost pre = out@;
    let blen = b.len();
    let mut j: usize = 0;
    while j < ll
        invariant
            blen == b@.len(),
            pos + 1 + ll <= blen,
            j <= ll,
            out@ == pre + b@.subrange(pos + 1, pos + 1 + j as int).map_values(
                |x: u8| x as char,
            ),
        decreases ll - j,
    {
        proof {
            assert(pos + 1 + j < b@.len());
        }
        out.push(b[pos + 1 + j] as char);
        j = j + 1;
        proof {
            assert(b@.subrange(pos + 1, pos + 1 + j as int) =~= b@.subrange(
                pos + 1,
                pos + j as int,
            ).push(b@[pos + j]));
            assert(b@.subrange(pos + 1, pos + 1 + j as int).map_values(|x: u8| x as char)
                =~= b@.subrange(pos + 1, pos + j as int).map_values(|x: u8| x as char).push(
                b@[pos + j] as char,
            ));
            assert(out@ =~= pre + b@.subrange(pos + 1, pos + 1 + j as int).map_values(
                |x: u8| x as char,
            ));
        }
    }
    out.push('.');
    let r = parse_name_chars(b, pos + 1 + ll, out);
    match r {
        None => None,
        Some(end) => {
            proof {
                let p = parse_labels(b@, pos as int);
                let inner = parse_labels(b@, pos + 1 + ll);
                assert(inner is Some);
                let ls = inner.unwrap().0;
                assert(p is Some);
                assert(p.unwrap().0 == seq![b@.subrange(pos + 1, pos + 1 + ll)] + ls);
                let full = seq![b@.subrange(pos + 1, pos + 1 + ll)] + ls;
                assert(full[0] == b@.subrange(pos + 1, pos + 1 + ll));
                assert(full.drop_first() =~= ls);
                assert(out@ =~= old(out)@ + labels_chars(full));
            }
            Some(end)
        },
    }
}

/// Copies a range of a character vector.
fn sub_chars(v: &Vec<char>, a: usize, b: usize) -> (r: Vec<char>)
    requires
        a <= b <= v@.len(),
    ensures
        r@ == v@.subrange(a as int, b as int),
{
    let mut r: Vec<char> = Vec::new();
    let mut i: usize = a;
    while i < b
        invariant
            a <= i <= b <= v@.len(),
            r@ == v@.subrange(a as int, i as int),
        decreases b - i,
    {
        r.push(v[i]);
        i = i + 1;
        proof {
            assert(r@ =~= v@.subrange(a as int, i as int));
        }
    }
    r
}

/// Decodes a received query with the default, case-insensitive suffix
/// policy.
pub fn decode_query(packet: &[u8], expected_domain: &str) -> (r: Result<
    DecodedQuery,
    DecodeQueryError,
>)
    ensures
        (match (r, spec_decode_query(packet@, expected_domain@, true)) {
            (Ok(d), Ok(s)) => d.payload@ == s.0 && d.domain@ == s.1 && d.qtype == s.2 && d.qclass
                == s.3 && d.id == s.4 && d.rd == s.5 && d.cd == s.6,
            (Err(e1), Err(e2)) => e1 == e2,
            _ => false,
        }),
{
    decode_query_with_case_normalization(packet, expected_domain, true)
}

/// Decodes a received query: parses the header and question, matches the
/// qname's suffix against the expected domain (case-insensitively when
/// `normalize` is set, exactly otherwise), and recovers the payload from
/// the subdomain; base32 decoding tolerates either case regardless.
#[verifier::loop_isolation(false)]
pub fn decode_query_with_case_normalization(
    packet: &[u8],
    expected_domain: &str,
    normalize: bool,
) -> (r: Result<DecodedQuery, DecodeQueryError>)
    ensures
        (match (r, spec_decode_query(packet@, expected_domain@, normalize)) {
            (Ok(d), Ok(s)) => d.payload@ == s.0 && d.domain@ == s.1 && d.qtype == s.2 && d.qclass
                == s.3 && d.id == s.4 && d.rd == s.5 && d.cd == s.6,
            (Err(e1), Err(e2)) => e1 == e2,
            _ => false,
        }),
{
    if packet.len() < 12 {
        return Err(DecodeQueryError::MalformedPacket);
    }
    let mut name: Vec<char> = Vec::new();
    let end = match parse_name_chars(packet, 12, &mut name) {
        Some(e) => e,
        None => {
            return Err(DecodeQueryError::MalformedPacket);
        },
    };
    if packet.len() - end < 4 {
        return Err(DecodeQueryError::MalformedPacket);
    }
    let qtype = (packet[end] as u16) * 256 + (packet[end + 1] as u16);
    let qclass = (packet[end + 2] as u16) * 256 + (packet[end + 3] as u16);
    let id = (packet[0] as u16) * 256 + (packet[1] as u16);
    let rd = (packet[2] & 1) == 1;
    let cd = (packet[3] & 0x10) == 0x10;
    let t = crate::trim_domain(expected_domain);
    let ghost gname = name@;
    let ghost suffix = seq!['.'] + t@ + seq!['.'];
    if name.len() < 2 || t.len() > name.len() - 2 {
        proof {
            assert(!suffix_matches(gname, suffix, normalize));
        }
        return Err(DecodeQueryError::DomainMismatch);
    }
    let start = name.len() - (t.len() + 2);
    proof {
        assert(gname.skip(start as int).len() == suffix.len());
    }
    if name[start] != '.' || name[name.len() - 1] != '.' {
        proof {
            let tail = gname.skip(start as int);
            assert(tail[0] == gname[start as int]);
            assert(tail[suffix.len() - 1] == gname[gname.len() - 1]);
            assert(suffix[0] == '.' && suffix[suffix.len() - 1] == '.');
            assert(!suffix_matches(gname, suffix, normalize));
        }
        return Err(DecodeQueryError::DomainMismatch);
    }
    let nlen = name.len();
    let mut i: usize = 0;
    while i < t.len()
        invariant
            gname == name@,
            nlen == gname.len(),
            t@.len() + 2 <= gname.len(),
            start == gname.len() - t@.len() - 2,
            i <= t@.len(),
            suffix == seq!['.'] + t@ + seq!['.'],
            forall|k: int| 0 <= k < i ==> crate::text::fold_char(
                #[trigger] gname[start + 1 + k],
            ) == crate::text::fold_char(t@[k]),
            !normalize ==> forall|k: int| 0 <= k < i ==> #[trigger] gname[start + 1 + k]
                == t@[k],
        decreases t@.len() - i,
    {
        proof {
            assert(start + 1 + i < gname.len());
        }
        let a = name[start + 1 + i];
        let b = t[i];
        let same = if normalize {
            crate::text::to_lower_char(a) == crate::text::to_lower_char(b)
        } else {
            a == b
        };
        if !same {
            proof {
                let tail = gname.skip(start as int);
                assert(tail.len() == suffix.len());
                assert(tail[i + 1] == gname[start + 1 + i]);
                assert(suffix[i + 1] == t@[i as int]);
                if normalize {
                    assert(crate::text::fold_char(tail[i + 1]) != crate::text::fold_char(
                        suffix[i + 1],
                    ));
                    assert(!crate::text::case_variant(tail, suffix));
                } else {
                    assert(tail[i + 1] != suffix[i + 1]);
                    assert(tail != suffix);
                }
                assert(!suffix_matches(gname, suffix, normalize));
            }
            return Err(DecodeQueryError::DomainMismatch);
        }
        i = i + 1;
    }
    proof {
        let tail = gname.skip(start as int);
        assert(tail.len() == suffix.len());
        assert forall|k: int| 0 <= k < suffix.len() implies crate::text::fold_char(
            #[trigger] tail[k],
        ) == crate::text::fold_char(suffix[k]) by {
            assert(tail[k] == gname[start + k]);
            if k == 0 {
                assert(gname[start as int] == '.' && suffix[0] == '.');
            } else if k == suffix.len() - 1 {
                assert(gname[gname.len() - 1] == '.' && suffix[k] == '.');
            } else {
                assert(suffix[k] == t@[k - 1]);
                assert(crate::text::fold_char(gname[start + 1 + (k - 1)])
                    == crate::text::fold_char(t@[k - 1]));
                assert(gname[start + 1 + (k - 1)] == gname[start + k]);
            }
        }
        if !normalize {
            assert(tail =~= suffix) by {
                assert forall|k: int| 0 <= k < suffix.len() implies tail[k] == suffix[k] by {
                    assert(tail[k] == gname[start + k]);
                    if 0 < k < suffix.len() - 1 {
                        assert(suffix[k] == t@[k - 1]);
                        assert(gname[start + 1 + (k - 1)] == t@[k - 1]);
                        assert(gname[start + 1 + (k - 1)] == gname[start + k]);
                    }
                }
            }
        }
        assert(suffix_matches(gname, suffix, normalize));
    }
    let sub = sub_chars(&name, 0, start);
    proof {
        assert(sub@ =~= gname.take(gname.len() - suffix.len()));
    }
    let sub_str = crate::text::chars_to_string(&sub);
    let und = crate::dots::undotify(sub_str.as_str());
    let payload = match crate::base32::decode(und.as_str()) {
        Ok(v) => v,
        Err(_) => {
            return Err(DecodeQueryError::Base32Invalid);
        },
    };
    let dom = sub_chars(&name, start + 1, name.len() - 1);
    let dom_str = crate::text::chars_to_string(&dom);
    proof {
        assert(dom@ =~= gname.subrange(
            gname.len() - suffix.len() + 1,
            gname.len() - 1,
        ));
    }
    Ok(
        DecodedQuery {
            payload,
            domain: dom_str,
            qtype,
            qclass,
            id,
            rd,
            cd,
        },
    )
}

// --- responses ---

/// The payload split for TXT answers: character-strings of at most 255
/// bytes each.
pub open spec fn txt_chunks(p: Seq<u8>) -> Seq<Seq<u8>>
    decreases p.len(),
{
    if p.len() == 0 {
        Seq::empty()
    } else if p.len() <= 255 {
        seq![p]
    } else {
        seq![p.take(255)] + txt_chunks(p.skip(255))
    }
}

/// The payload split for A answers: 4-byte addresses, the last one padded
/// with zero bytes.
pub open spec fn a_chunks(p: Seq<u8>) -> Seq<Seq<u8>>
    decreases p.len(),
{
    if p.len() == 0 {
        Seq::empty()
    } else if p.len() <= 4 {
        seq![p + Seq::new((4 - p.len()) as nat, |i: int| 0u8)]
    } else {
        seq![p.take(4)] + a_chunks(p.skip(4))
    }
}

/// One answer record: name, type, class, zero TTL, and the chunk as RDATA
/// (length-prefixed as one character-string for TXT, the 4 address bytes
/// for A).
pub open spec fn record_wire(name: Seq<char>, qtype: u16, qclass: u16, chunk: Seq<u8>) -> Seq<
    u8,
> {
    if qtype == RR_TXT {
        name_wire(name) + u16_bytes(RR_TXT) + u16_bytes(qclass) + seq![0u8, 0u8, 0u8, 0u8]
            + u16_bytes((chunk.len() + 1) as u16) + seq![chunk.len() as u8] + chunk
    } else {
        name_wire(name) + u16_bytes(RR_A) + u16_bytes(qclass) + seq![0u8, 0u8, 0u8, 0u8]
            + u16_bytes(4) + chunk
    }
}

/// The answer section: one record per chunk, in payload order.
pub open spec fn records_wire(
    name: Seq<char>,
    qtype: u16,
    qclass: u16,
    chunks: Seq<Seq<u8>>,
) -> Seq<u8>
    decreases chunks.len(),
{
    if chunks.len() == 0 {
        Seq::empty()
    } else {
        record_wire(name, qtype, qclass, chunks[0]) + records_wire(
            name,
            qtype,
            qclass,
            chunks.drop_first(),
        )
    }
}

/// The chunks a response carries for its question's record type.
pub open spec fn payload_chunks(qtype: u16, p: Seq<u8>) -> Seq<Seq<u8>> {
    if qtype == RR_TXT {
        txt_chunks(p)
    } else {
        a_chunks(p)
    }
}

/// What response encoding returns: a header with QR set and the status
/// code, the echoed question, and the payload spread over TXT or A answer
/// records; or the error rejecting the inputs.
pub open spec fn spec_encode_response(
    id: u16,
    qname: Seq<char>,
    qtype: u16,
    qclass: u16,
    rcode: u8,
    ra: bool,
    ad: bool,
    cd: bool,
    payload: Seq<u8>,
) -> Result<Seq<u8>, DnsError> {
    if qtype != RR_TXT && qtype != RR_A {
        Err(DnsError::UnsupportedRecordType)
    } else if strip_dot(qname).len() > 255 {
        Err(DnsError::DomainTooLong)
    } else if !labels_ok(split_dots(strip_dot(qname))) {
        Err(DnsError::MalformedName)
    } else if payload_chunks(qtype, payload).len() > 0xffff {
        Err(DnsError::PayloadTooLarge)
    } else {
        let chunks = payload_chunks(qtype, payload);
        Ok(
            u16_bytes(id) + seq![
                0x80u8,
                ((if ra { 0x80u8 } else { 0u8 }) | (if ad { 0x20u8 } else { 0u8 }) | (if cd {
                    0x10u8
                } else {
                    0u8
                }) | (rcode & 15)),
            ] + u16_bytes(1) + u16_bytes(chunks.len() as u16) + u16_bytes(0) + u16_bytes(0)
                + name_wire(qname) + u16_bytes(qtype) + u16_bytes(qclass) + records_wire(
                qname,
                qtype,
                qclass,
                chunks,
            ),
        )
    }
}

/// Appends one answer record for `chunk`.
fn append_record(
    t: &Vec<char>,
    qtype: u16,
    qclass: u16,
    chunk: &Vec<u8>,
    out: &mut Vec<u8>,
    Ghost(qname): Ghost<Seq<char>>,
) -> (ok: bool)
    requires
        t@ == strip_dot(qname),
        labels_ok(split_dots(t@)),
        qtype == RR_TXT || qtype == RR_A,
        qtype == RR_TXT ==> 1 <= chunk@.len() <= 255,
        qtype == RR_A ==> chunk@.len() == 4,
    ensures
        ok,
        final(out)@ == old(out)@ + record_wire(qname, qtype, qclass, chunk@),
{
    let ghost pre = out@;
    let ok = append_name(t, out);
    push_u16(out, qtype);
    push_u16(out, qclass);
    out.push(0);
    out.push(0);
    out.push(0);
    out.push(0);
    if qtype == RR_TXT {
        push_u16(out, (chunk.len() + 1) as u16);
        out.push(chunk.len() as u8);
    } else {
        push_u16(out, 4);
    }
    let ghost mid = out@;
    let mut k: usize = 0;
    while k < chunk.len()
        invariant
            k <= chunk@.len(),
            out@ == mid + chunk@.take(k as int),
        decreases chunk@.len() - k,
    {
        out.push(chunk[k]);
        k = k + 1;
        proof {
            assert(out@ =~= mid + chunk@.take(k as int));
        }
    }
    proof {
        assert(chunk@.take(chunk@.len() as int) =~= chunk@);
        assert(out@ =~= pre + record_wire(qname, qtype, qclass, chunk@));
    }
    ok
}

/// Encodes a response packet: header with QR = 1 and the given status
/// code, the echoed question, and the payload carried by TXT
/// character-strings or 4-byte A-record chunks according to the question's
/// type.
pub fn encode_response(params: &ResponseParams<'_>) -> (r: Result<Vec<u8>, DnsError>)
    ensures
        (match (
            r,
            spec_encode_response(
                params.id,
                params.question.qname@,
                params.question.qtype,
                params.question.qclass,
                rcode_val(params.rcode),
                params.ra,
                params.ad,
                params.cd,
                params.payload@,
            ),
        ) {
            (Ok(w), Ok(s)) => w@ == s,
            (Err(e1), Err(e2)) => e1 == e2,
            _ => false,
        }),
{
    let qtype = params.question.qtype;
    if qtype != RR_TXT && qtype != RR_A {
        return Err(DnsError::UnsupportedRecordType);
    }
    let mut t = crate::text::str_to_chars(params.question.qname);
    if t.len() > 0 && t[t.len() - 1] == '.' {
        proof {
            assert(t@.drop_last() =~= t@.take(t@.len() - 1));
        }
        let _ = t.pop();
    }
    proof {
        assert(t@ == strip_dot(params.question.qname@));
    }
    if t.len() > MAX_DNS_NAME_LEN {
        return Err(DnsError::DomainTooLong);
    }
    let ghost qname = params.question.qname@;
    let payload = params.payload;
    let n = payload.len();
    // number of answer records the payload needs
    let count: usize = if qtype == RR_TXT {
        if n == 0 {
            0
        } else {
            (n - 1) / 255 + 1
        }
    } else {
        if n == 0 {
            0
        } else {
            (n - 1) / 4 + 1
        }
    };
    proof {
        lemma_chunk_count(qtype, payload@);
    }
    {
        // the name must be checked before the payload's size
        let mut probe: Vec<u8> = Vec::new();
        if !append_name(&t, &mut probe) {
            return Err(DnsError::MalformedName);
        }
    }
    if count > 0xffff {
        return Err(DnsError::PayloadTooLarge);
    }
    let out = build_response_packet(
        params.id,
        &t,
        qtype,
        params.question.qclass,
        params.rcode.to_u8(),
        params.ra,
        params.ad,
        params.cd,
        payload,
        count as u16,
        Ghost(qname),
    );
    Ok(out)
}

/// Assembles the response packet once every input has been checked.
#[verifier::rlimit(100)]
fn build_response_packet(
    id: u16,
    t: &Vec<char>,
    qtype: u16,
    qclass: u16,
    rcode: u8,
    ra: bool,
    ad: bool,
    cd: bool,
    payload: &[u8],
    count: u16,
    Ghost(qname): Ghost<Seq<char>>,
) -> (w: Vec<u8>)
    requires
        t@ == strip_dot(qname),
        labels_ok(split_dots(t@)),
        qtype == RR_TXT || qtype == RR_A,
        count as int == payload_chunks(qtype, payload@).len(),
    ensures
        w@ == u16_bytes(id) + seq![
            0x80u8,
            ((if ra { 0x80u8 } else { 0u8 }) | (if ad { 0x20u8 } else { 0u8 }) | (if cd {
                0x10u8
            } else {
                0u8
            }) | (rcode & 15)),
        ] + u16_bytes(1) + u16_bytes(payload_chunks(qtype, payload@).len() as u16) + u16_bytes(0)
            + u16_bytes(0) + name_wire(qname) + u16_bytes(qtype) + u16_bytes(qclass)
            + records_wire(qname, qtype, qclass, payload_chunks(qtype, payload@)),
{
    let mut out: Vec<u8> = Vec::new();
    push_u16(&mut out, id);
    out.push(0x80);
    let f2: u8 = (if ra {
        0x80
    } else {
        0
    }) | (if ad {
        0x20
    } else {
        0
    }) | (if cd {
        0x10
    } else {
        0
    }) | (rcode & 15);
    out.push(f2);
    push_u16(&mut out, 1);
    push_u16(&mut out, count);
    push_u16(&mut out, 0);
    push_u16(&mut out, 0);
    let _ = append_name(t, &mut out);
    push_u16(&mut out, qtype);
    push_u16(&mut out, qclass);
    append_records(t, qtype, qclass, payload, &mut out, Ghost(qname));
    proof {
        assert(out@ =~= u16_bytes(id) + seq![
            0x80u8,
            ((if ra { 0x80u8 } else { 0u8 }) | (if ad { 0x20u8 } else { 0u8 }) | (if cd {
                0x10u8
            } else {
                0u8
            }) | (rcode & 15)),
        ] + u16_bytes(1) + u16_bytes(count) + u16_bytes(0) + u16_bytes(0) + name_wire(qname)
            + u16_bytes(qtype) + u16_bytes(qclass) + records_wire(
            qname,
            qtype,
            qclass,
            payload_chunks(qtype, payload@),
        ));
    }
    out
}

/// Writes one answer record per payload chunk, in payload order.
#[verifier::loop_isolation(false)]
#[verifier::rlimit(100)]
fn append_records(
    t: &Vec<char>,
    qtype: u16,
    qclass: u16,
    payload: &[u8],
    out: &mut Vec<u8>,
    Ghost(qname): Ghost<Seq<char>>,
)
    requires
        t@ == strip_dot(qname),
        labels_ok(split_dots(t@)),
        qtype == RR_TXT || qtype == RR_A,
    ensures
        final(out)@ == old(out)@ + records_wire(
            qname,
            qtype,
            qclass,
            payload_chunks(qtype, payload@),
        ),
{
    let n = payload.len();
    let ghost before_records = out@;
    let ghost all_records = records_wire(qname, qtype, qclass, payload_chunks(qtype, payload@));
    let ghost mut written: Seq<u8> = Seq::empty();
    proof {
        assert(payload@.skip(0) =~= payload@);
        assert(written + all_records =~= all_records);
    }
    let step: usize = if qtype == RR_TXT {
        255
    } else {
        4
    };
    let mut pos: usize = 0;
    while pos < n
        invariant
            pos <= n,
            out@ == before_records + written,
            all_records == written + records_wire(
                qname,
                qtype,
                qclass,
                payload_chunks(qtype, payload@.skip(pos as int)),
            ),
        decreases n - pos,
    {
        let rem = n - pos;
        let this = if rem > step {
            step
        } else {
            rem
        };
        let ghost tail = payload@.skip(pos as int);
        let mut chunk: Vec<u8> = Vec::new();
        let mut k: usize = 0;
        while k < this
            invariant
                pos + this <= n,
                k <= this,
                chunk@ == payload@.subrange(pos as int, pos + k as int),
            decreases this - k,
        {
            chunk.push(payload[pos + k]);
            k = k + 1;
            proof {
                assert(chunk@ =~= payload@.subrange(pos as int, pos + k as int));
            }
        }
        if qtype == RR_A && this < 4 {
            while chunk.len() < 4
                invariant
                    this <= chunk@.len() <= 4,
                    chunk@.take(this as int) == payload@.subrange(pos as int, pos + this as int),
                    forall|z: int| this <= z < chunk@.len() ==> #[trigger] chunk@[z] == 0u8,
                decreases 4 - chunk@.len(),
            {
                let ghost prevc = chunk@;
                chunk.push(0);
                proof {
                    assert(chunk@.take(this as int) =~= prevc.take(this as int));
                }
            }
        }
        proof {
            if qtype == RR_A {
                if rem <= 4 {
                    assert(tail =~= payload@.subrange(pos as int, pos + this as int));
                    assert(chunk@ =~= tail + Seq::new((4 - tail.len()) as nat, |i: int| 0u8));
                    assert(payload_chunks(qtype, tail) == seq![chunk@]);
                    assert(payload@.skip(pos + this as int) =~= Seq::<u8>::empty());
                } else {
                    assert(tail.take(4) =~= payload@.subrange(pos as int, pos + 4));
                    assert(chunk@ == tail.take(4));
                    assert(tail.skip(4) =~= payload@.skip(pos + this as int));
                }
            } else {
                if rem <= 255 {
                    assert(tail =~= payload@.subrange(pos as int, pos + this as int));
                    assert(chunk@ == tail);
                    assert(payload_chunks(qtype, tail) == seq![chunk@]);
                    assert(payload@.skip(pos + this as int) =~= Seq::<u8>::empty());
                } else {
                    assert(tail.take(255) =~= payload@.subrange(pos as int, pos + 255));
                    assert(chunk@ == tail.take(255));
                    assert(tail.skip(255) =~= payload@.skip(pos + this as int));
                }
            }
            assert(payload_chunks(qtype, tail)[0] == chunk@);
            assert(payload_chunks(qtype, tail).drop_first() =~= payload_chunks(
                qtype,
                payload@.skip(pos + this as int),
            ));
        }
        let _ = append_record(&t, qtype, qclass, &chunk, out, Ghost(qname));
        proof {
            let rec = record_wire(qname, qtype, qclass, chunk@);
            let chunks_here = payload_chunks(qtype, tail);
            assert(records_wire(qname, qtype, qclass, chunks_here) == rec + records_wire(
                qname,
                qtype,
                qclass,
                chunks_here.drop_first(),
            ));
            written = written + rec;
            assert(out@ =~= before_records + written);
        }
        pos = pos + this;
    }
    proof {
        assert(payload@.skip(n as int) =~= Seq::<u8>::empty());
        assert(records_wire(qname, qtype, qclass, payload_chunks(qtype, Seq::<u8>::empty()))
            == Seq::<u8>::empty());
        assert(out@ =~= before_records + all_records);
    }
}

/// Position after `n` question entries starting at `pos`, if they parse.
pub open spec fn skip_questions(b: Seq<u8>, pos: int, n: nat) -> Option<int>
    decreases n,
{
    if n == 0 {
        Some(pos)
    } else {
        match parse_labels(b, pos) {
            None => None,
            Some(p) => if p.1 + 4 > b.len() {
                None
            } else {
                skip_questions(b, p.1 + 4, (n - 1) as nat)
            },
        }
    }
}

/// The concatenated character-strings between `pos` and `end`, if they
/// tile the range exactly.
pub open spec fn txt_strings(b: Seq<u8>, pos: int, end: int) -> Option<Seq<u8>>
    decreases end - pos,
{
    if pos == end {
        Some(Seq::<u8>::empty())
    } else if pos < 0 || pos > end || end > b.len() {
        None
    } else {
        let l = b[pos] as int;
        if pos + 1 + l > end {
            None
        } else {
            match txt_strings(b, pos + 1 + l, end) {
                None => None,
                Some(rest) => Some(b.subrange(pos + 1, pos + 1 + l) + rest),
            }
        }
    }
}

/// The payload bytes of `n` answer records starting at `pos`: TXT
/// character-strings or 4-byte A addresses, concatenated in record order;
/// or the first error met.
pub open spec fn parse_answers(b: Seq<u8>, pos: int, n: nat) -> Result<Seq<u8>, DnsError>
    decreases n,
{
    if n == 0 {
        Ok(Seq::<u8>::empty())
    } else {
        match parse_labels(b, pos) {
            None => Err(DnsError::MalformedPacket),
            Some(p) => if p.1 + 10 > b.len() {
                Err(DnsError::MalformedPacket)
            } else {
                let rtype = u16_at(b, p.1);
                let rdlen = u16_at(b, p.1 + 8) as int;
                let rdstart = p.1 + 10;
                if rdstart + rdlen > b.len() {
                    Err(DnsError::MalformedPacket)
                } else if rtype == RR_TXT {
                    match txt_strings(b, rdstart, rdstart + rdlen) {
                        None => Err(DnsError::MalformedPacket),
                        Some(data) => match parse_answers(b, rdstart + rdlen, (n - 1) as nat) {
                            Err(e) => Err(e),
                            Ok(rest) => Ok(data + rest),
                        },
                    }
                } else if rtype == RR_A {
                    if rdlen != 4 {
                        Err(DnsError::MalformedPacket)
                    } else {
                        match parse_answers(b, rdstart + 4, (n - 1) as nat) {
                            Err(e) => Err(e),
                            Ok(rest) => Ok(b.subrange(rdstart, rdstart + 4) + rest),
                        }
                    }
                } else {
                    Err(DnsError::UnsupportedRecordType)
                }
            },
        }
    }
}

/// What response decoding returns: the header's status code and the
/// payload reassembled from the answer records, or the first error met.
pub open spec fn spec_decode_response(b: Seq<u8>) -> Result<(Rcode, Seq<u8>), DnsError> {
    if b.len() < 12 {
        Err(DnsError::MalformedPacket)
    } else {
        match skip_questions(b, 12, u16_at(b, 4) as nat) {
            None => Err(DnsError::MalformedPacket),
            Some(apos) => match parse_answers(b, apos, u16_at(b, 6) as nat) {
                Err(e) => Err(e),
                Ok(data) => Ok((rcode_of(b[3] & 15), data)),
            },
        }
    }
}

/// Advances past `n` question entries.
fn skip_questions_exec(b: &[u8], pos: usize, n: u16) -> (r: Option<usize>)
    requires
        pos <= b@.len(),
    ensures
        (match (r, skip_questions(b@, pos as int, n as nat)) {
            (Some(e1), Some(e2)) => e1 == e2 && e1 <= b@.len(),
            (None, None) => true,
            _ => false,
        }),
    decreases n,
{
    if n == 0 {
        return Some(pos);
    }
    let mut scratch: Vec<char> = Vec::new();
    let end = match parse_name_chars(b, pos, &mut scratch) {
        Some(e) => e,
        None => {
            return None;
        },
    };
    if b.len() - end < 4 {
        return None;
    }
    skip_questions_exec(b, end + 4, n - 1)
}

/// Appends the character-strings between `pos` and `end`.
fn append_txt_strings(b: &[u8], pos: usize, end: usize, out: &mut Vec<u8>) -> (ok: bool)
    requires
        pos <= end <= b@.len(),
    ensures
        ok == (txt_strings(b@, pos as int, end as int) is Some),
        ok ==> final(out)@ == old(out)@ + txt_strings(b@, pos as int, end as int).unwrap(),
    decreases end - pos,
{
    if pos == end {
        proof {
            assert(out@ =~= out@ + Seq::<u8>::empty());
        }
        return true;
    }
    let l = b[pos] as usize;
    if l > end - pos - 1 {
        return false;
    }
    let ghost pre = out@;
    let mut k: usize = 0;
    while k < l
        invariant
            pos + 1 + l <= end <= b@.len(),
            k <= l,
            out@ == pre + b@.subrange(pos + 1, pos + 1 + k as int),
        decreases l - k,
    {
        proof {
            assert(pos + 1 + k < b@.len());
        }
        out.push(b[pos + 1 + k]);
        k = k + 1;
        proof {
            assert(out@ =~= pre + b@.subrange(pos + 1, pos + 1 + k as int));
        }
    }
    let r = append_txt_strings(b, pos + 1 + l, end, out);
    proof {
        if r {
            assert(out@ =~= pre + (b@.subrange(pos + 1, pos + 1 + l) + txt_strings(
                b@,
                pos + 1 + l,
                end as int,
            ).unwrap()));
        }
    }
    r
}

/// Appends the payload of `n` answer records.
fn parse_answers_exec(b: &[u8], pos: usize, n: u16, out: &mut Vec<u8>) -> (r: Result<
    (),
    DnsError,
>)
    ensures
        (match (r, parse_answers(b@, pos as int, n as nat)) {
            (Ok(u), Ok(data)) => final(out)@ == old(out)@ + data,
            (Err(e1), Err(e2)) => e1 == e2,
            _ => false,
        }),
    decreases n,
{
    if n == 0 {
        proof {
            assert(out@ =~= out@ + Seq::<u8>::empty());
        }
        return Ok(());
    }
    let mut scratch: Vec<char> = Vec::new();
    let end = match parse_name_chars(b, pos, &mut scratch) {
        Some(e) => e,
        None => {
            return Err(DnsError::MalformedPacket);
        },
    };
    if b.len() - end < 10 {
        return Err(DnsError::MalformedPacket);
    }
    let rtype = (b[end] as u16) * 256 + (b[end + 1] as u16);
    let rdlen = ((b[end + 8] as u16) * 256 + (b[end + 9] as u16)) as usize;
    let rdstart = end + 10;
    if rdlen > b.len() - rdstart {
        return Err(DnsError::MalformedPacket);
    }
    if rtype == RR_TXT {
        let ghost pre = out@;
        if !append_txt_strings(b, rdstart, rdstart + rdlen, out) {
            return Err(DnsError::MalformedPacket);
        }
        let ghost data = txt_strings(b@, rdstart as int, rdstart + rdlen as int).unwrap();
        let r = parse_answers_exec(b, rdstart + rdlen, n - 1, out);
        proof {
            if r is Ok {
                let rest = parse_answers(b@, rdstart + rdlen as int, (n - 1) as nat).unwrap();
                assert(out@ =~= pre + (data + rest));
            }
        }
        r
    } else if rtype == RR_A {
        if rdlen != 4 {
            return Err(DnsError::MalformedPacket);
        }
        let ghost pre = out@;
        out.push(b[rdstart]);
        out.push(b[rdstart + 1]);
        out.push(b[rdstart + 2]);
        out.push(b[rdstart + 3]);
        proof {
            assert(out@ =~= pre + b@.subrange(rdstart as int, rdstart + 4));
        }
        let r = parse_answers_exec(b, rdstart + 4, n - 1, out);
        proof {
            if r is Ok {
                let rest = parse_answers(b@, rdstart + 4 as int, (n - 1) as nat).unwrap();
                assert(out@ =~= pre + (b@.subrange(rdstart as int, rdstart + 4) + rest));
            }
        }
        r
    } else {
        Err(DnsError::UnsupportedRecordType)
    }
}

/// Decodes a response packet: parses the header, skips the echoed
/// questions, and reassembles the payload by concatenating TXT
/// character-strings or A-record address bytes in record order.
pub fn decode_response(packet: &[u8]) -> (r: Result<(Rcode, Vec<u8>), DnsError>)
    ensures
        (match (r, spec_decode_response(packet@)) {
            (Ok(d), Ok(s)) => d.0 == s.0 && d.1@ == s.1,
            (Err(e1), Err(e2)) => e1 == e2,
            _ => false,
        }),
{
    if packet.len() < 12 {
        return Err(DnsError::MalformedPacket);
    }
    let qd = (packet[4] as u16) * 256 + (packet[5] as u16);
    let an = (packet[6] as u16) * 256 + (packet[7] as u16);
    let apos = match skip_questions_exec(packet, 12, qd) {
        Some(p) => p,
        None => {
            return Err(DnsError::MalformedPacket);
        },
    };
    let mut data: Vec<u8> = Vec::new();
    match parse_answers_exec(packet, apos, an, &mut data) {
        Ok(_) => {
            let rc = Rcode::from_u8(packet[3] & 15);
            Ok((rc, data))
        },
        Err(e) => Err(e),
    }
}

// --- the round-trip and case-tolerance laws ---

/// Each label followed by one dot: the textual qname of a label sequence.
pub open spec fn join_trailing(ls: Seq<Seq<char>>) -> Seq<char>
    decreases ls.len(),
{
    if ls.len() == 0 {
        Seq::<char>::empty()
    } else {
        ls[0] + seq!['.'] + join_trailing(ls.drop_first())
    }
}

/// Splitting at dots distributes over a dot between two parts.
proof fn lemma_split_concat(x: Seq<char>, y: Seq<char>)
    ensures
        split_dots(x + seq!['.'] + y) == split_dots(x) + split_dots(y),
    decreases x.len(),
{
    let s = x + seq!['.'] + y;
    if x.len() == 0 {
        assert(s[0] == '.');
        assert(s.drop_first() =~= y);
        assert(split_dots(x) =~= seq![Seq::<char>::empty()]);
        assert(split_dots(s) =~= split_dots(x) + split_dots(y));
    } else {
        assert(s[0] == x[0]);
        assert(s.drop_first() =~= x.drop_first() + seq!['.'] + y);
        lemma_split_concat(x.drop_first(), y);
        let r = split_dots(x.drop_first() + seq!['.'] + y);
        let rx = split_dots(x.drop_first());
        assert(rx.len() >= 1) by {
            lemma_split_nonempty(x.drop_first());
        }
        assert(r[0] == rx[0]);
        assert(r.drop_first() =~= rx.drop_first() + split_dots(y));
        if x[0] == '.' {
            assert(split_dots(s) =~= split_dots(x) + split_dots(y));
        } else {
            assert(split_dots(s) =~= seq![seq![s[0]] + r[0]] + r.drop_first());
            assert(split_dots(x) =~= seq![seq![x[0]] + rx[0]] + rx.drop_first());
            assert(split_dots(s) =~= split_dots(x) + split_dots(y));
        }
    }
}

/// A split has at least one piece.
proof fn lemma_split_nonempty(s: Seq<char>)
    ensures
        split_dots(s).len() >= 1,
    decreases s.len(),
{
    if s.len() > 0 {
        lemma_split_nonempty(s.drop_first());
    }
}

/// Joining the pieces, a dot after each, restores the string plus one
/// trailing dot.
proof fn lemma_join_split(t: Seq<char>)
    ensures
        join_trailing(split_dots(t)) == t + seq!['.'],
    decreases t.len(),
{
    if t.len() == 0 {
        let ls = split_dots(t);
        assert(ls == seq![Seq::<char>::empty()]);
        assert(ls.drop_first() =~= Seq::<Seq<char>>::empty());
        assert(join_trailing(ls.drop_first()) == Seq::<char>::empty());
        assert(join_trailing(ls) == ls[0] + seq!['.'] + join_trailing(ls.drop_first()));
        assert(join_trailing(ls) =~= t + seq!['.']);
    } else {
        lemma_join_split(t.drop_first());
        let r = split_dots(t.drop_first());
        lemma_split_nonempty(t.drop_first());
        if t[0] == '.' {
            let ls = split_dots(t);
            assert(ls[0] =~= Seq::<char>::empty());
            assert(ls.drop_first() =~= r);
            assert(join_trailing(ls) == ls[0] + seq!['.'] + join_trailing(ls.drop_first()));
            assert(join_trailing(ls.drop_first()) == join_trailing(r));
            assert(join_trailing(r) == t.drop_first() + seq!['.']);
            assert((ls[0] + seq!['.'] + (t.drop_first() + seq!['.'])) =~= t + seq!['.']);
        } else {
            let ls = split_dots(t);
            assert(ls[0] == seq![t[0]] + r[0]);
            assert(ls.drop_first() =~= r.drop_first());
            assert(join_trailing(r) == r[0] + seq!['.'] + join_trailing(r.drop_first()));
            assert(join_trailing(ls) == ls[0] + seq!['.'] + join_trailing(ls.drop_first()));
            assert(join_trailing(ls.drop_first()) == join_trailing(r.drop_first()));
            assert(join_trailing(ls) =~= seq![t[0]] + join_trailing(r));
            assert(seq![t[0]] + (t.drop_first() + seq!['.']) =~= t + seq!['.']);
        }
    }
}

/// The pieces of a dotified dot-free string are its chunks: each 1 to 57
/// characters long and dot-free.
proof fn lemma_split_dotify(s: Seq<char>)
    requires
        s.len() >= 1,
        crate::dots::dot_free(s),
    ensures
        split_dots(crate::dots::spec_dotify(s)).len() >= 1,
        forall|i: int|
            0 <= i < split_dots(crate::dots::spec_dotify(s)).len() ==> {
                let l = #[trigger] split_dots(crate::dots::spec_dotify(s))[i];
                1 <= l.len() <= 57 && forall|j: int| 0 <= j < l.len() ==> exists|k: int|
                    0 <= k < s.len() && #[trigger] l[j] == s[k]
            },
    decreases s.len(),
{
    if s.len() <= 57 {
        lemma_split_leading(s, 0, s.len() as int);
        assert(s.skip(0) =~= s);
        assert(s.subrange(0, s.len() as int) =~= s);
        assert(split_dots(s) == seq![s]);
        assert forall|j: int| 0 <= j < s.len() implies exists|k: int|
            0 <= k < s.len() && #[trigger] s[j] == s[k] by {
            assert(s[j] == s[j]);
        }
    } else {
        let head = s.take(57);
        let rest = s.skip(57);
        assert(crate::dots::dot_free(head));
        assert(crate::dots::dot_free(rest));
        lemma_split_dotify(rest);
        assert(crate::dots::spec_dotify(s) == head + seq!['.'] + crate::dots::spec_dotify(rest));
        lemma_split_concat(head, crate::dots::spec_dotify(rest));
        lemma_split_leading(head, 0, 57);
        assert(head.skip(0) =~= head);
        assert(head.subrange(0, 57) =~= head);
        assert(split_dots(head) == seq![head]);
        let ls = split_dots(crate::dots::spec_dotify(s));
        let lr = split_dots(crate::dots::spec_dotify(rest));
        assert(ls =~= seq![head] + lr);
        assert forall|i: int| 0 <= i < ls.len() implies ({
            let l = #[trigger] ls[i];
            1 <= l.len() <= 57 && forall|j: int| 0 <= j < l.len() ==> exists|k: int|
                0 <= k < s.len() && #[trigger] l[j] == s[k]
        }) by {
            if i == 0 {
                assert(ls[0] == head);
                assert forall|j: int| 0 <= j < head.len() implies exists|k: int|
                    0 <= k < s.len() && #[trigger] head[j] == s[k] by {
                    assert(head[j] == s[j]);
                }
            } else {
                assert(ls[i] == lr[i - 1]);
                let l = lr[i - 1];
                assert forall|j: int| 0 <= j < l.len() implies exists|k: int|
                    0 <= k < s.len() && #[trigger] l[j] == s[k] by {
                    let k0 = choose|k0: int| 0 <= k0 < rest.len() && l[j] == rest[k0];
                    assert(rest[k0] == s[57 + k0]);
                }
            }
        }
    }
}

/// Parsing a serialized name from any position yields the labels' bytes
/// and stops right after the terminator, whatever follows.
proof fn lemma_parse_labels_wire(b: Seq<u8>, pos: int, ls: Seq<Seq<char>>)
    requires
        0 <= pos,
        pos + labels_wire(ls).len() <= b.len(),
        b.subrange(pos, pos + labels_wire(ls).len() as int) == labels_wire(ls),
        labels_ok(ls),
    ensures
        parse_labels(b, pos) == Some(
            (ls.map_values(|l: Seq<char>| label_bytes(l)), pos + labels_wire(ls).len() as int),
        ),
    decreases ls.len(),
{
    let w = labels_wire(ls);
    if ls.len() == 0 {
        assert(w == seq![0u8]);
        assert(b[pos] == w[0]);
        assert(ls.map_values(|l: Seq<char>| label_bytes(l)) =~= Seq::<Seq<u8>>::empty());
    } else {
        let l0 = ls[0];
        let lb = label_bytes(l0);
        assert(label_ok(l0));
        assert(lb.len() == l0.len());
        let rest = ls.drop_first();
        let rest_w = labels_wire(rest);
        assert(w == seq![l0.len() as u8] + lb + rest_w);
        assert(b[pos] == w[0]);
        assert(w[0] == l0.len() as u8);
        assert(1 <= b[pos] <= 63);
        assert(b[pos] as int == l0.len());
        assert(pos + 1 + b[pos] <= b.len());
        assert(b.subrange(pos + 1, pos + 1 + l0.len() as int) =~= lb) by {
            assert forall|i: int| 0 <= i < l0.len() implies b[pos + 1 + i] == lb[i] by {
                assert(b[pos + 1 + i] == w[1 + i]);
            }
        }
        assert(labels_ok(rest)) by {
            assert forall|i: int| 0 <= i < rest.len() implies label_ok(#[trigger] rest[i]) by {
                assert(rest[i] == ls[i + 1]);
            }
        }
        let pos2 = pos + 1 + l0.len() as int;
        assert(b.subrange(pos2, pos2 + rest_w.len() as int) =~= rest_w) by {
            assert forall|i: int| 0 <= i < rest_w.len() implies b[pos2 + i] == rest_w[i] by {
                assert(b[pos + (1 + l0.len() + i)] == w[1 + l0.len() + i]);
                assert(w[1 + l0.len() + i] == rest_w[i]);
            }
        }
        lemma_parse_labels_wire(b, pos2, rest);
        let inner = parse_labels(b, pos2);
        assert(parse_labels(b, pos) == Some(
            (
                seq![b.subrange(pos + 1, pos + 1 + b[pos] as int)] + inner.unwrap().0,
                inner.unwrap().1,
            ),
        ));
        assert(seq![lb] + rest.map_values(|l: Seq<char>| label_bytes(l)) =~= ls.map_values(
            |l: Seq<char>| label_bytes(l),
        ));
    }
}

/// The textual name recovered from a serialized name's labels is the
/// original string, one dot after each label.
proof fn lemma_labels_chars_map(ls: Seq<Seq<char>>)
    requires
        labels_ok(ls),
    ensures
        labels_chars(ls.map_values(|l: Seq<char>| label_bytes(l))) == join_trailing(ls),
    decreases ls.len(),
{
    let m = ls.map_values(|l: Seq<char>| label_bytes(l));
    if ls.len() == 0 {
        assert(m =~= Seq::<Seq<u8>>::empty());
        assert(labels_chars(m) =~= join_trailing(ls));
    } else {
        let rest = ls.drop_first();
        assert(labels_ok(rest)) by {
            assert forall|i: int| 0 <= i < rest.len() implies label_ok(#[trigger] rest[i]) by {
                assert(rest[i] == ls[i + 1]);
            }
        }
        lemma_labels_chars_map(rest);
        assert(m[0] == label_bytes(ls[0]));
        assert(m.drop_first() =~= rest.map_values(|l: Seq<char>| label_bytes(l)));
        assert(label_bytes(ls[0]).map_values(|x: u8| x as char) =~= ls[0]) by {
            assert forall|j: int| 0 <= j < ls[0].len() implies label_bytes(ls[0]).map_values(
                |x: u8| x as char,
            )[j] == ls[0][j] by {
                assert(label_ok(ls[0]));
                assert((ls[0][j] as u32) < 128);
                crate::text::lemma_ascii_byte(ls[0][j]);
            }
        }
        assert(labels_chars(m) == m[0].map_values(|x: u8| x as char) + seq!['.'] + labels_chars(
            m.drop_first(),
        ));
        assert(labels_chars(m) =~= join_trailing(ls));
    }
}

/// Case folding never makes or unmakes a dot, and keeps ASCII ASCII.
proof fn lemma_fold_shape(c: char)
    ensures
        (crate::text::fold_char(c) == '.') == (c == '.'),
        ((crate::text::fold_char(c) as u32) < 128) == ((c as u32) < 128),
{
}

/// Splitting at dots maps case variants to pointwise case variants.
proof fn lemma_split_case_variant(s: Seq<char>, t: Seq<char>)
    requires
        crate::text::case_variant(s, t),
    ensures
        split_dots(s).len() == split_dots(t).len(),
        forall|i: int| 0 <= i < split_dots(s).len() ==> crate::text::case_variant(
            #[trigger] split_dots(s)[i],
            split_dots(t)[i],
        ),
    decreases s.len(),
{
    if s.len() == 0 {
        assert(crate::text::case_variant(split_dots(s)[0], split_dots(t)[0]));
    } else {
        assert(crate::text::fold_char(s[0]) == crate::text::fold_char(t[0]));
        lemma_fold_shape(s[0]);
        lemma_fold_shape(t[0]);
        assert((s[0] == '.') == (t[0] == '.'));
        assert(crate::text::case_variant(s.drop_first(), t.drop_first())) by {
            assert forall|k: int| 0 <= k < s.drop_first().len() implies crate::text::fold_char(
                #[trigger] s.drop_first()[k],
            ) == crate::text::fold_char(t.drop_first()[k]) by {
                assert(s.drop_first()[k] == s[k + 1]);
                assert(t.drop_first()[k] == t[k + 1]);
            }
        }
        lemma_split_case_variant(s.drop_first(), t.drop_first());
        let rs = split_dots(s.drop_first());
        let rt = split_dots(t.drop_first());
        lemma_split_nonempty(s.drop_first());
        lemma_split_nonempty(t.drop_first());
        if s[0] == '.' {
            assert forall|i: int| 0 <= i < split_dots(s).len() implies crate::text::case_variant(
                #[trigger] split_dots(s)[i],
                split_dots(t)[i],
            ) by {
                if i > 0 {
                    assert(split_dots(s)[i] == rs[i - 1]);
                    assert(split_dots(t)[i] == rt[i - 1]);
                }
            }
        } else {
            let hs = seq![s[0]] + rs[0];
            let ht = seq![t[0]] + rt[0];
            assert(crate::text::case_variant(hs, ht)) by {
                assert forall|k: int| 0 <= k < hs.len() implies crate::text::fold_char(
                    #[trigger] hs[k],
                ) == crate::text::fold_char(ht[k]) by {
                    if k > 0 {
                        assert(hs[k] == rs[0][k - 1]);
                        assert(ht[k] == rt[0][k - 1]);
                        assert(crate::text::case_variant(rs[0], rt[0]));
                    }
                }
            }
            assert forall|i: int| 0 <= i < split_dots(s).len() implies crate::text::case_variant(
                #[trigger] split_dots(s)[i],
                split_dots(t)[i],
            ) by {
                if i == 0 {
                    assert(split_dots(s)[0] == hs);
                    assert(split_dots(t)[0] == ht);
                } else {
                    assert(split_dots(s)[i] == rs.drop_first()[i - 1]);
                    assert(split_dots(t)[i] == rt.drop_first()[i - 1]);
                    assert(rs.drop_first()[i - 1] == rs[i]);
                    assert(rt.drop_first()[i - 1] == rt[i]);
                }
            }
        }
    }
}

/// A case variant of a usable label is a usable label.
proof fn lemma_label_ok_case(a: Seq<char>, b: Seq<char>)
    requires
        crate::text::case_variant(a, b),
        label_ok(b),
    ensures
        label_ok(a),
{
    assert forall|i: int| 0 <= i < a.len() implies (#[trigger] a[i] as u32) < 128 && a[i]
        != '.' by {
        assert(crate::text::fold_char(a[i]) == crate::text::fold_char(b[i]));
        lemma_fold_shape(a[i]);
        lemma_fold_shape(b[i]);
    }
}

/// Removing dots maps case variants to case variants.
proof fn lemma_undotify_case(a: Seq<char>, b: Seq<char>)
    requires
        crate::text::case_variant(a, b),
    ensures
        crate::text::case_variant(
            crate::dots::spec_undotify(a),
            crate::dots::spec_undotify(b),
        ),
    decreases a.len(),
{
    if a.len() == 0 {
    } else {
        assert(crate::text::fold_char(a[0]) == crate::text::fold_char(b[0]));
        lemma_fold_shape(a[0]);
        lemma_fold_shape(b[0]);
        assert((a[0] == '.') == (b[0] == '.'));
        assert(crate::text::case_variant(a.drop_first(), b.drop_first())) by {
            assert forall|k: int| 0 <= k < a.drop_first().len() implies crate::text::fold_char(
                #[trigger] a.drop_first()[k],
            ) == crate::text::fold_char(b.drop_first()[k]) by {
                assert(a.drop_first()[k] == a[k + 1]);
                assert(b.drop_first()[k] == b[k + 1]);
            }
        }
        lemma_undotify_case(a.drop_first(), b.drop_first());
        let ua = crate::dots::spec_undotify(a.drop_first());
        let ub = crate::dots::spec_undotify(b.drop_first());
        if a[0] != '.' {
            assert forall|k: int| 0 <= k < (seq![a[0]] + ua).len() implies crate::text::fold_char(
                #[trigger] (seq![a[0]] + ua)[k],
            ) == crate::text::fold_char((seq![b[0]] + ub)[k]) by {
                if k > 0 {
                    assert((seq![a[0]] + ua)[k] == ua[k - 1]);
                    assert((seq![b[0]] + ub)[k] == ub[k - 1]);
                }
            }
        }
    }
}

/// The alphabet's characters are usable label characters.
proof fn lemma_sym_char_label(c: char)
    requires
        crate::base32::is_sym_char(c),
    ensures
        (c as u32) < 128,
        c != '.',
{
}

/// Round trip with case tolerance. For a payload of at least one byte and
/// a domain whose labels are usable, the qname that `build_qname` returns
/// goes through query encoding, and decoding the packet against the same
/// domain recovers the payload exactly — even when the qname's letter case
/// was mangled anywhere in transit, provided decoding normalizes case.
/// Without normalization, decoding either still recovers the payload or
/// fails only the suffix-match step.
#[verifier::rlimit(100)]
pub proof fn lemma_query_round_trip(
    payload: Seq<u8>,
    domain: Seq<char>,
    mangled: Seq<char>,
    id: u16,
    qtype: u16,
    qclass: u16,
    rd: bool,
    cd: bool,
    qdcount: u16,
)
    requires
        payload.len() >= 1,
        crate::spec_build_qname(payload, domain, None) is Ok,
        labels_ok(split_dots(crate::spec_trim_dots(domain))),
        crate::text::case_variant(
            mangled,
            crate::spec_build_qname(payload, domain, None).unwrap(),
        ),
    ensures
        name_ok(mangled),
        (spec_decode_query(
            spec_encode_query(id, mangled, qtype, qclass, rd, cd, qdcount, true),
            domain,
            true,
        ) matches Ok(d) && d.0 == payload),
        (match spec_decode_query(
            spec_encode_query(id, mangled, qtype, qclass, rd, cd, qdcount, true),
            domain,
            false,
        ) {
            Ok(d) => d.0 == payload,
            Err(e) => e == DecodeQueryError::DomainMismatch,
        }),
{
    let t = crate::spec_trim_dots(domain);
    let enc = crate::base32::spec_encode(payload);
    let dotted = crate::dots::spec_dotify(enc);
    let q = crate::spec_build_qname(payload, domain, None).unwrap();
    assert(q == dotted + seq!['.'] + t + seq!['.']);
    crate::base32::lemma_round_trip(payload);
    assert(enc.len() == crate::base32::sym_count(payload.len()));
    assert(enc.len() >= 2);
    assert(crate::dots::dot_free(enc)) by {
        assert forall|i: int| 0 <= i < enc.len() implies #[trigger] enc[i] != '.' by {
            lemma_sym_char_label(enc[i]);
        }
    }
    // the built subdomain fits the default dotted-length budget
    let m = crate::spec_dotted_budget(t.len(), None);
    let cap = crate::spec_max_payload(m);
    assert(payload.len() <= cap);
    let bb = crate::spec_max_base32_len(m);
    assert(enc.len() <= bb) by {
        crate::lemma_sym_count_monotone(payload.len(), cap);
        crate::lemma_capacity_encodes(m);
    }
    assert(crate::fits_dotted(enc.len(), m)) by {
        crate::lemma_max_fit_le(m, m);
        crate::lemma_fits_monotone(m, enc.len(), bb);
    }
    assert(dotted.len() == enc.len() + (enc.len() - 1) / 57) by {
        crate::dots::lemma_dotify_len(enc);
    }
    assert(dotted.len() <= m);
    assert(t.len() + 1 <= 255);
    // the built qname is well formed
    assert(q.last() == '.');
    let sq = strip_dot(q);
    assert(sq =~= dotted + seq!['.'] + t);
    assert(sq.len() <= 255);
    lemma_split_concat(dotted, t);
    assert(split_dots(sq) == split_dots(dotted) + split_dots(t));
    lemma_split_dotify(enc);
    assert(labels_ok(split_dots(sq))) by {
        assert forall|i: int| 0 <= i < split_dots(sq).len() implies label_ok(
            #[trigger] split_dots(sq)[i],
        ) by {
            let ld = split_dots(dotted);
            if i < ld.len() {
                assert(split_dots(sq)[i] == ld[i]);
                let l = ld[i];
                assert forall|j: int| 0 <= j < l.len() implies (#[trigger] l[j] as u32) < 128
                    && l[j] != '.' by {
                    let k = choose|k: int| 0 <= k < enc.len() && l[j] == enc[k];
                    lemma_sym_char_label(enc[k]);
                }
            } else {
                assert(split_dots(sq)[i] == split_dots(t)[i - ld.len()]);
            }
        }
    }
    assert(name_ok(q));
    // a case variant of the qname is equally well formed
    assert(mangled.len() == q.len());
    assert(crate::text::fold_char(mangled.last()) == crate::text::fold_char(q.last()));
    lemma_fold_shape(mangled.last());
    assert(mangled.last() == '.');
    let sm = strip_dot(mangled);
    assert(crate::text::case_variant(sm, sq)) by {
        assert forall|k: int| 0 <= k < sm.len() implies crate::text::fold_char(#[trigger] sm[k])
            == crate::text::fold_char(sq[k]) by {
            assert(sm[k] == mangled[k]);
            assert(sq[k] == q[k]);
        }
    }
    lemma_split_case_variant(sm, sq);
    assert(labels_ok(split_dots(sm))) by {
        assert forall|i: int| 0 <= i < split_dots(sm).len() implies label_ok(
            #[trigger] split_dots(sm)[i],
        ) by {
            lemma_label_ok_case(split_dots(sm)[i], split_dots(sq)[i]);
        }
    }
    assert(name_ok(mangled));
    // the packet parses back to the mangled qname
    let packet = spec_encode_query(id, mangled, qtype, qclass, rd, cd, qdcount, true);
    let w = name_wire(mangled);
    let pre = u16_bytes(id) + seq![
        (if true { 0u8 } else { 0x80u8 }) | (if rd { 1u8 } else { 0u8 }),
        (if cd { 0x10u8 } else { 0u8 }),
    ] + u16_bytes(qdcount) + u16_bytes(0) + u16_bytes(0) + u16_bytes(1);
    let post = u16_bytes(qtype) + u16_bytes(qclass) + opt_record_wire();
    assert(pre.len() == 12);
    assert(post.len() == 15);
    assert(packet =~= pre + w + post);
    assert(packet.subrange(12, 12 + w.len() as int) =~= w) by {
        assert forall|i: int| 0 <= i < w.len() implies packet[12 + i] == w[i] by {
            assert(packet[12 + i] == (pre + w + post)[12 + i]);
        }
    }
    lemma_parse_labels_wire(packet, 12, split_dots(sm));
    let parsed = parse_labels(packet, 12);
    assert(parsed is Some);
    let end = parsed.unwrap().1;
    assert(end == 12 + w.len());
    assert(end + 4 <= packet.len());
    let name = labels_chars(parsed.unwrap().0);
    lemma_labels_chars_map(split_dots(sm));
    lemma_join_split(sm);
    assert(name == sm + seq!['.']);
    assert(name =~= mangled);
    // the suffix matches, case-insensitively always, exactly when untouched
    let suffix = seq!['.'] + t + seq!['.'];
    assert(suffix.len() == t.len() + 2);
    assert(name.len() >= suffix.len());
    let start = name.len() - suffix.len();
    assert(start == dotted.len());
    assert(q.skip(start as int) =~= suffix);
    assert(crate::text::case_variant(name.skip(start as int), suffix)) by {
        assert forall|k: int| 0 <= k < suffix.len() implies crate::text::fold_char(
            #[trigger] name.skip(start as int)[k],
        ) == crate::text::fold_char(suffix[k]) by {
            assert(name.skip(start as int)[k] == mangled[start + k]);
            assert(suffix[k] == q[start + k]);
        }
    }
    assert(suffix_matches(name, suffix, true));
    // the subdomain still decodes to the payload
    let sub = name.take(start as int);
    assert(crate::text::case_variant(sub, dotted)) by {
        assert forall|k: int| 0 <= k < sub.len() implies crate::text::fold_char(
            #[trigger] sub[k],
        ) == crate::text::fold_char(dotted[k]) by {
            assert(sub[k] == mangled[k]);
            assert(dotted[k] == q[k]);
        }
    }
    lemma_undotify_case(sub, dotted);
    crate::dots::lemma_undotify_dotify(enc);
    let und = crate::dots::spec_undotify(sub);
    assert(crate::text::case_variant(und, enc));
    crate::base32::lemma_decode_case_insensitive(und, enc);
    assert(crate::base32::spec_valid(und));
    assert(crate::base32::spec_decode(und) == payload);
    if suffix_matches(name, suffix, false) {
        assert(spec_decode_query(packet, domain, false) matches Ok(d) && d.0 == payload);
    } else {
        assert(spec_decode_query(packet, domain, false) == Err::<
            (Seq<u8>, Seq<char>, u16, u16, u16, bool, bool),
            DecodeQueryError,
        >(DecodeQueryError::DomainMismatch));
    }
}

/// The number of chunks the payload splits into.
proof fn lemma_chunk_count(qtype: u16, p: Seq<u8>)
    ensures
        qtype == RR_TXT ==> txt_chunks(p).len() == (if p.len() == 0 {
            0int
        } else {
            (p.len() - 1) / 255 + 1
        }),
        qtype != RR_TXT ==> a_chunks(p).len() == (if p.len() == 0 {
            0int
        } else {
            (p.len() - 1) / 4 + 1
        }),
    decreases p.len(),
{
    if p.len() > 255 {
        lemma_chunk_count(qtype, p.skip(255));
    }
    if p.len() > 4 {
        lemma_chunk_count(qtype, p.skip(4));
    }
}

} // verus!
