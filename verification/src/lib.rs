//! Wire-format codec for a DNS tunnel: packs arbitrary byte payloads into
//! DNS query names (base32 labels under an owned domain suffix), computes
//! exact payload-capacity bounds for a domain, and encodes/decodes the DNS
//! messages that carry them, tolerating middleboxes that randomize letter
//! case inside names.

use vstd::prelude::*;

pub mod base32;
pub mod dns;
pub mod dots;
pub mod text;

pub use base32::decode as base32_decode;
pub use base32::encode as base32_encode;
pub use base32::Base32Error;
pub use dns::{
    decode_query, decode_query_with_case_normalization, decode_response, encode_query,
    encode_response, DecodeQueryError, DecodedQuery, DnsError, QueryParams, Question, Rcode,
    ResponseParams, CLASS_IN, EDNS_UDP_PAYLOAD, RR_A, RR_OPT, RR_TXT,
};
pub use dots::dotify;
pub use dots::undotify;

verus! {

/// The domain with every trailing dot removed.
pub open spec fn spec_trim_dots(s: Seq<char>) -> Seq<char>
    decreases s.len(),
{
    if s.len() > 0 && s.last() == '.' {
        spec_trim_dots(s.drop_last())
    } else {
        s
    }
}

/// Whether an encoded string of length `l` still fits in `m` characters
/// once the chunker's dots (one per started chunk after the first) are
/// counted in.
pub open spec fn fits_dotted(l: nat, m: nat) -> bool {
    l + (l - 1) / 57 <= m
}

/// The largest encoded length not above `l` whose dotted form fits in `m`
/// characters; zero when none does.
pub open spec fn spec_max_fit(m: nat, l: nat) -> nat
    decreases l,
{
    if l == 0 {
        0
    } else if fits_dotted(l, m) {
        l
    } else {
        spec_max_fit(m, (l - 1) as nat)
    }
}

/// The longest base32 string whose dotted form fits in `m` characters.
pub open spec fn spec_max_base32_len(m: nat) -> nat {
    spec_max_fit(m, m)
}

/// The byte capacity behind a dotted-length budget of `m` characters.
pub open spec fn spec_max_payload(m: nat) -> nat {
    spec_max_base32_len(m) * 5 / 8
}

/// The dotted-length budget for a trimmed domain: an explicit ceiling
/// verbatim, otherwise what the 255-character name budget leaves after the
/// domain and one separator dot.
pub open spec fn spec_dotted_budget(domain_len: nat, ceiling: Option<usize>) -> nat {
    match ceiling {
        Some(c) => c as nat,
        None => if domain_len + 1 <= 255 {
            (255 - domain_len - 1) as nat
        } else {
            0
        },
    }
}

/// What the capacity query returns: the byte capacity of a domain, or the
/// error rejecting the domain itself.
pub open spec fn spec_capacity(domain: Seq<char>, ceiling: Option<usize>) -> Result<nat, DnsError> {
    let t = spec_trim_dots(domain);
    if t.len() == 0 {
        Err(DnsError::EmptyDomain)
    } else if t.len() > 255 {
        Err(DnsError::DomainTooLong)
    } else {
        Ok(spec_max_payload(spec_dotted_budget(t.len(), ceiling)))
    }
}

/// What qname construction returns: `{dotted base32 payload}.{domain}.`,
/// or the first error in the order the checks run.
pub open spec fn spec_build_qname(
    payload: Seq<u8>,
    domain: Seq<char>,
    ceiling: Option<usize>,
) -> Result<Seq<char>, DnsError> {
    let t = spec_trim_dots(domain);
    if t.len() == 0 {
        Err(DnsError::EmptyDomain)
    } else if t.len() > 255 {
        Err(DnsError::DomainTooLong)
    } else if payload.len() > spec_max_payload(spec_dotted_budget(t.len(), ceiling)) {
        Err(DnsError::PayloadTooLarge)
    } else {
        let dotted = dots::spec_dotify(base32::spec_encode(payload));
        match ceiling {
            Some(c) => if dotted.len() > c {
                Err(DnsError::SubdomainTooLong)
            } else {
                Ok(dotted + seq!['.'] + t + seq!['.'])
            },
            None => Ok(dotted + seq!['.'] + t + seq!['.']),
        }
    }
}

/// Trims every trailing dot from the domain, as a character vector.
fn trim_domain(domain: &str) -> (r: Vec<char>)
    ensures
        r@ == spec_trim_dots(domain@),
{
    let mut t = text::str_to_chars(domain);
    while t.len() > 0 && t[t.len() - 1] == '.'
        invariant
            spec_trim_dots(t@) == spec_trim_dots(domain@),
        decreases t.len(),
    {
        proof {
            assert(t@.drop_last() =~= t@.take(t@.len() - 1));
        }
        let _ = t.pop();
    }
    t
}

/// A dotted length fitting the budget still fits for any shorter string.
proof fn lemma_fits_monotone(m: nat, l1: nat, l2: nat)
    requires
        1 <= l1 <= l2,
        fits_dotted(l2, m),
    ensures
        fits_dotted(l1, m),
{
    vstd::arithmetic::div_mod::lemma_div_is_ordered(l1 - 1, l2 - 1, 57);
}

/// The search result never exceeds its upper bound.
proof fn lemma_max_fit_le(m: nat, l: nat)
    ensures
        spec_max_fit(m, l) <= l,
        spec_max_fit(m, l) >= 1 ==> fits_dotted(spec_max_fit(m, l), m),
    decreases l,
{
    if l == 0 {
    } else if fits_dotted(l, m) {
    } else {
        lemma_max_fit_le(m, (l - 1) as nat);
    }
}

/// Lowering the search's upper bound past only unfit lengths changes
/// nothing.
proof fn lemma_max_fit_above(m: nat, l: nat, k: nat)
    requires
        k <= l,
        forall|j: nat| k < j <= l ==> !fits_dotted(j, m),
    ensures
        spec_max_fit(m, l) == spec_max_fit(m, k),
    decreases l,
{
    if l > k {
        assert(!fits_dotted(l, m));
        lemma_max_fit_above(m, (l - 1) as nat, k);
    }
}

/// The search result grows with the budget.
proof fn lemma_max_fit_monotone(m1: nat, m2: nat, l: nat)
    requires
        m1 <= m2,
    ensures
        spec_max_fit(m1, l) <= spec_max_fit(m2, l),
    decreases l,
{
    if l == 0 {
    } else if fits_dotted(l, m1) {
        assert(fits_dotted(l, m2));
    } else if fits_dotted(l, m2) {
        lemma_max_fit_le(m1, l);
    } else {
        lemma_max_fit_monotone(m1, m2, (l - 1) as nat);
    }
}

/// A larger dotted-length budget never shrinks the byte capacity.
pub proof fn lemma_max_payload_monotone(m1: nat, m2: nat)
    requires
        m1 <= m2,
    ensures
        spec_max_payload(m1) <= spec_max_payload(m2),
{
    lemma_max_fit_monotone(m1, m2, m1);
    lemma_max_fit_grows(m2, m1, m2);
    vstd::arithmetic::div_mod::lemma_div_is_ordered(
        spec_max_base32_len(m1) * 5 as int,
        spec_max_base32_len(m2) * 5 as int,
        8,
    );
}

/// The search result grows with its upper bound.
proof fn lemma_max_fit_grows(m: nat, l1: nat, l2: nat)
    requires
        l1 <= l2,
    ensures
        spec_max_fit(m, l1) <= spec_max_fit(m, l2),
    decreases l2,
{
    if l2 > l1 {
        lemma_max_fit_grows(m, l1, (l2 - 1) as nat);
        if fits_dotted(l2, m) {
            lemma_max_fit_le(m, (l2 - 1) as nat);
        }
    }
}

/// Monotonicity law: with a fixed domain, a larger explicit subdomain
/// ceiling never shrinks the computed payload capacity.
pub proof fn lemma_capacity_monotone(domain: Seq<char>, c1: usize, c2: usize)
    requires
        c1 <= c2,
    ensures
        match (spec_capacity(domain, Some(c1)), spec_capacity(domain, Some(c2))) {
            (Ok(a), Ok(b)) => a <= b,
            (Err(e1), Err(e2)) => e1 == e2,
            _ => false,
        },
{
    let t = spec_trim_dots(domain);
    if 1 <= t.len() <= 255 {
        lemma_max_payload_monotone(c1 as nat, c2 as nat);
    }
}

/// Boundary law: with no explicit ceiling, a payload of exactly the
/// domain's capacity is accepted, and one byte more is rejected as too
/// large.
pub proof fn lemma_build_qname_boundary(p1: Seq<u8>, p2: Seq<u8>, domain: Seq<char>)
    requires
        spec_capacity(domain, None) matches Ok(cap) && p1.len() == cap && p2.len() == cap + 1,
    ensures
        spec_build_qname(p1, domain, None) is Ok,
        spec_build_qname(p2, domain, None) == Err::<Seq<char>, DnsError>(
            DnsError::PayloadTooLarge,
        ),
{
}

/// Encoded length of `payload_len` bytes of base32 text: ceil(8n / 5).
fn base32_len(payload_len: usize) -> (r: usize)
    requires
        base32::sym_count(payload_len as nat) <= usize::MAX,
    ensures
        r == base32::sym_count(payload_len as nat),
{
    if payload_len == 0 {
        0
    } else {
        let n = payload_len as u128;
        ((8 * n + 4) / 5) as usize
    }
}

/// The encoded length grows with the payload.
proof fn lemma_sym_count_monotone(n1: nat, n2: nat)
    requires
        n1 <= n2,
    ensures
        base32::sym_count(n1) <= base32::sym_count(n2),
{
    if n1 > 0 {
        vstd::arithmetic::div_mod::lemma_div_is_ordered(8 * n1 + 4 as int, 8 * n2 + 4 as int, 5);
    }
}

/// A payload of the capacity behind budget `m` encodes into no more
/// characters than the longest fitting base32 string.
proof fn lemma_capacity_encodes(m: nat)
    ensures
        base32::sym_count(spec_max_payload(m)) <= spec_max_base32_len(m),
{
    let b = spec_max_base32_len(m);
    let cap = (b * 5 / 8) as nat;
    if cap > 0 {
        vstd::arithmetic::div_mod::lemma_fundamental_div_mod(b * 5 as int, 8);
        assert(8 * cap <= b * 5);
        vstd::arithmetic::div_mod::lemma_div_is_ordered(8 * cap + 4 as int, 5 * b + 4 as int, 5);
        assert((5 * b + 4) / 5 == b) by {
            vstd::arithmetic::div_mod::lemma_div_multiples_vanish_fancy(b as int, 4, 5);
        }
    }
}

/// Byte capacity of the dotted-length budget: the core of the capacity
/// query, shared by the planner's public entry points.
fn max_payload_core(max_dotted: usize) -> (r: usize)
    ensures
        r == spec_max_payload(max_dotted as nat),
{
    let ghost m = max_dotted as nat;
    if max_dotted == 0 {
        return 0;
    }
    let mut best: usize = 0;
    while best < max_dotted
        invariant
            best <= max_dotted,
            m == max_dotted as nat,
            best == spec_max_fit(m, best as nat),
            best >= 1 ==> fits_dotted(best as nat, m),
        ensures
            best == spec_max_fit(m, m),
        decreases max_dotted - best,
    {
        let l = best + 1;
        let dots = (l - 1) / 57;
        if dots > max_dotted - l {
            proof {
                assert(!fits_dotted(l as nat, m));
                assert forall|j: nat| best < j <= m implies !fits_dotted(j, m) by {
                    if fits_dotted(j, m) {
                        lemma_fits_monotone(m, l as nat, j);
                    }
                }
                lemma_max_fit_above(m, m, best as nat);
            }
            break;
        }
        best = l;
    }
    proof {
        assert((best as int) * 5 / 8 <= best as int) by {
            vstd::arithmetic::div_mod::lemma_div_is_ordered(
                (best as int) * 5,
                (best as int) * 8,
                8,
            );
            vstd::arithmetic::div_mod::lemma_div_by_multiple(best as int, 8);
        }
    }
    let cap = (((best as u128) * 5) / 8) as usize;
    proof {
        assert(cap == spec_max_payload(m));
        lemma_capacity_encodes(m);
        lemma_max_fit_le(m, m);
    }
    // Decrement while the encoded length of the candidate exceeds the
    // fitting base32 length. The invariant shows the first check already
    // passes, so the loop never runs: floor(best * 5 / 8) encodes into at
    // most `best` characters.
    let mut max_payload = cap;
    while max_payload > 0 && base32_len(max_payload) > best
        invariant
            max_payload == cap,
            cap == spec_max_payload(m),
            base32::sym_count(cap as nat) <= best,
            best <= usize::MAX,
        decreases max_payload,
    {
        proof {
            // contradicts the invariant: the body is unreachable
            assert(false);
        }
        max_payload = max_payload - 1;
    }
    max_payload
}

/// Maximum payload bytes that fit in a qname under `domain` with the
/// default budget derived from the 255-character name limit.
pub fn max_payload_len_for_domain(domain: &str) -> (r: Result<usize, DnsError>)
    ensures
        (match r {
            Ok(v) => spec_capacity(domain@, None) == Ok::<nat, DnsError>(v as nat),
            Err(e) => spec_capacity(domain@, None) == Err::<nat, DnsError>(e),
        }),
{
    max_payload_len_for_domain_with_max_subdomain(domain, None)
}

/// Maximum payload bytes that fit in a qname under `domain`, with an
/// optional explicit ceiling on the dotted subdomain's length.
pub fn max_payload_len_for_domain_with_max_subdomain(
    domain: &str,
    max_subdomain_length: Option<usize>,
) -> (r: Result<usize, DnsError>)
    ensures
        (match r {
            Ok(v) => spec_capacity(domain@, max_subdomain_length) == Ok::<nat, DnsError>(
                v as nat,
            ),
            Err(e) => spec_capacity(domain@, max_subdomain_length) == Err::<nat, DnsError>(e),
        }),
{
    let t = trim_domain(domain);
    if t.len() == 0 {
        return Err(DnsError::EmptyDomain);
    }
    if t.len() > dns::MAX_DNS_NAME_LEN {
        return Err(DnsError::DomainTooLong);
    }
    let max_dotted = match max_subdomain_length {
        Some(c) => c,
        None => if t.len() + 1 <= dns::MAX_DNS_NAME_LEN {
            dns::MAX_DNS_NAME_LEN - t.len() - 1
        } else {
            0
        },
    };
    Ok(max_payload_core(max_dotted))
}

/// Builds the fully-qualified query name `{subdomain}.{domain}.` carrying
/// `payload`, with the default dotted-length budget.
pub fn build_qname(payload: &[u8], domain: &str) -> (r: Result<String, DnsError>)
    ensures
        (match r {
            Ok(q) => spec_build_qname(payload@, domain@, None) == Ok::<Seq<char>, DnsError>(q@),
            Err(e) => spec_build_qname(payload@, domain@, None) == Err::<Seq<char>, DnsError>(e),
        }),
{
    build_qname_with_max_subdomain_length(payload, domain, None)
}

/// Builds the fully-qualified query name `{subdomain}.{domain}.` carrying
/// `payload`, honouring an optional explicit subdomain-length ceiling.
pub fn build_qname_with_max_subdomain_length(
    payload: &[u8],
    domain: &str,
    max_subdomain_length: Option<usize>,
) -> (r: Result<String, DnsError>)
    ensures
        (match r {
            Ok(q) => spec_build_qname(payload@, domain@, max_subdomain_length) == Ok::<
                Seq<char>,
                DnsError,
            >(q@),
            Err(e) => spec_build_qname(payload@, domain@, max_subdomain_length) == Err::<
                Seq<char>,
                DnsError,
            >(e),
        }),
{
    let t = trim_domain(domain);
    if t.len() == 0 {
        return Err(DnsError::EmptyDomain);
    }
    let max_payload = match max_payload_len_for_domain_with_max_subdomain(
        domain,
        max_subdomain_length,
    ) {
        Ok(v) => v,
        Err(e) => {
            return Err(e);
        },
    };
    if payload.len() > max_payload {
        return Err(DnsError::PayloadTooLarge);
    }
    let encoded = base32::encode(payload);
    let dotted = dots::dotify(encoded.as_str());
    let subdomain_len = dotted.as_str().unicode_len();
    if let Some(max_len) = max_subdomain_length {
        if subdomain_len > max_len {
            return Err(DnsError::SubdomainTooLong);
        }
    }
    let mut q = dotted;
    text::push_char(&mut q, '.');
    let mut i: usize = 0;
    while i < t.len()
        invariant
            i <= t@.len(),
            q@ == dots::spec_dotify(base32::spec_encode(payload@)) + seq!['.'] + t@.take(i as int),
        decreases t@.len() - i,
    {
        text::push_char(&mut q, t[i]);
        i = i + 1;
        proof {
            assert(q@ =~= dots::spec_dotify(base32::spec_encode(payload@)) + seq!['.'] + t@.take(
                i as int,
            ));
        }
    }
    text::push_char(&mut q, '.');
    proof {
        assert(t@.take(t@.len() as int) =~= t@);
        assert(q@ =~= dots::spec_dotify(base32::spec_encode(payload@)) + seq!['.'] + t@
            + seq!['.']);
    }
    Ok(q)
}

} // verus!
