use slipstream_dns::{
    build_qname, build_qname_with_max_subdomain_length, max_payload_len_for_domain,
    max_payload_len_for_domain_with_max_subdomain, DnsError,
};

#[test]
fn build_qname_rejects_payload_overflow() {
    let domain = "test.com";
    let max_payload = max_payload_len_for_domain(domain).expect("max payload");
    let payload = vec![0u8; max_payload + 1];
    assert!(build_qname(&payload, domain).is_err());
}

#[test]
fn build_qname_rejects_long_domain() {
    let domain = format!("{}.com", "a".repeat(260));
    let payload = vec![0u8; 1];
    assert!(build_qname(&payload, &domain).is_err());
}

#[test]
fn max_subdomain_length_limits_payload() {
    let domain = "example.com";
    // Without limit, should allow larger payload
    let max_unlimited = max_payload_len_for_domain(domain).expect("max payload");

    // With 101 char limit (GFW limit), should be more restrictive
    let max_limited = max_payload_len_for_domain_with_max_subdomain(domain, Some(101))
        .expect("max payload with limit");

    assert!(max_limited <= max_unlimited, "Limited max should be <= unlimited");

    // Test that build_qname respects the limit
    let payload = vec![0u8; max_limited];
    let result = build_qname_with_max_subdomain_length(&payload, domain, Some(101));
    assert!(result.is_ok(), "Should succeed with payload at limit");

    // Test that exceeding limit fails
    if max_limited > 0 {
        let payload_too_large = vec![0u8; max_limited + 1];
        let result = build_qname_with_max_subdomain_length(&payload_too_large, domain, Some(101));
        // This might fail due to payload size or subdomain length, both are valid
        assert!(result.is_err(), "Should fail when exceeding limit");
    }
}

#[test]
fn build_qname_respects_subdomain_length_limit() {
    let domain = "test.com";
    // Create a payload that would produce a subdomain > 101 chars
    // Base32 encoding: each byte becomes ~1.6 chars
    // So ~63 bytes should produce ~101 base32 chars
    let payload = vec![0u8; 63];
    let result = build_qname_with_max_subdomain_length(&payload, domain, Some(101));
    // Should either succeed (if it fits) or fail gracefully
    match result {
        Ok(qname) => {
            // Extract subdomain (everything before the domain)
            let subdomain = qname.strip_suffix(&format!(".{}.", domain)).unwrap();
            assert!(subdomain.len() <= 101, "Subdomain should respect limit");
        }
        Err(_) => {
            // Failure is acceptable if payload is too large
        }
    }
}

#[test]
fn exact_capacity_for_test_com() {
    // budget 255 - ("test.com".len() + 1) = 246; the longest base32 string
    // whose dotted form fits is 242 characters; 242 * 5 / 8 = 151 bytes
    assert_eq!(max_payload_len_for_domain("test.com").unwrap(), 151);
}

#[test]
fn capacity_boundary_is_exact() {
    let domain = "example.com";
    let cap = max_payload_len_for_domain(domain).unwrap();
    assert!(build_qname(&vec![7u8; cap], domain).is_ok());
    assert_eq!(
        build_qname(&vec![7u8; cap + 1], domain),
        Err(DnsError::PayloadTooLarge)
    );
}

#[test]
fn empty_domain_is_rejected() {
    assert_eq!(max_payload_len_for_domain(""), Err(DnsError::EmptyDomain));
    assert_eq!(max_payload_len_for_domain("..."), Err(DnsError::EmptyDomain));
    assert_eq!(build_qname(b"x", "."), Err(DnsError::EmptyDomain));
}

#[test]
fn long_domain_error_kind() {
    let domain = format!("{}.com", "a".repeat(260));
    assert_eq!(
        max_payload_len_for_domain(&domain),
        Err(DnsError::DomainTooLong)
    );
    assert_eq!(build_qname(b"x", &domain), Err(DnsError::DomainTooLong));
}

#[test]
fn qname_shape_and_trailing_dot() {
    let qname = build_qname(b"fo", "Example.COM.").unwrap();
    // trailing dots of the domain are trimmed, one is appended again
    assert_eq!(qname, "mzxq.Example.COM.");
}

#[test]
fn zero_ceiling_gives_zero_capacity() {
    assert_eq!(
        max_payload_len_for_domain_with_max_subdomain("example.com", Some(0)).unwrap(),
        0
    );
}

#[test]
fn ceiling_monotonicity_samples() {
    let domain = "example.com";
    let mut last = 0usize;
    for c in [0usize, 1, 2, 57, 58, 101, 150, 246, 300] {
        let cap = max_payload_len_for_domain_with_max_subdomain(domain, Some(c)).unwrap();
        assert!(cap >= last, "capacity must not shrink as the ceiling grows");
        last = cap;
    }
}
