use icap_parser::{HelloSummary, Ja4, Ja4ComputeError};

#[test]
fn fingerprint_text_for_a_plain_hello() {
    let hello = HelloSummary {
        protocol_version: 0x0304,
        negotiated_version: None,
        cipher_suites: vec![0x1301, 0x0a0a, 0x1302],
        extension_ids: vec![0x0000, 0x0010, 0x002b, 0xfafa],
        alpn: Some(b"h2".to_vec()),
        signature_algorithms: vec![0x0403, 0x1a1a],
    };
    let ja4 = Ja4::compute(&hello).unwrap();
    assert_eq!(ja4.to_human_string(), "t13d0203h2_1301,1302_002b_0403");
    assert_eq!(ja4.hash_string(), "t13d0203h2_62ed6f6ca7ad_7349c354053c");
}

#[test]
fn fingerprint_text_for_quic_without_sni() {
    let hello = HelloSummary {
        protocol_version: 0x0301,
        negotiated_version: Some(0x0303),
        cipher_suites: vec![0x00ff],
        extension_ids: vec![57],
        alpn: None,
        signature_algorithms: vec![],
    };
    let ja4 = Ja4::compute(&hello).unwrap();
    assert_eq!(ja4.to_human_string(), "q12i010100_00ff_0039");
    assert_eq!(ja4.hash_string(), "q12i010100_8909cde2f411_2cfe23c976cf");
}

#[test]
fn cipher_suites_are_sorted_and_counted() {
    let hello = HelloSummary {
        protocol_version: 0x0303,
        negotiated_version: None,
        cipher_suites: vec![0xc030, 0x1301, 0x009c],
        extension_ids: vec![],
        alpn: Some(b"http/1.1".to_vec()),
        signature_algorithms: vec![],
    };
    let ja4 = Ja4::compute(&hello).unwrap();
    // alpn contributes its first and last characters
    assert_eq!(ja4.to_human_string(), "t12i0300h1_009c,1301,c030_");
    // an empty extension-and-signature part hashes to the zero placeholder
    assert_eq!(ja4.hash_string(), "t12i0300h1_dfd9b5ef2c07_000000000000");
}

#[test]
fn fingerprint_compute_errors() {
    let bad_version = HelloSummary {
        protocol_version: 0x1234,
        negotiated_version: None,
        cipher_suites: vec![0x1301],
        extension_ids: vec![],
        alpn: None,
        signature_algorithms: vec![],
    };
    assert_eq!(
        Ja4::compute(&bad_version).unwrap_err(),
        Ja4ComputeError::InvalidTlsVersion
    );

    let all_grease = HelloSummary {
        protocol_version: 0x0304,
        negotiated_version: None,
        cipher_suites: vec![0x0a0a, 0x2a2a],
        extension_ids: vec![],
        alpn: None,
        signature_algorithms: vec![],
    };
    assert_eq!(
        Ja4::compute(&all_grease).unwrap_err(),
        Ja4ComputeError::EmptyCipherSuites
    );

    assert_eq!(
        Ja4ComputeError::MissingClientHello.describe(),
        "Ja4 Compute Error: missing client hello"
    );
    assert_eq!(
        Ja4ComputeError::EmptyCipherSuites.describe(),
        "Ja4 Compute Error: empty cipher suites"
    );
    assert_eq!(
        Ja4ComputeError::InvalidTlsVersion.describe(),
        "Ja4 Compute Error: invalid tls version"
    );
}
