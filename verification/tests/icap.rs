use icap_parser::{ByteParser, Encapsulated, Error, IcapMessage, Method, MessageParser, SectionType, State, Version};

#[test]
fn test_byte_parser() {
    let data = b"ICAP/1.0 200 OK\r\n";
    let mut parser = ByteParser::new(data);

    assert_eq!(parser.peek(), Some(b'I'));
    parser.advance();
    assert_eq!(parser.peek(), Some(b'C'));

    assert_eq!(parser.slice(), b"I");
    assert_eq!(parser.remaining(), b"CAP/1.0 200 OK\r\n");
    assert_eq!(parser.position(), 1);
}

#[test]
fn test_parse_request_line() {
    let mut parser = MessageParser::new();
    let data = b"REQMOD icap://example.org/modify ICAP/1.0\r\n";

    let result = parser.parse(data).unwrap();
    assert!(result.is_none()); // Need more data for complete message

    match parser.state() {
        State::Headers => {},
        _ => panic!("Expected Headers state"),
    }
}

#[test]
fn test_parse_headers() {
    let mut parser = MessageParser::new();
    let data = b"REQMOD icap://example.org/modify ICAP/1.0\r\nHost: example.org\r\nConnection: close\r\nEncapsulated: req-hdr=0\r\n"; // No final \r\n and no HTTP message

    let result = parser.parse(data).unwrap();
    assert!(result.is_none()); // Need more data for complete message

    match parser.state() {
        State::Headers => {}, // Still in Headers state because we haven't seen the final \r\n
        _ => panic!("Expected Headers state"),
    }
}

#[test]
fn test_parse_encapsulated() {
    let mut parser = MessageParser::new();
    let data = b"RESPMOD icap://icap.example.org/satisf ICAP/1.0\r\nHost: icap.example.org\r\nEncapsulated: req-hdr=0, res-hdr=137, res-body=296\r\n\r\nGET /origin-resource HTTP/1.1\r\nHost: www.origin-server.com\r\nAccept: text/html, text/plain, image/gif\r\nAccept-Encoding: gzip, compress\r\n\r\nHTTP/1.1 200 OK\r\nDate: Mon, 10 Jan 2000 09:52:22 GMT\r\nServer: Apache/1.3.6 (Unix)\r\nETag: \"63840-1ab7-378d415b\"\r\nContent-Type: text/html\r\nContent-Length: 51\r\n\r\n33\r\nThis is data that was returned by an origin server.\r\n0\r\n\r\n";

    let result = parser.parse(data).unwrap().unwrap();
    match result {
        IcapMessage::Request { method, uri, headers, encapsulated, .. } => {
            assert_eq!(method, Method::RespMod);
            assert_eq!(uri, "icap://icap.example.org/satisf");
            assert_eq!(headers.get("Host").unwrap(), "icap.example.org");
            assert!(encapsulated.contains(&SectionType::RequestHeader));
            assert!(encapsulated.contains(&SectionType::ResponseHeader));
        },
        _ => panic!("Expected Request"),
    }
}

#[test]
fn test_parse_response() {
    let mut parser = MessageParser::new();
    let data = b"ICAP/1.0 200 OK\r\nServer: IcapServer/1.0\r\nConnection: close\r\nEncapsulated: null-body=0\r\n\r\n";

    let result = parser.parse(data).unwrap().unwrap();
    match result {
        IcapMessage::Response { version, status, reason, headers, .. } => {
            assert_eq!(version, Version::V1_0);
            assert_eq!(status, 200);
            assert_eq!(reason, "OK");
            assert_eq!(headers.get("Server").unwrap(), "IcapServer/1.0");
        },
        _ => panic!("Expected Response"),
    }
}

#[test]
fn test_read_line() {
    let mut parser = MessageParser::new();
    parser.feed(b"line1\r\nline2\r\n");

    let line1 = parser.read_line().unwrap().unwrap();
    assert_eq!(line1, b"line1");

    let line2 = parser.read_line().unwrap().unwrap();
    assert_eq!(line2, b"line2");

    assert!(parser.read_line().unwrap().is_none());
}

#[test]
fn test_parse_error_cases() {
    let mut parser = MessageParser::new();

    // Invalid method
    let data = b"INVALID icap://example.org/modify ICAP/1.0\r\n\r\n";
    assert!(parser.parse(data).is_err());

    // Reset parser
    parser = MessageParser::new();

    // Invalid version
    let data = b"REQMOD icap://example.org/modify ICAP/2.0\r\n\r\n";
    assert!(parser.parse(data).is_err());

    // Reset parser
    parser = MessageParser::new();

    // Missing Encapsulated header for REQMOD
    let data = b"REQMOD icap://example.org/modify ICAP/1.0\r\nHost: example.org\r\n\r\n";
    assert!(parser.parse(data).is_err());

    // Reset parser
    parser = MessageParser::new();

    // Missing Encapsulated header for RESPMOD
    let data = b"RESPMOD icap://example.org/modify ICAP/1.0\r\nHost: example.org\r\n\r\n";
    assert!(parser.parse(data).is_err());

    // Reset parser
    parser = MessageParser::new();

    // OPTIONS request without Encapsulated header should be OK
    let data = b"OPTIONS icap://example.org/modify ICAP/1.0\r\nHost: example.org\r\n\r\n";
    assert!(parser.parse(data).is_ok());

    // Reset parser
    parser = MessageParser::new();

    // Response without Encapsulated header should be OK
    let data = b"ICAP/1.0 200 OK\r\nServer: test-server/1.0\r\n\r\n";
    assert!(parser.parse(data).is_ok());
}

#[test]
fn header_name_length_cap() {
    // exactly 100 bytes is accepted
    let name = "n".repeat(100);
    let data = format!(
        "OPTIONS icap://example.org/ ICAP/1.0\r\n{}: v\r\n\r\n",
        name
    );
    let mut parser = MessageParser::new();
    let msg = parser.parse(data.as_bytes()).unwrap().unwrap();
    match msg {
        IcapMessage::Request { headers, .. } => {
            assert_eq!(headers.get(&name).unwrap(), "v");
        },
        _ => panic!("expected request"),
    }

    // 101 bytes is rejected as message-too-large
    let name = "n".repeat(101);
    let data = format!(
        "OPTIONS icap://example.org/ ICAP/1.0\r\n{}: v\r\n\r\n",
        name
    );
    let mut parser = MessageParser::new();
    let err = parser.parse(data.as_bytes()).unwrap_err();
    assert_eq!(err, Error::MessageTooLarge);
    assert_eq!(err.wire_name(), "message-too-large");
}

#[test]
fn header_value_length_cap() {
    // exactly 4096 bytes is accepted
    let value = "v".repeat(4096);
    let data = format!("OPTIONS icap://x/ ICAP/1.0\r\nBig: {}\r\n\r\n", value);
    let mut parser = MessageParser::new();
    let msg = parser.parse(data.as_bytes()).unwrap().unwrap();
    match msg {
        IcapMessage::Request { headers, .. } => {
            assert_eq!(headers.get("Big").unwrap(), value);
        },
        _ => panic!("expected request"),
    }

    // 4097 bytes is rejected
    let value = "v".repeat(4097);
    let data = format!("OPTIONS icap://x/ ICAP/1.0\r\nBig: {}\r\n\r\n", value);
    let mut parser = MessageParser::new();
    assert_eq!(parser.parse(data.as_bytes()).unwrap_err(), Error::MessageTooLarge);
}

#[test]
fn header_count_cap() {
    // exactly 100 headers are accepted
    let mut data = String::from("OPTIONS icap://x/ ICAP/1.0\r\n");
    for i in 0..100 {
        data.push_str(&format!("name{}: v\r\n", i));
    }
    data.push_str("\r\n");
    let mut parser = MessageParser::new();
    let msg = parser.parse(data.as_bytes()).unwrap().unwrap();
    match msg {
        IcapMessage::Request { headers, .. } => assert_eq!(headers.len(), 100),
        _ => panic!("expected request"),
    }

    // the 101st header triggers rejection
    let mut data = String::from("OPTIONS icap://x/ ICAP/1.0\r\n");
    for i in 0..101 {
        data.push_str(&format!("name{}: v\r\n", i));
    }
    data.push_str("\r\n");
    let mut parser = MessageParser::new();
    assert_eq!(parser.parse(data.as_bytes()).unwrap_err(), Error::MessageTooLarge);
}

#[test]
fn unknown_minor_version_is_rejected() {
    let mut parser = MessageParser::new();
    let err = parser.parse(b"ICAP/1.2 200 OK\r\n\r\n").unwrap_err();
    assert_eq!(err, Error::InvalidVersion);
    assert_eq!(err.wire_name(), "invalid-version");
}

#[test]
fn encapsulated_requirement_by_method() {
    // REQMOD without Encapsulated is an error with the exact kind
    let mut parser = MessageParser::new();
    let err = parser
        .parse(b"REQMOD icap://example.org/modify ICAP/1.0\r\nHost: example.org\r\n\r\n")
        .unwrap_err();
    assert_eq!(err, Error::MissingEncapsulated);
    assert_eq!(err.wire_name(), "missing-encapsulated");

    // the same omission on OPTIONS is accepted, with a null body
    let mut parser = MessageParser::new();
    let msg = parser
        .parse(b"OPTIONS icap://example.org/modify ICAP/1.0\r\nHost: example.org\r\n\r\n")
        .unwrap()
        .unwrap();
    match msg {
        IcapMessage::Request { method, encapsulated, .. } => {
            assert_eq!(method, Method::Options);
            assert_eq!(encapsulated, Encapsulated::NullBody);
        },
        _ => panic!("expected request"),
    }
}

#[test]
fn non_hex_chunk_size_is_rejected() {
    let mut parser = MessageParser::new();
    let data = b"REQMOD icap://x/ ICAP/1.0\r\nEncapsulated: req-body=0\r\n\r\nxyz\r\ndata\r\n0\r\n\r\n";
    let err = parser.parse(data).unwrap_err();
    assert_eq!(err, Error::InvalidChunkSize);
    assert_eq!(err.wire_name(), "invalid-chunk-size");
}

#[test]
fn minimal_response_with_null_body() {
    let mut parser = MessageParser::new();
    let data = b"ICAP/1.0 200 OK\r\nServer: IcapServer/1.0\r\nConnection: close\r\nEncapsulated: null-body=0\r\n\r\n";
    let msg = parser.parse(data).unwrap().unwrap();
    match msg {
        IcapMessage::Response { version, status, reason, headers, encapsulated } => {
            assert_eq!(version, Version::V1_0);
            assert_eq!(status, 200);
            assert_eq!(reason, "OK");
            assert_eq!(headers.get("Server").unwrap(), "IcapServer/1.0");
            assert_eq!(headers.get("Connection").unwrap(), "close");
            assert_eq!(encapsulated, Encapsulated::NullBody);
        },
        _ => panic!("expected response"),
    }
}

#[test]
fn options_request_without_encapsulated() {
    let mut parser = MessageParser::new();
    let data = b"OPTIONS icap://example.org/modify ICAP/1.0\r\nHost: example.org\r\n\r\n";
    let msg = parser.parse(data).unwrap().unwrap();
    match msg {
        IcapMessage::Request { method, uri, version, headers, encapsulated } => {
            assert_eq!(method, Method::Options);
            assert_eq!(uri, "icap://example.org/modify");
            assert_eq!(version, Version::V1_0);
            assert_eq!(headers.get("Host").unwrap(), "example.org");
            assert_eq!(encapsulated, Encapsulated::NullBody);
        },
        _ => panic!("expected request"),
    }
}

#[test]
fn reqmod_with_missing_encapsulated() {
    let mut parser = MessageParser::new();
    let data = b"REQMOD icap://example.org/modify ICAP/1.0\r\nHost: example.org\r\n\r\n";
    let err = parser.parse(data).unwrap_err();
    assert_eq!(err, Error::MissingEncapsulated);
}

#[test]
fn invalid_method_is_rejected() {
    let mut parser = MessageParser::new();
    let err = parser.parse(b"FOO icap://x ICAP/1.0\r\n\r\n").unwrap_err();
    assert_eq!(err, Error::InvalidMethod);
    assert_eq!(err.wire_name(), "invalid-method");
}

#[test]
fn respmod_with_headers_and_chunked_body() {
    let mut parser = MessageParser::new();
    let req_hdr = b"GET /origin-resource HTTP/1.1\r\nHost: www.origin-server.com\r\nAccept: text/html, text/plain, image/gif\r\nAccept-Encoding: gzip, compress\r\n\r\n";
    let res_hdr = b"HTTP/1.1 200 OK\r\nDate: Mon, 10 Jan 2000 09:52:22 GMT\r\nServer: Apache/1.3.6 (Unix)\r\nETag: \"63840-1ab7-378d415b\"\r\nContent-Type: text/html\r\nContent-Length: 51\r\n\r\n";
    assert_eq!(req_hdr.len(), 137);
    assert_eq!(res_hdr.len(), 159);

    let mut data = Vec::new();
    data.extend_from_slice(b"RESPMOD icap://icap.example.org/satisf ICAP/1.0\r\n");
    data.extend_from_slice(b"Host: icap.example.org\r\n");
    data.extend_from_slice(b"Encapsulated: req-hdr=0, res-hdr=137, res-body=296\r\n\r\n");
    data.extend_from_slice(req_hdr);
    data.extend_from_slice(res_hdr);
    data.extend_from_slice(b"33\r\nThis is data that was returned by an origin server.\r\n0\r\n\r\n");

    let msg = parser.parse(&data).unwrap().unwrap();
    match msg {
        IcapMessage::Request { method, headers, encapsulated, .. } => {
            assert_eq!(method, Method::RespMod);
            assert_eq!(headers.get("Host").unwrap(), "icap.example.org");
            match encapsulated {
                Encapsulated::RequestResponse { req_header, req_body, res_header, res_body } => {
                    assert_eq!(req_header.unwrap().as_ref(), &req_hdr[..]);
                    assert!(req_body.is_none());
                    assert_eq!(res_header.unwrap().as_ref(), &res_hdr[..]);
                    assert_eq!(
                        res_body.unwrap().as_ref(),
                        b"This is data that was returned by an origin server.".as_slice()
                    );
                },
                other => panic!("expected request and response sections, got {:?}", other),
            }
        },
        _ => panic!("expected request"),
    }
}

#[test]
fn byte_by_byte_feed_matches_one_shot() {
    let data: &[u8] = b"ICAP/1.0 200 OK\r\nServer: IcapServer/1.0\r\nConnection: close\r\nEncapsulated: null-body=0\r\n\r\n";

    let mut one_shot = MessageParser::new();
    let expected = one_shot.parse(data).unwrap().unwrap();

    let mut streamed = MessageParser::new();
    let mut produced = None;
    for (i, b) in data.iter().enumerate() {
        let step = streamed.parse(std::slice::from_ref(b)).unwrap();
        if i + 1 < data.len() {
            assert!(step.is_none(), "message completed early at byte {}", i);
        } else {
            produced = step;
        }
    }
    assert_eq!(produced.unwrap(), expected);
}

#[test]
fn chunked_body_split_across_pushes() {
    let head = b"REQMOD icap://x/ ICAP/1.0\r\nEncapsulated: req-body=0\r\n\r\n";
    let body = b"5\r\nhello\r\n6\r\n world\r\n0\r\n\r\n";
    let mut parser = MessageParser::new();
    assert!(parser.parse(head).unwrap().is_none());
    assert!(parser.parse(&body[..7]).unwrap().is_none());
    let msg = parser.parse(&body[7..]).unwrap().unwrap();
    match msg {
        IcapMessage::Request { encapsulated, .. } => match encapsulated {
            Encapsulated::RequestOnly { header, body } => {
                assert!(header.is_none());
                assert_eq!(body.unwrap().as_ref(), b"hello world".as_slice());
            },
            other => panic!("expected a request body section, got {:?}", other),
        },
        _ => panic!("expected request"),
    }
}

#[test]
fn header_lookup_is_case_insensitive() {
    let mut parser = MessageParser::new();
    let data = b"OPTIONS icap://x/ ICAP/1.0\r\nX-Mixed-Case: yes\r\n\r\n";
    let msg = parser.parse(data).unwrap().unwrap();
    match msg {
        IcapMessage::Request { headers, .. } => {
            assert_eq!(headers.get("x-mixed-case").unwrap(), "yes");
            assert_eq!(headers.get("X-MIXED-CASE").unwrap(), "yes");
            assert_eq!(headers.get("x-mixed-case"), headers.get("X-MIXED-CASE"));
            assert!(headers.get("absent").is_none());
        },
        _ => panic!("expected request"),
    }
}

#[test]
fn status_out_of_range_is_rejected() {
    let mut parser = MessageParser::new();
    let err = parser.parse(b"ICAP/1.0 600 Strange\r\n\r\n").unwrap_err();
    assert_eq!(err, Error::InvalidStatus);
    assert_eq!(err.wire_name(), "invalid-status");

    let mut parser = MessageParser::new();
    assert_eq!(
        parser.parse(b"ICAP/1.0 abc Strange\r\n\r\n").unwrap_err(),
        Error::InvalidStatus
    );
}

#[test]
fn header_without_colon_is_rejected() {
    let mut parser = MessageParser::new();
    let err = parser
        .parse(b"OPTIONS icap://x/ ICAP/1.0\r\nno-colon-here\r\n\r\n")
        .unwrap_err();
    assert_eq!(err, Error::InvalidFormat);
    assert_eq!(err.wire_name(), "invalid-format");
}

#[test]
fn chunk_without_closing_crlf_is_rejected() {
    let mut parser = MessageParser::new();
    let data = b"REQMOD icap://x/ ICAP/1.0\r\nEncapsulated: req-body=0\r\n\r\n5\r\nhelloXY0\r\n\r\n";
    let err = parser.parse(data).unwrap_err();
    assert_eq!(err, Error::InvalidChunkEncoding);
    assert_eq!(err.wire_name(), "invalid-chunk-encoding");
}

#[test]
fn unknown_section_token_is_rejected() {
    let mut parser = MessageParser::new();
    let data = b"REQMOD icap://x/ ICAP/1.0\r\nEncapsulated: strange-part=0\r\n\r\n";
    let err = parser.parse(data).unwrap_err();
    assert_eq!(err, Error::InvalidEncapsulated);
    assert_eq!(err.wire_name(), "invalid-encapsulated");
}

#[test]
fn error_wire_names_are_stable() {
    assert_eq!(Error::InvalidMethod.wire_name(), "invalid-method");
    assert_eq!(Error::InvalidVersion.wire_name(), "invalid-version");
    assert_eq!(Error::InvalidStatus.wire_name(), "invalid-status");
    assert_eq!(Error::InvalidFormat.wire_name(), "invalid-format");
    assert_eq!(Error::MessageTooLarge.wire_name(), "message-too-large");
    assert_eq!(Error::MissingEncapsulated.wire_name(), "missing-encapsulated");
    assert_eq!(Error::InvalidEncapsulated.wire_name(), "invalid-encapsulated");
    assert_eq!(Error::InvalidChunkSize.wire_name(), "invalid-chunk-size");
    assert_eq!(Error::InvalidChunkEncoding.wire_name(), "invalid-chunk-encoding");
    assert_eq!(Error::InvalidMessage.wire_name(), "invalid-message");
}

#[test]
fn uri_text_is_decoded_from_utf8() {
    // a URI with a multi-byte character round-trips into the message text
    let data = "OPTIONS icap://example.org/caf\u{e9} ICAP/1.0\r\n\r\n".as_bytes().to_vec();
    let mut parser = MessageParser::new();
    let msg = parser.parse(&data).unwrap().unwrap();
    match msg {
        IcapMessage::Request { uri, .. } => assert_eq!(uri, "icap://example.org/caf\u{e9}"),
        _ => panic!("expected request"),
    }

    // bytes that are not valid UTF-8 in the URI are rejected
    let mut parser = MessageParser::new();
    let bad = b"OPTIONS icap://\xff/ ICAP/1.0\r\n\r\n";
    assert_eq!(parser.parse(bad).unwrap_err(), Error::InvalidFormat);
}

#[test]
fn out_of_order_offsets_are_sorted() {
    let head = b"REQMOD icap://x/ ICAP/1.0\r\nEncapsulated: req-body=2, req-hdr=0\r\n\r\n";
    let mut data = Vec::new();
    data.extend_from_slice(head);
    data.extend_from_slice(b"h\n3\r\nabc\r\n0\r\n\r\n");
    let mut parser = MessageParser::new();
    let msg = parser.parse(&data).unwrap().unwrap();
    match msg {
        IcapMessage::Request { encapsulated, .. } => match encapsulated {
            Encapsulated::RequestOnly { header, body } => {
                assert_eq!(header.unwrap().as_ref(), b"h\n".as_slice());
                assert_eq!(body.unwrap().as_ref(), b"abc".as_slice());
            },
            other => panic!("expected request sections, got {:?}", other),
        },
        _ => panic!("expected request"),
    }
}

#[test]
fn two_messages_back_to_back() {
    // a headers-only message consumes exactly its own bytes, so a second
    // message on the same connection parses next
    let first = b"OPTIONS icap://x/ ICAP/1.0\r\nHost: a\r\n\r\n";
    let second = b"OPTIONS icap://y/ ICAP/1.0\r\nHost: b\r\n\r\n";
    let mut data = Vec::new();
    data.extend_from_slice(first);
    data.extend_from_slice(second);

    let mut parser = MessageParser::new();
    let m1 = parser.parse(&data).unwrap().unwrap();
    match m1 {
        IcapMessage::Request { uri, .. } => assert_eq!(uri, "icap://x/"),
        _ => panic!("expected request"),
    }
    let m2 = parser.parse(b"").unwrap().unwrap();
    match m2 {
        IcapMessage::Request { uri, .. } => assert_eq!(uri, "icap://y/"),
        _ => panic!("expected request"),
    }
}
