use rainbow::metadata::PacketInfo;
use rainbow::rainbow::{generate_stego_packet_with_length, Rainbow, CHUNK_SIZE, MAX_HEAD};
use rainbow::stego::MIME_TYPES;
use rainbow::utils::{
    extract_http_parts, generate_random_api_path, generate_random_static_path,
    generate_realistic_headers, random_string, validate_http_packet, API_PATHS, STATIC_PATHS,
};
use rainbow::{Name, RainbowError, SteganographyProcessor};
use rand::rngs::StdRng;
use rand::SeedableRng;

fn text(p: &[u8]) -> String {
    String::from_utf8_lossy(p).to_string()
}

#[test]
fn test_generate_packet_with_small_length() {
    let mut rng = StdRng::seed_from_u64(1);
    let target_length = 500;
    let request = generate_stego_packet_with_length(&mut rng, target_length, true).unwrap();
    assert_eq!(request.len(), target_length);
    let request_str = text(&request);
    assert!(request_str.starts_with("GET ") || request_str.starts_with("POST "));
}

#[test]
fn test_generate_packet_with_length() {
    let mut rng = StdRng::seed_from_u64(2);
    let target_length = 2000;
    let request = generate_stego_packet_with_length(&mut rng, target_length, true).unwrap();
    assert_eq!(request.len(), target_length);
    let request_str = text(&request);
    assert!(request_str.starts_with("GET ") || request_str.starts_with("POST "));

    let target_length = 3000;
    let response = generate_stego_packet_with_length(&mut rng, target_length, false).unwrap();
    assert_eq!(response.len(), target_length);
    assert!(text(&response).starts_with("HTTP/1.1"));
}

#[test]
fn length_targeting_hits_every_length_in_a_range() {
    let mut rng = StdRng::seed_from_u64(3);
    for target in (1000..1400).step_by(7) {
        for is_request in [true, false] {
            let packet = generate_stego_packet_with_length(&mut rng, target, is_request).unwrap();
            assert_eq!(packet.len(), target);
            assert!(validate_http_packet(&packet));
        }
    }
}

#[test]
fn length_targeting_rejects_a_target_below_the_headers() {
    let mut rng = StdRng::seed_from_u64(4);
    match generate_stego_packet_with_length(&mut rng, 40, true) {
        Err(RainbowError::InvalidData(_)) => {}
        _ => panic!("a 40-byte target cannot hold the headers"),
    }
}

#[test]
fn test_encode_write_basic() {
    let rainbow = Rainbow::new();
    let test_data = b"Hello, World!";
    let (packets, lengths) = rainbow.encode_write(test_data, true, None).unwrap();
    assert!(!packets.is_empty());
    assert_eq!(packets.len(), lengths.len());
    assert_eq!(lengths[0], 13);
}

#[test]
fn test_encode_write_large_data() {
    let rainbow = Rainbow::new();
    let test_data = vec![0u8; CHUNK_SIZE * 2 + 100];
    let (packets, lengths) = rainbow.encode_write(&test_data, true, None).unwrap();
    assert_eq!(packets.len(), 3);
    assert_eq!(lengths.len(), 3);
    assert_eq!(lengths, vec![1024, 1024, 100]);
}

#[test]
fn test_expected_lengths_ranges() {
    let rainbow = Rainbow::new();
    let test_data = b"Test Data";
    let (_, client_lengths) = rainbow.encode_write(test_data, true, None).unwrap();
    assert_eq!(client_lengths[0], 9);
    let (_, server_lengths) = rainbow.encode_write(test_data, false, None).unwrap();
    assert_eq!(server_lengths[0], 9);
}

#[test]
fn test_request_response_format() {
    let rainbow = Rainbow::new();
    let test_data = b"Test Data";
    let (request_packets, _) = rainbow.encode_write(test_data, true, None).unwrap();
    let request = text(&request_packets[0]);
    assert!(request.starts_with("GET ") || request.starts_with("POST "));
    let (response_packets, _) = rainbow.encode_write(test_data, false, None).unwrap();
    assert!(text(&response_packets[0]).starts_with("HTTP/1.1"));
}

#[test]
fn test_mime_type_handling() {
    let rainbow = Rainbow::new();
    let test_data = b"Test Data";
    let (packets, _) = rainbow
        .encode_write(test_data, true, Some("text/plain".to_string()))
        .unwrap();
    let packet = text(&packets[0]);
    assert!(packet.starts_with("GET "));
    assert!(packet.contains("X-Data:"));
    assert!(packet.contains("X-Data: VGVzdCBEYXRh\r\n"));
}

#[test]
fn test_packet_info_cookie() {
    let info = PacketInfo::new(0, 1, 10);
    let cookie = info.to_cookie();
    let decoded = PacketInfo::from_cookie(&cookie).unwrap();
    assert_eq!(info.index, decoded.index);
    assert_eq!(info.total, decoded.total);
    assert_eq!(info.length, decoded.length);
    assert_eq!(info.version, decoded.version);
}

#[test]
fn packet_info_json_text() {
    let info = PacketInfo { version: 1, timestamp: 1700000000, index: 2, total: 3, length: 100 };
    assert_eq!(
        String::from_utf8(info.to_json()).unwrap(),
        "{\"version\":1,\"timestamp\":1700000000,\"index\":2,\"total\":3,\"length\":100}"
    );
    assert_eq!(PacketInfo::from_cookie(&info.to_cookie()).unwrap(), info);
}

#[test]
fn packet_info_format_errors() {
    assert!(matches!(PacketInfo::from_cookie(b"***"), Err(RainbowError::Base64Error(_))));
    // "e30=" is the base64 text of "{}".
    assert!(matches!(PacketInfo::from_cookie(b"e30="), Err(RainbowError::JsonError(_))));
}

#[test]
fn test_full_encode_decode_cycle() {
    let rainbow = Rainbow::new();
    let test_data = b"Hello, World!";
    let (packets, _lengths) = rainbow
        .encode_write(test_data, true, Some("application/octet-stream".to_string()))
        .unwrap();
    assert_eq!(packets.len(), 1);
    assert!(text(&packets[0]).starts_with("POST "));
    let (decoded, length, is_end) = rainbow.decrypt_single_read(packets[0].clone(), 0, true).unwrap();
    assert_eq!(&decoded, test_data);
    assert_eq!(length, test_data.len());
    assert!(is_end);
}

#[test]
fn test_invalid_packet_validation() {
    let rainbow = Rainbow::new();
    let invalid_packet = b"Invalid HTTP packet".to_vec();
    let result = rainbow.decrypt_single_read(invalid_packet, 0, false);
    assert!(result.is_err());
}

#[test]
fn test_cookie_parsing() {
    let cookies = Rainbow::parse_cookies(b"visitor=test; _ga=123; JSESSIONID=abc");
    assert_eq!(cookies.len(), 3);
    assert!(cookies.contains(&b"visitor=test".to_vec()));
    assert!(cookies.contains(&b"_ga=123".to_vec()));
    assert!(cookies.contains(&b"JSESSIONID=abc".to_vec()));
}

#[test]
fn round_trip_every_type_and_role() {
    let rainbow = Rainbow::new();
    let mut rng = StdRng::seed_from_u64(21);
    let payload: Vec<u8> = (0..2500).map(|i| (i * 7 % 256) as u8).collect();
    let mut types: Vec<Option<String>> = MIME_TYPES.iter().map(|m| Some(m.to_string())).collect();
    types.push(Some("text/plain".to_string()));
    types.push(Some("application/octet-stream".to_string()));
    types.push(None);
    for mime in types {
        for is_client in [true, false] {
            let (packets, lengths) = rainbow
                .encode_write_with(&mut rng, &payload, is_client, mime.clone())
                .unwrap();
            let mut rebuilt = Vec::new();
            for (i, packet) in packets.iter().enumerate() {
                let (bytes, declared, last) =
                    rainbow.decrypt_single_read(packet.clone(), i, is_client).unwrap();
                assert_eq!(declared, lengths[i]);
                assert_eq!(bytes.len(), declared);
                assert_eq!(last, i + 1 == packets.len());
                rebuilt.extend_from_slice(&bytes);
            }
            assert_eq!(rebuilt, payload, "type {:?}, client {}", mime, is_client);
        }
    }
}

#[test]
fn opposite_role_is_rejected() {
    let rainbow = Rainbow::new();
    let mut rng = StdRng::seed_from_u64(22);
    for is_client in [true, false] {
        let (packets, _) = rainbow
            .encode_write_with(&mut rng, b"direction", is_client, None)
            .unwrap();
        assert!(validate_http_packet(&packets[0]));
        let starts = text(&packets[0]);
        if is_client {
            assert!(starts.starts_with("GET ") || starts.starts_with("POST "));
        } else {
            assert!(starts.starts_with("HTTP/1.1 "));
        }
        match rainbow.decrypt_single_read(packets[0].clone(), 0, !is_client) {
            Err(RainbowError::InvalidData(_)) => {}
            _ => panic!("a packet taken in the opposite role must be rejected"),
        }
    }
}

#[test]
fn end_of_stream_flags() {
    let rainbow = Rainbow::new();
    let mut rng = StdRng::seed_from_u64(23);
    let payload = vec![5u8; 3 * CHUNK_SIZE + 1];
    let (packets, lengths) = rainbow
        .encode_write_with(&mut rng, &payload, false, Some("text/css".to_string()))
        .unwrap();
    assert_eq!(packets.len(), 4);
    assert_eq!(lengths, vec![1024, 1024, 1024, 1]);
    for (i, packet) in packets.iter().enumerate() {
        let (_, _, last) = rainbow.decrypt_single_read(packet.clone(), i, false).unwrap();
        assert_eq!(last, i == 3);
    }
}

#[test]
fn empty_payload_makes_no_packets() {
    let rainbow = Rainbow::new();
    let (packets, lengths) = rainbow.encode_write(b"", true, None).unwrap();
    assert!(packets.is_empty());
    assert!(lengths.is_empty());
}

#[test]
fn exact_chunk_multiple() {
    let rainbow = Rainbow::new();
    let (packets, lengths) = rainbow.encode_write(&vec![1u8; 2048], false, None).unwrap();
    assert_eq!(packets.len(), 2);
    assert_eq!(lengths, vec![1024, 1024]);
}

#[test]
fn invalid_mime_type_is_rejected() {
    let rainbow = Rainbow::new();
    match rainbow.encode_write(b"data", true, Some("text/html\r\nX: y".to_string())) {
        Err(RainbowError::InvalidData(_)) => {}
        _ => panic!("a MIME type with a line break must be rejected"),
    }
}

#[test]
fn tampered_length_is_a_mismatch() {
    let rainbow = Rainbow::new();
    let mut rng = StdRng::seed_from_u64(24);
    let (packets, _) = rainbow
        .encode_write_with(&mut rng, b"abcdef", true, Some("application/octet-stream".to_string()))
        .unwrap();
    let mut packet = packets[0].clone();
    packet.push(b'!');
    match rainbow.decrypt_single_read(packet, 0, true) {
        Err(RainbowError::LengthMismatch(_)) => {}
        _ => panic!("a body longer than its record must be a length mismatch"),
    }
}

#[test]
fn missing_separator_and_record() {
    let rainbow = Rainbow::new();
    let no_blank = b"POST /upload HTTP/1.1\r\nContent-Type: text/plain\r\n".to_vec();
    assert!(matches!(
        rainbow.decrypt_single_read(no_blank, 0, true),
        Err(RainbowError::InvalidData(_))
    ));
    let no_record = b"POST /upload HTTP/1.1\r\nContent-Type: x/y\r\n\r\nbody".to_vec();
    assert!(matches!(
        rainbow.decrypt_single_read(no_record, 0, true),
        Err(RainbowError::InvalidData(_))
    ));
}

#[test]
fn accept_headers_and_status_draws() {
    let rainbow = Rainbow::new();
    assert_eq!(rainbow.get_accept_header("/assets/main.css"), "text/css,*/*;q=0.1");
    assert_eq!(rainbow.get_accept_header("/js/app.js"), "application/javascript,*/*;q=0.1");
    assert_eq!(rainbow.get_accept_header("/images/logo.png"), "image/png,image/*;q=0.8,*/*;q=0.5");
    assert_eq!(rainbow.get_accept_header("/api/v1/data"), "application/json");
    assert_eq!(rainbow.get_accept_header("/"), "*/*");
    assert_eq!(Rainbow::status_for_draw(0), 200);
    assert_eq!(Rainbow::status_for_draw(899), 200);
    assert_eq!(Rainbow::status_for_draw(900), 201);
    assert_eq!(Rainbow::status_for_draw(930), 202);
    assert_eq!(Rainbow::status_for_draw(960), 204);
    assert_eq!(Rainbow::status_for_draw(999), 206);
    assert_eq!(rainbow.name(), "rainbow");
}

#[test]
fn first_line_grammar() {
    assert!(validate_http_packet(b"GET /index.html HTTP/1.1\r\n\r\n"));
    assert!(validate_http_packet(b"HTTP/1.1 204 No Content\r\n\r\n"));
    assert!(!validate_http_packet(b"PUT /index.html HTTP/1.1\r\n\r\n"));
    assert!(!validate_http_packet(b"GET /a b HTTP/1.1\r\n\r\n\r\n"));
    assert!(!validate_http_packet(b"HTTP/1.1 2x4 Nope\r\n\r\n\r\n"));
    assert!(!validate_http_packet(b"GET / HTTP/1.1"));
}

#[test]
fn utility_paths_strings_and_headers() {
    let mut rng = StdRng::seed_from_u64(31);
    let s = random_string(&mut rng, 24);
    assert_eq!(s.len(), 24);
    assert!(s.chars().all(|c| c.is_ascii_alphanumeric()));
    let api = generate_random_api_path(&mut rng);
    assert!(API_PATHS.contains(&api.as_str()));
    let stat = generate_random_static_path(&mut rng);
    assert!(STATIC_PATHS.contains(&stat.as_str()));
    let request_headers = String::from_utf8(generate_realistic_headers(&mut rng, true)).unwrap();
    assert!(request_headers.contains("User-Agent: Mozilla/5.0"));
    assert!(request_headers.ends_with("Connection: keep-alive\r\n"));
    let response_headers = String::from_utf8(generate_realistic_headers(&mut rng, false)).unwrap();
    assert!(response_headers.starts_with("Server: "));
    assert!(!response_headers.contains("\r\n\r\n"));
}

#[test]
fn concrete_hello_world_scenario() {
    let rainbow = Rainbow::new();
    let mut rng = StdRng::seed_from_u64(32);
    let (packets, lengths) = rainbow
        .encode_write_with(&mut rng, b"Hello, World!", true, Some("application/octet-stream".to_string()))
        .unwrap();
    assert_eq!(packets.len(), 1);
    assert_eq!(lengths, vec![13]);
    let packet = text(&packets[0]);
    assert!(packet.starts_with("POST "));
    assert!(packet.contains("Content-Type: application/octet-stream\r\n"));
    assert!(packet.contains("Content-Length: 13\r\n"));
    assert!(packet.ends_with("\r\n\r\nHello, World!"));
    let (bytes, declared, last) = rainbow.decrypt_single_read(packets[0].clone(), 0, true).unwrap();
    assert_eq!(bytes, b"Hello, World!");
    assert_eq!(declared, 13);
    assert!(last);
}

#[test]
fn zero_fill_scenario_chunk_lengths() {
    let rainbow = Rainbow::new();
    let mut rng = StdRng::seed_from_u64(33);
    let payload = vec![0u8; 2148];
    let (packets, lengths) = rainbow.encode_write_with(&mut rng, &payload, true, None).unwrap();
    assert_eq!(packets.len(), 3);
    assert_eq!(lengths, vec![1024, 1024, 100]);
    let mut rebuilt = Vec::new();
    for (i, p) in packets.iter().enumerate() {
        let (bytes, declared, last) = rainbow.decrypt_single_read(p.clone(), i, true).unwrap();
        assert_eq!(declared, lengths[i]);
        assert_eq!(last, i == 2);
        rebuilt.extend(bytes);
    }
    assert_eq!(rebuilt, payload);
}

#[test]
fn minimal_target_is_exact() {
    // Below the smallest packet the head allows there is an error; from there on every length
    // is hit exactly, the smallest included.
    let mut found_floor = false;
    for target in 150..450 {
        let mut rng = StdRng::seed_from_u64(34);
        match generate_stego_packet_with_length(&mut rng, target, true) {
            Ok(p) => {
                assert_eq!(p.len(), target);
                found_floor = true;
            }
            Err(RainbowError::InvalidData(_)) => assert!(!found_floor),
            Err(_) => panic!("only InvalidData is expected"),
        }
    }
    assert!(found_floor);
}

#[test]
fn header_block_and_body_split() {
    let (head, body) =
        extract_http_parts(b"POST /upload HTTP/1.1\r\nContent-Length: 2\r\n\r\nhi\r\n\r\nx").unwrap();
    assert_eq!(head, b"POST /upload HTTP/1.1\r\nContent-Length: 2\r\n".to_vec());
    assert_eq!(body, b"hi\r\n\r\nx".to_vec());
    assert!(extract_http_parts(b"GET / HTTP/1.1\r\nHost: a\r\n").is_none());
}

#[test]
fn textual_type_with_parameters_goes_by_get() {
    let rainbow = Rainbow::new();
    let mut rng = StdRng::seed_from_u64(41);
    let (packets, _) = rainbow
        .encode_write_with(&mut rng, b"abc", true, Some("text/plain; charset=utf-8".to_string()))
        .unwrap();
    let packet = text(&packets[0]);
    assert!(packet.starts_with("GET "));
    assert!(packet.contains("X-Data: YWJj\r\n"));
    let (bytes, _, _) = rainbow.decrypt_single_read(packets[0].clone(), 0, true).unwrap();
    assert_eq!(bytes, b"abc");
}

#[test]
fn malformed_x_data_is_a_base64_error() {
    let rainbow = Rainbow::new();
    let mut rng = StdRng::seed_from_u64(42);
    let (packets, _) = rainbow
        .encode_write_with(&mut rng, b"abc", true, Some("text/plain".to_string()))
        .unwrap();
    let broken = text(&packets[0]).replace("X-Data: YWJj", "X-Data: Y*Jj");
    match rainbow.decode_single_packet(broken.as_bytes(), 0) {
        Err(RainbowError::Base64Error(_)) => {}
        _ => panic!("malformed base64 in X-Data must be a base64 error"),
    }
    assert!(matches!(
        rainbow.decrypt_single_read(broken.into_bytes(), 0, true),
        Err(RainbowError::Base64Error(_))
    ));
}

#[test]
fn cookie_pieces_skip_empty_ones() {
    let cookies = Rainbow::parse_cookies(b" a=1;; b=2 ;");
    assert_eq!(cookies, vec![b"a=1".to_vec(), b"b=2".to_vec()]);
    assert!(Rainbow::parse_cookies(b"").is_empty());
}

#[test]
fn length_targets_above_the_head_bound_always_succeed() {
    let mut rng = StdRng::seed_from_u64(43);
    for is_request in [true, false] {
        for target in [MAX_HEAD + 21, MAX_HEAD + 22, MAX_HEAD + 33, 5000] {
            let p = generate_stego_packet_with_length(&mut rng, target, is_request).unwrap();
            assert_eq!(p.len(), target);
            assert!(validate_http_packet(&p));
            assert!(text(&p).contains("\r\n\r\n"));
        }
    }
}

#[test]
fn length_targeted_packets_declare_their_body() {
    let mut rng = StdRng::seed_from_u64(44);
    for is_request in [true, false] {
        for target in [260usize, 300, 333, 420, 999, 1000, 1500, 2600] {
            let p = match generate_stego_packet_with_length(&mut rng, target, is_request) {
                Ok(p) => p,
                Err(RainbowError::InvalidData(_)) => continue,
                Err(_) => panic!("only InvalidData is expected"),
            };
            assert_eq!(p.len(), target);
            let s = text(&p);
            if is_request {
                assert!(s.starts_with("POST ") && s.lines().next().unwrap().ends_with(" HTTP/1.1"));
            } else {
                assert!(s.starts_with("HTTP/1.1 "));
            }
            assert_eq!(s.matches("Content-Length: ").count(), 1);
            let (head, body) = s.split_once("\r\n\r\n").unwrap();
            let declared = head.split("Content-Length: ").nth(1).unwrap().trim_end();
            assert_eq!(declared.parse::<usize>().unwrap(), body.len());
        }
    }
}
