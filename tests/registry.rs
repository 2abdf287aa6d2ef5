use rainbow::stego::{
    css, decode_mime, encode_mime, font, get_random_mime_type, grid, houdini, html, json, prism,
    rss, svg_path, xml, MIME_TYPES,
};
use rand::rngs::StdRng;
use rand::SeedableRng;

#[test]
fn test_mime_type_encoding() {
    let mut rng = StdRng::seed_from_u64(3);
    let test_data = b"Hello, MIME Type Steganography!";
    for mime_type in MIME_TYPES {
        let encoded = encode_mime(&mut rng, test_data, mime_type).unwrap();
        let decoded = decode_mime(&encoded, mime_type).unwrap();
        assert_eq!(decoded, test_data);
    }
}

#[test]
fn test_random_mime_type() {
    let mut rng = StdRng::seed_from_u64(4);
    let mime_type = get_random_mime_type(&mut rng);
    assert!(MIME_TYPES.iter().any(|mt| *mt == mime_type));
}

#[test]
fn test_unsupported_mime_type() {
    let mut rng = StdRng::seed_from_u64(5);
    let test_data = b"Hello, Unsupported MIME Type!";
    let encoded = encode_mime(&mut rng, test_data, "unsupported/type").unwrap();
    assert_eq!(encoded, test_data);
    let decoded = decode_mime(&encoded, "unsupported/type").unwrap();
    assert_eq!(decoded, test_data);
}

#[test]
fn test_empty_data_mime() {
    let mut rng = StdRng::seed_from_u64(6);
    for mime_type in MIME_TYPES {
        let encoded = encode_mime(&mut rng, b"", mime_type).unwrap();
        let decoded = decode_mime(&encoded, mime_type).unwrap();
        assert!(decoded.is_empty());
    }
}

#[test]
fn test_large_data_mime() {
    let mut rng = StdRng::seed_from_u64(7);
    let test_data: Vec<u8> = (0..2000).map(|i| (i % 256) as u8).collect();
    for mime_type in MIME_TYPES {
        let encoded = encode_mime(&mut rng, &test_data, mime_type).unwrap();
        let decoded = decode_mime(&encoded, mime_type).unwrap();
        assert!(!decoded.is_empty());
        assert_eq!(decoded, test_data);
    }
}

#[test]
fn every_variant_of_a_type_is_chosen_and_decoded() {
    let mut rng = StdRng::seed_from_u64(8);
    for mime_type in MIME_TYPES {
        for _ in 0..12 {
            let encoded = encode_mime(&mut rng, b"variant", mime_type).unwrap();
            assert_eq!(decode_mime(&encoded, mime_type).unwrap(), b"variant");
        }
    }
}

#[test]
fn codec_isolation_across_decoders() {
    let mut rng = StdRng::seed_from_u64(9);
    let data = b"isolation";
    let outputs: Vec<Vec<u8>> = vec![
        html::encode(&mut rng, data).unwrap(),
        prism::encode(data).unwrap(),
        font::encode(data).unwrap(),
        css::encode(data).unwrap(),
        houdini::encode(data).unwrap(),
        grid::encode(data).unwrap(),
        json::encode(data).unwrap(),
        xml::encode(data).unwrap(),
        rss::encode(data).unwrap(),
        svg_path::encode(data).unwrap(),
    ];
    let decoders: Vec<fn(&[u8]) -> Result<Vec<u8>, rainbow::RainbowError>> = vec![
        html::decode,
        prism::decode,
        font::decode,
        css::decode,
        houdini::decode,
        grid::decode,
        json::decode,
        xml::decode,
        rss::decode,
        svg_path::decode,
    ];
    for (a, out) in outputs.iter().enumerate() {
        for (b, dec) in decoders.iter().enumerate() {
            let got = dec(out).unwrap();
            if a == b {
                assert_eq!(got, data);
            } else {
                assert!(got.is_empty(), "decoder {} took the output of codec {}", b, a);
            }
        }
    }
}
