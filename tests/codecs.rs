use rainbow::stego::audio::AudioEncoder;
use rainbow::stego::{css, font, grid, houdini, html, json, prism, rss, svg_path, xml, Encoder};
use rand::rngs::StdRng;
use rand::SeedableRng;

fn rng() -> StdRng {
    StdRng::seed_from_u64(11)
}

fn ramp() -> Vec<u8> {
    (0..2000).map(|i| (i % 256) as u8).collect()
}

#[test]
fn test_html() {
    let test_data = b"Hello, HTML Steganography!";
    let encoded = html::encode(&mut rng(), test_data).unwrap();
    assert!(!encoded.is_empty());
    let decoded = html::decode(&encoded).unwrap();
    assert_eq!(decoded, test_data);
}

#[test]
fn html_test_empty_data() {
    let encoded = html::encode(&mut rng(), b"").unwrap();
    assert!(!encoded.is_empty());
    let decoded = html::decode(&encoded).unwrap();
    assert!(decoded.is_empty());
}

#[test]
fn html_test_large_data() {
    let test_data = ramp();
    let encoded = html::encode(&mut rng(), &test_data).unwrap();
    let decoded = html::decode(&encoded).unwrap();
    assert!(!decoded.is_empty());
    assert_eq!(decoded, test_data);
}

#[test]
fn html_test_invalid_input() {
    assert!(html::decode(b"").unwrap().is_empty());
    assert!(html::decode(b"invalid content").unwrap().is_empty());
}

#[test]
fn html_both_templates_round_trip() {
    for seed in 0..8 {
        let mut r = StdRng::seed_from_u64(seed);
        let encoded = html::encode(&mut r, b"template").unwrap();
        assert_eq!(html::decode(&encoded).unwrap(), b"template");
    }
}

#[test]
fn test_prism() {
    let test_data = b"Hello, Prism Steganography!";
    let encoded = prism::encode(test_data).unwrap();
    assert!(!encoded.is_empty());
    assert_eq!(prism::decode(&encoded).unwrap(), test_data);
}

#[test]
fn prism_test_empty_data() {
    let encoded = prism::encode(b"").unwrap();
    assert!(!encoded.is_empty());
    assert!(prism::decode(&encoded).unwrap().is_empty());
}

#[test]
fn prism_test_large_data() {
    let test_data = ramp();
    let encoded = prism::encode(&test_data).unwrap();
    let decoded = prism::decode(&encoded).unwrap();
    assert!(!decoded.is_empty());
    assert_eq!(decoded, test_data);
}

#[test]
fn prism_test_invalid_input() {
    assert!(prism::decode(b"").unwrap().is_empty());
    assert!(prism::decode(b"invalid content").unwrap().is_empty());
}

#[test]
fn prism_nests_one_base64_character_per_element() {
    let encoded = String::from_utf8(prism::encode(b"M").unwrap()).unwrap();
    assert!(encoded.contains("<div class=\"l3\">T</div>"));
    assert!(encoded.contains("<div class=\"l3\">Q</div>"));
    assert_eq!(encoded.matches("<div class=\"l1\">").count(), 4);
}

#[test]
fn test_font() {
    let test_data = b"Hello, Font Steganography!";
    let encoded = font::encode(test_data).unwrap();
    assert!(!encoded.is_empty());
    assert_eq!(font::decode(&encoded).unwrap(), test_data);
}

#[test]
fn font_test_empty_data() {
    let encoded = font::encode(b"").unwrap();
    assert!(!encoded.is_empty());
    assert!(font::decode(&encoded).unwrap().is_empty());
}

#[test]
fn font_test_large_data() {
    let test_data = ramp();
    let encoded = font::encode(&test_data).unwrap();
    assert!(!font::decode(&encoded).unwrap().is_empty());
    assert_eq!(font::decode(&encoded).unwrap(), test_data);
}

#[test]
fn font_test_invalid_input() {
    assert!(font::decode(b"").unwrap().is_empty());
    assert!(font::decode(b"invalid content").unwrap().is_empty());
}

#[test]
fn test_font_variation_encoding() {
    let byte = 123;
    let variation = font::byte_to_font_variation(byte, 0);
    assert!(variation.contains("font-variation-settings"));
    assert!(variation.contains("wght"));
    assert!(variation.contains("wdth"));
    assert!(variation.contains("slnt"));
}

#[test]
fn font_axis_values_for_a_byte() {
    // 123 = 0x7B: weight 100 + 7 * 50, width 100 + 11 * 5, slant (123 % 4) * 3.
    let variation = font::byte_to_font_variation(123, 42);
    assert_eq!(
        variation,
        "        .v042 { font-variation-settings: 'wght' 450, 'wdth' 155, 'slnt' 9; font-family: 'Variable'; }\n"
    );
}

#[test]
fn test_css_animation() {
    let test_data = b"Hello, CSS Animation Steganography!";
    let encoded = css::encode(test_data).unwrap();
    assert!(!encoded.is_empty());
    assert_eq!(css::decode(&encoded).unwrap(), test_data);
}

#[test]
fn css_test_empty_data() {
    let encoded = css::encode(b"").unwrap();
    assert!(!encoded.is_empty());
    assert!(css::decode(&encoded).unwrap().is_empty());
}

#[test]
fn css_delays_carry_bits_most_significant_first() {
    let encoded = String::from_utf8(css::encode(&[0b1010_0001]).unwrap()).unwrap();
    assert!(encoded.contains("animation-delay: 0.1s,0.2s,0.1s,0.2s,0.2s,0.2s,0.2s,0.1s;"));
}

#[test]
fn test_houdini() {
    let test_data = b"Hello, Houdini Steganography!";
    let encoded = houdini::encode(test_data).unwrap();
    assert!(!encoded.is_empty());
    assert_eq!(houdini::decode(&encoded).unwrap(), test_data);
}

#[test]
fn houdini_test_empty_data() {
    let encoded = houdini::encode(b"").unwrap();
    assert!(!encoded.is_empty());
    assert!(houdini::decode(&encoded).unwrap().is_empty());
}

#[test]
fn houdini_test_large_data() {
    let test_data = ramp();
    let encoded = houdini::encode(&test_data).unwrap();
    assert!(!houdini::decode(&encoded).unwrap().is_empty());
}

#[test]
fn houdini_test_invalid_input() {
    assert!(houdini::decode(b"").unwrap().is_empty());
    assert!(houdini::decode(b"invalid content").unwrap().is_empty());
}

#[test]
fn houdini_colour_split() {
    // 0xB6 = 101 101 10: red 5 * 32, green 5 * 32, blue 2 * 64.
    let encoded = String::from_utf8(houdini::encode(&[0xB6]).unwrap()).unwrap();
    assert!(encoded.contains("{\"color\":\"rgb(160,160,128)\"},"));
}

#[test]
fn test_grid() {
    let test_data = b"Hello, Grid Steganography!";
    let encoded = grid::encode(test_data).unwrap();
    assert!(!encoded.is_empty());
    assert_eq!(grid::decode(&encoded).unwrap(), test_data);
}

#[test]
fn grid_test_empty_data() {
    let encoded = grid::encode(b"").unwrap();
    assert!(encoded.is_empty());
    assert!(grid::decode(&encoded).unwrap().is_empty());
}

#[test]
fn grid_test_large_data() {
    let test_data = ramp();
    let encoded = grid::encode(&test_data).unwrap();
    assert!(!grid::decode(&encoded).unwrap().is_empty());
}

#[test]
fn grid_test_invalid_input() {
    assert!(grid::decode(b"").unwrap().is_empty());
    assert!(grid::decode(b"invalid content").unwrap().is_empty());
}

#[test]
fn test_detect() {
    let encoded = grid::encode(b"Hello, Grid!").unwrap();
    assert!(grid::detect(&encoded));
    assert!(!grid::detect(b"Regular CSS content"));
}

#[test]
fn grid_gap_and_area_values() {
    let encoded = String::from_utf8(grid::encode(&[7, 200, 65]).unwrap()).unwrap();
    assert!(encoded.contains("  grid-gap: 007px;\n  grid-area: a200;\n  grid-gap: 065px;\n"));
}

#[test]
fn test_json() {
    let test_data = b"Hello, JSON Steganography!";
    let encoded = json::encode(test_data).unwrap();
    assert!(!encoded.is_empty());
    assert_eq!(json::decode(&encoded).unwrap(), test_data);
}

#[test]
fn json_test_empty_data() {
    let encoded = json::encode(b"").unwrap();
    assert!(!encoded.is_empty());
    assert!(json::decode(&encoded).unwrap().is_empty());
}

#[test]
fn json_test_large_data() {
    let test_data = ramp();
    let encoded = json::encode(&test_data).unwrap();
    assert!(!json::decode(&encoded).unwrap().is_empty());
}

#[test]
fn json_test_invalid_input() {
    assert!(json::decode(b"").unwrap().is_empty());
    let result = json::decode(b"invalid content");
    assert!(result.is_err() || result.unwrap().is_empty());
}

#[test]
fn json_metadata_field_is_base64() {
    let encoded = String::from_utf8(json::encode(b"Man").unwrap()).unwrap();
    assert!(encoded.starts_with("{\"type\":\"metadata\",\"version\":\"1.0\",\"metadata\":\"TWFu\",\"timestamp\":"));
}

#[test]
fn test_rss() {
    let test_data = b"Hello, RSS Steganography!";
    let encoded = rss::encode(test_data).unwrap();
    assert!(!encoded.is_empty());
    assert_eq!(rss::decode(&encoded).unwrap(), test_data);
}

#[test]
fn rss_test_empty_data() {
    let encoded = rss::encode(b"").unwrap();
    assert!(!encoded.is_empty());
    assert!(rss::decode(&encoded).unwrap().is_empty());
}

#[test]
fn rss_test_large_data() {
    let test_data = ramp();
    let encoded = rss::encode(&test_data).unwrap();
    assert!(!rss::decode(&encoded).unwrap().is_empty());
}

#[test]
fn rss_test_invalid_input() {
    assert!(rss::decode(b"").unwrap().is_empty());
    assert!(rss::decode(b"invalid content").unwrap().is_empty());
}

#[test]
fn rss_item_is_dated() {
    let encoded = String::from_utf8(rss::encode(b"x").unwrap()).unwrap();
    assert!(encoded.contains("<guid isPermaLink=\"false\">eA==</guid>"));
    assert!(encoded.contains(" GMT</pubDate>"));
}

#[test]
fn xml_round_trip_and_empty() {
    let encoded = xml::encode(b"Hello, XML!").unwrap();
    assert_eq!(xml::decode(&encoded).unwrap(), b"Hello, XML!");
    assert!(xml::decode(&xml::encode(b"").unwrap()).unwrap().is_empty());
    assert!(xml::decode(b"invalid content").unwrap().is_empty());
}

#[test]
fn svg_path_round_trip_and_segments() {
    let encoded = svg_path::encode(&[0, 255, 9]).unwrap();
    let text = String::from_utf8(encoded.clone()).unwrap();
    assert!(text.contains("M0,32 l000,0 l255,0 l009,0\""));
    assert_eq!(svg_path::decode(&encoded).unwrap(), vec![0, 255, 9]);
    assert!(svg_path::decode(b"invalid content").unwrap().is_empty());
}

#[test]
fn test_audio() {
    let encoder = AudioEncoder::default();
    let test_data = b"Hello, Audio Steganography!";
    let encoded = encoder.encode(test_data).unwrap();
    assert!(!encoded.is_empty());
    let decoded = encoder.decode(&encoded).unwrap();
    assert_eq!(decoded, test_data);
}

#[test]
fn audio_test_empty_data() {
    let encoder = AudioEncoder::default();
    let encoded = encoder.encode(b"").unwrap();
    assert!(!encoded.is_empty());
    assert!(encoder.decode(&encoded).unwrap().is_empty());
}

#[test]
fn audio_test_large_data() {
    let encoder = AudioEncoder::default();
    let test_data = ramp();
    let encoded = encoder.encode(&test_data).unwrap();
    assert!(!encoded.is_empty());
    let decoded = encoder.decode(&encoded).unwrap();
    assert!(!decoded.is_empty());
    assert_eq!(decoded, test_data);
}

#[test]
fn audio_test_invalid_input() {
    let encoder = AudioEncoder::default();
    assert!(encoder.decode(b"").unwrap().is_empty());
    assert!(encoder.decode(b"invalid content").unwrap().is_empty());
}

#[test]
fn audio_name_and_every_amplitude() {
    let encoder = AudioEncoder::default();
    assert_eq!(encoder.name(), "audio");
    let all: Vec<u8> = (0..=255).collect();
    let encoded = encoder.encode(&all).unwrap();
    assert_eq!(encoder.decode(&encoded).unwrap(), all);
}

#[test]
fn test_paint_param_encoding() {
    let test_data = b"Test";
    let mut params = Vec::new();
    for &b in test_data.iter() {
        houdini::write_paint_param(b, &mut params);
    }
    assert!(!params.is_empty());
    let width = params.len() / test_data.len();
    let decoded: Vec<u8> = (0..test_data.len())
        .map(|i| houdini::guess_paint_param(&params, i * width).unwrap())
        .collect();
    assert_eq!(decoded, test_data);
    let encoded = houdini::encode(test_data).unwrap();
    assert_eq!(houdini::decode(&encoded).unwrap(), test_data);
}
