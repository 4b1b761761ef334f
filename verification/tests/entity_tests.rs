use browservoy::entity::EntityParser;
use browservoy::{ConfigError, FetchError};

const SOURCE: &str = "&lt; 60\n&lt 60\n&gt; 62\n&amp; 38\n";

fn chars(s: &str) -> Vec<char> {
    s.chars().collect()
}

#[test]
fn parse_angled_brackets() {
    let parser = EntityParser::new(SOURCE).unwrap();

    let input = chars("&lt;");

    assert_eq!(parser.consume(&input, 0).0, Some("<".to_string()));

    let input = chars("&lt");

    assert_eq!(parser.consume(&input, 0).0, Some("<".to_string()));
}

#[test]
fn consume_reports_how_far_it_read() {
    let parser = EntityParser::new(SOURCE).unwrap();

    let input = chars("&lt;div");
    let (decoded, pos) = parser.consume(&input, 0);
    assert_eq!(decoded, Some("<".to_string()));
    assert_eq!(pos, 4);

    let input = chars("&gt;");
    let (decoded, pos) = parser.consume(&input, 0);
    assert_eq!(decoded, Some(">".to_string()));
    assert_eq!(pos, 4);
}

#[test]
fn no_matching_prefix_consumes_nothing() {
    let parser = EntityParser::new(SOURCE).unwrap();

    let input = chars("xyz");
    let (decoded, pos) = parser.consume(&input, 0);
    assert_eq!(decoded, None);
    assert_eq!(pos, 0);
}

#[test]
fn greedy_match_stops_before_mismatch() {
    let parser = EntityParser::new(SOURCE).unwrap();

    // "&ltx" narrows to "&lt" and stops before the 'x'.
    let input = chars("&ltx");
    let (decoded, pos) = parser.consume(&input, 0);
    assert_eq!(decoded, Some("<".to_string()));
    assert_eq!(pos, 3);
}

#[test]
fn consumed_prefix_without_exact_entry_decodes_nothing() {
    // "&am" is a strict prefix of "&amp;" but no entry by itself, so the
    // characters are consumed and nothing is decoded.
    let parser = EntityParser::new(SOURCE).unwrap();

    let input = chars("&amx");
    let (decoded, pos) = parser.consume(&input, 0);
    assert_eq!(decoded, None);
    assert_eq!(pos, 3);
}

#[test]
fn consume_starts_mid_input() {
    let parser = EntityParser::new(SOURCE).unwrap();

    let input = chars("ab&gt;cd");
    let (decoded, pos) = parser.consume(&input, 2);
    assert_eq!(decoded, Some(">".to_string()));
    assert_eq!(pos, 6);
}

#[test]
fn blank_definition_line_is_config_error() {
    assert!(matches!(
        EntityParser::new("&lt; 60\n\n&gt; 62\n"),
        Err(FetchError::Config(ConfigError::MissingEntityName))
    ));
    assert!(matches!(
        EntityParser::new("   \t\n"),
        Err(FetchError::Config(ConfigError::MissingEntityName))
    ));
}

#[test]
fn bad_codepoints_are_skipped() {
    // 99999999999 overflows a 32-bit codepoint and "x" is no number: both
    // are skipped; 65 remains and decodes to "A".
    let parser = EntityParser::new("&a 99999999999 x 65\n").unwrap();

    let input = chars("&a");
    assert_eq!(parser.consume(&input, 0).0, Some("A".to_string()));
}

#[test]
fn invalid_scalar_values_are_dropped() {
    // 55296 is a surrogate and no Unicode scalar value: it is dropped and
    // only 66 ("B") survives.
    let parser = EntityParser::new("&b 55296 66\n").unwrap();

    let input = chars("&b");
    assert_eq!(parser.consume(&input, 0).0, Some("B".to_string()));
}

#[test]
fn consume_at_end_of_input_reads_nothing() {
    let parser = EntityParser::new(SOURCE).unwrap();

    let input = chars("&lt");
    let (decoded, pos) = parser.consume(&input, 3);
    assert_eq!(decoded, None);
    assert_eq!(pos, 3);
}

#[test]
fn multi_codepoint_entity_decodes_in_order() {
    let parser = EntityParser::new("&ab 65 66 67\n").unwrap();

    let input = chars("&ab");
    assert_eq!(parser.consume(&input, 0).0, Some("ABC".to_string()));
}

#[test]
fn parse_unicode_maps_scalars_only() {
    assert_eq!(EntityParser::parse_unicode(60), Some('<'));
    assert_eq!(EntityParser::parse_unicode(0x1F600), Some('\u{1F600}'));
    assert_eq!(EntityParser::parse_unicode(0xD800), None);
    assert_eq!(EntityParser::parse_unicode(0x110000), None);
}
