use geist::mesher::Facing;
use geist::snap::{escape_xml, sanitize_name};

#[test]
fn sanitize_keeps_name_characters() {
    assert_eq!(sanitize_name("oak_log-2"), "oak_log-2");
    assert_eq!(sanitize_name("Oak Log!"), "Oak_Log_");
    assert_eq!(sanitize_name("a/b.c"), "a_b_c");
    assert_eq!(sanitize_name("é"), "_");
    assert_eq!(sanitize_name(""), "");
}

#[test]
fn escape_xml_specials() {
    assert_eq!(escape_xml("a<b & 'c' \"d\">"), "a&lt;b &amp; &apos;c&apos; &quot;d&quot;&gt;");
    assert_eq!(escape_xml("plain"), "plain");
    assert_eq!(escape_xml(""), "");
}

#[test]
fn facing_names() {
    assert_eq!(Facing::from_str("north"), Facing::North);
    assert_eq!(Facing::from_str("south"), Facing::South);
    assert_eq!(Facing::from_str("west"), Facing::West);
    assert_eq!(Facing::from_str("east"), Facing::East);
    assert_eq!(Facing::from_str("up"), Facing::North);
}
