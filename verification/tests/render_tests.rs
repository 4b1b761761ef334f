use browservoy::render::render;

#[test]
fn render_strips_tag_content() {
    assert_eq!(render("a<b>c</b>d"), "acd");
}

#[test]
fn render_is_idempotent_on_rendered_text() {
    let once = render("a<b>c</b>d");
    assert_eq!(render(&once), once);
}

#[test]
fn tag_free_text_passes_through() {
    assert_eq!(render("plain text, no markup"), "plain text, no markup");
}

#[test]
fn unclosed_tag_swallows_the_rest() {
    assert_eq!(render("a<b"), "a");
}

#[test]
fn stray_closing_delimiter_is_dropped() {
    assert_eq!(render("x>y"), "xy");
}

#[test]
fn state_returns_to_outside_after_each_tag() {
    assert_eq!(render("<p>one</p> two <p>three</p>"), "one two three");
}
