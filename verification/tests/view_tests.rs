use week_parity::markup::{render_base_date_select, render_date_picker, render_date_value};
use week_parity::status::{status_markup, StatusMarkup};
use week_parity::text::{decimal_text, is_unicode_white_space, same_text, text_le_str};
use week_parity::theme::{next_theme, system_theme, theme_controls};

#[test]
fn base_date_select_sorts_and_marks_the_selected_date() {
    let dates = vec![
        "2026-09-07".to_string(),
        "2026-03-02".to_string(),
        "2026-07-06".to_string(),
    ];
    assert_eq!(
        render_base_date_select(&dates, "2026-07-06"),
        "<select class=\"date-control\" aria-label=\"Select semester start date\">\
<option value=\"2026-03-02\">2026-03-02</option>\
<option value=\"2026-07-06\" selected>2026-07-06</option>\
<option value=\"2026-09-07\">2026-09-07</option></select>"
    );
}

#[test]
fn base_date_select_of_no_dates() {
    let dates: Vec<String> = Vec::new();
    assert_eq!(
        render_base_date_select(&dates, "2026-07-06"),
        "<select class=\"date-control\" aria-label=\"Select semester start date\"></select>"
    );
}

#[test]
fn date_picker_and_value_markup() {
    assert_eq!(
        render_date_picker("2026-06-01", "Select current date"),
        "<input class=\"date-control\" type=\"date\" value=\"2026-06-01\" aria-label=\"Select current date\">"
    );
    assert_eq!(
        render_date_value("2026-06-01", "<b>x</b>"),
        "<span class=\"date-current\">2026-06-01</span><b>x</b>"
    );
}

#[test]
fn status_markup_badges() {
    match status_markup("Week 3: odd") {
        StatusMarkup::Html(h) => assert_eq!(
            h,
            "Week 3 <span class=\"badge badge-odd\">单周</span>"
        ),
        other => panic!("unexpected {:?}", other),
    }
    match status_markup("Week 12: even") {
        StatusMarkup::Html(h) => assert_eq!(
            h,
            "Week 12 <span class=\"badge badge-even\">双周</span>"
        ),
        other => panic!("unexpected {:?}", other),
    }
    match status_markup("a: b: c") {
        StatusMarkup::Html(h) => assert_eq!(h, "a <span class=\"badge badge-b: c\">b: c</span>"),
        other => panic!("unexpected {:?}", other),
    }
    match status_markup("Before start date") {
        StatusMarkup::Text(t) => assert_eq!(t, "Before start date"),
        other => panic!("unexpected {:?}", other),
    }
}

#[test]
fn themes() {
    assert_eq!(system_theme(true), "dark");
    assert_eq!(system_theme(false), "light");
    assert_eq!(next_theme("dark"), "light");
    assert_eq!(next_theme("light"), "dark");
    assert_eq!(next_theme("sepia"), "dark");
    assert_eq!(next_theme(&next_theme("light")), "light");
    let dark = theme_controls("dark");
    assert_eq!(dark.root_theme, "dark");
    assert_eq!(dark.toggle_caption, "Dark");
    assert_eq!(dark.aria_pressed, "true");
    assert_eq!(dark.aria_label, "Switch to light theme");
    let light = theme_controls("light");
    assert_eq!(light.toggle_caption, "Light");
    assert_eq!(light.aria_pressed, "false");
    assert_eq!(light.aria_label, "Switch to dark theme");
}

#[test]
fn white_space_matches_std() {
    for code in 0u32..0x11000 {
        if let Some(c) = char::from_u32(code) {
            assert_eq!(is_unicode_white_space(c), c.is_whitespace(), "{:x}", code);
        }
    }
}

#[test]
fn text_order_matches_str_order() {
    let samples = ["", "a", "ab", "b", "2026-03-02", "2026-10-01", "é", "z", "日", "😀", "aé"];
    for a in samples.iter() {
        for b in samples.iter() {
            assert_eq!(text_le_str(a, b), a <= b, "{} {}", a, b);
            assert_eq!(same_text(a, b), a == b);
        }
    }
}

#[test]
fn decimal_numerals() {
    assert_eq!(decimal_text(0), "0");
    assert_eq!(decimal_text(7), "7");
    assert_eq!(decimal_text(10), "10");
    assert_eq!(decimal_text(1234567890), "1234567890");
    assert_eq!(decimal_text(u64::MAX), u64::MAX.to_string());
}
