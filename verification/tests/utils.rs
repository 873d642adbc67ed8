use nasir::utils::{get_link_destination, get_visible_length, rgb_to_256, wrap};
use nasir::entities::{transform_html_text, transform_url_text};

#[test]
fn utils_transform() {
    assert_eq!(transform_html_text("&lt;&gt;"), String::from("<>"));
    assert_eq!(transform_html_text("&#60;&#62;"), String::from("<>"));
    assert_eq!(transform_html_text("&#xae;"), transform_html_text("&reg;"));
}

#[test]
fn utils_urls() {
    assert_eq!(
        get_link_destination("https://docs.rs/releases/2", "/releases/3"),
        String::from("https://docs.rs/releases/3")
    );
}

#[test]
fn tests_urls() {
    assert_eq!(
        get_link_destination("https://docs.rs/releases/2", "/releases/3"),
        String::from("https://docs.rs/releases/3")
    );
}

#[test]
fn colors() {
    assert_eq!(rgb_to_256((0, 0, 0)), 16);
}

#[test]
fn colors_white() {
    assert_eq!(rgb_to_256((255, 255, 255)), 231);
}

#[test]
fn link_resolution() {
    assert_eq!(
        get_link_destination("https://docs.example/releases/2", "/releases/3"),
        String::from("https://docs.example/releases/3")
    );
    assert_eq!(
        get_link_destination("https://x.com/a", "//y.com/b"),
        String::from("https://y.com/b")
    );
    assert_eq!(
        get_link_destination("https://x.com/a", "#frag"),
        String::from("https://x.com/a#frag")
    );
    assert_eq!(
        get_link_destination("https://x.com/a", "https://z.org/c"),
        String::from("https://z.org/c")
    );
}

#[test]
fn wrap_greedy() {
    let lines = wrap("aa bb cc", 7);
    assert_eq!(lines, vec![String::from(" aa bb"), String::from(" cc")]);
}

#[test]
fn wrap_oversized_word() {
    let lines = wrap("hi enormousword yo", 6);
    assert_eq!(
        lines,
        vec![
            String::from(" hi"),
            String::from("enormousword"),
            String::from(" yo")
        ]
    );
}

#[test]
fn visible_length_ignores_escapes() {
    assert_eq!(get_visible_length("\x1b[31;5;1;1;1mHeyy\x1b[0m"), 4);
    assert_eq!(get_visible_length("plain"), 5);
    assert_eq!(get_visible_length("\x1b[mx"), 4);
}

#[test]
fn url_unescape() {
    assert_eq!(transform_url_text("a%20b%2Fc"), String::from("a b/c"));
    // a code outside the handled range is removed
    assert_eq!(transform_url_text("%41x"), String::from("x"));
    // an incomplete escape stays literally in place
    assert_eq!(transform_url_text("%2"), String::from("%2"));
}
