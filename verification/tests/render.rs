use nasir::cacher::{ByteCacher, Cacher};
use nasir::parser::parse_html;
use nasir::types::terminal_line::{InteractionType, TerminalLine};
use nasir::viewport::render_lines;

fn render(markup: &str, base: &str) -> (Vec<TerminalLine>, Option<String>, Vec<String>) {
    let doc = parse_html(markup).unwrap();
    let mut title: Option<String> = None;
    let mut cacher: ByteCacher = Cacher::new();
    let mut fetches: Vec<String> = Vec::new();
    let lines = doc.display(&mut title, &mut cacher, &mut fetches, base, 80, 24);
    (lines, title, fetches)
}

#[test]
fn end_to_end_anchor() {
    let (lines, _, _) = render("<a href=\"/p\">text</a>", "https://h/");
    assert_eq!(lines.len(), 1);
    match lines[0].interaction() {
        InteractionType::Link(l) => assert_eq!(l, "https://h/p"),
        other => panic!("expected a link, got {other:?}"),
    }
    assert!(lines[0].display(true).contains("(text)[\x1b[94mhttps://h/p\x1b[0m]"));
    assert!(lines[0].display(false).contains("\x1b[4;94mtext\x1b[0m"));
}

#[test]
fn head_sets_title() {
    let (lines, title, _) = render(
        "<html><head><title>My Page</title></head><p>x</p></html>",
        "https://h.example/",
    );
    assert_eq!(title, Some(String::from("My Page - Nasir")));
    assert_eq!(lines.len(), 1);
    assert_eq!(lines[0].display(false), String::from(" x"));
}

#[test]
fn script_is_hidden() {
    let (lines, _, _) = render("<div><script>junk</script>ok</div>", "https://h.example/");
    assert_eq!(lines.len(), 1);
    assert_eq!(lines[0].display(false), String::from(" ok"));
}

#[test]
fn img_miss_requests_fetch_and_falls_back() {
    let (lines, _, fetches) = render(
        "<img src=\"/pic.png\" alt=\"a cat\">",
        "https://h.example/",
    );
    assert_eq!(fetches, vec![String::from("https://h.example/pic.png")]);
    assert_eq!(lines.len(), 1);
    assert_eq!(lines[0].display(false), String::from(" [image: a cat]"));
}

#[test]
fn img_without_src_shows_placeholder() {
    let (lines, _, fetches) = render("<img>", "https://h.example/");
    assert!(fetches.is_empty());
    assert_eq!(lines[0].display(false), String::from(" [image]"));
}

#[test]
fn heading_draws_box() {
    let (lines, _, _) = render("<h1>hi</h1>", "https://h.example/");
    assert_eq!(lines.len(), 3);
    assert_eq!(lines[0].display(false), String::from(" ╔══╗"));
    assert_eq!(lines[1].display(false), String::from(" ║\x1b[30;47mhi\x1b[0m║"));
    assert_eq!(lines[2].display(false), String::from(" ╚══╝"));
}

#[test]
fn bold_wraps_in_escape() {
    let (lines, _, _) = render("<b>x</b>", "https://h.example/");
    assert_eq!(lines[0].display(false), String::from(" \x1b[1mx\x1b[0m"));
}

#[test]
fn id_is_propagated() {
    let (lines, _, _) = render("<p id=\"target\">x</p>", "https://h.example/");
    assert!(lines[0].check_id("target"));
    assert!(!lines[0].check_id("other"));
}

#[test]
fn viewport_covers_short_document() {
    // a list of length 5 with window half-height 10 is always fully shown
    let lines: Vec<TerminalLine> = (0..5)
        .map(|i| TerminalLine::from_text(format!("line{i}")))
        .collect();
    for focused in 0..8 {
        let rows = render_lines(&lines, focused, 22);
        assert_eq!(rows.len(), 5);
        for (i, row) in rows.iter().enumerate() {
            if i == focused {
                assert!(row.starts_with('>'));
            } else {
                assert!(row.starts_with(' '));
            }
        }
    }
}

#[test]
fn viewport_scrolls_long_document() {
    let lines: Vec<TerminalLine> = (0..100)
        .map(|i| TerminalLine::from_text(format!("line{i}")))
        .collect();
    let rows = render_lines(&lines, 50, 10);
    // half height is 10/2 - 1 = 4: a window of 8 rows around the focus
    assert_eq!(rows.len(), 8);
    assert_eq!(rows[4], String::from(">line50"));
}

#[test]
fn first_title_wins() {
    let (_, title, _) = render(
        "<head><title>First</title><title>Second</title></head>",
        "https://h.example/",
    );
    assert_eq!(title, Some(String::from("First - Nasir")));
}
