use mdbook_icons::markdown::{
    looks_like_table_row, replace_shortcodes, replace_shortcodes_in_table_cell,
    replace_shortcodes_in_table_row, replace_shortcodes_in_text, transform_markdown,
};
use mdbook_icons::requests::shortcode_requests;
use mdbook_icons::shortcode::{normalize_shortcode, ShortcodeMap};

const HOME_SVG: &str = "<svg xmlns=\"http://www.w3.org/2000/svg\" viewBox=\"0 0 24 24\"><path d=\"M10 20v-6h4v6h5v-8h3L12 3L2 12h3v8z\"/></svg>";
const CHECK_SVG: &str = "<svg viewBox=\"0 0 36 36\"><path d=\"M0 0h36v36H0z\"/></svg>";

fn table(entries: &[(&str, &str)]) -> ShortcodeMap {
    let mut m = ShortcodeMap::new();
    for (k, v) in entries {
        m.insert(k.to_string(), v.to_string());
    }
    m
}

#[test]
fn replaces_shortcodes_but_skips_inline_code_and_fences() {
    let store = table(&[("mdi-home", HOME_SVG)]);
    let input = "Hello :mdi-home: and `:mdi-home:`\n\n```md\n:mdi-home:\n```\n";
    let output = transform_markdown(input, &store);

    assert!(output.contains("<svg"), "expected inline svg replacement");
    assert!(
        output.contains("`:mdi-home:`"),
        "inline code should be untouched"
    );
    assert!(
        output.contains("```md\n:mdi-home:\n```"),
        "fenced code should be untouched"
    );
}

#[test]
fn centers_icon_only_table_cells() {
    let store = table(&[("twemoji-check-mark-button", CHECK_SVG)]);
    let input = "| Status |\n| --- |\n| :twemoji-check-mark-button: |\n";
    let output = transform_markdown(input, &store);

    assert!(
        output.contains("display:inline-flex; width: 100%; justify-content: center;"),
        "icon-only table cells should be centered"
    );
}

#[test]
fn transform_markdown_exact_output() {
    let store = table(&[("mdi-home", "<H>")]);
    let input = "Hello :mdi-home: and `:mdi-home:`\n\n```md\n:mdi-home:\n```\nafter :mdi-home:";
    let output = transform_markdown(input, &store);
    assert_eq!(
        output,
        "Hello <H> and `:mdi-home:`\n\n```md\n:mdi-home:\n```\nafter <H>\n"
    );
}

#[test]
fn tilde_fences_and_indented_fences_are_kept() {
    let store = table(&[("a", "<A>")]);
    let input = "  ~~~\n:a:\n  ~~~\n:a:";
    assert_eq!(transform_markdown(input, &store), "  ~~~\n:a:\n  ~~~\n<A>\n");
}

#[test]
fn unknown_shortcodes_are_left_as_written() {
    let store = table(&[("known", "<K>")]);
    assert_eq!(
        replace_shortcodes_in_text(":unknown: then :known:", &store),
        ":unknown: then <K>"
    );
}

#[test]
fn shortcode_scan_resumes_after_closing_colon() {
    let store = table(&[("b", "<B>"), ("c", "<C>")]);
    // ":b:" is replaced; its closing colon cannot open ":c:".
    assert_eq!(replace_shortcodes_in_text("a:b:c:", &store), "a<B>c:");
    // An empty name or a character outside the class is no shortcode.
    assert_eq!(replace_shortcodes_in_text("::b: :x y:", &store), ":<B> :x y:");
    assert_eq!(replace_shortcodes_in_text("", &store), "");
}

#[test]
fn inline_code_spans_alternate() {
    let store = table(&[("a", "<A>")]);
    assert_eq!(
        replace_shortcodes(":a: `:a:` :a: `:a:", &store),
        "<A> `:a:` <A> `:a:"
    );
}

#[test]
fn table_rows_are_handled_cell_by_cell() {
    let store = table(&[("a", "<A>")]);
    assert!(looks_like_table_row("  | x |"));
    assert!(!looks_like_table_row("x | y"));
    assert!(!looks_like_table_row(""));
    assert_eq!(
        replace_shortcodes_in_table_row("| :a: | x :a: |", &store),
        "|<span style=\"display:inline-flex; width: 100%; justify-content: center;\"><A></span>| x <A> |"
    );
    // Code span parity starts anew in each cell.
    assert_eq!(
        replace_shortcodes_in_table_row("| `x | :a: |", &store),
        "| `x |<span style=\"display:inline-flex; width: 100%; justify-content: center;\"><A></span>|"
    );
}

#[test]
fn lone_cell_without_markup_is_kept() {
    let store = table(&[]);
    assert_eq!(replace_shortcodes_in_table_cell(" :zz: ", &store), " :zz: ");
    let store = table(&[("zz", "<Z>")]);
    assert_eq!(
        replace_shortcodes_in_table_cell(" :zz: ", &store),
        "<span style=\"display:inline-flex; width: 100%; justify-content: center;\"><Z></span>"
    );
}

#[test]
fn chapter_with_nothing_rendered_keeps_its_lines() {
    let empty = ShortcodeMap::new();
    for input in [
        "",
        "one",
        "one\n",
        "a\r\nb\r\n",
        "a\n\nb",
        "tail\r",
        "| :x: | `y` |\n```\n:z:\n```\n:w:",
        "\n\n",
    ] {
        let expected: String = input.lines().map(|l| format!("{l}\n")).collect();
        assert_eq!(transform_markdown(input, &empty), expected, "input {input:?}");
    }
}

#[test]
fn requests_list_what_the_transform_looks_up() {
    let input = "x :a: `:b:`\n| :c: | `:d:` :e: |\n```\n:f:\n```\n:g:";
    let found = shortcode_requests(input);
    assert_eq!(found, vec!["a", "c", "c", "e", "g"]);
}

#[test]
fn rendering_only_requested_shortcodes_is_enough() {
    let input = "x :a: `:b:`\n| :c: | `:d:` :e: |\n```\n:f:\n```\n:g:";
    let mut full = ShortcodeMap::new();
    let mut needed = ShortcodeMap::new();
    for name in ["a", "b", "c", "d", "e", "f", "g"] {
        full.insert(name.to_string(), format!("<{name}>"));
    }
    for name in shortcode_requests(input) {
        needed.insert(name.clone(), format!("<{name}>"));
    }
    assert_eq!(transform_markdown(input, &full), transform_markdown(input, &needed));
}

#[test]
fn normalizes_configured_shortcodes() {
    assert_eq!(normalize_shortcode(" :star: "), "star");
    assert_eq!(normalize_shortcode("star"), "star");
    assert_eq!(normalize_shortcode("::a::"), "a");
    assert_eq!(normalize_shortcode(":::"), "");
    assert_eq!(normalize_shortcode(": a :"), " a ");
    assert_eq!(normalize_shortcode("\u{3000}x\u{a0}"), "x");
}

#[test]
fn surrounding_colons_are_optional() {
    for x in ["star", "twemoji-glowing-star", "", ":", "a:b"] {
        assert_eq!(normalize_shortcode(&format!(":{x}:")), normalize_shortcode(x));
    }
}

#[test]
fn shortcode_map_later_entry_wins() {
    let mut m = ShortcodeMap::new();
    assert_eq!(m.get("k"), None);
    m.insert("k".to_string(), "1".to_string());
    m.insert("j".to_string(), "2".to_string());
    m.insert("k".to_string(), "3".to_string());
    assert_eq!(m.get("k"), Some("3".to_string()));
    assert_eq!(m.get("j"), Some("2".to_string()));
    assert!(m.contains("j"));
    assert!(!m.contains("x"));
}

#[test]
fn inline_code_split_at_backticks() {
    let store = table(&[("a", "<A>")]);
    for line in [":a: `:a:` :a:", "`:a:", "x``:a:", ":a:`", ""] {
        let parts: Vec<&str> = line.split('`').collect();
        let expected: Vec<String> = parts
            .iter()
            .enumerate()
            .map(|(i, s)| if i % 2 == 0 { replace_shortcodes_in_text(s, &store) } else { s.to_string() })
            .collect();
        assert_eq!(replace_shortcodes(line, &store), expected.join("`"), "line {line:?}");
    }
}

#[test]
fn table_rows_split_at_pipes() {
    let store = table(&[("a", "<A>")]);
    for line in ["| :a: | x :a: |", "|", "a|b", "| `x | :a: |"] {
        let expected: Vec<String> =
            line.split('|').map(|cell| replace_shortcodes_in_table_cell(cell, &store)).collect();
        assert_eq!(replace_shortcodes_in_table_row(line, &store), expected.join("|"), "line {line:?}");
    }
}

#[test]
fn lines_inside_fences_follow_fence_parity() {
    let store = table(&[("a", "<A>")]);
    let input = ":a:\n```\n:a:\n~~~\n:a:\n```\n:a:";
    assert_eq!(transform_markdown(input, &store), "<A>\n```\n:a:\n~~~\n<A>\n```\n:a:\n");
    assert_eq!(shortcode_requests(input), vec!["a", "a"]);
}
