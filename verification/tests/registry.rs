use highlight_html::{HighlightConfiguration, Languages, NAMES};

fn rust() -> HighlightConfiguration {
    HighlightConfiguration::new(
        tree_sitter_rust::language(),
        tree_sitter_rust::HIGHLIGHT_QUERY,
        "",
        "",
    )
    .unwrap()
}

const ROLES: [&str; 6] =
    ["comment", "function", "keyword", "punctuation.bracket", "string", "type.builtin"];

#[test]
fn unknown_language_renders_nothing() {
    let languages = Languages::new();
    assert_eq!(languages.render("nonexistent-lang", b"anything"), None);
    assert_eq!(languages.render("nonexistent-lang", b""), None);
}

#[test]
fn unknown_language_beside_a_known_one_renders_nothing() {
    let mut languages = Languages::new();
    languages.insert("rust", rust());
    assert_eq!(languages.render("nonexistent-lang", b"fn main() {}"), None);
    assert_eq!(languages.render("Rust", b"fn main() {}"), None);
    assert_eq!(languages.render("", b"fn main() {}"), None);
}

#[test]
fn new_registry_holds_no_language() {
    let languages = Languages::new();
    assert!(languages.get("rust").is_none());
    assert!(!languages.line_separator());
}

#[test]
fn inserted_language_is_found_with_its_class_table() {
    let mut languages = Languages::new();
    languages.insert_with_names("rust", rust(), &ROLES);
    let (_, classes) = languages.get("rust").unwrap();
    assert_eq!(
        classes,
        &vec![
            "class=comment".to_string(),
            "class=function".to_string(),
            "class=keyword".to_string(),
            "class=punctuation.bracket".to_string(),
            "class=string".to_string(),
            "class=type.builtin".to_string(),
        ]
    );
    assert!(languages.get("c").is_none());
}

#[test]
fn insert_uses_the_default_names() {
    let mut languages = Languages::new();
    languages.insert("rust", rust());
    let (_, classes) = languages.get("rust").unwrap();
    assert_eq!(classes.len(), NAMES.len());
    assert_eq!(classes[0], "class=annotation");
    assert_eq!(classes[71], "class=variable.builtin");
}

#[test]
fn last_insert_for_an_identifier_wins() {
    let mut languages = Languages::new();
    languages
        .insert_with_names("rust", rust(), &["keyword"])
        .insert_with_names("other", rust(), &["string"])
        .insert_with_names("rust", rust(), &["function", "keyword"]);
    let (_, classes) = languages.get("rust").unwrap();
    assert_eq!(classes, &vec!["class=function".to_string(), "class=keyword".to_string()]);
    let (_, others) = languages.get("other").unwrap();
    assert_eq!(others, &vec!["class=string".to_string()]);
}

#[test]
fn registered_language_renders_its_source() {
    let mut languages = Languages::new();
    languages.insert_with_names("rust", rust(), &ROLES);
    assert_eq!(
        languages.render("rust", b"fn main() {}"),
        Some(
            "<pre class=language-rust><code><span class=line><span class=keyword>fn</span> \
             <span class=function>main</span><span class=punctuation.bracket>(</span>\
             <span class=punctuation.bracket>)</span> <span class=punctuation.bracket>{</span>\
             <span class=punctuation.bracket>}</span></span></code></pre>"
                .to_string()
        )
    );
}

#[test]
fn default_names_highlight_rust() {
    let mut languages = Languages::new();
    languages.insert("rust", rust());
    assert_eq!(
        languages.render("rust", b"fn main() {}"),
        Some(
            "<pre class=language-rust><code><span class=line><span class=keyword>fn</span> \
             <span class=function>main</span><span class=punctuation.bracket>(</span>\
             <span class=punctuation.bracket>)</span> <span class=punctuation.bracket>{</span>\
             <span class=punctuation.bracket>}</span></span></code></pre>"
                .to_string()
        )
    );
}

#[test]
fn roles_that_are_not_recognized_leave_text_plain() {
    let mut languages = Languages::new();
    languages.insert_with_names("rust", rust(), &["string"]);
    assert_eq!(
        languages.render("rust", b"fn f() { \"a<b\" }"),
        Some(
            "<pre class=language-rust><code><span class=line>fn f() { \
             <span class=string>&quot;a&lt;b&quot;</span> }</span></code></pre>"
                .to_string()
        )
    );
}

#[test]
fn comment_over_two_lines_is_split_between_them() {
    let mut languages = Languages::new();
    languages.insert_with_names("rust", rust(), &ROLES);
    assert_eq!(
        languages.render("rust", b"/* a\nb */"),
        Some(
            "<pre class=language-rust><code><span class=line><span class=comment>/* a</span>\n</span>\
             <span class=line><span class=comment>b */</span></span></code></pre>"
                .to_string()
        )
    );
    languages.set_line_separator(true);
    assert!(languages.line_separator());
    assert_eq!(
        languages.render("rust", b"/* a\nb */"),
        Some(
            "<pre class=language-rust><code><span class=line><span class=comment>/* a</span>\n</span>\n\
             <span class=line><span class=comment>b */</span></span></code></pre>"
                .to_string()
        )
    );
}

#[test]
fn characters_of_several_bytes_stay_whole() {
    let mut languages = Languages::new();
    languages.insert_with_names("rust", rust(), &ROLES);
    assert_eq!(
        languages.render("rust", "// caf\u{e9} \u{1f980}\nfn f() {}".as_bytes()),
        Some(
            "<pre class=language-rust><code><span class=line>\
             <span class=comment>// caf\u{e9} \u{1f980}</span>\n</span><span class=line>\
             <span class=keyword>fn</span> <span class=function>f</span>\
             <span class=punctuation.bracket>(</span><span class=punctuation.bracket>)</span> \
             <span class=punctuation.bracket>{</span><span class=punctuation.bracket>}</span>\
             </span></code></pre>"
                .to_string()
        )
    );
}

#[test]
fn empty_source_renders_one_empty_line() {
    let mut languages = Languages::new();
    languages.insert("rust", rust());
    assert_eq!(
        languages.render("rust", b""),
        Some("<pre class=language-rust><code><span class=line></span></code></pre>".to_string())
    );
}

#[test]
fn rendering_the_same_source_twice_is_identical() {
    let mut languages = Languages::new();
    languages.insert("rust", rust());
    let source = b"use std::net::SocketAddr;\n\nfn main() -> Result<()> {\n    Ok(())\n}\n";
    let first = languages.render("rust", source);
    let second = languages.render("rust", source);
    assert!(first.is_some());
    assert_eq!(first, second);
}

fn without_tags(html: &str) -> String {
    let mut text = String::new();
    let mut in_tag = false;
    for character in html.chars() {
        match character {
            '<' => in_tag = true,
            '>' => in_tag = false,
            _ if !in_tag => text.push(character),
            _ => {}
        }
    }
    text
}

#[test]
fn highlighting() {
    let mut languages = Languages::new();
    languages.insert("rust", rust());
    let source = r#"""
use std::net::SocketAddr;
use viz::{Request, Result, Router, Server, ServiceMaker};

async fn index(_: Request) -> Result<&'static str> {
    Ok("Hello Viz")
}

#[tokio::main]
async fn main() -> Result<()> {
    let addr = SocketAddr::from(([127, 0, 0, 1], 3000));
    println!("listening on {}", addr);

    let app = Router::new().get("/", index);

    if let Err(err) = Server::bind(&addr)
        .serve(ServiceMaker::from(app))
        .await
    {
        println!("{}", err);
    }

    Ok(())
}
        """#;
    let html = languages.render("rust", source.as_bytes()).unwrap();
    let body = html
        .strip_prefix("<pre class=language-rust><code>")
        .and_then(|rest| rest.strip_suffix("</code></pre>"))
        .unwrap();
    let mut lines = body.split("<span class=line>");
    assert_eq!(lines.next(), Some(""));
    let lines: Vec<&str> = lines.collect();
    assert_eq!(lines.len(), source.matches('\n').count() + 1);
    for line in &lines {
        assert!(line.ends_with("</span>"));
        assert_eq!(line.matches("<span").count() + 1, line.matches("</span>").count());
    }
    let decoded = without_tags(body)
        .replace("&lt;", "<")
        .replace("&gt;", ">")
        .replace("&quot;", "\"")
        .replace("&amp;", "&");
    assert_eq!(decoded, source);
    assert!(html.contains("<span class=string>&quot;Hello Viz&quot;</span>"));
    assert!(html.contains("<span class=keyword>async</span> <span class=keyword>fn</span>"));
    assert!(html.contains("<span class=punctuation.delimiter>::</span>"));
    assert!(html.contains("<span class=punctuation.delimiter>;</span>\n</span><span class=line>"));
    assert!(!html.contains("&#39;"));
}

#[test]
fn default_registry_is_a_new_one() {
    let languages = Languages::default();
    assert!(languages.get("rust").is_none());
    assert!(!languages.line_separator());
    assert_eq!(languages.render("rust", b"fn main() {}"), None);
}
