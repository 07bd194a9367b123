use number_facts::filters::{
    mathfmt, num_link_handler, parse_balanced_parens, run_filter, superscript_handler,
    HtmlEmitter, StrCursor,
};

fn check(markup: &str, html: &str) {
    assert_eq!(mathfmt(markup).unwrap(), html);
}

#[test]
fn mathfmt_test() {
    check(
        r#"<html>&gets' "escaped"</html>"#,
        "&lt;html&gt;&amp;gets&#39; &quot;escaped&quot;&lt;/html&gt;",
    );
    check("super(^script)", "super<sup>script</sup>");
    check(
        "super(^script) and after",
        "super<sup>script</sup> and after",
    );
    check("parens(^bal(an)ce)", "parens<sup>bal(an)ce</sup>");
    check("unclosed(^is()ignored", "unclosed<sup>is()ignored</sup>");
    check("not(\\^superscript)", "not(^superscript)");
    check("backslash escapes \\anything", "backslash escapes anything");
    check("single\\\\backslash", "single\\backslash");
    check("no parens means ^ verbatim", "no parens means ^ verbatim");

    check(
        "links (#537) to numbers",
        "links <a href=\"/537\">537</a> to numbers",
    );

    check(
        "nested(^link(#11) with text after)",
        "nested<sup>link<a href=\"/11\">11</a> with text after</sup>",
    );

    check(
        "nested(^link(#11))",
        "nested<sup>link<a href=\"/11\">11</a></sup>",
    );

    check(
        "links fail without parens #11",
        "links fail without parens #11",
    );
}

#[test]
fn trailing_backslash_is_dropped() {
    check("ends with\\", "ends with");
    check("\\", "");
    check("(^ends with\\", "<sup>ends with</sup>");
}

#[test]
fn stray_closing_parenthesis_is_text() {
    check(")", ")");
    check("a)b)c", "a)b)c");
    check("(a))b", "(a))b");
    check("(^x))y", "<sup>x</sup>)y");
}

#[test]
fn bare_parentheses_pass_through() {
    check("(", "(");
    check("f(x)", "f(x)");
    check("((a)(b))", "((a)(b))");
    check("(<)", "(&lt;)");
}

#[test]
fn link_falls_back_to_text() {
    check("(#12a)", "(#12a)");
    check("(#)", "<a href=\"/\"></a>");
    check("(#x", "(#x");
    check("(#12", "(#12");
    check("(#", "(#");
    check("(#1<2)", "(#1&lt;2)");
    check("(^(#1x)y)", "<sup>(#1x</sup>y)");
    check("(#12(^a))", "(#12(^a))");
}

#[test]
fn superscripts_nest() {
    check("(^a(^b)c)", "<sup>a<sup>b</sup>c</sup>");
    check("(^", "<sup></sup>");
    check("(^)", "<sup></sup>");
    check("x(^2)(^3)", "x<sup>2</sup><sup>3</sup>");
    check("(#2)(^(#10))", "<a href=\"/2\">2</a><sup><a href=\"/10\">10</a></sup>");
}

#[test]
fn text_is_escaped_everywhere() {
    check("(^<b>)", "<sup>&lt;b&gt;</sup>");
    check("\\<", "&lt;");
    check("\\(^x)", "(^x)");
    check("a×b", "a×b");
}

#[test]
fn emitter_escapes_text_and_keeps_raw_strings() {
    let mut out = HtmlEmitter::new();
    out.emit_text_char('<');
    out.emit_text_char('x');
    out.emit_text_str("a&b'c\"d>");
    out.emit_raw_str("<br>");
    assert_eq!(out.into_string(), "&lt;xa&amp;b&#39;c&quot;d&gt;<br>");
}

#[test]
fn emitter_encodes_link_targets() {
    let mut out = HtmlEmitter::new();
    out.emit_link("/a b?c", "<a b>");
    assert_eq!(out.into_string(), "<a href=\"/a%20b%3Fc\">&lt;a b&gt;</a>");
    let mut out = HtmlEmitter::new();
    out.emit_link("/é~x_y-z.w", "é");
    assert_eq!(out.into_string(), "<a href=\"/%C3%A9~x_y-z.w\">é</a>");
}

#[test]
fn cursor_reads_characters_in_order() {
    let mut cursor = StrCursor::new("a×");
    assert_eq!(cursor.peek(), Some('a'));
    assert_eq!(cursor.next(), Some('a'));
    assert_eq!(cursor.peek(), Some('×'));
    assert_eq!(cursor.next(), Some('×'));
    assert_eq!(cursor.peek(), None);
    assert_eq!(cursor.next(), None);
    assert_eq!(cursor.next(), None);
}

#[test]
fn scope_stops_at_its_closing_parenthesis() {
    let mut cursor = StrCursor::new("a(b)c)d");
    let mut out = HtmlEmitter::new();
    parse_balanced_parens(&mut cursor, &mut out);
    assert_eq!(out.into_string(), "a(b)c");
    assert_eq!(cursor.peek(), Some(')'));
}

#[test]
fn superscript_handler_eats_the_closing_parenthesis() {
    let mut cursor = StrCursor::new("^2)x");
    let mut out = HtmlEmitter::new();
    superscript_handler(&mut cursor, &mut out);
    assert_eq!(out.into_string(), "<sup>2</sup>");
    assert_eq!(cursor.next(), Some('x'));
}

#[test]
fn link_handler_reads_up_to_the_closing_parenthesis() {
    let mut cursor = StrCursor::new("#42)x");
    let mut out = HtmlEmitter::new();
    num_link_handler(&mut cursor, &mut out);
    assert_eq!(out.into_string(), "<a href=\"/42\">42</a>");
    assert_eq!(cursor.next(), Some('x'));
}

#[test]
fn run_filter_reads_to_the_end() {
    let mut cursor = StrCursor::new("a)b(^c");
    assert_eq!(run_filter(&mut cursor), "a)b<sup>c</sup>");
    assert_eq!(cursor.peek(), None);
}

/// Whether the characters that HTML gives a meaning to occur in `html` only
/// in the elements that the renderer writes.
fn is_inert(html: &str) -> bool {
    let mut rest = html;
    while let Some(first) = rest.chars().next() {
        if !"<>\"'".contains(first) {
            rest = &rest[first.len_utf8()..];
        } else if let Some(after) = ["<sup>", "</sup>", "</a>"]
            .iter()
            .find_map(|tag| rest.strip_prefix(tag))
        {
            rest = after;
        } else if let Some(target) = rest.strip_prefix("<a href=\"") {
            let end = target
                .find(|c: char| !(c.is_ascii_alphanumeric() || "-._~/%".contains(c)))
                .unwrap_or(target.len());
            match target[end..].strip_prefix("\">") {
                Some(after) => rest = after,
                None => return false,
            }
        } else {
            return false;
        }
    }
    true
}

#[test]
fn rendered_text_opens_no_tag() {
    for markup in [
        "<script>alert('x')</script>",
        "(^<b onmouseover=\"x\">)",
        "(#1\"><script>)",
        "(#<)",
        "\\<\\>\\\"\\'",
        "(^(^(^<)))",
        "a > b && c < d",
        "(#12)\"(#3'4)",
        "</sup></a><a href=\"javascript:x\">",
    ] {
        let html = mathfmt(markup).unwrap();
        assert!(is_inert(&html), "{markup:?} renders to {html:?}");
    }
    assert!(!is_inert("<b>"));
    assert!(!is_inert("<a href=\"x\" onclick=\"y\">"));
}
