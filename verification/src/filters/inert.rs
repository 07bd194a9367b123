//! That rendered text can do no harm: whatever the markup, the characters
//! that HTML gives a meaning to come out of the renderer's own fixed strings
//! only.

use crate::filters::{
    anchor, escape_char, is_digit, escape_text, is_unreserved, number_link, percent_encode,
    percent_encode_byte, rendered, scope, superscript, tail_from, url_encoded,
};
use vstd::prelude::*;

verus! {

/// The characters with which HTML tags and attribute values begin and end.
pub open spec fn is_markup_char(c: char) -> bool {
    c == '<' || c == '>' || c == '"' || c == '\''
}

/// The characters that a percent-encoded link target is made of.
pub open spec fn is_target_char(c: char) -> bool {
    ||| '0' <= c <= '9'
    ||| 'A' <= c <= 'Z'
    ||| 'a' <= c <= 'z'
    ||| c == '-'
    ||| c == '.'
    ||| c == '_'
    ||| c == '~'
    ||| c == '/'
    ||| c == '%'
}

/// `html` begins with `start`.
pub open spec fn begins_with(html: Seq<char>, start: Seq<char>) -> bool {
    start.len() <= html.len() && html.take(start.len() as int) == start
}

/// The number of characters of a link target that `html` starts with.
pub open spec fn target_run(html: Seq<char>) -> nat
    decreases html.len(),
{
    if html.len() > 0 && is_target_char(html[0]) {
        1 + target_run(html.drop_first())
    } else {
        0
    }
}

/// The elements that the renderer writes: `<sup>`, `</sup>`, `</a>`, and
/// the two parts of `<a href="...">`.
pub open spec fn sup_open() -> Seq<char> {
    seq!['<', 's', 'u', 'p', '>']
}

pub open spec fn sup_close() -> Seq<char> {
    seq!['<', '/', 's', 'u', 'p', '>']
}

pub open spec fn anchor_close() -> Seq<char> {
    seq!['<', '/', 'a', '>']
}

pub open spec fn anchor_open() -> Seq<char> {
    seq!['<', 'a', ' ', 'h', 'r', 'e', 'f', '=', '"']
}

pub open spec fn anchor_open_end() -> Seq<char> {
    seq!['"', '>']
}

/// HTML in which text can do no harm: the characters `<`, `>`, `"` and `'`
/// occur in it only as parts of the elements `<sup>`, `</sup>`,
/// `<a href="...">` and `</a>`, and the target of a link is made of
/// unreserved characters and percent signs only.
pub open spec fn is_inert_html(html: Seq<char>) -> bool
    decreases html.len(),
{
    if html.len() == 0 {
        true
    } else if !is_markup_char(html[0]) {
        is_inert_html(html.drop_first())
    } else if begins_with(html, sup_open()) {
        is_inert_html(tail_from(html, 5))
    } else if begins_with(html, sup_close()) {
        is_inert_html(tail_from(html, 6))
    } else if begins_with(html, anchor_close()) {
        is_inert_html(tail_from(html, 4))
    } else if begins_with(html, anchor_open()) {
        let target = tail_from(html, 9);
        let close = tail_from(target, target_run(target));
        begins_with(close, anchor_open_end()) && is_inert_html(tail_from(close, 2))
    } else {
        false
    }
}

/// What the fixed strings of the renderer are, character by character.
proof fn lemma_fixed_strings()
    ensures
        "<sup>"@ == sup_open(),
        "</sup>"@ == sup_close(),
        "</a>"@ == anchor_close(),
        "<a href=\""@ == anchor_open(),
        "\">"@ == anchor_open_end(),
{
    reveal_strlit("<sup>");
    reveal_strlit("</sup>");
    reveal_strlit("</a>");
    reveal_strlit("<a href=\"");
    reveal_strlit("\">");
    assert("<sup>"@ =~= seq!['<', 's', 'u', 'p', '>']);
    assert("</sup>"@ =~= seq!['<', '/', 's', 'u', 'p', '>']);
    assert("</a>"@ =~= seq!['<', '/', 'a', '>']);
    assert("<a href=\""@ =~= seq!['<', 'a', ' ', 'h', 'r', 'e', 'f', '=', '"']);
    assert("\">"@ =~= seq!['"', '>']);
}

/// A run of target characters goes on through what is appended to it, up
/// to the first character of another kind.
proof fn lemma_target_run_concat(target: Seq<char>, rest: Seq<char>)
    requires
        forall|i: int| 0 <= i < target.len() ==> is_target_char(#[trigger] target[i]),
        rest.len() == 0 || !is_target_char(rest[0]),
    ensures
        target_run(target + rest) == target.len(),
    decreases target.len(),
{
    if target.len() == 0 {
        assert(target + rest =~= rest);
    } else {
        let tail = target.drop_first();
        assert forall|i: int| 0 <= i < tail.len() implies is_target_char(#[trigger] tail[i]) by {
            assert(tail[i] == target[i + 1]);
        }
        lemma_target_run_concat(tail, rest);
        assert((target + rest).drop_first() =~= tail + rest);
    }
}

/// Inert HTML after inert HTML is inert HTML.
pub proof fn lemma_inert_concat(a: Seq<char>, b: Seq<char>)
    requires
        is_inert_html(a),
        is_inert_html(b),
    ensures
        is_inert_html(a + b),
    decreases a.len(),
{
    let whole = a + b;
    if a.len() == 0 {
        assert(whole =~= b);
    } else if !is_markup_char(a[0]) {
        lemma_inert_concat(a.drop_first(), b);
        assert(whole.drop_first() =~= a.drop_first() + b);
    } else if begins_with(a, sup_open()) {
        lemma_inert_step(a, b, sup_open());
    } else if begins_with(a, sup_close()) {
        lemma_inert_step(a, b, sup_close());
    } else if begins_with(a, anchor_close()) {
        lemma_inert_step(a, b, anchor_close());
    } else {
        let open = anchor_open();
        let target = tail_from(a, open.len());
        let run = target_run(target);
        let close = tail_from(target, run);
        let after = tail_from(close, 2);
        lemma_target_run_fits(target);
        assert(whole.take(open.len() as int) =~= a.take(open.len() as int));
        let whole_target = tail_from(whole, open.len());
        assert(whole_target =~= target + b);
        // The target ends where it ended before: at the quotation mark.
        assert(target =~= target.take(run as int) + close);
        lemma_target_run_concat(target.take(run as int), close + b);
        assert(whole_target =~= target.take(run as int) + (close + b));
        let whole_close = tail_from(whole_target, run);
        assert(whole_close =~= close + b);
        assert(whole_close.take(2) =~= close.take(2));
        assert(tail_from(whole_close, 2) =~= after + b);
        lemma_inert_concat(after, b);
    }
}

/// A run of target characters is no longer than the text, and ends before
/// a character of another kind.
proof fn lemma_target_run_fits(html: Seq<char>)
    ensures
        target_run(html) <= html.len(),
        forall|i: int| 0 <= i < target_run(html) ==> is_target_char(#[trigger] html[i]),
        target_run(html) < html.len() ==> !is_target_char(html[target_run(html) as int]),
    decreases html.len(),
{
    if html.len() > 0 && is_target_char(html[0]) {
        let rest = html.drop_first();
        lemma_target_run_fits(rest);
        assert forall|i: int| 0 <= i < target_run(html) implies is_target_char(
            #[trigger] html[i],
        ) by {
            if i > 0 {
                assert(html[i] == rest[i - 1]);
            }
        }
        if target_run(html) < html.len() {
            assert(html[target_run(html) as int] == rest[target_run(rest) as int]);
        }
    }
}

/// The step of `lemma_inert_concat` over one of the fixed elements.
proof fn lemma_inert_step(a: Seq<char>, b: Seq<char>, tag: Seq<char>)
    requires
        begins_with(a, tag),
        tag.len() > 0,
        is_inert_html(tail_from(a, tag.len())),
        is_inert_html(b),
    ensures
        begins_with(a + b, tag),
        is_inert_html(tail_from(a + b, tag.len())),
    decreases a.len(), 0nat,
{
    assert((a + b).take(tag.len() as int) =~= a.take(tag.len() as int));
    lemma_inert_concat(tail_from(a, tag.len()), b);
    assert(tail_from(a + b, tag.len()) =~= tail_from(a, tag.len()) + b);
}


/// One escaped character is inert.
pub proof fn lemma_escape_char_inert(c: char)
    ensures
        is_inert_html(escape_char(c)),
{
    let html = escape_char(c);
    assert forall|i: int| 0 <= i < html.len() implies !is_markup_char(#[trigger] html[i]) by {}
    lemma_plain_inert(html);
}

/// HTML without any of the characters `<`, `>`, `"`, `'` is inert.
pub proof fn lemma_plain_inert(html: Seq<char>)
    requires
        forall|i: int| 0 <= i < html.len() ==> !is_markup_char(#[trigger] html[i]),
    ensures
        is_inert_html(html),
    decreases html.len(),
{
    if html.len() > 0 {
        let rest = html.drop_first();
        assert forall|i: int| 0 <= i < rest.len() implies !is_markup_char(#[trigger] rest[i]) by {
            assert(rest[i] == html[i + 1]);
        }
        lemma_plain_inert(rest);
    }
}

/// Escaped text holds none of the characters `<`, `>`, `"`, `'`.
pub proof fn lemma_escape_text_plain(text: Seq<char>)
    ensures
        forall|i: int|
            0 <= i < escape_text(text).len() ==> !is_markup_char(#[trigger] escape_text(text)[i]),
        is_inert_html(escape_text(text)),
    decreases text.len(),
{
    let html = escape_text(text);
    if text.len() > 0 {
        let front = escape_text(text.drop_last());
        let last = escape_char(text.last());
        lemma_escape_text_plain(text.drop_last());
        assert forall|i: int| 0 <= i < html.len() implies !is_markup_char(#[trigger] html[i]) by {
            if i < front.len() {
                assert(html[i] == front[i]);
            } else {
                assert(html[i] == last[i - front.len()]);
            }
        }
    }
    lemma_plain_inert(html);
}

/// A percent-encoded target is made of target characters.
pub proof fn lemma_percent_encode_target(bytes: Seq<u8>)
    ensures
        forall|i: int|
            0 <= i < percent_encode(bytes).len() ==> is_target_char(
                #[trigger] percent_encode(bytes)[i],
            ),
    decreases bytes.len(),
{
    let html = percent_encode(bytes);
    if bytes.len() > 0 {
        let front = percent_encode(bytes.drop_last());
        let last = percent_encode_byte(bytes.last());
        lemma_percent_encode_target(bytes.drop_last());
        assert forall|i: int| 0 <= i < last.len() implies is_target_char(#[trigger] last[i]) by {
            let b = bytes.last();
            if is_unreserved(b) {
                assert(last[i] == b as char);
            } else {
                assert(b / 16 < 16 && b % 16 < 16);
            }
        }
        assert forall|i: int| 0 <= i < html.len() implies is_target_char(#[trigger] html[i]) by {
            if i < front.len() {
                assert(html[i] == front[i]);
            } else {
                assert(html[i] == last[i - front.len()]);
            }
        }
    }
}

/// A hyperlink is inert, whatever its target and its label.
pub proof fn lemma_anchor_inert(target: Seq<char>, label: Seq<char>)
    ensures
        is_inert_html(anchor(target, label)),
{
    lemma_fixed_strings();
    let encoded = url_encoded(target);
    let shown = escape_text(label);
    let html = anchor(target, label);
    let tail = shown + anchor_close();
    let close = anchor_open_end() + tail;
    assert(html =~= anchor_open() + (encoded + close));
    assert(html.take(9) =~= anchor_open());
    assert(tail_from(html, 9) =~= encoded + close);
    lemma_percent_encode_target(vstd::utf8::encode_utf8(target));
    lemma_target_run_concat(encoded, close);
    assert(tail_from(encoded + close, encoded.len()) =~= close);
    assert(close.take(2) =~= anchor_open_end());
    assert(tail_from(close, 2) =~= tail);
    lemma_escape_text_plain(label);
    assert(is_inert_html(anchor_close())) by {
        assert(anchor_close().take(4) =~= anchor_close());
        assert(tail_from(anchor_close(), 4) =~= Seq::<char>::empty());
        assert(is_inert_html(Seq::<char>::empty()));
    }
    lemma_inert_concat(shown, anchor_close());
}

/// Inert HTML inside a `sup` element is inert.
pub proof fn lemma_sup_inert(inner: Seq<char>)
    requires
        is_inert_html(inner),
    ensures
        is_inert_html(sup_open() + inner + sup_close()),
{
    let html = sup_open() + inner + sup_close();
    assert(is_inert_html(sup_close())) by {
        assert(sup_close().take(6) =~= sup_close());
        assert(tail_from(sup_close(), 6) =~= Seq::<char>::empty());
        assert(sup_close().take(5)[1] != sup_open()[1]);
        assert(is_inert_html(Seq::<char>::empty()));
    }
    lemma_inert_concat(inner, sup_close());
    assert(html.take(5) =~= sup_open());
    assert(tail_from(html, 5) =~= inner + sup_close());
}

/// What a link directive renders to is inert.
pub proof fn lemma_number_link_inert(text: Seq<char>)
    ensures
        is_inert_html(number_link(text).html),
{
    let body = tail_from(text, 1);
    let n = crate::filters::digit_run(body);
    let digits = body.take(n as int);
    lemma_anchor_inert(seq!['/'] + digits, digits);
    lemma_escape_text_plain(seq!['(', '#'] + digits);
    if n < body.len() {
        lemma_escape_char_inert(body[n as int]);
        lemma_inert_concat(escape_text(seq!['(', '#'] + digits), escape_char(body[n as int]));
    }
}

/// What a superscript directive renders to is inert.
pub proof fn lemma_superscript_inert(text: Seq<char>)
    ensures
        is_inert_html(superscript(text).html),
    decreases text.len(), 1nat,
{
    lemma_fixed_strings();
    lemma_scope_inert(tail_from(text, 1), 0, false);
    lemma_sup_inert(scope(tail_from(text, 1), 0, false).html);
}

/// What a scope of markup renders to is inert.
pub proof fn lemma_scope_inert(text: Seq<char>, depth: nat, top: bool)
    ensures
        is_inert_html(scope(text, depth, top).html),
    decreases text.len(), 0nat,
{
    if text.len() == 0 {
    } else if text[0] == '\\' {
        if text.len() > 1 {
            lemma_escape_char_inert(text[1]);
            lemma_scope_inert(tail_from(text, 2), depth, top);
            lemma_inert_concat(escape_char(text[1]), scope(tail_from(text, 2), depth, top).html);
        }
    } else if text[0] == '(' && text.len() > 1 && text[1] == '^' {
        let sup = superscript(tail_from(text, 1));
        lemma_superscript_inert(tail_from(text, 1));
        lemma_scope_inert(tail_from(text, 1 + sup.used), depth, top);
        lemma_inert_concat(sup.html, scope(tail_from(text, 1 + sup.used), depth, top).html);
    } else if text[0] == '(' && text.len() > 1 && text[1] == '#' {
        let link = number_link(tail_from(text, 1));
        lemma_number_link_inert(tail_from(text, 1));
        lemma_scope_inert(tail_from(text, 1 + link.used), depth, top);
        lemma_inert_concat(link.html, scope(tail_from(text, 1 + link.used), depth, top).html);
    } else if text[0] == '(' {
        lemma_escape_char_inert('(');
        lemma_scope_inert(tail_from(text, 1), depth + 1, top);
        lemma_inert_concat(escape_char('('), scope(tail_from(text, 1), depth + 1, top).html);
    } else if text[0] == ')' && depth == 0 && !top {
    } else if text[0] == ')' {
        let next: nat = if depth > 0 { (depth - 1) as nat } else { 0 };
        lemma_escape_char_inert(')');
        lemma_scope_inert(tail_from(text, 1), next, top);
        lemma_inert_concat(escape_char(')'), scope(tail_from(text, 1), next, top).html);
    } else {
        lemma_escape_char_inert(text[0]);
        lemma_scope_inert(tail_from(text, 1), depth, top);
        lemma_inert_concat(escape_char(text[0]), scope(tail_from(text, 1), depth, top).html);
    }
}

/// Whatever the markup, what it renders to is inert: the text in it can
/// open no tag and end no attribute.
pub proof fn lemma_rendered_inert(text: Seq<char>)
    ensures
        is_inert_html(rendered(text)),
{
    lemma_scope_inert(text, 0, true);
}


/// Unreserved bytes are encoded as themselves.
proof fn lemma_percent_encode_unreserved(bytes: Seq<u8>)
    requires
        forall|i: int| 0 <= i < bytes.len() ==> is_unreserved(#[trigger] bytes[i]),
    ensures
        percent_encode(bytes) == Seq::new(bytes.len(), |i: int| bytes[i] as char),
    decreases bytes.len(),
{
    if bytes.len() > 0 {
        let front = bytes.drop_last();
        assert forall|i: int| 0 <= i < front.len() implies is_unreserved(#[trigger] front[i]) by {
            assert(front[i] == bytes[i]);
        }
        lemma_percent_encode_unreserved(front);
        assert(is_unreserved(bytes[bytes.len() - 1]));
    }
    assert(percent_encode(bytes) =~= Seq::new(bytes.len(), |i: int| bytes[i] as char));
}

/// The link to the page of a number is made of its digits as they are:
/// neither the target `/digits` nor the digits shown change when they are
/// encoded and escaped.
pub proof fn lemma_number_link_plain(digits: Seq<char>)
    requires
        forall|i: int| 0 <= i < digits.len() ==> is_digit(#[trigger] digits[i]),
    ensures
        anchor(seq!['/'] + digits, digits) == "<a href=\""@ + (seq!['/'] + digits) + "\">"@ + digits
            + "</a>"@,
{
    let target = seq!['/'] + digits;
    assert forall|i: int| 0 <= i < target.len() implies '\0' <= #[trigger] target[i]
        <= '\u{7f}' && is_unreserved(target[i] as u8) && (target[i] as u8) as char == target[i] by {
        if i > 0 {
            assert(target[i] == digits[i - 1]);
        }
    }
    vstd::utf8::is_ascii_chars_encode_utf8(target);
    let bytes = vstd::utf8::encode_utf8(target);
    assert forall|i: int| 0 <= i < bytes.len() implies is_unreserved(#[trigger] bytes[i]) by {
        assert(bytes[i] == target[i] as u8);
    }
    lemma_percent_encode_unreserved(bytes);
    assert(url_encoded(target) =~= target) by {
        assert forall|i: int| 0 <= i < bytes.len() implies bytes[i] as char == target[i] by {
            assert(bytes[i] == target[i] as u8);
        }
    }
    lemma_digits_escape_plain(digits);
}

/// Digits are escaped as themselves.
proof fn lemma_digits_escape_plain(digits: Seq<char>)
    requires
        forall|i: int| 0 <= i < digits.len() ==> is_digit(#[trigger] digits[i]),
    ensures
        escape_text(digits) == digits,
    decreases digits.len(),
{
    if digits.len() > 0 {
        let front = digits.drop_last();
        assert forall|i: int| 0 <= i < front.len() implies is_digit(#[trigger] front[i]) by {
            assert(front[i] == digits[i]);
        }
        lemma_digits_escape_plain(front);
        assert(is_digit(digits[digits.len() - 1]));
        assert(escape_text(digits) =~= digits);
    }
}

} // verus!
