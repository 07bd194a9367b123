//! The markup that facts are written in, and its rendering to HTML.
//!
//! Text is plain characters with three directives: a backslash takes the
//! next character literally, `(^...)` sets its content as superscript, and
//! `(#digits)` links to the page of that number. Other parentheses are
//! balanced and passed through. Every character of the text that reaches the
//! output is escaped for HTML; tags come from fixed strings only.

pub mod inert;

use crate::text::{digit_char, is_decimal_digit};
use vstd::prelude::*;
use vstd::string::StringExecFns;
use vstd::utf8::encode_utf8;

verus! {

broadcast use vstd::string::group_string_axioms;

/// `askama::Error`, which the filter's signature names.
#[verifier::external_type_specification]
#[verifier::external_body]
pub struct ExAskamaError(askama::Error);

/// What a piece of markup renders to, and how many characters it takes up.
pub struct Rendered {
    pub html: Seq<char>,
    pub used: nat,
}

/// `text` without its first `n` characters; empty where it has fewer.
pub open spec fn tail_from(text: Seq<char>, n: nat) -> Seq<char> {
    if n <= text.len() {
        text.skip(n as int)
    } else {
        Seq::empty()
    }
}

/// One character of text, escaped for HTML.
pub open spec fn escape_char(c: char) -> Seq<char> {
    if c == '&' {
        seq!['&', 'a', 'm', 'p', ';']
    } else if c == '<' {
        seq!['&', 'l', 't', ';']
    } else if c == '>' {
        seq!['&', 'g', 't', ';']
    } else if c == '"' {
        seq!['&', 'q', 'u', 'o', 't', ';']
    } else if c == '\'' {
        seq!['&', '#', '3', '9', ';']
    } else {
        seq![c]
    }
}

/// Text escaped for HTML, character by character.
pub open spec fn escape_text(text: Seq<char>) -> Seq<char>
    decreases text.len(),
{
    if text.len() == 0 {
        Seq::empty()
    } else {
        escape_text(text.drop_last()) + escape_char(text.last())
    }
}

/// Bytes that stay as they are in a link target: ASCII letters and digits
/// and `-`, `.`, `_`, `~`, `/`.
pub open spec fn is_unreserved(b: u8) -> bool {
    ||| 0x30 <= b <= 0x39
    ||| 0x41 <= b <= 0x5a
    ||| 0x61 <= b <= 0x7a
    ||| b == 0x2d
    ||| b == 0x2e
    ||| b == 0x5f
    ||| b == 0x7e
    ||| b == 0x2f
}

/// One byte of a link target, percent-encoded unless it is unreserved.
pub open spec fn percent_encode_byte(b: u8) -> Seq<char> {
    if is_unreserved(b) {
        seq![b as char]
    } else {
        seq!['%', digit_char((b / 16) as nat), digit_char((b % 16) as nat)]
    }
}

/// Bytes percent-encoded one by one.
pub open spec fn percent_encode(bytes: Seq<u8>) -> Seq<char>
    decreases bytes.len(),
{
    if bytes.len() == 0 {
        Seq::empty()
    } else {
        percent_encode(bytes.drop_last()) + percent_encode_byte(bytes.last())
    }
}

/// A link target made safe for a URL: its UTF-8 bytes, percent-encoded.
pub open spec fn url_encoded(target: Seq<char>) -> Seq<char> {
    percent_encode(encode_utf8(target))
}

/// A hyperlink to `target` that shows `label`.
pub open spec fn anchor(target: Seq<char>, label: Seq<char>) -> Seq<char> {
    "<a href=\""@ + url_encoded(target) + "\">"@ + escape_text(label) + "</a>"@
}

/// An ASCII decimal digit.
pub open spec fn is_digit(c: char) -> bool {
    is_decimal_digit(c)
}

/// The number of decimal digits that `text` starts with.
pub open spec fn digit_run(text: Seq<char>) -> nat
    decreases text.len(),
{
    if text.len() > 0 && is_digit(text[0]) {
        1 + digit_run(text.drop_first())
    } else {
        0
    }
}

/// The link directive, `text` being what follows its opening parenthesis,
/// from the `#` on. A run of digits closed by `)` becomes a link to the page
/// of that number. Anything else is no directive: what was read, and the
/// character that broke the run, are text.
pub open spec fn number_link(text: Seq<char>) -> Rendered {
    let body = tail_from(text, 1);
    let marker: nat = if text.len() > 0 { 1 } else { 0 };
    let n = digit_run(body);
    let digits = body.take(n as int);
    if n < body.len() && body[n as int] == ')' {
        Rendered { html: anchor(seq!['/'] + digits, digits), used: marker + n + 1 }
    } else if n < body.len() {
        Rendered {
            html: escape_text(seq!['(', '#'] + digits) + escape_char(body[n as int]),
            used: marker + n + 1,
        }
    } else {
        Rendered { html: escape_text(seq!['(', '#'] + digits), used: marker + n }
    }
}

/// The superscript directive, `text` being what follows its opening
/// parenthesis, from the `^` on: the scope inside, in a `sup` element, with
/// the parenthesis that closes it where the text has one.
pub open spec fn superscript(text: Seq<char>) -> Rendered
    decreases text.len(), 1nat,
{
    let marker: nat = if text.len() > 0 { 1 } else { 0 };
    let inner = scope(tail_from(text, 1), 0, false);
    let close: nat = if marker + inner.used < text.len() { 1 } else { 0 };
    Rendered { html: "<sup>"@ + inner.html + "</sup>"@, used: marker + inner.used + close }
}

/// A scope of markup: `text` read with `depth` literal parentheses open,
/// up to the end or, unless this is the `top` level, to the parenthesis that
/// closes the scope, which is left unread. At the top level a closing
/// parenthesis that matches nothing is text.
pub open spec fn scope(text: Seq<char>, depth: nat, top: bool) -> Rendered
    decreases text.len(), 0nat,
{
    if text.len() == 0 {
        Rendered { html: Seq::empty(), used: 0 }
    } else if text[0] == '\\' {
        if text.len() == 1 {
            Rendered { html: Seq::empty(), used: 1 }
        } else {
            let more = scope(tail_from(text, 2), depth, top);
            Rendered { html: escape_char(text[1]) + more.html, used: 2 + more.used }
        }
    } else if text[0] == '(' && text.len() > 1 && text[1] == '^' {
        let sup = superscript(tail_from(text, 1));
        let more = scope(tail_from(text, 1 + sup.used), depth, top);
        Rendered { html: sup.html + more.html, used: 1 + sup.used + more.used }
    } else if text[0] == '(' && text.len() > 1 && text[1] == '#' {
        let link = number_link(tail_from(text, 1));
        let more = scope(tail_from(text, 1 + link.used), depth, top);
        Rendered { html: link.html + more.html, used: 1 + link.used + more.used }
    } else if text[0] == '(' {
        let more = scope(tail_from(text, 1), depth + 1, top);
        Rendered { html: escape_char('(') + more.html, used: 1 + more.used }
    } else if text[0] == ')' && depth == 0 && !top {
        Rendered { html: Seq::empty(), used: 0 }
    } else if text[0] == ')' {
        let more = scope(tail_from(text, 1), if depth > 0 { (depth - 1) as nat } else { 0 }, top);
        Rendered { html: escape_char(')') + more.html, used: 1 + more.used }
    } else {
        let more = scope(tail_from(text, 1), depth, top);
        Rendered { html: escape_char(text[0]) + more.html, used: 1 + more.used }
    }
}

/// The HTML that `text` renders to.
pub open spec fn rendered(text: Seq<char>) -> Seq<char> {
    scope(text, 0, true).html
}


/// A position in a text: the characters that are still to be read.
pub struct StrCursor {
    chars: Vec<char>,
    pos: usize,
}

impl View for StrCursor {
    type V = Seq<char>;

    closed spec fn view(&self) -> Seq<char> {
        self.chars@.skip(self.pos as int)
    }
}

impl StrCursor {
    #[verifier::type_invariant]
    spec fn in_bounds(&self) -> bool {
        self.pos <= self.chars@.len()
    }

    /// A cursor at the start of `text`.
    pub fn new(text: &str) -> (r: StrCursor)
        ensures
            r@ == text@,
    {
        let mut chars: Vec<char> = Vec::new();
        for c in it: text.chars()
            invariant
                chars@ == it.seq().take(it.index()),
        {
            assert(it.seq().take(it.index() + 1) =~= it.seq().take(it.index()).push(c));
            chars.push(c);
        }
        assert(chars@ =~= text@);
        StrCursor { chars, pos: 0 }
    }

    /// The next character, which stays unread.
    pub fn peek(&self) -> (r: Option<char>)
        ensures
            match r {
                Some(c) => self@.len() > 0 && c == self@[0],
                None => self@.len() == 0,
            },
    {
        proof {
            use_type_invariant(self);
        }
        if self.pos < self.chars.len() {
            Some(self.chars[self.pos])
        } else {
            None
        }
    }

    /// Reads the next character.
    pub fn next(&mut self) -> (r: Option<char>)
        ensures
            match r {
                Some(c) => old(self)@.len() > 0 && c == old(self)@[0] && final(self)@ == old(
                    self,
                )@.drop_first(),
                None => old(self)@.len() == 0 && final(self)@ == old(self)@,
            },
    {
        proof {
            use_type_invariant(&*self);
        }
        if self.pos < self.chars.len() {
            let c = self.chars[self.pos];
            self.pos = self.pos + 1;
            assert(self.chars@.skip(self.pos as int) =~= self.chars@.skip(
                self.pos - 1,
            ).drop_first());
            Some(c)
        } else {
            None
        }
    }
}

/// The HTML written so far.
pub struct HtmlEmitter {
    out: String,
}

impl View for HtmlEmitter {
    type V = Seq<char>;

    closed spec fn view(&self) -> Seq<char> {
        self.out@
    }
}

impl HtmlEmitter {
    /// An emitter that has written nothing.
    pub fn new() -> (r: HtmlEmitter)
        ensures
            r@ == Seq::<char>::empty(),
    {
        HtmlEmitter { out: String::new() }
    }

    /// What was written.
    pub fn into_string(self) -> (r: String)
        ensures
            r@ == self@,
    {
        self.out
    }

    /// Writes one character of text, escaped. Use it wherever text is
    /// expected, that is anywhere but inside a tag.
    pub fn emit_text_char(&mut self, c: char)
        ensures
            final(self)@ == old(self)@ + escape_char(c),
    {
        proof {
            reveal_strlit("&amp;");
            reveal_strlit("&lt;");
            reveal_strlit("&gt;");
            reveal_strlit("&quot;");
            reveal_strlit("&#39;");
        }
        if c == '&' {
            self.out.append("&amp;");
            assert("&amp;"@ =~= escape_char(c));
        } else if c == '<' {
            self.out.append("&lt;");
            assert("&lt;"@ =~= escape_char(c));
        } else if c == '>' {
            self.out.append("&gt;");
            assert("&gt;"@ =~= escape_char(c));
        } else if c == '"' {
            self.out.append("&quot;");
            assert("&quot;"@ =~= escape_char(c));
        } else if c == '\'' {
            self.out.append("&#39;");
            assert("&#39;"@ =~= escape_char(c));
        } else {
            self.out.push(c);
            assert(old(self)@.push(c) =~= old(self)@ + escape_char(c));
        }
    }

    /// Writes text, escaped.
    pub fn emit_text_str(&mut self, s: &str)
        ensures
            final(self)@ == old(self)@ + escape_text(s@),
    {
        assert(old(self)@ + escape_text(s@.take(0)) =~= old(self)@);
        for c in it: s.chars()
            invariant
                it.seq() == s@,
                self@ == old(self)@ + escape_text(s@.take(it.index())),
        {
            proof {
                let next = s@.take(it.index() + 1);
                assert(next.drop_last() =~= s@.take(it.index()));
                assert(next.last() == c);
            }
            self.emit_text_char(c);
        }
        assert(s@.take(s@.len() as int) =~= s@);
    }

    /// Writes a fixed string as it is. The lifetime is `'static` so that no
    /// text of a user comes this way.
    pub fn emit_raw_str(&mut self, s: &'static str)
        ensures
            final(self)@ == old(self)@ + s@,
    {
        self.out.append(s);
    }

    /// Writes a hyperlink to `link` that shows `link_text`. The target is
    /// percent-encoded; `javascript:` targets are not filtered out.
    pub fn emit_link(&mut self, link: &str, link_text: &str)
        ensures
            final(self)@ == old(self)@ + anchor(link@, link_text@),
    {
        self.emit_raw_str("<a href=\"");
        match url_encode(link) {
            Ok(target) => {
                self.out.append(target.as_str());
            },
            Err(_) => {},
        }
        self.emit_raw_str("\">");
        self.emit_text_str(link_text);
        self.emit_raw_str("</a>");
        assert(self@ =~= old(self)@ + anchor(link@, link_text@));
    }
}

/// Percent-encodes a link target, by `askama::filters::urlencode`, which
/// encodes every byte but ASCII letters and digits and `-`, `.`, `_`, `~`,
/// `/`, and never fails.
#[verifier::external_body]
fn url_encode(link: &str) -> (r: Result<String, askama::Error>)
    ensures
        r is Ok,
        r->Ok_0@ == url_encoded(link@),
{
    askama::filters::urlencode(link)
}


/// The digits that `text` starts with are as many as it has characters, at most.
pub proof fn lemma_digit_run_fits(text: Seq<char>)
    ensures
        digit_run(text) <= text.len(),
        forall|i: int| 0 <= i < digit_run(text) ==> is_digit(#[trigger] text[i]),
        digit_run(text) < text.len() ==> !is_digit(text[digit_run(text) as int]),
    decreases text.len(),
{
    if text.len() > 0 && is_digit(text[0]) {
        let rest = text.drop_first();
        lemma_digit_run_fits(rest);
        assert forall|i: int| 0 <= i < digit_run(text) implies is_digit(#[trigger] text[i]) by {
            if i > 0 {
                assert(text[i] == rest[i - 1]);
            }
        }
        if digit_run(text) < text.len() {
            assert(text[digit_run(text) as int] == rest[digit_run(rest) as int]);
        }
    }
}

/// After `k` digits, the run of digits goes on as it does in what follows them.
proof fn lemma_digit_run_split(text: Seq<char>, k: nat)
    requires
        k <= text.len(),
        forall|i: int| 0 <= i < k ==> is_digit(#[trigger] text[i]),
    ensures
        digit_run(text) == k + digit_run(text.skip(k as int)),
    decreases k,
{
    if k == 0 {
        assert(text.skip(0) =~= text);
    } else {
        let rest = text.drop_first();
        assert forall|i: int| 0 <= i < k - 1 implies is_digit(#[trigger] rest[i]) by {
            assert(rest[i] == text[i + 1]);
        }
        lemma_digit_run_split(rest, (k - 1) as nat);
        assert(rest.skip(k - 1 as int) =~= text.skip(k as int));
    }
}

/// A link directive takes up no more than there is.
pub proof fn lemma_number_link_fits(text: Seq<char>)
    ensures
        number_link(text).used <= text.len(),
{
    lemma_digit_run_fits(tail_from(text, 1));
}

/// A scope takes up no more than there is.
pub proof fn lemma_scope_fits(text: Seq<char>, depth: nat, top: bool)
    ensures
        scope(text, depth, top).used <= text.len(),
    decreases text.len(), 0nat,
{
    if text.len() == 0 {
    } else if text[0] == '\\' {
        if text.len() > 1 {
            lemma_scope_fits(tail_from(text, 2), depth, top);
        }
    } else if text[0] == '(' && text.len() > 1 && text[1] == '^' {
        let sup = superscript(tail_from(text, 1));
        lemma_superscript_fits(tail_from(text, 1));
        lemma_scope_fits(tail_from(text, 1 + sup.used), depth, top);
    } else if text[0] == '(' && text.len() > 1 && text[1] == '#' {
        let link = number_link(tail_from(text, 1));
        lemma_number_link_fits(tail_from(text, 1));
        lemma_scope_fits(tail_from(text, 1 + link.used), depth, top);
    } else if text[0] == '(' {
        lemma_scope_fits(tail_from(text, 1), depth + 1, top);
    } else if text[0] == ')' && depth == 0 && !top {
    } else if text[0] == ')' {
        lemma_scope_fits(tail_from(text, 1), if depth > 0 { (depth - 1) as nat } else { 0 }, top);
    } else {
        lemma_scope_fits(tail_from(text, 1), depth, top);
    }
}

/// A superscript directive takes up no more than there is.
pub proof fn lemma_superscript_fits(text: Seq<char>)
    ensures
        superscript(text).used <= text.len(),
    decreases text.len(), 1nat,
{
    lemma_scope_fits(tail_from(text, 1), 0, false);
}

/// Rendering at the top level is rendering one scope and then, from the
/// parenthesis that closed it, the rest at the top level.
pub proof fn lemma_top_level_splits(text: Seq<char>, depth: nat)
    ensures
        scope(text, depth, true).html == scope(text, depth, false).html + scope(
            tail_from(text, scope(text, depth, false).used),
            0,
            true,
        ).html,
    decreases text.len(),
{
    let whole = scope(text, depth, true);
    let first = scope(text, depth, false);
    let rest = scope(tail_from(text, first.used), 0, true);
    if text.len() == 0 {
        assert(tail_from(text, 0) =~= text);
        assert(whole.html =~= first.html + rest.html);
    } else if text[0] == ')' && depth == 0 {
        assert(tail_from(text, 0) =~= text);
        assert(whole.html =~= first.html + rest.html);
    } else if text[0] == '\\' && text.len() == 1 {
        assert(whole.html =~= first.html + rest.html);
    } else {
        // One step that is the same at either level, then the rest.
        let step: nat = if text[0] == '\\' {
            2
        } else if text[0] == '(' && text.len() > 1 && text[1] == '^' {
            lemma_superscript_fits(tail_from(text, 1));
            1 + superscript(tail_from(text, 1)).used
        } else if text[0] == '(' && text.len() > 1 && text[1] == '#' {
            lemma_number_link_fits(tail_from(text, 1));
            1 + number_link(tail_from(text, 1)).used
        } else {
            1
        };
        let next_depth: nat = if text[0] == '\\' {
            depth
        } else if text[0] == '(' && text.len() > 1 && (text[1] == '^' || text[1] == '#') {
            depth
        } else if text[0] == '(' {
            depth + 1
        } else if text[0] == ')' {
            (depth - 1) as nat
        } else {
            depth
        };
        let after = tail_from(text, step);
        lemma_top_level_splits(after, next_depth);
        lemma_scope_fits(after, next_depth, false);
        let inner = scope(after, next_depth, false);
        assert(first.used == step + inner.used);
        assert(tail_from(after, inner.used) =~= tail_from(text, first.used));
        assert(whole.html =~= first.html + rest.html);
    }
}

/// Renders the superscript directive at the cursor, which stands on its `^`.
pub fn superscript_handler(s: &mut StrCursor, out: &mut HtmlEmitter)
    ensures
        final(out)@ == old(out)@ + superscript(old(s)@).html,
        final(s)@ == tail_from(old(s)@, superscript(old(s)@).used),
    decreases old(s)@.len(), 1nat,
{
    s.next();
    assert(s@ =~= tail_from(old(s)@, 1));
    out.emit_raw_str("<sup>");
    proof {
        lemma_scope_fits(s@, 0, false);
    }
    parse_balanced_parens(s, out);
    // eat closing paren
    s.next();
    out.emit_raw_str("</sup>");
    proof {
        assert(s@ =~= tail_from(old(s)@, superscript(old(s)@).used));
        assert(out@ =~= old(out)@ + superscript(old(s)@).html);
    }
}

/// Renders the link directive at the cursor, which stands on its `#`.
pub fn num_link_handler(s: &mut StrCursor, out: &mut HtmlEmitter)
    ensures
        final(out)@ == old(out)@ + number_link(old(s)@).html,
        final(s)@ == tail_from(old(s)@, number_link(old(s)@).used),
{
    s.next();
    let ghost body = s@;
    assert(body =~= tail_from(old(s)@, 1));
    let mut num = String::new();
    let ghost mut k: nat = 0;
    proof {
        lemma_digit_run_fits(body);
        assert(body.take(0) =~= Seq::<char>::empty());
        assert(body.skip(0) =~= body);
    }
    loop
        invariant
            body == tail_from(old(s)@, 1),
            k <= body.len(),
            s@ == body.skip(k as int),
            num@ == body.take(k as int),
            forall|i: int| 0 <= i < k ==> is_digit(#[trigger] body[i]),
            out@ == old(out)@,
        decreases s@.len(),
    {
        proof {
            lemma_digit_run_split(body, k);
            lemma_digit_run_fits(body);
        }
        match s.next() {
            None => {
                let mut literal = String::from_str("(#");
                literal.append(num.as_str());
                out.emit_text_str(literal.as_str());
                proof {
                    reveal_strlit("(#");
                    assert(body.take(k as int) =~= body);
                    assert(literal@ =~= seq!['(', '#'] + body.take(digit_run(body) as int));
                    assert(s@ =~= tail_from(old(s)@, number_link(old(s)@).used));
                }
                return ;
            },
            Some(c) => {
                assert(c == body[k as int]);
                if '0' <= c && c <= '9' {
                    num.push(c);
                    proof {
                        assert(body.take(k + 1 as int) =~= body.take(k as int).push(c));
                        assert(body.skip(k as int).drop_first() =~= body.skip(k + 1 as int));
                        k = k + 1;
                    }
                } else if c == ')' {
                    let mut link = String::from_str("/");
                    link.append(num.as_str());
                    out.emit_link(link.as_str(), num.as_str());
                    proof {
                        reveal_strlit("/");
                        assert(digit_run(body) == k);
                        assert(link@ =~= seq!['/'] + body.take(k as int));
                        assert(body.skip(k as int).drop_first() =~= body.skip(k + 1 as int));
                        assert(s@ =~= tail_from(old(s)@, number_link(old(s)@).used));
                    }
                    return ;
                } else {
                    // No number: what was read is text after all.
                    let mut literal = String::from_str("(#");
                    literal.append(num.as_str());
                    out.emit_text_str(literal.as_str());
                    out.emit_text_char(c);
                    proof {
                        reveal_strlit("(#");
                        assert(digit_run(body) == k);
                        assert(literal@ =~= seq!['(', '#'] + body.take(k as int));
                        assert(body.skip(k as int).drop_first() =~= body.skip(k + 1 as int));
                        assert(s@ =~= tail_from(old(s)@, number_link(old(s)@).used));
                        assert(out@ =~= old(out)@ + number_link(old(s)@).html);
                    }
                    return ;
                }
            },
        }
    }
}

/// Renders one scope of markup: up to the end of the text, or to the closing
/// parenthesis that matches none opened in the scope, which stays unread.
#[verifier::rlimit(30)]
pub fn parse_balanced_parens(s: &mut StrCursor, out: &mut HtmlEmitter)
    ensures
        final(out)@ == old(out)@ + scope(old(s)@, 0, false).html,
        final(s)@ == tail_from(old(s)@, scope(old(s)@, 0, false).used),
    decreases old(s)@.len(), 0nat,
{
    let mut brack_count: usize = 0;
    let ghost whole = scope(old(s)@, 0, false);
    let ghost mut used: nat = 0;
    let ghost mut emitted: Seq<char> = Seq::empty();
    proof {
        assert(old(s)@.skip(0) =~= old(s)@);
        assert(old(out)@ + emitted =~= old(out)@);
        assert(emitted + whole.html =~= whole.html);
        use_type_invariant(&*s);
        assert(s.chars@.len() == s.chars.len());
        assert(s@.len() <= s.chars@.len());
    }
    loop
        invariant
            old(s)@.len() <= usize::MAX,
            used <= old(s)@.len(),
            s@ == old(s)@.skip(used as int),
            brack_count <= used,
            out@ == old(out)@ + emitted,
            whole == scope(old(s)@, 0, false),
            whole.html == emitted + scope(s@, brack_count as nat, false).html,
            whole.used == used + scope(s@, brack_count as nat, false).used,
        decreases s@.len(),
    {
        let ghost text = s@;
        let ghost depth = brack_count as nat;
        match s.peek() {
            None => {
                assert(s@ =~= tail_from(old(s)@, whole.used));
                assert(out@ =~= old(out)@ + whole.html);
                return ;
            },
            Some(c) => {
                if c == '(' {
                    s.next();
                    assert(s@ =~= tail_from(text, 1));
                    match s.peek() {
                        Some('^') => {
                            proof {
                                lemma_superscript_fits(s@);
                            }
                            superscript_handler(s, out);
                            proof {
                                let sup = superscript(tail_from(text, 1));
                                assert(s@ =~= tail_from(text, 1 + sup.used));
                                assert(s@ =~= old(s)@.skip((used + 1 + sup.used) as int));
                                assert(out@ =~= old(out)@ + (emitted + sup.html));
                                assert(emitted + scope(text, depth, false).html =~= (emitted
                                    + sup.html) + scope(s@, depth, false).html);
                                emitted = emitted + sup.html;
                                used = used + 1 + sup.used;
                            }
                        },
                        Some('#') => {
                            proof {
                                lemma_number_link_fits(s@);
                            }
                            num_link_handler(s, out);
                            proof {
                                let link = number_link(tail_from(text, 1));
                                assert(s@ =~= tail_from(text, 1 + link.used));
                                assert(s@ =~= old(s)@.skip((used + 1 + link.used) as int));
                                assert(out@ =~= old(out)@ + (emitted + link.html));
                                assert(emitted + scope(text, depth, false).html =~= (emitted
                                    + link.html) + scope(s@, depth, false).html);
                                emitted = emitted + link.html;
                                used = used + 1 + link.used;
                            }
                        },
                        _ => {
                            brack_count = brack_count + 1;
                            out.emit_text_char(c);
                            proof {
                                assert(s@ =~= old(s)@.skip((used + 1) as int));
                                assert(out@ =~= old(out)@ + (emitted + escape_char(c)));
                                assert(emitted + scope(text, depth, false).html =~= (emitted
                                    + escape_char(c)) + scope(s@, depth + 1, false).html);
                                emitted = emitted + escape_char(c);
                                used = used + 1;
                            }
                        },
                    }
                } else if c == ')' {
                    if brack_count == 0 {
                        assert(s@ =~= tail_from(old(s)@, whole.used));
                        assert(out@ =~= old(out)@ + whole.html);
                        return ;
                    }
                    s.next();
                    brack_count = brack_count - 1;
                    out.emit_text_char(c);
                    proof {
                        assert(s@ =~= tail_from(text, 1));
                        assert(s@ =~= old(s)@.skip((used + 1) as int));
                        assert(out@ =~= old(out)@ + (emitted + escape_char(c)));
                        assert(emitted + scope(text, depth, false).html =~= (emitted + escape_char(
                            c,
                        )) + scope(s@, (depth - 1) as nat, false).html);
                        emitted = emitted + escape_char(c);
                        used = used + 1;
                    }
                } else if c == '\\' {
                    s.next();
                    match s.next() {
                        None => {
                            // A backslash that ends the text escapes nothing.
                            proof {
                                assert(text.len() == 1);
                                assert(s@ =~= tail_from(old(s)@, whole.used));
                                assert(out@ =~= old(out)@ + whole.html);
                            }
                            return ;
                        },
                        Some(d) => {
                            out.emit_text_char(d);
                            proof {
                                assert(d == text[1]);
                                assert(s@ =~= tail_from(text, 2));
                                assert(s@ =~= old(s)@.skip((used + 2) as int));
                                assert(out@ =~= old(out)@ + (emitted + escape_char(d)));
                                assert(emitted + scope(text, depth, false).html =~= (emitted
                                    + escape_char(d)) + scope(s@, depth, false).html);
                                emitted = emitted + escape_char(d);
                                used = used + 2;
                            }
                        },
                    }
                } else {
                    s.next();
                    out.emit_text_char(c);
                    proof {
                        assert(s@ =~= tail_from(text, 1));
                        assert(s@ =~= old(s)@.skip((used + 1) as int));
                        assert(out@ =~= old(out)@ + (emitted + escape_char(c)));
                        assert(emitted + scope(text, depth, false).html =~= (emitted + escape_char(
                            c,
                        )) + scope(s@, depth, false).html);
                        emitted = emitted + escape_char(c);
                        used = used + 1;
                    }
                }
            },
        }
    }
}

/// Renders the rest of the text at the cursor to HTML.
pub fn run_filter(s: &mut StrCursor) -> (r: String)
    ensures
        r@ == rendered(old(s)@),
        final(s)@.len() == 0,
{
    let mut res = HtmlEmitter::new();
    loop
        invariant
            rendered(old(s)@) == res@ + scope(s@, 0, true).html,
        decreases s@.len(),
    {
        let ghost text = s@;
        let ghost before = res@;
        match s.peek() {
            Some(')') => {
                res.emit_text_char(')');
                s.next();
                proof {
                    assert(s@ =~= tail_from(text, 1));
                    assert(before + scope(text, 0, true).html =~= res@ + scope(s@, 0, true).html);
                }
            },
            Some(_) => {
                proof {
                    lemma_top_level_splits(text, 0);
                    lemma_scope_fits(text, 0, false);
                }
                parse_balanced_parens(s, &mut res);
                proof {
                    assert(before + scope(text, 0, true).html =~= res@ + scope(s@, 0, true).html);
                }
            },
            None => {
                assert(res@ + scope(s@, 0, true).html =~= res@);
                return res.into_string();
            },
        }
    }
}

/// Renders markup to HTML: every character of `s` is escaped, and the
/// directives in it become `sup` elements and links to numbers.
pub fn mathfmt(s: &str) -> (r: Result<String, askama::Error>)
    ensures
        r is Ok,
        r->Ok_0@ == rendered(s@),
{
    let mut cursor = StrCursor::new(s);
    Ok(run_filter(&mut cursor))
}

} // verus!
