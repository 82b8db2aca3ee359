//! The syntax highlighter's errors and its HTML output: escaped text
//! inside nested `<span>` elements.

use vstd::prelude::*;

use crate::text::{chars_of, concat_chars, extend_chars, string_of};

verus! {

/// Errors of the highlight layer: the grammar catalog failed to load, a
/// grammar's regex failed, or the language is unknown.
pub enum HljsError {
    Catalog(String),
    Regex(String),
    UnknownLanguage(String),
}

impl HljsError {
    /// The error's text.
    pub fn message(&self) -> (r: String)
        ensures
            r@ == match self {
                HljsError::Catalog(m) => "hljs catalog: "@ + m@,
                HljsError::Regex(m) => "hljs regex: "@ + m@,
                HljsError::UnknownLanguage(l) => "Unknown language: \""@ + l@ + "\""@,
            },
    {
        match self {
            HljsError::Catalog(m) => string_of(concat_chars(&chars_of("hljs catalog: "), &chars_of(m.as_str())).as_slice()),
            HljsError::Regex(m) => string_of(concat_chars(&chars_of("hljs regex: "), &chars_of(m.as_str())).as_slice()),
            HljsError::UnknownLanguage(l) => {
                let head = concat_chars(&chars_of("Unknown language: \""), &chars_of(l.as_str()));
                string_of(concat_chars(&head, &chars_of("\"")).as_slice())
            },
        }
    }
}

/// A character as it stands in HTML text: `&`, `<`, `>`, `"` and `'`
/// become entities.
pub open spec fn html_char(c: char) -> Seq<char> {
    if c == '&' {
        "&amp;"@
    } else if c == '<' {
        "&lt;"@
    } else if c == '>' {
        "&gt;"@
    } else if c == '"' {
        "&quot;"@
    } else if c == '\'' {
        "&#x27;"@
    } else {
        seq![c]
    }
}

/// Text escaped for HTML, character by character.
pub open spec fn spec_escape_html(s: Seq<char>) -> Seq<char>
    decreases s.len(),
{
    if s.len() == 0 {
        Seq::<char>::empty()
    } else {
        spec_escape_html(s.drop_last()) + html_char(s.last())
    }
}

fn push_html_char(out: &mut Vec<char>, c: char)
    ensures
        final(out)@ == old(out)@ + html_char(c),
{
    if c == '&' {
        extend_chars(out, &chars_of("&amp;"));
    } else if c == '<' {
        extend_chars(out, &chars_of("&lt;"));
    } else if c == '>' {
        extend_chars(out, &chars_of("&gt;"));
    } else if c == '"' {
        extend_chars(out, &chars_of("&quot;"));
    } else if c == '\'' {
        extend_chars(out, &chars_of("&#x27;"));
    } else {
        out.push(c);
        assert(final(out)@ =~= old(out)@ + seq![c]);
    }
}

fn push_escaped(out: &mut Vec<char>, text: &str)
    ensures
        final(out)@ == old(out)@ + spec_escape_html(text@),
{
    let chars = chars_of(text);
    let ghost start = out@;
    let mut i: usize = 0;
    assert(chars@.take(0) =~= Seq::<char>::empty());
    assert(start + spec_escape_html(chars@.take(0)) =~= start);
    while i < chars.len()
        invariant
            i <= chars@.len(),
            chars@ == text@,
            start == old(out)@,
            out@ == start + spec_escape_html(chars@.take(i as int)),
        decreases chars@.len() - i,
    {
        let ghost t = chars@.take(i + 1);
        assert(t.drop_last() =~= chars@.take(i as int));
        assert(t.last() == chars@[i as int]);
        push_html_char(out, chars[i]);
        assert(out@ =~= start + spec_escape_html(t));
        i += 1;
    }
    assert(chars@.take(chars@.len() as int) =~= chars@);
}

/// Text escaped for HTML.
pub fn escape_html(value: &str) -> (r: String)
    ensures
        r@ == spec_escape_html(value@),
{
    let mut out: Vec<char> = Vec::new();
    push_escaped(&mut out, value);
    assert(out@ =~= spec_escape_html(value@));
    string_of(out.as_slice())
}

/// The opening tag of a highlighted span of class `hljs-<kind>`.
pub open spec fn open_tag(kind: Seq<char>) -> Seq<char> {
    "<span class=\"hljs-"@ + kind + "\">"@
}

/// The closing tag of a span.
pub open spec fn close_tag() -> Seq<char> {
    "</span>"@
}

/// `n` closing tags.
pub open spec fn close_tags(n: nat) -> Seq<char>
    decreases n,
{
    if n == 0 {
        Seq::<char>::empty()
    } else {
        close_tags((n - 1) as nat) + close_tag()
    }
}

/// Highlighted HTML being written: the markup so far and how many spans
/// are open.
pub struct Emitter {
    buffer: Vec<char>,
    depth: usize,
}

impl Emitter {
    /// The markup written so far.
    pub closed spec fn markup(self) -> Seq<char> {
        self.buffer@
    }

    /// The number of open spans.
    pub closed spec fn open_spans(self) -> nat {
        self.depth as nat
    }

    /// An empty emitter.
    pub fn new() -> (r: Emitter)
        ensures
            r.markup() == Seq::<char>::empty(),
            r.open_spans() == 0,
    {
        Emitter { buffer: Vec::new(), depth: 0 }
    }

    /// Appends escaped text.
    pub fn add_text(&mut self, text: &str)
        ensures
            final(self).markup() == old(self).markup() + spec_escape_html(text@),
            final(self).open_spans() == old(self).open_spans(),
    {
        push_escaped(&mut self.buffer, text);
    }

    /// Opens a span of class `hljs-<kind>`.
    pub fn open_node(&mut self, kind: &str)
        requires
            old(self).open_spans() < usize::MAX,
        ensures
            final(self).markup() == old(self).markup() + open_tag(kind@),
            final(self).open_spans() == old(self).open_spans() + 1,
    {
        extend_chars(&mut self.buffer, &chars_of("<span class=\"hljs-"));
        extend_chars(&mut self.buffer, &chars_of(kind));
        extend_chars(&mut self.buffer, &chars_of("\">"));
        self.depth = self.depth + 1;
    }

    /// Closes the innermost open span, if any.
    pub fn close_node(&mut self)
        ensures
            old(self).open_spans() > 0 ==> final(self).markup() == old(self).markup() + close_tag()
                && final(self).open_spans() == old(self).open_spans() - 1,
            old(self).open_spans() == 0 ==> *final(self) == *old(self),
    {
        if self.depth > 0 {
            extend_chars(&mut self.buffer, &chars_of("</span>"));
            self.depth = self.depth - 1;
        }
    }

    /// Closes every open span.
    pub fn close_all_nodes(&mut self)
        ensures
            final(self).markup() == old(self).markup() + close_tags(old(self).open_spans()),
            final(self).open_spans() == 0,
    {
        let ghost start = self.buffer@;
        let ghost n = self.depth as nat;
        assert(start + close_tags(0) =~= start);
        while self.depth > 0
            invariant
                self.depth <= n,
                self.buffer@ == start + close_tags((n - self.depth) as nat),
            decreases self.depth,
        {
            let ghost before = self.buffer@;
            self.close_node();
            assert(close_tags((n - self.depth) as nat) == close_tags((n - self.depth - 1) as nat) + close_tag());
            assert(self.buffer@ =~= start + close_tags((n - self.depth) as nat));
        }
    }

    /// A span of class `hljs-<kind>` holding escaped text; nothing for
    /// empty text.
    pub fn add_keyword(&mut self, text: &str, kind: &str)
        requires
            old(self).open_spans() < usize::MAX,
        ensures
            text@.len() == 0 ==> *final(self) == *old(self),
            text@.len() > 0 ==> final(self).markup() == old(self).markup() + open_tag(kind@) + spec_escape_html(text@)
                + close_tag(),
            final(self).open_spans() == old(self).open_spans(),
    {
        if chars_of(text).len() == 0 {
            return;
        }
        self.open_node(kind);
        self.add_text(text);
        self.close_node();
    }

    /// The markup of a nested language: wrapped in a span of class `name`
    /// when the language is named.
    pub fn add_sublanguage(&mut self, html: &str, name: Option<&str>)
        ensures
            final(self).markup() == old(self).markup() + match name {
                Some(n) => "<span class=\""@ + n@ + "\">"@ + html@ + close_tag(),
                None => html@,
            },
            final(self).open_spans() == old(self).open_spans(),
    {
        match name {
            Some(n) => {
                extend_chars(&mut self.buffer, &chars_of("<span class=\""));
                extend_chars(&mut self.buffer, &chars_of(n));
                extend_chars(&mut self.buffer, &chars_of("\">"));
                extend_chars(&mut self.buffer, &chars_of(html));
                extend_chars(&mut self.buffer, &chars_of("</span>"));
            },
            None => extend_chars(&mut self.buffer, &chars_of(html)),
        }
    }

    /// The markup written so far.
    pub fn value(&self) -> (r: String)
        ensures
            r@ == self.markup(),
    {
        string_of(self.buffer.as_slice())
    }
}

} // verus!
