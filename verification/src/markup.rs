//! A small streaming markup scanner.
//!
//! The registry's listing and error bodies use a simple element syntax:
//! tags `<name a="v">`, `</name>` and `<name/>`, with arbitrary text between
//! them.  Prologs and declarations (`<?...?>`, `<!...>`) and comments
//! (`<!-- -->`, which may contain `>`) are recognized and skipped.  The
//! scanner turns a body into the sequence of its element events, in order,
//! and fails on malformed tags.  Attribute values are double-quoted.  The
//! scanner itself treats text verbatim; the decoders resolve the predefined
//! entity references in element text.

use vstd::prelude::*;

use crate::text::{
    chars_range_to_string, find_at, find_char, find_dashes, find_dashes_end, find_name_end,
    is_name, is_ws, lemma_find_at, lemma_find_dashes, lemma_find_dashes_shift,
    lemma_find_translate, lemma_name_end_at, name_end_at, ws_char,
};

verus! {

/// One attribute of a tag, at the specification level.
pub struct SpecAttr {
    pub name: Seq<char>,
    pub value: Seq<char>,
}

/// One scanned event, at the specification level.
pub enum SpecEvent {
    /// `<name a="v">`
    Open { name: Seq<char>, attrs: Seq<SpecAttr> },
    /// `<name a="v"/>`
    Empty { name: Seq<char>, attrs: Seq<SpecAttr> },
    /// `</name>`
    Close { name: Seq<char> },
    /// Characters between tags (never empty, never contains `<`).
    Text { text: Seq<char> },
}

/// One attribute of a tag.
pub struct Attr {
    pub name: String,
    pub value: String,
}

/// One scanned event.
pub enum Event {
    Open { name: String, attrs: Vec<Attr> },
    Empty { name: String, attrs: Vec<Attr> },
    Close { name: String },
    Text { text: String },
}

impl DeepView for Attr {
    type V = SpecAttr;

    open spec fn deep_view(&self) -> SpecAttr {
        SpecAttr { name: self.name@, value: self.value@ }
    }
}

impl DeepView for Event {
    type V = SpecEvent;

    open spec fn deep_view(&self) -> SpecEvent {
        match self {
            Event::Open { name, attrs } => SpecEvent::Open {
                name: name@,
                attrs: attrs.deep_view(),
            },
            Event::Empty { name, attrs } => SpecEvent::Empty {
                name: name@,
                attrs: attrs.deep_view(),
            },
            Event::Close { name } => SpecEvent::Close { name: name@ },
            Event::Text { text } => SpecEvent::Text { text: text@ },
        }
    }
}

/// Attributes of a tag body `b`, starting at position `i`: whitespace-led
/// `name="value"` pairs until the end of the body.
pub open spec fn parse_attrs_at(b: Seq<char>, i: int) -> Option<Seq<SpecAttr>>
    decreases b.len() - i,
    via parse_attrs_at_decreases
{
    if i < 0 {
        None
    } else if i >= b.len() {
        Some(Seq::empty())
    } else if is_ws(b[i]) {
        parse_attrs_at(b, i + 1)
    } else {
        let eq = find_at(b, '=', i);
        if eq >= b.len() {
            None
        } else if !is_name(b.subrange(i, eq)) {
            None
        } else if eq + 1 >= b.len() || b[eq + 1] != '"' {
            None
        } else {
            let q = find_at(b, '"', eq + 2);
            if q >= b.len() {
                None
            } else {
                match parse_attrs_at(b, q + 1) {
                    None => None,
                    Some(rest) => Some(
                        seq![SpecAttr { name: b.subrange(i, eq), value: b.subrange(eq + 2, q) }]
                            + rest,
                    ),
                }
            }
        }
    }
}

#[via_fn]
proof fn parse_attrs_at_decreases(b: Seq<char>, i: int) {
    if 0 <= i < b.len() && !is_ws(b[i]) {
        lemma_find_at(b, '=', i);
        let eq = find_at(b, '=', i);
        if eq < b.len() && eq + 1 < b.len() && b[eq + 1] == '"' {
            lemma_find_at(b, '"', eq + 2);
        }
    }
}

/// An opening tag's body: a name, then attributes.
pub open spec fn parse_open_body(b: Seq<char>) -> Option<(Seq<char>, Seq<SpecAttr>)> {
    let e = name_end_at(b, 0);
    if e == 0 {
        None
    } else {
        match parse_attrs_at(b, e) {
            None => None,
            Some(attrs) => Some((b.subrange(0, e), attrs)),
        }
    }
}

/// The event a tag body (the characters between `<` and `>`) denotes.
pub open spec fn parse_tag_body(b: Seq<char>) -> Option<SpecEvent> {
    if b.len() == 0 {
        None
    } else if b[0] == '/' {
        if is_name(b.skip(1)) {
            Some(SpecEvent::Close { name: b.skip(1) })
        } else {
            None
        }
    } else if b.last() == '/' {
        match parse_open_body(b.take(b.len() - 1)) {
            None => None,
            Some((name, attrs)) => Some(SpecEvent::Empty { name, attrs }),
        }
    } else {
        match parse_open_body(b) {
            None => None,
            Some((name, attrs)) => Some(SpecEvent::Open { name, attrs }),
        }
    }
}

/// The events of `s` from position `i` on; `None` on a malformed tag.
pub open spec fn scan_at(s: Seq<char>, i: int) -> Option<Seq<SpecEvent>>
    decreases s.len() - i,
    via scan_at_decreases
{
    if i < 0 {
        None
    } else if i >= s.len() {
        Some(Seq::empty())
    } else if s[i] == '<' {
        if i + 3 < s.len() && s[i + 1] == '!' && s[i + 2] == '-' && s[i + 3] == '-' {
            // A comment: skipped whole, up to the first `-->`.
            let c = find_dashes_end(s, i + 4);
            if c >= s.len() {
                None
            } else {
                scan_at(s, c + 3)
            }
        } else {
            let g = find_at(s, '>', i + 1);
            if g >= s.len() {
                None
            } else {
                let b = s.subrange(i + 1, g);
                if b.len() > 0 && (b[0] == '?' || b[0] == '!') {
                    // A prolog, processing instruction or declaration:
                    // skipped; an instruction must close with `?`.
                    if b[0] == '?' && !(b.len() >= 2 && b.last() == '?') {
                        None
                    } else {
                        scan_at(s, g + 1)
                    }
                } else {
                    match parse_tag_body(b) {
                        None => None,
                        Some(ev) => match scan_at(s, g + 1) {
                            None => None,
                            Some(rest) => Some(seq![ev] + rest),
                        },
                    }
                }
            }
        }
    } else {
        let t = find_at(s, '<', i);
        match scan_at(s, t) {
            None => None,
            Some(rest) => Some(seq![SpecEvent::Text { text: s.subrange(i, t) }] + rest),
        }
    }
}

#[via_fn]
proof fn scan_at_decreases(s: Seq<char>, i: int) {
    if 0 <= i < s.len() {
        if s[i] == '<' {
            if i + 3 < s.len() && s[i + 1] == '!' && s[i + 2] == '-' && s[i + 3] == '-' {
                lemma_find_dashes(s, i + 4);
            }
            lemma_find_at(s, '>', i + 1);
        } else {
            lemma_find_at(s, '<', i);
            assert(find_at(s, '<', i) == find_at(s, '<', i + 1));
            lemma_find_at(s, '<', i + 1);
        }
    }
}

/// The events of a whole body.
pub open spec fn spec_scan(s: Seq<char>) -> Option<Seq<SpecEvent>> {
    scan_at(s, 0)
}

/// Scanning from a position is scanning the suffix that starts there.
#[verifier::rlimit(100)]
pub proof fn lemma_scan_shift(s: Seq<char>, i: int)
    requires
        0 <= i <= s.len(),
    ensures
        scan_at(s, i) == spec_scan(s.subrange(i, s.len() as int)),
    decreases s.len() - i,
{
    let x = s.subrange(i, s.len() as int);
    if i >= s.len() {
        assert(x.len() == 0);
    } else if s[i] == '<' {
        assert(x[0] == '<');
        assert(forall|j: int| 0 < j < x.len() ==> x[j] == s[i + j]);
        let comment = i + 3 < s.len() && s[i + 1] == '!' && s[i + 2] == '-' && s[i + 3] == '-';
        assert(comment == (3 < x.len() && x[1] == '!' && x[2] == '-' && x[3] == '-'));
        if comment {
            let c = find_dashes_end(s, i + 4);
            lemma_find_dashes(s, i + 4);
            crate::text::lemma_find_dashes_shift(s, i, 4);
            assert(find_dashes_end(x, 4) == c - i);
            if c >= s.len() {
                assert(find_dashes_end(x, 4) == x.len());
            } else {
                lemma_scan_shift(s, c + 3);
                lemma_scan_shift(x, c - i + 3);
                assert(x.subrange(c - i + 3, x.len() as int) =~= s.subrange(
                    c + 3,
                    s.len() as int,
                ));
            }
        } else {
            let g = find_at(s, '>', i + 1);
            lemma_find_at(s, '>', i + 1);
            lemma_find_translate(s, i, s.len() as int, '>', 1);
            if g >= s.len() {
                assert(find_at(x, '>', 1) == x.len());
            } else {
                assert(find_at(x, '>', 1) == g - i);
                let b = s.subrange(i + 1, g);
                assert(x.subrange(1, g - i) =~= b);
                if b.len() > 0 && (b[0] == '?' || b[0] == '!') {
                    if !(b[0] == '?' && !(b.len() >= 2 && b.last() == '?')) {
                        lemma_scan_shift(s, g + 1);
                        lemma_scan_shift(x, g - i + 1);
                        assert(x.subrange(g - i + 1, x.len() as int) =~= s.subrange(
                            g + 1,
                            s.len() as int,
                        ));
                    }
                } else {
                    match parse_tag_body(b) {
                        None => {},
                        Some(ev) => {
                            lemma_scan_shift(s, g + 1);
                            lemma_scan_shift(x, g - i + 1);
                            assert(x.subrange(g - i + 1, x.len() as int) =~= s.subrange(
                                g + 1,
                                s.len() as int,
                            ));
                        },
                    }
                }
            }
        }
    } else {
        let t = find_at(s, '<', i);
        lemma_find_at(s, '<', i);
        lemma_find_translate(s, i, s.len() as int, '<', 0);
        assert(find_at(x, '<', 0) == t - i);
        assert(x.subrange(0, t - i) =~= s.subrange(i, t));
        lemma_scan_shift(s, t);
        lemma_scan_shift(x, t - i);
        assert(x.subrange(t - i, x.len() as int) =~= s.subrange(t, s.len() as int));
    }
}

/// Scanning a body that starts with a whole tag: one event, then the rest.
pub proof fn lemma_scan_leading_tag(x: Seq<char>, body: Seq<char>, rest: Seq<char>)
    requires
        x == seq!['<'] + body + seq!['>'] + rest,
        forall|j: int| 0 <= j < body.len() ==> body[j] != '>',
        body.len() > 0 ==> body[0] != '?' && body[0] != '!',
    ensures
        spec_scan(x) == match parse_tag_body(body) {
            None => None::<Seq<SpecEvent>>,
            Some(ev) => match spec_scan(rest) {
                None => None,
                Some(r) => Some(seq![ev] + r),
            },
        },
{
    let g = 1 + body.len() as int;
    assert(x.len() == body.len() + 2 + rest.len());
    assert(x[0] == '<');
    assert(x[g] == '>');
    assert(forall|j: int| 1 <= j < g ==> x[j] == body[j - 1]);
    // Not a comment, prolog or declaration.
    if body.len() > 0 {
        assert(x[1] == body[0]);
        assert(x[1] != '!' && x[1] != '?');
    } else {
        assert(x[1] == '>');
    }
    crate::text::lemma_find_at_is(x, '>', 1, g);
    assert(x.subrange(1, g) =~= body);
    assert(!(x.subrange(1, g).len() > 0 && (x.subrange(1, g)[0] == '?' || x.subrange(1, g)[0]
        == '!')));
    lemma_scan_shift(x, g + 1);
    assert(x.subrange(g + 1, x.len() as int) =~= rest);
}

/// Scanning a body that starts with text: one text event, then the rest.
pub proof fn lemma_scan_leading_text(x: Seq<char>, text: Seq<char>, rest: Seq<char>)
    requires
        x == text + rest,
        text.len() > 0,
        forall|j: int| 0 <= j < text.len() ==> text[j] != '<',
        rest.len() > 0 ==> rest[0] == '<',
    ensures
        spec_scan(x) == match spec_scan(rest) {
            None => None::<Seq<SpecEvent>>,
            Some(r) => Some(seq![SpecEvent::Text { text }] + r),
        },
{
    let t = text.len() as int;
    assert(x[0] == text[0]);
    assert(forall|j: int| 0 <= j < t ==> x[j] == text[j]);
    assert(t < x.len() ==> x[t] == rest[0]);
    crate::text::lemma_find_at_is(x, '<', 0, t);
    lemma_scan_shift(x, t);
    assert(x.subrange(t, x.len() as int) =~= rest);
    assert(x.subrange(0, t) =~= text);
}

/// The text of a simple element: open tag, text content, close tag.
pub open spec fn spec_encode_elem(name: Seq<char>, text: Seq<char>) -> Seq<char> {
    seq!['<'] + name + seq!['>'] + text + seq!['<', '/'] + name + seq!['>']
}

/// The events a simple element scans to.
pub open spec fn elem_events(name: Seq<char>, text: Seq<char>) -> Seq<SpecEvent> {
    if text.len() == 0 {
        seq![
            SpecEvent::Open { name, attrs: Seq::empty() },
            SpecEvent::Close { name },
        ]
    } else {
        seq![
            SpecEvent::Open { name, attrs: Seq::empty() },
            SpecEvent::Text { text },
            SpecEvent::Close { name },
        ]
    }
}

/// Scanning a body that starts with a whole simple element.
pub proof fn lemma_scan_leading_elem(x: Seq<char>, name: Seq<char>, text: Seq<char>, rest: Seq<char>)
    requires
        x == spec_encode_elem(name, text) + rest,
        is_name(name),
        forall|j: int| 0 <= j < text.len() ==> text[j] != '<',
    ensures
        spec_scan(x) == match spec_scan(rest) {
            None => None::<Seq<SpecEvent>>,
            Some(r) => Some(elem_events(name, text) + r),
        },
{
    let closebody = seq!['/'] + name;
    let x2 = seq!['<'] + closebody + seq!['>'] + rest;
    let x1 = text + x2;
    assert(forall|j: int| 0 <= j < name.len() ==> crate::text::is_name_char(#[trigger] name[j]));
    assert(forall|j: int| 0 <= j < name.len() ==> name[j] != '>');
    assert(x =~= seq!['<'] + name + seq!['>'] + x1);
    lemma_scan_leading_tag(x, name, x1);
    lemma_tag_body_plain_open(name);
    assert(forall|j: int| 0 <= j < closebody.len() ==> closebody[j] != '>');
    lemma_scan_leading_tag(x2, closebody, rest);
    assert(closebody[0] == '/');
    assert(closebody.skip(1) =~= name);
    lemma_tag_body_close(closebody);
    let open_ev = SpecEvent::Open { name, attrs: Seq::<SpecAttr>::empty() };
    let close_ev = SpecEvent::Close { name };
    if text.len() == 0 {
        assert(x1 =~= x2);
        match spec_scan(rest) {
            None => {},
            Some(r) => {
                assert(seq![open_ev] + (seq![close_ev] + r) =~= elem_events(name, text) + r);
            },
        }
    } else {
        assert(x2.len() > 0 && x2[0] == '<');
        lemma_scan_leading_text(x1, text, x2);
        match spec_scan(rest) {
            None => {},
            Some(r) => {
                assert(seq![open_ev] + (seq![SpecEvent::Text { text }] + (seq![close_ev] + r))
                    =~= elem_events(name, text) + r);
            },
        }
    }
}

/// A tag body that is just a name denotes an opening tag without attributes.
pub proof fn lemma_tag_body_plain_open(b: Seq<char>)
    requires
        is_name(b),
    ensures
        parse_tag_body(b) == Some(SpecEvent::Open { name: b, attrs: Seq::<SpecAttr>::empty() }),
{
    assert(!(b[0] == '/')) by {
        assert(crate::text::is_name_char(b[0]));
    }
    assert(!(b.last() == '/')) by {
        assert(crate::text::is_name_char(b.last()));
    }
    crate::text::lemma_name_end_at_is(b, 0, b.len() as int);
    assert(b.subrange(0, b.len() as int) =~= b);
}

/// A tag body `/name` denotes a closing tag.
pub proof fn lemma_tag_body_close(b: Seq<char>)
    requires
        b.len() > 0,
        b[0] == '/',
        is_name(b.skip(1)),
    ensures
        parse_tag_body(b) == Some(SpecEvent::Close { name: b.skip(1) }),
{
}

/// A tag body `name attr="value"` denotes an opening tag with one attribute,
/// provided the value contains no closing quote.
pub proof fn lemma_tag_body_one_attr(name: Seq<char>, aname: Seq<char>, aval: Seq<char>)
    requires
        is_name(name),
        is_name(aname),
        forall|j: int| 0 <= j < aval.len() ==> aval[j] != '"',
        forall|j: int| 0 <= j < aval.len() ==> aval[j] != '=',
    ensures
        parse_tag_body(name + seq![' '] + aname + seq!['=', '"'] + aval + seq!['"']) == Some(
            SpecEvent::Open { name, attrs: seq![SpecAttr { name: aname, value: aval }] },
        ),
{
    let b = name + seq![' '] + aname + seq!['=', '"'] + aval + seq!['"'];
    let n = name.len() as int;
    let a = aname.len() as int;
    let v = aval.len() as int;
    assert(b.len() == n + a + v + 4);
    // Character layout of the body.
    assert(forall|j: int| 0 <= j < n ==> b[j] == name[j]);
    assert(b[n] == ' ');
    assert(forall|j: int| 0 <= j < a ==> b[n + 1 + j] == aname[j]);
    assert(b[n + 1 + a] == '=');
    assert(b[n + 2 + a] == '"');
    assert(forall|j: int| 0 <= j < v ==> b[n + 3 + a + j] == aval[j]);
    assert(b[n + 3 + a + v] == '"');

    assert(!(b[0] == '/')) by {
        assert(crate::text::is_name_char(name[0]));
    }
    assert(!(b.last() == '/'));

    // The tag name ends exactly at the space.
    crate::text::lemma_name_end_at_is(b, 0, n);
    assert(b.subrange(0, n) =~= name);

    // One whitespace step.
    assert(parse_attrs_at(b, n) == parse_attrs_at(b, n + 1));

    // The attribute: its `=` is the first one from position n + 1.
    crate::text::lemma_find_at_is(b, '=', n + 1, n + 1 + a);
    assert(b.subrange(n + 1, n + 1 + a) =~= aname);
    // The closing quote is the first one after the opening quote.
    crate::text::lemma_find_at_is(b, '"', n + 3 + a, n + 3 + a + v);
    assert(b.subrange(n + 3 + a, n + 3 + a + v) =~= aval);
    // Nothing follows the closing quote.
    assert(parse_attrs_at(b, n + 3 + a + v + 1) == Some(Seq::<SpecAttr>::empty()));
    assert(!is_ws(b[n + 1]));
    assert(parse_attrs_at(b, n + 1) == Some(
        seq![SpecAttr { name: aname, value: aval }] + Seq::<SpecAttr>::empty(),
    ));
    assert(seq![SpecAttr { name: aname, value: aval }] + Seq::<SpecAttr>::empty()
        =~= seq![SpecAttr { name: aname, value: aval }]);
    assert(parse_open_body(b) == Some((name, seq![SpecAttr { name: aname, value: aval }])));
}

/// Scan the attributes of the tag body `s[lo..hi]`, starting at `start`.
fn parse_attrs(s: &Vec<char>, lo: usize, hi: usize, start: usize) -> (r: Option<Vec<Attr>>)
    requires
        lo <= start <= hi <= s@.len(),
    ensures
        match r {
            Some(attrs) => parse_attrs_at(s@.subrange(lo as int, hi as int), start - lo) == Some(
                attrs.deep_view(),
            ),
            None => parse_attrs_at(s@.subrange(lo as int, hi as int), start - lo) is None,
        },
{
    let ghost b = s@.subrange(lo as int, hi as int);
    let mut j: usize = start;
    let mut acc: Vec<Attr> = Vec::new();
    while j < hi
        invariant
            lo <= start <= j <= hi <= s@.len(),
            b == s@.subrange(lo as int, hi as int),
            match parse_attrs_at(b, j - lo) {
                None => parse_attrs_at(b, start - lo) is None,
                Some(rest) => parse_attrs_at(b, start - lo) == Some(acc.deep_view() + rest),
            },
        decreases hi - j,
    {
        assert(b[j - lo] == s@[j as int]);
        if ws_char(s[j]) {
            assert(parse_attrs_at(b, j - lo) == parse_attrs_at(b, j + 1 - lo));
            j += 1;
            continue;
        }
        // The attribute name runs up to the first `=`.
        let eq = find_char(s, '=', j);
        proof {
            lemma_find_translate(s@, lo as int, hi as int, '=', j - lo);
            lemma_find_at(s@, '=', j as int);
        }
        if eq >= hi {
            return None;
        }
        let ghost name_spec = b.subrange(j - lo, eq - lo);
        let ne = find_name_end(s, j);
        proof {
            lemma_name_end_at(s@, j as int);
        }
        if ne < eq || eq == j {
            // An empty or malformed attribute name.
            proof {
                if ne < eq {
                    assert(name_spec[ne - j] == s@[ne as int]);
                    assert(!crate::text::is_name_char(name_spec[ne - j]));
                }
                assert(!is_name(name_spec));
            }
            return None;
        }
        assert(is_name(name_spec)) by {
            assert(forall|k: int|
                0 <= k < name_spec.len() ==> name_spec[k] == s@[j + k]
                    && crate::text::is_name_char(s@[j + k]));
        }
        if eq + 1 >= hi {
            return None;
        }
        assert(b[eq + 1 - lo] == s@[eq + 1]);
        if s[eq + 1] != '"' {
            return None;
        }
        let q = find_char(s, '"', eq + 2);
        proof {
            lemma_find_translate(s@, lo as int, hi as int, '"', eq + 2 - lo);
            lemma_find_at(s@, '"', eq + 2);
        }
        if q >= hi {
            return None;
        }
        let name = chars_range_to_string(s, j, eq);
        let value = chars_range_to_string(s, eq + 2, q);
        let ghost attr_spec = SpecAttr { name: name_spec, value: b.subrange(eq + 2 - lo, q - lo) };
        let ghost old_dv = acc.deep_view();
        proof {
            assert(name@ =~= name_spec);
            assert(value@ =~= b.subrange(eq + 2 - lo, q - lo));
        }
        acc.push(Attr { name, value });
        proof {
            assert(acc.deep_view() =~= old_dv.push(attr_spec));
            match parse_attrs_at(b, q + 1 - lo) {
                None => {
                    assert(parse_attrs_at(b, j - lo) is None);
                },
                Some(rest) => {
                    assert(parse_attrs_at(b, j - lo) == Some(seq![attr_spec] + rest));
                    assert(old_dv + (seq![attr_spec] + rest) =~= old_dv.push(attr_spec) + rest);
                },
            }
        }
        j = q + 1;
    }
    assert(parse_attrs_at(b, hi - lo) == Some(Seq::<SpecAttr>::empty()));
    assert(acc.deep_view() + Seq::<SpecAttr>::empty() =~= acc.deep_view());
    Some(acc)
}

/// Scan the name and attributes of the opening-tag body `s[lo..hi]`.
fn parse_open(s: &Vec<char>, lo: usize, hi: usize) -> (r: Option<(String, Vec<Attr>)>)
    requires
        lo <= hi <= s@.len(),
    ensures
        match r {
            Some((name, attrs)) => parse_open_body(s@.subrange(lo as int, hi as int)) == Some(
                (name@, attrs.deep_view()),
            ),
            None => parse_open_body(s@.subrange(lo as int, hi as int)) is None,
        },
{
    let ghost b = s@.subrange(lo as int, hi as int);
    let ne = find_name_end(s, lo);
    proof {
        lemma_name_end_at(s@, lo as int);
    }
    let e: usize = if ne < hi {
        ne
    } else {
        hi
    };
    proof {
        crate::text::lemma_name_end_at_is(
            b,
            0,
            e - lo,
        );
    }
    if e == lo {
        return None;
    }
    let name = chars_range_to_string(s, lo, e);
    assert(name@ =~= b.subrange(0, e - lo));
    match parse_attrs(s, lo, hi, e) {
        None => None,
        Some(attrs) => Some((name, attrs)),
    }
}

/// Scan the tag body `s[lo..hi]` (the characters between `<` and `>`).
fn parse_tag(s: &Vec<char>, lo: usize, hi: usize) -> (r: Option<Event>)
    requires
        lo <= hi <= s@.len(),
    ensures
        match r {
            Some(ev) => parse_tag_body(s@.subrange(lo as int, hi as int)) == Some(ev.deep_view()),
            None => parse_tag_body(s@.subrange(lo as int, hi as int)) is None,
        },
{
    let ghost b = s@.subrange(lo as int, hi as int);
    if lo == hi {
        return None;
    }
    assert(b[0] == s@[lo as int]);
    assert(b.last() == s@[hi - 1]);
    if s[lo] == '/' {
        let ghost name_spec = b.skip(1);
        assert(name_spec =~= s@.subrange(lo + 1, hi as int));
        let ne = find_name_end(s, lo + 1);
        proof {
            lemma_name_end_at(s@, lo + 1);
        }
        if lo + 1 == hi || ne < hi {
            proof {
                if ne < hi {
                    assert(name_spec[ne - (lo + 1)] == s@[ne as int]);
                }
                assert(!is_name(name_spec));
            }
            return None;
        }
        assert(is_name(name_spec)) by {
            assert(forall|k: int|
                0 <= k < name_spec.len() ==> name_spec[k] == s@[lo + 1 + k]
                    && crate::text::is_name_char(s@[lo + 1 + k]));
        }
        let name = chars_range_to_string(s, lo + 1, hi);
        return Some(Event::Close { name });
    }
    if s[hi - 1] == '/' {
        assert(b.take(b.len() - 1) =~= s@.subrange(lo as int, hi - 1));
        match parse_open(s, lo, hi - 1) {
            None => None,
            Some((name, attrs)) => Some(Event::Empty { name, attrs }),
        }
    } else {
        assert(b =~= s@.subrange(lo as int, hi as int));
        match parse_open(s, lo, hi) {
            None => None,
            Some((name, attrs)) => Some(Event::Open { name, attrs }),
        }
    }
}

/// Scan a whole body into its events; `None` exactly when the body is
/// malformed.
pub fn scan_markup(s: &Vec<char>) -> (r: Option<Vec<Event>>)
    ensures
        match r {
            Some(evs) => spec_scan(s@) == Some(evs.deep_view()),
            None => spec_scan(s@) is None,
        },
{
    let n: usize = s.len();
    let mut i: usize = 0;
    let mut out: Vec<Event> = Vec::new();
    while i < n
        invariant
            i <= n,
            n == s@.len(),
            match scan_at(s@, i as int) {
                None => spec_scan(s@) is None,
                Some(rest) => spec_scan(s@) == Some(out.deep_view() + rest),
            },
        decreases n - i,
    {
        if s[i] == '<' {
            if n - i > 3 && s[i + 1] == '!' && s[i + 2] == '-' && s[i + 3] == '-' {
                // A comment: skip it whole.
                let c = find_dashes(s, i + 4);
                proof {
                    crate::text::lemma_find_dashes(s@, i + 4);
                }
                if c == n {
                    assert(scan_at(s@, i as int) is None);
                    return None;
                }
                i = c + 3;
            } else {
                let g = find_char(s, '>', i + 1);
                proof {
                    lemma_find_at(s@, '>', i + 1);
                }
                if g == n {
                    return None;
                }
                let ghost b = s@.subrange(i + 1, g as int);
                if g > i + 1 && (s[i + 1] == '?' || s[i + 1] == '!') {
                    // A prolog, processing instruction or declaration: skip
                    // it; an instruction must close with `?`.
                    proof {
                        assert(b.len() > 0);
                        assert(b[0] == s@[i + 1]);
                        assert(b.last() == s@[g - 1]);
                    }
                    if s[i + 1] == '?' && !(g > i + 2 && s[g - 1] == '?') {
                        assert(scan_at(s@, i as int) is None);
                        return None;
                    }
                    i = g + 1;
                } else {
                    proof {
                        if g > i + 1 {
                            assert(b[0] == s@[i + 1]);
                        }
                        assert(!(b.len() > 0 && (b[0] == '?' || b[0] == '!')));
                    }
                    match parse_tag(s, i + 1, g) {
                        None => {
                            assert(scan_at(s@, i as int) is None);
                            return None;
                        },
                        Some(ev) => {
                            let ghost old_dv = out.deep_view();
                            let ghost ev_dv = ev.deep_view();
                            out.push(ev);
                            proof {
                                assert(out.deep_view() =~= old_dv.push(ev_dv));
                                match scan_at(s@, g + 1) {
                                    None => {
                                        assert(scan_at(s@, i as int) is None);
                                    },
                                    Some(rest) => {
                                        assert(scan_at(s@, i as int) == Some(
                                            seq![ev_dv] + rest,
                                        ));
                                        assert(old_dv + (seq![ev_dv] + rest) =~= old_dv.push(
                                            ev_dv,
                                        ) + rest);
                                    },
                                }
                            }
                            i = g + 1;
                        },
                    }
                }
            }
        } else {
            let t = find_char(s, '<', i);
            proof {
                lemma_find_at(s@, '<', i as int);
            }
            let text = chars_range_to_string(s, i, t);
            let ghost old_dv = out.deep_view();
            let ghost ev_dv = SpecEvent::Text { text: s@.subrange(i as int, t as int) };
            assert(text@ =~= s@.subrange(i as int, t as int));
            out.push(Event::Text { text });
            proof {
                assert(out.deep_view() =~= old_dv.push(ev_dv));
                match scan_at(s@, t as int) {
                    None => {
                        assert(scan_at(s@, i as int) is None);
                    },
                    Some(rest) => {
                        assert(scan_at(s@, i as int) == Some(seq![ev_dv] + rest));
                        assert(old_dv + (seq![ev_dv] + rest) =~= old_dv.push(ev_dv) + rest);
                    },
                }
            }
            i = t;
        }
    }
    assert(scan_at(s@, n as int) == Some(Seq::<SpecEvent>::empty()));
    assert(out.deep_view() + Seq::<SpecEvent>::empty() =~= out.deep_view());
    Some(out)
}

} // verus!
