//! A small XML event scanner: start, empty and end tags with their
//! attributes, and text, as the GraphML reader consumes them.
use vstd::prelude::*;
use crate::text::{is_space_char, is_space, push_char, trimmed, trim};
use crate::parse::skip_ws_from;

verus! {

/// One event of an XML document.
#[derive(Debug)]
pub enum XmlEvent {
    Start(String, Vec<(String, String)>),
    Empty(String, Vec<(String, String)>),
    End(String),
    Text(String),
    Eof,
}

/// Whether `s` holds the literal `lit` at position `i`.
pub fn has_at(s: &str, i: usize, lit: &str) -> (r: bool)
    ensures
        r == (i + lit@.len() <= s@.len() && s@.subrange(i as int, i + lit@.len()) == lit@),
{
    let n = s.unicode_len();
    let m = lit.unicode_len();
    if i > n || m > n - i {
        return false;
    }
    let mut k: usize = 0;
    while k < m
        invariant
            n == s@.len(),
            m == lit@.len(),
            i + m <= n,
            k <= m,
            forall|j: int| 0 <= j < k ==> s@[i + j] == lit@[j],
        decreases m - k,
    {
        if s.get_char(i + k) != lit.get_char(k) {
            assert(s@.subrange(i as int, i + m)[k as int] != lit@[k as int]);
            return false;
        }
        k = k + 1;
    }
    assert(s@.subrange(i as int, i + m) =~= lit@);
    true
}

/// Whether `s` holds `lit` at position `i`.
pub open spec fn lit_at(s: Seq<char>, i: int, lit: Seq<char>) -> bool {
    0 <= i && i + lit.len() <= s.len() && s.subrange(i, i + lit.len()) == lit
}

/// The first position at or after `i` where `lit` starts, if any.
pub open spec fn find_spec(s: Seq<char>, i: int, lit: Seq<char>) -> Option<int>
    decreases s.len() - i,
{
    if i < 0 || i >= s.len() {
        None
    } else if lit_at(s, i, lit) {
        Some(i)
    } else {
        find_spec(s, i + 1, lit)
    }
}

/// The first position at or after `i` that holds `c`, or the end.
pub open spec fn until_char(s: Seq<char>, i: int, c: char) -> int
    decreases s.len() - i,
{
    if i < 0 || i >= s.len() || s[i] == c {
        if i < 0 { 0 } else if i > s.len() { s.len() as int } else { i }
    } else {
        until_char(s, i + 1, c)
    }
}

/// The end of a tag or attribute name: the first whitespace, `=`, `/` or `>` at or after `i`.
pub open spec fn tag_name_end(s: Seq<char>, i: int) -> int
    decreases s.len() - i,
{
    if i < 0 || i >= s.len() || is_space(s[i]) || s[i] == '=' || s[i] == '/' || s[i] == '>' {
        if i < 0 { 0 } else if i > s.len() { s.len() as int } else { i }
    } else {
        tag_name_end(s, i + 1)
    }
}

/// The text with the five predefined entities replaced by their characters.
pub open spec fn xml_unescape(t: Seq<char>) -> Seq<char>
    decreases t.len(),
{
    if t.len() == 0 {
        seq![]
    } else if t.len() >= 4 && lit_at(t, 0, "&lt;"@) {
        seq!['<'] + xml_unescape(t.skip(4))
    } else if t.len() >= 4 && lit_at(t, 0, "&gt;"@) {
        seq!['>'] + xml_unescape(t.skip(4))
    } else if t.len() >= 5 && lit_at(t, 0, "&amp;"@) {
        seq!['&'] + xml_unescape(t.skip(5))
    } else if t.len() >= 6 && lit_at(t, 0, "&quot;"@) {
        seq!['"'] + xml_unescape(t.skip(6))
    } else if t.len() >= 6 && lit_at(t, 0, "&apos;"@) {
        seq!['\''] + xml_unescape(t.skip(6))
    } else {
        seq![t[0]] + xml_unescape(t.skip(1))
    }
}

/// What an XML event denotes.
pub enum XmlEv {
    Start(Seq<char>, Seq<(Seq<char>, Seq<char>)>),
    Empty(Seq<char>, Seq<(Seq<char>, Seq<char>)>),
    End(Seq<char>),
    Text(Seq<char>),
    Eof,
}

pub open spec fn attrs_view(a: Seq<(String, String)>) -> Seq<(Seq<char>, Seq<char>)> {
    a.map_values(|p: (String, String)| (p.0@, p.1@))
}

pub open spec fn ev_view(e: XmlEvent) -> XmlEv {
    match e {
        XmlEvent::Start(n, a) => XmlEv::Start(n@, attrs_view(a@)),
        XmlEvent::Empty(n, a) => XmlEv::Empty(n@, attrs_view(a@)),
        XmlEvent::End(n) => XmlEv::End(n@),
        XmlEvent::Text(t) => XmlEv::Text(t@),
        XmlEvent::Eof => XmlEv::Eof,
    }
}

pub open spec fn evs_view(e: Seq<XmlEvent>) -> Seq<XmlEv> {
    e.map_values(|x: XmlEvent| ev_view(x))
}

/// The attributes of a tag from position `k` on, after those in `acc`:
/// the attributes, whether the tag closes itself, and the position after it.
pub open spec fn xml_attrs(s: Seq<char>, k: int, acc: Seq<(Seq<char>, Seq<char>)>) -> Option<(Seq<(Seq<char>, Seq<char>)>, bool, int)>
    decreases s.len() - k,
{
    let k1 = skip_ws_from(s, k);
    if k < 0 || k1 < k || k1 >= s.len() {
        None
    } else if lit_at(s, k1, "/>"@) {
        Some((acc, true, k1 + 2))
    } else if s[k1] == '>' {
        Some((acc, false, k1 + 1))
    } else {
        let e = tag_name_end(s, k1);
        let j = skip_ws_from(s, e);
        if e <= k1 || e > s.len() || j < e || j >= s.len() || s[j] != '=' {
            None
        } else {
            let j2 = skip_ws_from(s, j + 1);
            if j2 <= j || j2 >= s.len() || (s[j2] != '"' && s[j2] != '\'') {
                None
            } else {
                let q = until_char(s, j2 + 1, s[j2]);
                if q <= j2 || q >= s.len() {
                    None
                } else {
                    xml_attrs(s, q + 1, acc.push((s.subrange(k1, e), xml_unescape(s.subrange(j2 + 1, q)))))
                }
            }
        }
    }
}

/// The event at or after position `k` and the position after it; markup
/// declarations, processing instructions, comments and whitespace-only text
/// are passed over, and text is trimmed and unescaped.
pub open spec fn xml_event(s: Seq<char>, k: int) -> Option<(XmlEv, int)>
    decreases s.len() - k,
{
    if k < 0 {
        None
    } else if k >= s.len() {
        Some((XmlEv::Eof, k))
    } else if s[k] != '<' {
        let e = until_char(s, k, '<');
        if e <= k || e > s.len() {
            None
        } else if trim(s.subrange(k, e)).len() > 0 {
            Some((XmlEv::Text(xml_unescape(trim(s.subrange(k, e)))), e))
        } else {
            xml_event(s, e)
        }
    } else if lit_at(s, k, "<?"@) {
        match find_spec(s, k, "?>"@) {
            Some(e) => if k <= e && e + 2 <= s.len() { xml_event(s, e + 2) } else { None },
            None => None,
        }
    } else if lit_at(s, k, "<!--"@) {
        match find_spec(s, k, "-->"@) {
            Some(e) => if k <= e && e + 3 <= s.len() { xml_event(s, e + 3) } else { None },
            None => None,
        }
    } else if lit_at(s, k, "<!"@) {
        match find_spec(s, k, ">"@) {
            Some(e) => if k <= e && e + 1 <= s.len() { xml_event(s, e + 1) } else { None },
            None => None,
        }
    } else if lit_at(s, k, "</"@) {
        match find_spec(s, k + 2, ">"@) {
            Some(e) => if k + 2 <= e < s.len() { Some((XmlEv::End(trim(s.subrange(k + 2, e))), e + 1)) } else { None },
            None => None,
        }
    } else {
        let e = tag_name_end(s, k + 1);
        if e < k + 1 {
            None
        } else {
            match xml_attrs(s, e, seq![]) {
                Some((a, empty, next)) => if empty {
                    Some((XmlEv::Empty(s.subrange(k + 1, e), a), next))
                } else {
                    Some((XmlEv::Start(s.subrange(k + 1, e), a), next))
                },
                None => None,
            }
        }
    }
}

/// The events of a document from position `k` to its end (the end itself
/// not included), or `None` where the document is malformed.
pub open spec fn xml_events(s: Seq<char>, k: int) -> Option<Seq<XmlEv>>
    decreases s.len() - k,
{
    match xml_event(s, k) {
        None => None,
        Some((XmlEv::Eof, _)) => Some(seq![]),
        Some((ev, j)) => if k < j <= s.len() {
            match xml_events(s, j) {
                Some(rest) => Some(seq![ev] + rest),
                None => None,
            }
        } else {
            None
        },
    }
}

proof fn lemma_until_char(s: Seq<char>, i: int, c: char)
    requires
        0 <= i < s.len(),
        s[i] != c,
    ensures
        i < until_char(s, i, c) <= s.len(),
    decreases s.len() - i,
{
    assert(until_char(s, i, c) == until_char(s, i + 1, c));
    if i + 1 < s.len() && s[i + 1] != c {
        lemma_until_char(s, i + 1, c);
    } else {
        assert(until_char(s, i + 1, c) == i + 1);
    }
}

/// The first position at or after `i` where `lit` starts, if any.
fn find_from(s: &str, i: usize, lit: &str) -> (r: Option<usize>)
    requires
        i <= s@.len(),
    ensures
        r matches Some(k) ==> find_spec(s@, i as int, lit@) == Some(k as int) && i <= k && k + lit@.len() <= s@.len(),
        r is None ==> find_spec(s@, i as int, lit@) is None,
{
    let n = s.unicode_len();
    let mut k: usize = i;
    while k < n
        invariant
            n == s@.len(),
            i <= k <= n,
            find_spec(s@, i as int, lit@) == find_spec(s@, k as int, lit@),
        decreases n - k,
    {
        if has_at(s, k, lit) {
            return Some(k);
        }
        k = k + 1;
    }
    None
}

/// Replaces the five predefined entities by their characters.
pub fn unescape(t: &str) -> (r: String)
    ensures
        r@ == xml_unescape(t@),
{
    let n = t.unicode_len();
    let mut r = String::new();
    let mut i: usize = 0;
    assert(t@.skip(0) =~= t@);
    while i < n
        invariant
            n == t@.len(),
            i <= n,
            r@ + xml_unescape(t@.skip(i as int)) == xml_unescape(t@),
        decreases n - i,
    {
        proof {
            reveal_strlit("&lt;");
            reveal_strlit("&gt;");
            reveal_strlit("&amp;");
            reveal_strlit("&quot;");
            reveal_strlit("&apos;");
        }
        let ghost u = t@.skip(i as int);
        let ghost r0 = r@;
        assert forall|m: int| 0 <= m && i + m <= n implies #[trigger] u.subrange(0, m) == t@.subrange(i as int, i + m) by {
            assert(u.subrange(0, m) =~= t@.subrange(i as int, i + m));
        }
        let step: usize;
        if has_at(t, i, "&lt;") {
            push_char(&mut r, '<');
            step = 4;
        } else if has_at(t, i, "&gt;") {
            push_char(&mut r, '>');
            step = 4;
        } else if has_at(t, i, "&amp;") {
            push_char(&mut r, '&');
            step = 5;
        } else if has_at(t, i, "&quot;") {
            push_char(&mut r, '"');
            step = 6;
        } else if has_at(t, i, "&apos;") {
            push_char(&mut r, '\'');
            step = 6;
        } else {
            push_char(&mut r, t.get_char(i));
            step = 1;
        }
        assert(u.skip(step as int) =~= t@.skip(i + step));
        assert(r@ =~= r0 + seq![r@.last()]);
        assert(r0 + xml_unescape(u) == r0 + (seq![r@.last()] + xml_unescape(u.skip(step as int))));
        assert(r@ + xml_unescape(t@.skip(i + step)) =~= r0 + (seq![r@.last()] + xml_unescape(u.skip(step as int))));
        i = i + step;
    }
    assert(t@.skip(n as int) =~= Seq::<char>::empty());
    assert(r@ + Seq::<char>::empty() =~= r@);
    r
}

/// Position of the first whitespace-free character at or after `i`.
fn skip_spaces(s: &str, i: usize) -> (r: usize)
    requires
        i <= s@.len(),
    ensures
        i <= r <= s@.len(),
        r == skip_ws_from(s@, i as int),
{
    let n = s.unicode_len();
    let mut k: usize = i;
    while k < n && is_space_char(s.get_char(k))
        invariant
            n == s@.len(),
            i <= k <= n,
            skip_ws_from(s@, i as int) == skip_ws_from(s@, k as int),
        decreases n - k,
    {
        k = k + 1;
    }
    k
}

/// End of a name: the first whitespace, `=`, `/` or `>` at or after `i`.
fn name_end(s: &str, i: usize) -> (r: usize)
    requires
        i <= s@.len(),
    ensures
        i <= r <= s@.len(),
        r == tag_name_end(s@, i as int),
{
    let n = s.unicode_len();
    let mut k: usize = i;
    while k < n && !is_space_char(s.get_char(k)) && s.get_char(k) != '=' && s.get_char(k) != '/' && s.get_char(k) != '>'
        invariant
            n == s@.len(),
            i <= k <= n,
            tag_name_end(s@, i as int) == tag_name_end(s@, k as int),
        decreases n - k,
    {
        k = k + 1;
    }
    k
}

/// The first position at or after `i` that holds `c`, or the end.
fn char_from(s: &str, i: usize, c: char) -> (r: usize)
    requires
        i <= s@.len(),
    ensures
        i <= r <= s@.len(),
        r == until_char(s@, i as int, c),
{
    let n = s.unicode_len();
    let mut k: usize = i;
    while k < n && s.get_char(k) != c
        invariant
            n == s@.len(),
            i <= k <= n,
            until_char(s@, i as int, c) == until_char(s@, k as int, c),
        decreases n - k,
    {
        k = k + 1;
    }
    k
}

/// Reads the attributes and the end of a tag whose name ends at `i`.
/// Returns them, whether the tag closes itself, and the position after `>`.
fn read_attributes(s: &str, i: usize) -> (r: Result<(Vec<(String, String)>, bool, usize), String>)
    requires
        i <= s@.len(),
    ensures
        r is Ok <==> xml_attrs(s@, i as int, seq![]) is Some,
        r matches Ok((a, empty, k)) ==> xml_attrs(s@, i as int, seq![]) == Some((attrs_view(a@), empty, k as int)) && i < k <= s@.len(),
{
    let n = s.unicode_len();
    let mut attrs: Vec<(String, String)> = Vec::new();
    let mut k: usize = i;
    assert(attrs_view(attrs@) =~= seq![]);
    loop
        invariant
            n == s@.len(),
            i <= k <= n,
            xml_attrs(s@, i as int, seq![]) == xml_attrs(s@, k as int, attrs_view(attrs@)),
        decreases n - k,
    {
        proof { reveal_strlit("/>"); }
        let k1 = skip_spaces(s, k);
        if k1 >= n {
            return Err("Unexpected end of document in a tag".to_string());
        }
        if has_at(s, k1, "/>") {
            return Ok((attrs, true, k1 + 2));
        }
        if s.get_char(k1) == '>' {
            return Ok((attrs, false, k1 + 1));
        }
        let e = name_end(s, k1);
        if e == k1 {
            return Err("Malformed attribute".to_string());
        }
        let name = s.substring_char(k1, e).to_owned();
        let j = skip_spaces(s, e);
        if j >= n || s.get_char(j) != '=' {
            return Err("Expected `=` after an attribute name".to_string());
        }
        let j2 = skip_spaces(s, j + 1);
        if j2 >= n {
            return Err("Unexpected end of document in a tag".to_string());
        }
        let quote = s.get_char(j2);
        if quote != '"' && quote != '\'' {
            return Err("Expected a quoted attribute value".to_string());
        }
        let q = char_from(s, j2 + 1, quote);
        if q >= n {
            return Err("Attribute value not closed".to_string());
        }
        let value = unescape(s.substring_char(j2 + 1, q));
        let ghost before = attrs@;
        attrs.push((name, value));
        assert(attrs_view(attrs@) =~= attrs_view(before).push((s@.subrange(k1 as int, e as int), xml_unescape(s@.subrange(j2 + 1, q as int)))));
        k = q + 1;
    }
}

/// Reads the event at or after position `i`, as `xml_event` gives it.
pub fn next_event(s: &str, i: usize) -> (r: Result<(XmlEvent, usize), String>)
    requires
        i <= s@.len(),
    ensures
        r is Ok <==> xml_event(s@, i as int) is Some,
        r matches Ok((ev, k)) ==> xml_event(s@, i as int) == Some((ev_view(ev), k as int)) && k <= s@.len() && (ev is Eof || i < k),
{
    let n = s.unicode_len();
    let mut k: usize = i;
    loop
        invariant
            n == s@.len(),
            i <= k <= n,
            xml_event(s@, i as int) == xml_event(s@, k as int),
        decreases n - k,
    {
        proof {
            reveal_strlit("?>");
            reveal_strlit("-->");
            reveal_strlit(">");
            reveal_strlit("<?");
            reveal_strlit("<!--");
            reveal_strlit("<!");
            reveal_strlit("</");
        }
        if k >= n {
            return Ok((XmlEvent::Eof, k));
        }
        if s.get_char(k) != '<' {
            let start = k;
            let e = char_from(s, k, '<');
            proof { lemma_until_char(s@, k as int, '<'); }
            k = e;
            let text = trimmed(s.substring_char(start, e));
            if text.unicode_len() > 0 {
                return Ok((XmlEvent::Text(unescape(text.as_str())), k));
            }
        } else if has_at(s, k, "<?") {
            match find_from(s, k, "?>") {
                Some(e) => { k = e + 2; },
                None => { return Err("Processing instruction not closed".to_string()); },
            }
        } else if has_at(s, k, "<!--") {
            match find_from(s, k, "-->") {
                Some(e) => { k = e + 3; },
                None => { return Err("Comment not closed".to_string()); },
            }
        } else if has_at(s, k, "<!") {
            match find_from(s, k, ">") {
                Some(e) => { k = e + 1; },
                None => { return Err("Declaration not closed".to_string()); },
            }
        } else if has_at(s, k, "</") {
            match find_from(s, k + 2, ">") {
                Some(e) => {
                    let name = trimmed(s.substring_char(k + 2, e));
                    return Ok((XmlEvent::End(name), e + 1));
                },
                None => { return Err("End tag not closed".to_string()); },
            }
        } else {
            let e = name_end(s, k + 1);
            let name = s.substring_char(k + 1, e).to_owned();
            match read_attributes(s, e) {
                Ok((attrs, empty, next)) => {
                    if empty {
                        return Ok((XmlEvent::Empty(name, attrs), next));
                    } else {
                        return Ok((XmlEvent::Start(name, attrs), next));
                    }
                },
                Err(msg) => { return Err(msg); },
            }
        }
    }
}

/// Reads all the events of a document, up to its end.
pub fn xml_document(s: &str) -> (r: Result<Vec<XmlEvent>, String>)
    ensures
        r is Ok <==> xml_events(s@, 0) is Some,
        r matches Ok(evs) ==> xml_events(s@, 0) == Some(evs_view(evs@)),
{
    let n = s.unicode_len();
    let mut out: Vec<XmlEvent> = Vec::new();
    let mut at: usize = 0;
    assert(evs_view(out@) =~= seq![]);
    loop
        invariant
            n == s@.len(),
            at <= n,
            xml_events(s@, 0) == (match xml_events(s@, at as int) {
                Some(rest) => Some(evs_view(out@) + rest),
                None => None,
            }),
        decreases n - at,
    {
        let (ev, next) = next_event(s, at)?;
        if matches!(ev, XmlEvent::Eof) {
            assert(evs_view(out@) + seq![] =~= evs_view(out@));
            return Ok(out);
        }
        let ghost before = out@;
        proof {
            match xml_events(s@, next as int) {
                Some(rest) => {
                    assert(evs_view(before) + (seq![ev_view(ev)] + rest) =~= evs_view(before.push(ev)) + rest);
                },
                None => {},
            }
        }
        out.push(ev);
        at = next;
    }
}

/// The value of the first attribute named `name`, if any.
pub open spec fn attr_get(a: Seq<(Seq<char>, Seq<char>)>, name: Seq<char>) -> Option<Seq<char>>
    decreases a.len(),
{
    if a.len() == 0 {
        None
    } else if a[0].0 == name {
        Some(a[0].1)
    } else {
        attr_get(a.drop_first(), name)
    }
}

/// The value of the first attribute named `name`, if any.
pub fn attribute<'a>(attrs: &'a Vec<(String, String)>, name: &str) -> (r: Option<&'a String>)
    ensures
        r is None <==> attr_get(attrs_view(attrs@), name@) is None,
        r matches Some(v) ==> attr_get(attrs_view(attrs@), name@) == Some(v@),
{
    let ghost av = attrs_view(attrs@);
    let mut i: usize = 0;
    assert(av.skip(0) =~= av);
    while i < attrs.len()
        invariant
            i <= attrs@.len(),
            av == attrs_view(attrs@),
            av.len() == attrs@.len(),
            attr_get(av, name@) == attr_get(av.skip(i as int), name@),
        decreases attrs@.len() - i,
    {
        assert(av.skip(i as int)[0] == (attrs@[i as int].0@, attrs@[i as int].1@));
        assert(av.skip(i as int).drop_first() =~= av.skip(i + 1));
        if crate::parse::is_word(attrs[i].0.as_str(), name) {
            return Some(&attrs[i].1);
        }
        i = i + 1;
    }
    None
}

} // verus!
