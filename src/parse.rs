//! A text cursor that reads whitespace-separated words, and GML's
//! recursive-descent reader of bracketed records built on it.
use vstd::prelude::*;
use crate::text::{is_space, is_space_char, unsigned_value, signed_value, float_syntax, parse_unsigned, parse_signed, is_float_text};
use crate::value::{Value, Tree, keys_ascending, record_view, record_add, text_lt, rec_add};

verus! {

/// First position at or after `i` that holds no whitespace (or the end).
pub open spec fn skip_ws_from(s: Seq<char>, i: int) -> int
    decreases s.len() - i,
{
    if i < 0 || i >= s.len() || !is_space(s[i]) {
        if i < 0 { 0 } else if i > s.len() { s.len() as int } else { i }
    } else {
        skip_ws_from(s, i + 1)
    }
}

/// First position at or after `i` that holds whitespace (or the end).
pub open spec fn word_end(s: Seq<char>, i: int) -> int
    decreases s.len() - i,
{
    if i < 0 || i >= s.len() || is_space(s[i]) {
        if i < 0 { 0 } else if i > s.len() { s.len() as int } else { i }
    } else {
        word_end(s, i + 1)
    }
}

/// The word that starts at the first non-whitespace position at or after `i`.
pub open spec fn word_after(s: Seq<char>, i: int) -> Option<Seq<char>> {
    let a = skip_ws_from(s, i);
    if a >= s.len() { None } else { Some(s.subrange(a, word_end(s, a))) }
}

/// Where the word read by `word_after` ends.
pub open spec fn after_word(s: Seq<char>, i: int) -> int {
    word_end(s, skip_ws_from(s, i))
}

proof fn lemma_skip_ws_bounds(s: Seq<char>, i: int)
    requires
        0 <= i <= s.len(),
    ensures
        i <= skip_ws_from(s, i) <= s.len(),
        skip_ws_from(s, i) < s.len() ==> !is_space(s[skip_ws_from(s, i)]),
    decreases s.len() - i,
{
    if i < s.len() && is_space(s[i]) {
        lemma_skip_ws_bounds(s, i + 1);
    }
}

proof fn lemma_skip_ws_from(s: Seq<char>, i: int, j: int)
    requires
        0 <= i <= j <= s.len(),
        forall|k: int| i <= k < j ==> is_space(s[k]),
        j == s.len() || !is_space(s[j]),
    ensures
        skip_ws_from(s, i) == j,
    decreases j - i,
{
    if i < j {
        lemma_skip_ws_from(s, i + 1, j);
    }
}

proof fn lemma_word_end(s: Seq<char>, i: int, j: int)
    requires
        0 <= i <= j <= s.len(),
        forall|k: int| i <= k < j ==> !is_space(s[k]),
        j == s.len() || is_space(s[j]),
    ensures
        word_end(s, i) == j,
    decreases j - i,
{
    if i < j {
        lemma_word_end(s, i + 1, j);
    }
}

/// A cursor over a text: a read position and a mark.
pub struct Parse {
    file: String,
    index: usize,
    mark: usize,
}

impl Parse {
    pub closed spec fn text(&self) -> Seq<char> {
        self.file@
    }

    pub closed spec fn pos(&self) -> int {
        self.index as int
    }

    pub closed spec fn marked(&self) -> int {
        self.mark as int
    }

    pub open spec fn wf(&self) -> bool {
        0 <= self.marked() <= self.pos() <= self.text().len()
    }

    /// A cursor at the start of `file`.
    pub fn new(file: &str) -> (p: Parse)
        ensures
            p.wf(),
            p.text() == file@,
            p.pos() == 0,
    {
        Parse { file: file.to_owned(), index: 0, mark: 0 }
    }

    /// The character at the read position.
    pub fn peek(&self) -> (r: Option<char>)
        requires
            self.wf(),
        ensures
            r == (if self.pos() < self.text().len() { Some(self.text()[self.pos()]) } else { None }),
    {
        if self.index < self.file.unicode_len() {
            Some(self.file.get_char(self.index))
        } else {
            None
        }
    }

    /// Reads one character.
    pub fn next(&mut self) -> (r: Option<char>)
        requires
            old(self).wf(),
        ensures
            final(self).wf(),
            final(self).text() == old(self).text(),
            final(self).marked() == old(self).marked(),
            r == (if old(self).pos() < old(self).text().len() { Some(old(self).text()[old(self).pos()]) } else { None }),
            final(self).pos() == (if r is Some { old(self).pos() + 1 } else { old(self).pos() }),
    {
        let n = self.file.unicode_len();
        let c = self.peek();
        if c.is_some() && self.index < n {
            self.index = self.index + 1;
        }
        c
    }

    /// Moves past whitespace.
    pub fn skip_whitespace(&mut self)
        requires
            old(self).wf(),
        ensures
            final(self).wf(),
            final(self).text() == old(self).text(),
            final(self).marked() == old(self).marked(),
            final(self).pos() == skip_ws_from(old(self).text(), old(self).pos()),
            final(self).pos() >= old(self).pos(),
    {
        let n = self.file.unicode_len();
        let ghost start = self.index as int;
        while self.index < n && is_space_char(self.file.get_char(self.index))
            invariant
                self.wf(),
                n == self.file@.len(),
                self.file@ == old(self).file@,
                self.mark == old(self).mark,
                start <= self.index,
                forall|k: int| start <= k < self.index ==> is_space(self.file@[k]),
            decreases n - self.index,
        {
            self.index = self.index + 1;
        }
        proof { lemma_skip_ws_from(self.file@, start, self.index as int); }
    }

    /// Reads the next whitespace-delimited word.
    pub fn next_word(&mut self) -> (r: Option<String>)
        requires
            old(self).wf(),
        ensures
            final(self).wf(),
            final(self).text() == old(self).text(),
            final(self).marked() == old(self).marked(),
            r matches Some(w) ==> word_after(old(self).text(), old(self).pos()) == Some(w@) && w@.len() > 0,
            r is None ==> word_after(old(self).text(), old(self).pos()) is None && final(self).pos() == old(self).text().len(),
            r is Some ==> final(self).pos() == after_word(old(self).text(), old(self).pos()) && final(self).pos() > old(self).pos(),
            final(self).pos() >= old(self).pos(),
    {
        self.skip_whitespace();
        proof { lemma_skip_ws_bounds(self.file@, old(self).index as int); }
        let n = self.file.unicode_len();
        if self.index >= n {
            return None;
        }
        let start = self.index;
        while self.index < n && !is_space_char(self.file.get_char(self.index))
            invariant
                self.wf(),
                n == self.file@.len(),
                self.file@ == old(self).file@,
                self.mark == old(self).mark,
                start <= self.index,
                forall|k: int| start <= k < self.index ==> !is_space(self.file@[k]),
            decreases n - self.index,
        {
            self.index = self.index + 1;
        }
        proof { lemma_word_end(self.file@, start as int, self.index as int); }
        assert(!is_space(self.file@[start as int]));
        Some(self.file.substring_char(start, self.index).to_owned())
    }

    /// Moves past the rest of the current line.
    pub fn skip_line(&mut self)
        requires
            old(self).wf(),
        ensures
            final(self).wf(),
            final(self).text() == old(self).text(),
            final(self).marked() == old(self).marked(),
            final(self).pos() >= old(self).pos(),
            final(self).pos() == line_end(old(self).text(), old(self).pos()),
    {
        let n = self.file.unicode_len();
        while self.index < n && self.file.get_char(self.index) != '\n'
            invariant
                self.wf(),
                n == self.file@.len(),
                self.file@ == old(self).file@,
                self.mark == old(self).mark,
                self.index >= old(self).index,
                forall|j: int| old(self).index <= j < self.index ==> self.file@[j] != '\n',
            decreases n - self.index,
        {
            self.index = self.index + 1;
        }
        proof { lemma_line_end(self.file@, old(self).index as int, self.index as int); }
    }

    /// Sets the mark at the read position.
    pub fn mark(&mut self)
        requires
            old(self).wf(),
        ensures
            final(self).wf(),
            final(self).text() == old(self).text(),
            final(self).pos() == old(self).pos(),
            final(self).marked() == old(self).pos(),
    {
        self.mark = self.index;
    }

    /// The text from the mark to the read position.
    pub fn read_from_mark(&self) -> (r: String)
        requires
            self.wf(),
        ensures
            r@ == self.text().subrange(self.marked(), self.pos()),
    {
        self.file.substring_char(self.mark, self.index).to_owned()
    }
}

/// Whether the text is exactly the given word.
pub fn is_word(w: &str, expected: &str) -> (r: bool)
    ensures
        r == (w@ == expected@),
{
    let n = w.unicode_len();
    if n != expected.unicode_len() {
        return false;
    }
    let mut i: usize = 0;
    while i < n
        invariant
            n == w@.len(),
            n == expected@.len(),
            i <= n,
            forall|k: int| 0 <= k < i ==> w@[k] == expected@[k],
        decreases n - i,
    {
        if w.get_char(i) != expected.get_char(i) {
            return false;
        }
        i = i + 1;
    }
    assert(w@ =~= expected@);
    true
}

/// How GML reads a bare word: a boolean, then an unsigned integer, then a
/// signed one, then a floating-point number; `None` for anything else.
pub open spec fn bare_value(w: Seq<char>) -> Option<Tree> {
    if w == "true"@ {
        Some(Tree::Bool(true))
    } else if w == "false"@ {
        Some(Tree::Bool(false))
    } else if unsigned_value(w) is Some {
        Some(Tree::Unsigned(unsigned_value(w)->0 as int))
    } else if signed_value(w) is Some {
        Some(Tree::Int(signed_value(w)->0 as int))
    } else if float_syntax(w) {
        Some(Tree::Float(w))
    } else {
        None
    }
}

/// Reads a bare word as GML does.
pub fn read_bare(w: String) -> (r: Result<Value, String>)
    ensures
        r is Ok <==> bare_value(w@) is Some,
        r matches Err(m) ==> m@ == "Unknown value type: "@ + w@,
        r matches Ok(v) ==> bare_value(w@) == Some(v@),
{
    if is_word(w.as_str(), "true") {
        return Ok(Value::Bool(true));
    }
    if is_word(w.as_str(), "false") {
        return Ok(Value::Bool(false));
    }
    if let Some(u) = parse_unsigned(w.as_str()) {
        return Ok(Value::Unsigned(u));
    }
    if let Some(i) = parse_signed(w.as_str()) {
        return Ok(Value::Int(i));
    }
    if is_float_text(w.as_str()) {
        return Ok(Value::Float(w));
    }
    let mut msg = String::new();
    msg.append("Unknown value type: ");
    msg.append(w.as_str());
    Err(msg)
}

/// Reads the fields of a record up to its closing `]`. A key given twice
/// gathers its values into a list, in the order read; a line that starts
/// with the word `#` or `comment` is passed over.
pub fn parse_map(p: &mut Parse) -> (r: Result<Value, String>)
    requires
        old(p).wf(),
    ensures
        final(p).wf(),
        final(p).text() == old(p).text(),
        final(p).pos() >= old(p).pos(),
        r matches Ok(v) ==> v@ is Record && keys_ascending(v@->Record_0),
        r is Ok <==> gml_rec(old(p).text(), old(p).pos(), seq![]) is Ok,
        r matches Ok(v) ==> gml_rec(old(p).text(), old(p).pos(), seq![]) == Ok::<(Tree, int), Seq<char>>((v@, final(p).pos())),
        r matches Err(m) ==> gml_rec(old(p).text(), old(p).pos(), seq![]) == Err::<(Tree, int), Seq<char>>(m@),
    decreases old(p).text().len() - old(p).pos(), 0nat,
{
    let mut map: Vec<(String, Value)> = Vec::new();
    assert(record_view(map@) =~= Seq::<(Seq<char>, Tree)>::empty());
    loop
        invariant
            p.wf(),
            p.text() == old(p).text(),
            p.pos() >= old(p).pos(),
            keys_ascending(record_view(map@)),
            gml_rec(old(p).text(), old(p).pos(), seq![]) == gml_rec(p.text(), p.pos(), record_view(map@)),
        decreases p.text().len() - p.pos(),
    {
        proof { reveal_strlit("]"); reveal_strlit("#"); reveal_strlit("comment"); }
        let ghost i0 = p.pos();
        let ghost acc = record_view(map@);
        let word = match p.next_word() {
            Some(w) => w,
            None => {
                return Err("Invalid GML format".to_owned());
            },
        };
        if is_word(word.as_str(), "]") {
            return Ok(Value::Object(map));
        }
        if is_word(word.as_str(), "#") || is_word(word.as_str(), "comment") {
            p.skip_line();
            continue;
        }
        let ghost j = p.pos();
        let value = match parse_val(p) {
            Ok(v) => v,
            Err(e) => {
                assert(gml_val(p.text(), j) == Err::<(Tree, int), Seq<char>>(e@));
                return Err(e);
            },
        };
        let ghost k = p.pos();
        assert(gml_val(p.text(), j) == Ok::<(Tree, int), Seq<char>>((value@, k)));
        record_add(&mut map, word, value);
        assert(gml_rec(p.text(), i0, acc) == gml_rec(p.text(), k, record_view(map@)));
    }
}

/// First position at or after `k` that holds a double quote, if any.
pub open spec fn quote_from(s: Seq<char>, k: int) -> Option<int>
    decreases s.len() - k,
{
    if k < 0 || k >= s.len() {
        None
    } else if s[k] == '"' {
        Some(k)
    } else {
        quote_from(s, k + 1)
    }
}

/// The end of the line that position `k` is on: the next `\n` or the end of the text.
pub open spec fn line_end(s: Seq<char>, k: int) -> int
    decreases s.len() - k,
{
    if k < 0 {
        0
    } else if k >= s.len() {
        s.len() as int
    } else if s[k] == '\n' {
        k
    } else {
        line_end(s, k + 1)
    }
}

pub type GmlParse = Result<(Tree, int), Seq<char>>;

/// GML's grammar for a value starting at or after position `i`: the value
/// and the position after it, or the message for malformed text.
pub open spec fn gml_val(s: Seq<char>, i: int) -> GmlParse
    decreases s.len() - i, 1nat,
{
    let a = skip_ws_from(s, i);
    if i < 0 || a < i {
        Err(seq![])
    } else if a >= s.len() {
        Err("Missing value after key"@)
    } else if s[a] == '[' {
        gml_rec(s, a + 1, seq![])
    } else if s[a] == '"' {
        match quote_from(s, a + 1) {
            Some(q) => Ok((Tree::Text(s.subrange(a + 1, q)), q + 1)),
            None => Err("String not closed"@),
        }
    } else {
        match word_after(s, i) {
            Some(w) => match bare_value(w) {
                Some(t) => Ok((t, after_word(s, i))),
                None => Err("Unknown value type: "@ + w),
            },
            None => Err("Expected value, found none"@),
        }
    }
}

/// GML's grammar for the rest of a record, whose fields read so far are
/// `acc`: the record and the position after its `]`, or the message for
/// malformed text.
pub open spec fn gml_rec(s: Seq<char>, i: int, acc: Seq<(Seq<char>, Tree)>) -> GmlParse
    decreases s.len() - i, 0nat,
{
    match word_after(s, i) {
        None => Err("Invalid GML format"@),
        Some(w) => {
            let j = after_word(s, i);
            if i < 0 || j <= i || j > s.len() {
                Err(seq![])
            } else if w == "]"@ {
                Ok((Tree::Record(acc), j))
            } else if w == "#"@ || w == "comment"@ {
                let e = line_end(s, j);
                if j <= e <= s.len() { gml_rec(s, e, acc) } else { Err(seq![]) }
            } else {
                match gml_val(s, j) {
                    Err(e) => Err(e),
                    Ok((v, k)) => if i < k <= s.len() { gml_rec(s, k, rec_add(acc, w, v)) } else { Err(seq![]) },
                }
            }
        },
    }
}

proof fn lemma_skip_ws_idempotent(s: Seq<char>, i: int)
    requires
        0 <= i <= s.len(),
    ensures
        skip_ws_from(s, skip_ws_from(s, i)) == skip_ws_from(s, i),
        word_after(s, skip_ws_from(s, i)) == word_after(s, i),
        after_word(s, skip_ws_from(s, i)) == after_word(s, i),
{
    lemma_skip_ws_bounds(s, i);
}

proof fn lemma_line_end(s: Seq<char>, k: int, e: int)
    requires
        0 <= k <= e <= s.len(),
        forall|j: int| k <= j < e ==> s[j] != '\n',
        e == s.len() || s[e] == '\n',
    ensures
        line_end(s, k) == e,
    decreases e - k,
{
    if k < e {
        lemma_line_end(s, k + 1, e);
    }
}

/// Reads one value: a record in brackets, a quoted text (up to the next
/// double quote), or a bare word as `bare_value` reads it.
pub fn parse_val(p: &mut Parse) -> (r: Result<Value, String>)
    requires
        old(p).wf(),
    ensures
        final(p).wf(),
        final(p).text() == old(p).text(),
        final(p).pos() >= old(p).pos(),
        ({
            let s = old(p).text();
            let a = skip_ws_from(s, old(p).pos());
            &&& a >= s.len() ==> r is Err
            &&& (a < s.len() && s[a] == '[') ==> (r matches Ok(v) ==> v@ is Record && keys_ascending(v@->Record_0))
            &&& (a < s.len() && s[a] == '"') ==> (r is Ok <==> quote_from(s, a + 1) is Some)
            &&& (a < s.len() && s[a] == '"') ==> (r matches Ok(v) ==> v@ == Tree::Text(s.subrange(a + 1, quote_from(s, a + 1)->0)))
            &&& (a < s.len() && s[a] != '[' && s[a] != '"') ==> (r is Ok <==> bare_value(word_after(s, old(p).pos())->0) is Some)
            &&& (a < s.len() && s[a] != '[' && s[a] != '"') ==> (r matches Ok(v) ==> bare_value(word_after(s, old(p).pos())->0) == Some(v@))
        }),
        r is Ok <==> gml_val(old(p).text(), old(p).pos()) is Ok,
        r matches Ok(v) ==> gml_val(old(p).text(), old(p).pos()) == Ok::<(Tree, int), Seq<char>>((v@, final(p).pos())),
        r matches Err(m) ==> gml_val(old(p).text(), old(p).pos()) == Err::<(Tree, int), Seq<char>>(m@),
    decreases old(p).text().len() - old(p).pos(), 1nat,
{
    proof {
        lemma_skip_ws_bounds(p.text(), p.pos());
        lemma_skip_ws_idempotent(p.text(), p.pos());
    }
    p.skip_whitespace();
    match p.peek() {
        None => Err("Missing value after key".to_owned()),
        Some(ch) => {
            if ch == '[' {
                p.next();
                return parse_map(p);
            }
            if ch == '"' {
                let ghost a = p.pos();
                p.next();
                p.mark();
                loop
                    invariant
                        p.wf(),
                        p.text() == old(p).text(),
                        p.pos() >= old(p).pos(),
                        p.marked() == a + 1,
                        p.pos() >= a + 1,
                        a == skip_ws_from(old(p).text(), old(p).pos()),
                        a >= old(p).pos(),
                        a < p.text().len(),
                        p.text()[a] == '"',
                        quote_from(p.text(), a + 1) == quote_from(p.text(), p.pos()),
                    ensures
                        p.wf(),
                        p.text() == old(p).text(),
                        p.pos() >= old(p).pos(),
                        p.marked() == a + 1,
                        p.pos() >= a + 1,
                        a == skip_ws_from(old(p).text(), old(p).pos()),
                        a < p.text().len(),
                        p.text()[a] == '"',
                        quote_from(p.text(), a + 1) == quote_from(p.text(), p.pos()),
                        p.pos() < p.text().len() && p.text()[p.pos()] == '"',
                    decreases p.text().len() - p.pos(),
                {
                    match p.peek() {
                        None => {
                            return Err("String not closed".to_owned());
                        },
                        Some(c) => {
                            if c == '"' {
                                break;
                            }
                            p.next();
                        },
                    }
                }
                assert(quote_from(p.text(), p.pos()) == Some(p.pos()));
                let ret = p.read_from_mark();
                p.next();
                return Ok(Value::String(ret));
            }
            match p.next_word() {
                Some(word) => read_bare(word),
                None => Err("Expected value, found none".to_owned()),
            }
        },
    }
}

} // verus!
