//! Character-level helpers: decimal rendering and parsing of integers,
//! whitespace and line handling.
use vstd::prelude::*;

verus! {

/// The character for a decimal digit.
pub open spec fn digit_char(d: int) -> char {
    if d == 0 { '0' }
    else if d == 1 { '1' }
    else if d == 2 { '2' }
    else if d == 3 { '3' }
    else if d == 4 { '4' }
    else if d == 5 { '5' }
    else if d == 6 { '6' }
    else if d == 7 { '7' }
    else if d == 8 { '8' }
    else { '9' }
}

pub open spec fn is_digit(c: char) -> bool {
    '0' <= c && c <= '9'
}

/// The value of a decimal digit character.
pub open spec fn digit_value(c: char) -> int {
    (c as u32) - ('0' as u32)
}

/// The shortest decimal rendering of a natural number.
pub open spec fn decimal(n: nat) -> Seq<char>
    decreases n,
{
    if n < 10 {
        seq![digit_char(n as int)]
    } else {
        decimal(n / 10).push(digit_char((n % 10) as int))
    }
}

/// The decimal rendering of an integer, with a leading `-` when negative.
pub open spec fn signed_decimal(i: int) -> Seq<char> {
    if i < 0 {
        seq!['-'] + decimal((-i) as nat)
    } else {
        decimal(i as nat)
    }
}

pub open spec fn all_digits(s: Seq<char>) -> bool {
    forall|i: int| 0 <= i < s.len() ==> is_digit(#[trigger] s[i])
}

/// The number that a string of decimal digits denotes.
pub open spec fn decimal_value(s: Seq<char>) -> nat
    decreases s.len(),
{
    if s.len() == 0 {
        0
    } else {
        (decimal_value(s.drop_last()) * 10 + digit_value(s.last())) as nat
    }
}

/// Relies on `String::push`: the character is appended at the end.
#[verifier::external_body]
pub fn push_char(s: &mut String, c: char)
    ensures
        final(s)@ == old(s)@.push(c),
{
    s.push(c);
}

/// Appends the digit `d` (below ten).
fn push_digit(s: &mut String, d: u64)
    requires
        d < 10,
    ensures
        final(s)@ == old(s)@.push(digit_char(d as int)),
{
    let c = if d == 0 { '0' }
        else if d == 1 { '1' }
        else if d == 2 { '2' }
        else if d == 3 { '3' }
        else if d == 4 { '4' }
        else if d == 5 { '5' }
        else if d == 6 { '6' }
        else if d == 7 { '7' }
        else if d == 8 { '8' }
        else { '9' };
    push_char(s, c);
}

/// Appends the decimal rendering of `n`.
pub fn push_decimal(s: &mut String, n: u64)
    ensures
        final(s)@ == old(s)@ + decimal(n as nat),
    decreases n,
{
    if n >= 10 {
        push_decimal(s, n / 10);
        push_digit(s, n % 10);
        assert(final(s)@ == old(s)@ + decimal(n as nat));
    } else {
        push_digit(s, n);
        assert(final(s)@ == old(s)@ + decimal(n as nat));
    }
}

/// Appends the decimal rendering of a signed integer.
pub fn push_signed(s: &mut String, n: i64)
    ensures
        final(s)@ == old(s)@ + signed_decimal(n as int),
{
    if n < 0 {
        push_char(s, '-');
        let m: u64 = ((-(n + 1)) as u64) + 1;
        push_decimal(s, m);
        assert(final(s)@ == old(s)@ + signed_decimal(n as int));
    } else {
        push_decimal(s, n as u64);
    }
}

} // verus!

verus! {

/// Appends the decimal rendering of a vertex id.
pub fn push_usize(s: &mut String, n: usize)
    ensures
        final(s)@ == old(s)@ + decimal(n as nat),
{
    push_decimal(s, n as u64);
}

/// Unicode White_Space, the set that `char::is_whitespace` uses.
pub open spec fn is_space(c: char) -> bool {
    ('\t' <= c && c <= '\r') || c == ' ' || c == '\u{85}' || c == '\u{A0}' || c == '\u{1680}'
        || ('\u{2000}' <= c && c <= '\u{200A}') || c == '\u{2028}' || c == '\u{2029}' || c == '\u{202F}'
        || c == '\u{205F}' || c == '\u{3000}'
}

pub fn is_space_char(c: char) -> (r: bool)
    ensures
        r == is_space(c),
{
    ('\t' <= c && c <= '\r') || c == ' ' || c == '\u{85}' || c == '\u{A0}' || c == '\u{1680}'
        || ('\u{2000}' <= c && c <= '\u{200A}') || c == '\u{2028}' || c == '\u{2029}' || c == '\u{202F}'
        || c == '\u{205F}' || c == '\u{3000}'
}

/// Length of the first line: the characters before the first `\n`.
pub open spec fn line_len(s: Seq<char>) -> nat
    decreases s.len(),
{
    if s.len() == 0 || s[0] == '\n' {
        0
    } else {
        1 + line_len(s.drop_first())
    }
}

/// The lines of a text, split at each `\n`; a final `\n` ends the last line
/// without starting an empty one.
pub open spec fn split_lines(s: Seq<char>) -> Seq<Seq<char>>
    decreases s.len(),
{
    if s.len() == 0 {
        seq![]
    } else if line_len(s) >= s.len() {
        seq![s]
    } else {
        seq![s.take(line_len(s) as int)] + split_lines(s.skip(line_len(s) as int + 1))
    }
}

pub proof fn lemma_line_len(s: Seq<char>, n: int)
    requires
        0 <= n <= s.len(),
        forall|k: int| 0 <= k < n ==> s[k] != '\n',
        n == s.len() || s[n] == '\n',
    ensures
        line_len(s) == n,
    decreases n,
{
    if n > 0 {
        lemma_line_len(s.drop_first(), n - 1);
    }
}

/// The lines of `s`, as `split_lines` gives them.
pub fn lines(s: &str) -> (r: Vec<String>)
    ensures
        r@.len() == split_lines(s@).len(),
        forall|k: int| 0 <= k < r@.len() ==> #[trigger] r@[k]@ == split_lines(s@)[k],
{
    let n = s.unicode_len();
    let mut r: Vec<String> = Vec::new();
    let mut start: usize = 0;
    let ghost done: Seq<Seq<char>> = seq![];
    assert(s@.skip(0) =~= s@);
    assert(done + split_lines(s@) =~= split_lines(s@));
    while start < n
        invariant
            n == s@.len(),
            start <= n,
            r@.len() == done.len(),
            forall|k: int| 0 <= k < r@.len() ==> #[trigger] r@[k]@ == done[k],
            done + split_lines(s@.skip(start as int)) == split_lines(s@),
        decreases n - start,
    {
        let mut end: usize = start;
        while end < n && s.get_char(end) != '\n'
            invariant
                n == s@.len(),
                start <= end <= n,
                forall|k: int| start <= k < end ==> s@[k] != '\n',
            decreases n - end,
        {
            end = end + 1;
        }
        let ghost rest = s@.skip(start as int);
        proof {
            lemma_line_len(rest, end - start);
        }
        let line = s.substring_char(start, end).to_owned();
        assert(line@ == rest.take(end - start));
        let ghost old_done = done;
        proof {
            done = done.push(line@);
        }
        r.push(line);
        if end >= n {
            assert(split_lines(rest) == seq![rest]);
            assert(rest.take(end - start) == rest);
            assert(s@.skip(n as int).len() == 0);
            assert(done + split_lines(s@.skip(n as int)) =~= old_done + split_lines(rest));
            start = n;
        } else {
            assert(rest.skip(end - start + 1) =~= s@.skip(end + 1));
            assert(done + split_lines(s@.skip(end + 1)) =~= old_done + split_lines(rest));
            start = end + 1;
        }
    }
    assert(s@.skip(start as int).len() == 0);
    assert(done + seq![] =~= done);
    r
}

/// Number of leading whitespace characters.
pub open spec fn lead_len(s: Seq<char>) -> nat
    decreases s.len(),
{
    if s.len() == 0 || !is_space(s[0]) {
        0
    } else {
        1 + lead_len(s.drop_first())
    }
}

/// Number of trailing whitespace characters.
pub open spec fn trail_len(s: Seq<char>) -> nat
    decreases s.len(),
{
    if s.len() == 0 || !is_space(s.last()) {
        0
    } else {
        1 + trail_len(s.drop_last())
    }
}

/// The text without whitespace at either end.
pub open spec fn trim(s: Seq<char>) -> Seq<char> {
    let t = s.skip(lead_len(s) as int);
    t.take(t.len() - trail_len(t))
}

pub proof fn lemma_lead_len(s: Seq<char>, n: int)
    requires
        0 <= n <= s.len(),
        forall|k: int| 0 <= k < n ==> is_space(s[k]),
        n == s.len() || !is_space(s[n]),
    ensures
        lead_len(s) == n,
    decreases n,
{
    if n > 0 {
        lemma_lead_len(s.drop_first(), n - 1);
    }
}

proof fn lemma_trail_len(s: Seq<char>, n: int)
    requires
        0 <= n <= s.len(),
        forall|k: int| s.len() - n <= k < s.len() ==> is_space(s[k]),
        n == s.len() || !is_space(s[s.len() - n - 1]),
    ensures
        trail_len(s) == n,
    decreases n,
{
    if n > 0 {
        lemma_trail_len(s.drop_last(), n - 1);
    }
}

/// `s` without whitespace at either end.
pub fn trimmed(s: &str) -> (r: String)
    ensures
        r@ == trim(s@),
{
    let n = s.unicode_len();
    let mut a: usize = 0;
    while a < n && is_space_char(s.get_char(a))
        invariant
            n == s@.len(),
            a <= n,
            forall|k: int| 0 <= k < a ==> is_space(s@[k]),
        decreases n - a,
    {
        a = a + 1;
    }
    proof { lemma_lead_len(s@, a as int); }
    let mut b: usize = n;
    while b > a && is_space_char(s.get_char(b - 1))
        invariant
            n == s@.len(),
            a <= b <= n,
            forall|k: int| b <= k < n ==> is_space(s@[k]),
        decreases b,
    {
        b = b - 1;
    }
    let ghost t = s@.skip(a as int);
    proof {
        lemma_trail_len(t, n - b);
    }
    let r = s.substring_char(a, b).to_owned();
    assert(r@ =~= trim(s@));
    r
}

/// The number that a nonempty run of decimal digits denotes, if it fits in `u64`.
pub open spec fn unsigned_value(s: Seq<char>) -> Option<u64> {
    let body = if s.len() > 0 && s[0] == '+' { s.drop_first() } else { s };
    if body.len() > 0 && all_digits(body) && decimal_value(body) <= u64::MAX {
        Some(decimal_value(body) as u64)
    } else {
        None
    }
}

proof fn lemma_decimal_value_grows(s: Seq<char>, i: int)
    requires
        0 <= i <= s.len(),
        all_digits(s),
    ensures
        decimal_value(s.take(i)) <= decimal_value(s),
    decreases s.len() - i,
{
    if i < s.len() {
        lemma_decimal_value_grows(s, i + 1);
        assert(s.take(i + 1).drop_last() =~= s.take(i));
        assert(is_digit(s[i]));
    } else {
        assert(s.take(i) =~= s);
    }
}

/// The number that an optionally signed run of decimal digits denotes, if it fits in `i64`.
pub open spec fn signed_value(s: Seq<char>) -> Option<i64> {
    let neg = s.len() > 0 && s[0] == '-';
    let body = if s.len() > 0 && (s[0] == '-' || s[0] == '+') { s.drop_first() } else { s };
    if body.len() > 0 && all_digits(body) {
        let v: int = if neg { -decimal_value(body) } else { decimal_value(body) as int };
        if i64::MIN <= v <= i64::MAX { Some(v as i64) } else { None }
    } else {
        None
    }
}

/// Magnitude of a run of digits, saturated just above `limit`.
fn digits_value(s: &str, from: usize, limit: u128) -> (r: Option<u128>)
    requires
        from <= s@.len(),
        9 <= limit < u128::MAX,
    ensures
        r is None <==> !(s@.len() > from && all_digits(s@.skip(from as int))),
        r matches Some(v) ==> (v <= limit ==> v == decimal_value(s@.skip(from as int))) && (v > limit ==> decimal_value(s@.skip(from as int)) > limit),
{
    let n = s.unicode_len();
    if n == from {
        return None;
    }
    let ghost t = s@.skip(from as int);
    let mut acc: u128 = 0;
    let mut i: usize = from;
    while i < n
        invariant
            n == s@.len(),
            from <= i <= n,
            t == s@.skip(from as int),
            9 <= limit < u128::MAX,
            all_digits(t.take(i - from)),
            acc <= limit ==> acc == decimal_value(t.take(i - from)),
            acc > limit ==> acc == limit + 1 && decimal_value(t.take(i - from)) > limit,
        decreases n - i,
    {
        let c = s.get_char(i);
        assert(t[i - from] == c);
        if !('0' <= c && c <= '9') {
            assert(!all_digits(t));
            return None;
        }
        let d: u128 = (c as u32 - '0' as u32) as u128;
        assert(t.take(i - from + 1).drop_last() =~= t.take(i - from));
        if acc > limit || acc > (limit - d) / 10 {
            proof {
                if acc <= limit {
                    assert(decimal_value(t.take(i - from + 1)) > limit) by (nonlinear_arith)
                        requires
                            decimal_value(t.take(i - from + 1)) == acc * 10 + d,
                            acc > (limit - d) / 10,
                            d <= 9,
                    ;
                } else {
                    assert(decimal_value(t.take(i - from + 1)) >= decimal_value(t.take(i - from))) by (nonlinear_arith)
                        requires
                            decimal_value(t.take(i - from + 1)) == decimal_value(t.take(i - from)) * 10 + d,
                    ;
                }
            }
            acc = limit + 1;
        } else {
            acc = acc * 10 + d;
        }
        i = i + 1;
    }
    assert(t.take(n - from) =~= t);
    Some(acc)
}

/// Parses an optionally signed run of decimal digits into an `i64`.
pub fn parse_signed(s: &str) -> (r: Option<i64>)
    ensures
        r == signed_value(s@),
{
    let n = s.unicode_len();
    let neg = n > 0 && s.get_char(0) == '-';
    let from: usize = if n > 0 && (s.get_char(0) == '-' || s.get_char(0) == '+') { 1 } else { 0 };
    assert(from == 1 ==> s@.skip(1) =~= s@.drop_first());
    assert(from == 0 ==> s@.skip(0) =~= s@);
    let limit: u128 = if neg { 9223372036854775808 } else { 9223372036854775807 };
    match digits_value(s, from, limit) {
        None => None,
        Some(m) => {
            if m > limit {
                None
            } else if neg {
                if m == 9223372036854775808 {
                    Some(i64::MIN)
                } else {
                    Some(-(m as i64))
                }
            } else {
                Some(m as i64)
            }
        },
    }
}

/// Parses a run of decimal digits, optionally led by `+`, into a `u64`.
pub fn parse_unsigned(s: &str) -> (r: Option<u64>)
    ensures
        r == unsigned_value(s@),
{
    let n = s.unicode_len();
    let from: usize = if n > 0 && s.get_char(0) == '+' { 1 } else { 0 };
    assert(from == 1 ==> s@.skip(1) =~= s@.drop_first());
    assert(from == 0 ==> s@.skip(0) =~= s@);
    let limit: u128 = 18446744073709551615;
    match digits_value(s, from, limit) {
        None => None,
        Some(m) => {
            if m <= limit {
                Some(m as u64)
            } else {
                None
            }
        },
    }
}

/// A vertex id written in decimal, if it fits in `usize`.
pub open spec fn id_value(s: Seq<char>) -> Option<usize> {
    match unsigned_value(s) {
        Some(v) => if v <= usize::MAX { Some(v as usize) } else { None },
        None => None,
    }
}

/// Parses a vertex id written in decimal.
pub fn parse_id(s: &str) -> (r: Option<usize>)
    ensures
        r == id_value(s@),
{
    match parse_unsigned(s) {
        Some(v) => if v <= usize::MAX as u64 { Some(v as usize) } else { None },
        None => None,
    }
}

} // verus!

verus! {

/// Number of leading decimal digits.
pub open spec fn digit_run(s: Seq<char>) -> nat
    decreases s.len(),
{
    if s.len() == 0 || !is_digit(s[0]) {
        0
    } else {
        1 + digit_run(s.drop_first())
    }
}

/// `s` without one leading `+` or `-`.
pub open spec fn unsigned_part(s: Seq<char>) -> Seq<char> {
    if s.len() > 0 && (s[0] == '+' || s[0] == '-') { s.drop_first() } else { s }
}

/// An exponent part: empty, or `e`/`E`, an optional sign and digits.
pub open spec fn exponent_syntax(r: Seq<char>) -> bool {
    r.len() == 0 || ((r[0] == 'e' || r[0] == 'E') && unsigned_part(r.drop_first()).len() > 0
        && all_digits(unsigned_part(r.drop_first())))
}

/// Digits with an optional fraction (at least one digit in all) and an optional exponent.
pub open spec fn number_syntax(b: Seq<char>) -> bool {
    let k = digit_run(b);
    let rest = b.skip(k as int);
    if rest.len() > 0 && rest[0] == '.' {
        let f = digit_run(rest.drop_first());
        k + f > 0 && exponent_syntax(rest.drop_first().skip(f as int))
    } else {
        k > 0 && exponent_syntax(rest)
    }
}

/// The upper-case form of the letters that the special float words use.
pub open spec fn upper_of(c: char) -> char {
    if c == 'i' { 'I' } else if c == 'n' { 'N' } else if c == 'f' { 'F' } else if c == 't' { 'T' }
    else if c == 'y' { 'Y' } else if c == 'a' { 'A' } else { c }
}

/// `s` spells the lower-case `word`, each letter in either case.
pub open spec fn spells(s: Seq<char>, word: Seq<char>) -> bool {
    s.len() == word.len() && forall|i: int| 0 <= i < s.len() ==> (s[i] == word[i] || s[i] == upper_of(word[i]))
}

/// The syntax of a floating-point number: an optional sign, then `inf`,
/// `infinity` or `nan` in any case, or a decimal number.
pub open spec fn float_syntax(s: Seq<char>) -> bool {
    let b = unsigned_part(s);
    spells(b, "inf"@) || spells(b, "infinity"@) || spells(b, "nan"@) || number_syntax(b)
}

proof fn lemma_digit_run(s: Seq<char>, n: int)
    requires
        0 <= n <= s.len(),
        forall|k: int| 0 <= k < n ==> is_digit(s[k]),
        n == s.len() || !is_digit(s[n]),
    ensures
        digit_run(s) == n,
    decreases n,
{
    if n > 0 {
        lemma_digit_run(s.drop_first(), n - 1);
    }
}

/// Number of digits from position `from` on.
fn digits_from(s: &str, from: usize) -> (r: usize)
    requires
        from <= s@.len(),
    ensures
        from + r <= s@.len(),
        r == digit_run(s@.skip(from as int)),
{
    let n = s.unicode_len();
    let mut i: usize = from;
    while i < n && '0' <= s.get_char(i) && s.get_char(i) <= '9'
        invariant
            n == s@.len(),
            from <= i <= n,
            forall|k: int| from <= k < i ==> is_digit(s@[k]),
        decreases n - i,
    {
        i = i + 1;
    }
    proof { lemma_digit_run(s@.skip(from as int), i - from); }
    i - from
}

/// Whether the text from position `from` on is an exponent part.
fn exponent_from(s: &str, from: usize) -> (r: bool)
    requires
        from <= s@.len(),
    ensures
        r == exponent_syntax(s@.skip(from as int)),
{
    let n = s.unicode_len();
    if from == n {
        return true;
    }
    let c = s.get_char(from);
    if c != 'e' && c != 'E' {
        return false;
    }
    let ghost r = s@.skip(from as int);
    assert(r.drop_first() =~= s@.skip(from + 1));
    let mut at: usize = from + 1;
    if at < n && (s.get_char(at) == '+' || s.get_char(at) == '-') {
        at = at + 1;
    }
    assert(unsigned_part(r.drop_first()) =~= s@.skip(at as int));
    let d = digits_from(s, at);
    if d == 0 || at + d != n {
        proof {
            if d == 0 && s@.skip(at as int).len() > 0 {
                assert(!is_digit(s@.skip(at as int)[0]));
            }
            if at + d != n {
                lemma_digits_stop(s@.skip(at as int));
            }
        }
        return false;
    }
    proof { lemma_digit_run_all(s@.skip(at as int)); }
    true
}

proof fn lemma_digits_stop(s: Seq<char>)
    requires
        digit_run(s) < s.len(),
    ensures
        !all_digits(s),
    decreases s.len(),
{
    if s.len() > 0 && is_digit(s[0]) {
        lemma_digits_stop(s.drop_first());
        let k = choose|k: int| 0 <= k < s.len() - 1 && !is_digit(#[trigger] s.drop_first()[k]);
        assert(!is_digit(s[k + 1]));
    }
}

proof fn lemma_digit_run_all(s: Seq<char>)
    requires
        digit_run(s) == s.len(),
    ensures
        all_digits(s),
    decreases s.len(),
{
    if s.len() > 0 {
        lemma_digit_run_all(s.drop_first());
        assert forall|i: int| 0 <= i < s.len() implies is_digit(#[trigger] s[i]) by {
            if i > 0 {
                assert(s[i] == s.drop_first()[i - 1]);
            }
        }
    }
}

/// Whether the text from `from` on spells the lower-case `word` in any case.
fn spells_from(s: &str, from: usize, word: &str) -> (r: bool)
    requires
        from <= s@.len(),
    ensures
        r == spells(s@.skip(from as int), word@),
{
    let n = s.unicode_len();
    let m = word.unicode_len();
    if n - from != m {
        return false;
    }
    let mut i: usize = 0;
    while i < m
        invariant
            n == s@.len(),
            m == word@.len(),
            n - from == m,
            from <= n,
            i <= m,
            forall|k: int| 0 <= k < i ==> (s@.skip(from as int)[k] == word@[k] || s@.skip(from as int)[k] == upper_of(word@[k])),
        decreases m - i,
    {
        let c = s.get_char(from + i);
        let w = word.get_char(i);
        let up = if w == 'i' { 'I' } else if w == 'n' { 'N' } else if w == 'f' { 'F' } else if w == 't' { 'T' }
            else if w == 'y' { 'Y' } else if w == 'a' { 'A' } else { w };
        if c != w && c != up {
            return false;
        }
        i = i + 1;
    }
    true
}

/// Whether the text is a floating-point number.
pub fn is_float_text(s: &str) -> (r: bool)
    ensures
        r == float_syntax(s@),
{
    let n = s.unicode_len();
    let from: usize = if n > 0 && (s.get_char(0) == '+' || s.get_char(0) == '-') { 1 } else { 0 };
    let ghost b = unsigned_part(s@);
    assert(b =~= s@.skip(from as int));
    proof { reveal_strlit("inf"); reveal_strlit("infinity"); reveal_strlit("nan"); }
    if spells_from(s, from, "inf") || spells_from(s, from, "infinity") || spells_from(s, from, "nan") {
        return true;
    }
    let k = digits_from(s, from);
    let at = from + k;
    assert(b.skip(k as int) =~= s@.skip(at as int));
    if at < n && s.get_char(at) == '.' {
        assert(s@.skip(at as int).drop_first() =~= s@.skip(at + 1));
        let f = digits_from(s, at + 1);
        assert(s@.skip(at + 1).skip(f as int) =~= s@.skip(at + 1 + f));
        k + f > 0 && exponent_from(s, at + 1 + f)
    } else {
        k > 0 && exponent_from(s, at)
    }
}

} // verus!
