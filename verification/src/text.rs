//! Character-level text primitives.
//!
//! Strings are modelled by their character sequences. Each function states its
//! result over `Seq<char>`; the spec functions here are the vocabulary the rest
//! of the crate uses to talk about identifiers, labels and messages.
use vstd::prelude::*;

verus! {

/// `String::push` appends the character to the end of the string.
pub assume_specification[ String::push ](s: &mut String, c: char)
    ensures
        final(s)@ == old(s)@.push(c),
;

/// What `{:?}` prints of a text: the text between double quotes, with escapes in
/// place of the characters that do not print.
pub uninterp spec fn quoted(s: Seq<char>) -> Seq<char>;

/// `format!` with `{:?}` of a text returns [`quoted`] of that text, and nothing
/// else: which characters it escapes, and how, is left unsaid.
#[verifier::external_body]
pub(crate) fn quote(s: &str) -> (out: String)
    ensures
        out@ == quoted(s@),
{
    format!("{:?}", s)
}

// ---------------------------------------------------------------------------
// Conversions and comparison
// ---------------------------------------------------------------------------
/// The characters of `s`, in order.
pub fn chars_of(s: &str) -> (out: Vec<char>)
    ensures
        out@ == s@,
{
    let mut out: Vec<char> = Vec::new();
    for c in it: s.chars()
        invariant
            out@ == it.seq().take(it.index()),
            it.seq() == s@,
    {
        out.push(c);
    }
    out
}

/// The string spelled by `chars`.
pub fn text_of(chars: &[char]) -> (out: String)
    ensures
        out@ == chars@,
{
    let mut out = String::new();
    for i in 0..chars.len()
        invariant
            out@ == chars@.take(i as int),
    {
        out.push(chars[i]);
    }
    out
}

/// Whether two character slices spell the same text.
pub fn same_chars(a: &[char], b: &[char]) -> (same: bool)
    ensures
        same == (a@ == b@),
{
    if a.len() != b.len() {
        return false;
    }
    for i in 0..a.len()
        invariant
            a@.len() == b@.len(),
            forall|j: int| 0 <= j < i ==> a@[j] == b@[j],
    {
        if a[i] != b[i] {
            return false;
        }
    }
    assert(a@ =~= b@);
    true
}

/// Whether two strings spell the same text.
pub fn same_text(a: &str, b: &str) -> (same: bool)
    ensures
        same == (a@ == b@),
{
    same_chars(chars_of(a).as_slice(), chars_of(b).as_slice())
}

/// The text is one of the list.
pub open spec fn listed(list: Seq<String>, s: Seq<char>) -> bool {
    exists|i: int| 0 <= i < list.len() && (#[trigger] list[i])@ == s
}

/// Whether the text is one of the list.
pub fn is_listed(list: &[String], s: &str) -> (found: bool)
    ensures
        found == listed(list@, s@),
{
    for i in 0..list.len()
        invariant
            forall|j: int| 0 <= j < i ==> (#[trigger] list@[j])@ != s@,
    {
        if same_text(list[i].as_str(), s) {
            return true;
        }
    }
    false
}

/// Appends `more` to `out`.
pub fn push_chars(out: &mut Vec<char>, more: &[char])
    ensures
        final(out)@ == old(out)@ + more@,
{
    for i in 0..more.len()
        invariant
            out@ == old(out)@ + more@.take(i as int),
    {
        out.push(more[i]);
    }
    assert(more@.take(more@.len() as int) =~= more@);
}

/// Appends the characters of `more` to `out`.
pub fn push_str(out: &mut Vec<char>, more: &str)
    ensures
        final(out)@ == old(out)@ + more@,
{
    let m = chars_of(more);
    push_chars(out, m.as_slice());
}

/// Appends the decimal digits of `n` to `out`.
pub fn push_number(out: &mut Vec<char>, n: u64)
    ensures
        final(out)@ == old(out)@ + decimal(n as nat),
{
    let d = numeral_chars(n, 10, 1);
    push_chars(out, d.as_slice());
}

/// A copy of `chars[from..to]`.
pub fn slice_chars(chars: &[char], from: usize, to: usize) -> (out: Vec<char>)
    requires
        from <= to <= chars@.len(),
    ensures
        out@ == chars@.subrange(from as int, to as int),
{
    let mut out: Vec<char> = Vec::new();
    for i in from..to
        invariant
            from <= to <= chars@.len(),
            out@ == chars@.subrange(from as int, i as int),
    {
        out.push(chars[i]);
    }
    out
}

// ---------------------------------------------------------------------------
// ASCII case mapping
// ---------------------------------------------------------------------------
/// The ASCII uppercase form of a character; other characters are unchanged.
pub open spec fn ascii_upper(c: char) -> char {
    if 'a' <= c <= 'z' {
        (c as u32 - 32) as char
    } else {
        c
    }
}

/// The ASCII lowercase form of a character; other characters are unchanged.
pub open spec fn ascii_lower(c: char) -> char {
    if 'A' <= c <= 'Z' {
        (c as u32 + 32) as char
    } else {
        c
    }
}

/// Every character mapped through [`ascii_upper`].
pub open spec fn upper(s: Seq<char>) -> Seq<char> {
    s.map_values(|c: char| ascii_upper(c))
}

/// Every character mapped through [`ascii_lower`].
pub open spec fn lower(s: Seq<char>) -> Seq<char> {
    s.map_values(|c: char| ascii_lower(c))
}

/// ASCII-uppercases every character.
pub fn to_upper(chars: &[char]) -> (out: Vec<char>)
    ensures
        out@ == upper(chars@),
{
    let mut out: Vec<char> = Vec::new();
    for i in 0..chars.len()
        invariant
            out@ == upper(chars@.take(i as int)),
    {
        let c = chars[i];
        if 'a' <= c && c <= 'z' {
            out.push((c as u8 - 32) as char);
        } else {
            out.push(c);
        }
        assert(chars@.take(i + 1).drop_last() =~= chars@.take(i as int));
        assert(out@ =~= upper(chars@.take(i + 1)));
    }
    assert(chars@.take(chars@.len() as int) =~= chars@);
    out
}

/// ASCII-lowercases every character.
pub fn to_lower(chars: &[char]) -> (out: Vec<char>)
    ensures
        out@ == lower(chars@),
{
    let mut out: Vec<char> = Vec::new();
    for i in 0..chars.len()
        invariant
            out@ == lower(chars@.take(i as int)),
    {
        let c = chars[i];
        if 'A' <= c && c <= 'Z' {
            out.push((c as u8 + 32) as char);
        } else {
            out.push(c);
        }
        assert(chars@.take(i + 1).drop_last() =~= chars@.take(i as int));
        assert(out@ =~= lower(chars@.take(i + 1)));
    }
    assert(chars@.take(chars@.len() as int) =~= chars@);
    out
}

// ---------------------------------------------------------------------------
// Numbers
// ---------------------------------------------------------------------------
/// The character of one digit, uppercase beyond nine.
pub open spec fn digit_char(d: nat) -> char {
    if d < 10 {
        ('0' as u32 + d) as char
    } else {
        ('A' as u32 + d - 10) as char
    }
}

/// The value of a digit character in either case, below thirty-six.
pub open spec fn digit_value(c: char) -> Option<nat> {
    if '0' <= c <= '9' {
        Some((c as u32 - '0' as u32) as nat)
    } else if 'a' <= c <= 'z' {
        Some((c as u32 - 'a' as u32 + 10) as nat)
    } else if 'A' <= c <= 'Z' {
        Some((c as u32 - 'A' as u32 + 10) as nat)
    } else {
        None
    }
}

/// Uppercase digits of `n` in base `radix`, zero-padded to at least `width`.
pub open spec fn numeral(n: nat, radix: nat, width: nat) -> Seq<char>
    decreases n, width,
{
    if radix < 2 {
        seq![]
    } else if n < radix && width <= 1 {
        seq![digit_char(n)]
    } else {
        proof {
            assert(n / radix <= n && (n > 0 ==> n / radix < n)) by (nonlinear_arith)
                requires
                    radix >= 2,
            ;
        }
        numeral(
            n / radix,
            radix,
            if width == 0 {
                0
            } else {
                (width - 1) as nat
            },
        ).push(digit_char(n % radix))
    }
}

/// Decimal digits of `n`, without padding.
pub open spec fn decimal(n: nat) -> Seq<char> {
    numeral(n, 10, 1)
}

/// Uppercase hexadecimal digits of `n`, at least four of them.
pub open spec fn hex4(n: nat) -> Seq<char> {
    numeral(n, 16, 4)
}

/// Writes [`numeral`] into characters.
pub fn numeral_chars(n: u64, radix: u64, width: usize) -> (out: Vec<char>)
    requires
        2 <= radix <= 36,
    ensures
        out@ == numeral(n as nat, radix as nat, width as nat),
    decreases n, width,
{
    let d = n % radix;
    let c = if d < 10 {
        (48 + d as u8) as char
    } else {
        (65 + (d as u8 - 10)) as char
    };
    if n < radix && width <= 1 {
        assert(d == n) by (nonlinear_arith)
            requires
                d == n % radix,
                n < radix,
        ;
        let mut out: Vec<char> = Vec::new();
        out.push(c);
        out
    } else {
        let w = if width == 0 {
            0
        } else {
            width - 1
        };
        assert(n / radix <= n && (n > 0 ==> n / radix < n)) by (nonlinear_arith)
            requires
                2 <= radix,
        ;
        let mut out = numeral_chars(n / radix, radix, w);
        out.push(c);
        out
    }
}

/// Whether every character is a digit below `radix`.
pub open spec fn all_digits(s: Seq<char>, radix: nat) -> bool {
    forall|i: int| 0 <= i < s.len() ==> (digit_value(#[trigger] s[i]) matches Some(d) && d < radix)
}

/// The number a digit string denotes.
pub open spec fn digits_value(s: Seq<char>, radix: nat) -> nat
    decreases s.len(),
{
    if s.len() == 0 {
        0
    } else {
        digits_value(s.drop_last(), radix) * radix + digit_value(s.last()).unwrap_or(0)
    }
}

/// Unsigned 32-bit parsing: an optional `+`, then one or more digits whose
/// value fits.
pub open spec fn parse_u32(s: Seq<char>, radix: nat) -> Option<u32> {
    let body = if s.len() > 0 && s[0] == '+' {
        s.skip(1)
    } else {
        s
    };
    if body.len() > 0 && all_digits(body, radix) && digits_value(body, radix) <= u32::MAX {
        Some(digits_value(body, radix) as u32)
    } else {
        None
    }
}

/// Writing a number and reading it back gives the number: every numeral is made
/// of digits of its base and denotes what it was written from.
pub proof fn numeral_reads_back(n: nat, radix: nat, width: nat)
    requires
        2 <= radix <= 36,
    ensures
        numeral(n, radix, width).len() >= 1,
        all_digits(numeral(n, radix, width), radix),
        digits_value(numeral(n, radix, width), radix) == n,
        n <= u32::MAX ==> parse_u32(numeral(n, radix, width), radix) == Some(n as u32),
    decreases n, width,
{
    let s = numeral(n, radix, width);
    if n < radix && width <= 1 {
        assert(s.drop_last() =~= seq![]);
        assert(digits_value(s.drop_last(), radix) == 0);
        assert(0 * radix == 0) by (nonlinear_arith);
    } else {
        assert(n / radix <= n && (n > 0 ==> n / radix < n) && n == (n / radix) * radix + n % radix
            && n % radix < radix) by (nonlinear_arith)
            requires
                radix >= 2,
        ;
        let w = if width == 0 {
            0
        } else {
            (width - 1) as nat
        };
        numeral_reads_back(n / radix, radix, w);
        assert(s.drop_last() =~= numeral(n / radix, radix, w));
    }
    assert(s[0] != '+') by {
        assert(digit_value(s[0]) is Some);
    }
}

/// A numeral is as long as its width asks for, where the number fits in it.
pub proof fn numeral_fills_width(n: nat, radix: nat, width: nat)
    requires
        2 <= radix,
        1 <= width,
        n < vstd::arithmetic::power::pow(radix as int, width),
    ensures
        numeral(n, radix, width).len() == width,
    decreases width,
{
    reveal(vstd::arithmetic::power::pow);
    if width == 1 {
        assert(vstd::arithmetic::power::pow(radix as int, 0) == 1);
        assert(radix * 1 == radix) by (nonlinear_arith);
    } else {
        let p = vstd::arithmetic::power::pow(radix as int, (width - 1) as nat);
        assert(n / radix < p) by (nonlinear_arith)
            requires
                radix >= 2,
                n < radix * p,
        ;
        numeral_fills_width(n / radix, radix, (width - 1) as nat);
    }
}

proof fn lemma_digits_value_prefix(s: Seq<char>, n: int, radix: nat)
    requires
        0 <= n <= s.len(),
        radix >= 1,
    ensures
        digits_value(s.take(n), radix) <= digits_value(s, radix),
    decreases s.len() - n,
{
    if n < s.len() {
        lemma_digits_value_prefix(s, n + 1, radix);
        assert(s.take(n + 1).drop_last() =~= s.take(n));
        let v = digits_value(s.take(n), radix);
        assert(v <= v * radix) by (nonlinear_arith)
            requires
                radix >= 1,
        ;
    } else {
        assert(s.take(n) =~= s);
    }
}

/// Digit value of one character, when it is a digit below thirty-six.
fn digit_of(c: char) -> (d: Option<u32>)
    ensures
        match d {
            Some(v) => digit_value(c) == Some(v as nat) && v < 36,
            None => digit_value(c) is None,
        },
{
    if '0' <= c && c <= '9' {
        Some(c as u32 - '0' as u32)
    } else if 'a' <= c && c <= 'z' {
        Some(c as u32 - 'a' as u32 + 10)
    } else if 'A' <= c && c <= 'Z' {
        Some(c as u32 - 'A' as u32 + 10)
    } else {
        None
    }
}

/// Parses an unsigned 32-bit number; see [`parse_u32`].
pub fn read_u32(chars: &[char], radix: u32) -> (out: Option<u32>)
    requires
        2 <= radix <= 36,
    ensures
        out == parse_u32(chars@, radix as nat),
{
    let n = chars.len();
    let start: usize = if n > 0 && chars[0] == '+' {
        1
    } else {
        0
    };
    let ghost body = if chars@.len() > 0 && chars@[0] == '+' {
        chars@.skip(1)
    } else {
        chars@
    };
    assert(body =~= chars@.skip(start as int));
    if start == n {
        return None;
    }
    let mut value: u64 = 0;
    for i in start..n
        invariant
            n == chars@.len(),
            start <= n,
            2 <= radix <= 36,
            body == chars@.skip(start as int),
            value <= u32::MAX,
            value == digits_value(body.take(i - start), radix as nat),
            forall|j: int|
                0 <= j < i - start ==> (digit_value(#[trigger] body[j]) matches Some(d) && d
                    < radix),
            parse_u32(chars@, radix as nat) == (if body.len() > 0 && all_digits(
                body,
                radix as nat,
            ) && digits_value(body, radix as nat) <= u32::MAX {
                Some(digits_value(body, radix as nat) as u32)
            } else {
                None
            }),
    {
        let c = chars[i];
        assert(body[i - start] == c);
        let d = match digit_of(c) {
            Some(d) => d,
            None => {
                return None;
            },
        };
        if d >= radix {
            return None;
        }
        assert(value * radix <= u32::MAX * 36) by (nonlinear_arith)
            requires
                value <= u32::MAX,
                radix <= 36,
        ;
        let next = value * radix as u64 + d as u64;
        proof {
            assert(body.take(i - start + 1).drop_last() =~= body.take(i - start));
            lemma_digits_value_prefix(body, i - start + 1, radix as nat);
        }
        if next > u32::MAX as u64 {
            return None;
        }
        value = next;
    }
    assert(body.take(n - start) =~= body);
    Some(value as u32)
}

// ---------------------------------------------------------------------------
// Searching
// ---------------------------------------------------------------------------
/// `pat` occurs in `s` starting at `i`.
pub open spec fn occurs_at(s: Seq<char>, pat: Seq<char>, i: int) -> bool {
    0 <= i && i + pat.len() <= s.len() && s.subrange(i, i + pat.len()) == pat
}

/// `pat` occurs somewhere in `s`.
pub open spec fn contains(s: Seq<char>, pat: Seq<char>) -> bool {
    exists|i: int| occurs_at(s, pat, i)
}

/// `s` begins with `pat`.
pub open spec fn begins_with(s: Seq<char>, pat: Seq<char>) -> bool {
    occurs_at(s, pat, 0)
}

/// `s` ends with `pat`.
pub open spec fn ends_with(s: Seq<char>, pat: Seq<char>) -> bool {
    occurs_at(s, pat, s.len() - pat.len())
}

/// Whether `pat` occurs in `s` at `i`.
pub fn matches_at(s: &[char], pat: &[char], i: usize) -> (found: bool)
    ensures
        found == occurs_at(s@, pat@, i as int),
{
    let n = s.len();
    if n < pat.len() || i > n - pat.len() {
        return false;
    }
    for j in 0..pat.len()
        invariant
            n == s@.len(),
            i + pat@.len() <= n,
            forall|k: int| 0 <= k < j ==> s@[i + k] == pat@[k],
    {
        if s[i + j] != pat[j] {
            assert(s@.subrange(i as int, i + pat@.len())[j as int] != pat@[j as int]);
            return false;
        }
    }
    assert(s@.subrange(i as int, i + pat@.len()) =~= pat@);
    true
}

/// First position at `from` or later where `pat` occurs, or -1.
pub open spec fn position(s: Seq<char>, pat: Seq<char>, from: int) -> int
    decreases s.len() + 1 - from,
{
    if from < 0 || from + pat.len() > s.len() {
        -1
    } else if occurs_at(s, pat, from) {
        from
    } else {
        position(s, pat, from + 1)
    }
}

/// The first place where `pat` occurs in `s`.
pub fn find_chars(s: &[char], pat: &[char]) -> (at: Option<usize>)
    ensures
        match at {
            Some(i) => occurs_at(s@, pat@, i as int) && position(s@, pat@, 0) == i && forall|j: int|
                j < i ==> !occurs_at(s@, pat@, j),
            None => !contains(s@, pat@) && position(s@, pat@, 0) == -1,
        },
{
    if s.len() < pat.len() {
        return None;
    }
    let last = s.len() - pat.len();
    let mut i: usize = 0;
    while i <= last
        invariant
            last == s@.len() - pat@.len(),
            position(s@, pat@, 0) == position(s@, pat@, i as int),
            forall|j: int| j < i ==> !occurs_at(s@, pat@, j),
        decreases last + 1 - i,
    {
        if matches_at(s, pat, i) {
            return Some(i);
        }
        if i == last {
            assert(position(s@, pat@, i + 1) == -1);
            return None;
        }
        i += 1;
    }
    None
}

/// Whether `pat` occurs in `s`.
pub fn contains_chars(s: &[char], pat: &[char]) -> (found: bool)
    ensures
        found == contains(s@, pat@),
{
    find_chars(s, pat).is_some()
}

/// The first index at or after `from` holding `c`, or the length.
pub open spec fn index_from(s: Seq<char>, c: char, from: int) -> int
    decreases s.len() - from,
{
    if from >= s.len() {
        s.len() as int
    } else if s[from] == c {
        from
    } else {
        index_from(s, c, from + 1)
    }
}

/// Computes [`index_from`].
pub fn find_char(s: &[char], c: char, from: usize) -> (at: usize)
    requires
        from <= s@.len(),
    ensures
        at == index_from(s@, c, from as int),
        from <= at <= s@.len(),
        at < s@.len() ==> s@[at as int] == c,
        forall|j: int| from <= j < at ==> s@[j] != c,
{
    let mut i = from;
    while i < s.len() && s[i] != c
        invariant
            from <= i <= s@.len(),
            index_from(s@, c, from as int) == index_from(s@, c, i as int),
            forall|j: int| from <= j < i ==> s@[j] != c,
        decreases s@.len() - i,
    {
        i += 1;
    }
    i
}

// ---------------------------------------------------------------------------
// Lines and whitespace
// ---------------------------------------------------------------------------
/// `s` without one trailing carriage return.
pub open spec fn without_cr(s: Seq<char>) -> Seq<char> {
    if s.len() > 0 && s.last() == '\r' {
        s.drop_last()
    } else {
        s
    }
}

/// The lines of a text: separated by `\n` or `\r\n`, with no empty line after a
/// final terminator.
pub open spec fn lines(s: Seq<char>) -> Seq<Seq<char>>
    decreases s.len(),
{
    let end = index_from(s, '\n', 0);
    if s.len() == 0 {
        seq![]
    } else if end < 0 || end >= s.len() {
        seq![s]
    } else {
        seq![without_cr(s.take(end))] + lines(s.skip(end + 1))
    }
}

/// The views of a list of character vectors.
pub open spec fn views(v: Seq<Vec<char>>) -> Seq<Seq<char>> {
    v.map_values(|x: Vec<char>| x@)
}

proof fn lemma_index_from_skip(s: Seq<char>, c: char, n: int, from: int)
    requires
        0 <= n <= from <= s.len(),
    ensures
        index_from(s.skip(n), c, from - n) == index_from(s, c, from) - n,
    decreases s.len() - from,
{
    if from < s.len() && s[from] != c {
        lemma_index_from_skip(s, c, n, from + 1);
    }
}

/// Splits a text into its [`lines`].
pub fn split_lines(s: &[char]) -> (out: Vec<Vec<char>>)
    ensures
        views(out@) == lines(s@),
{
    let mut out: Vec<Vec<char>> = Vec::new();
    let n = s.len();
    let mut i: usize = 0;
    assert(s@.skip(0) =~= s@);
    assert(views(out@) =~= seq![]);
    while i < n
        invariant
            n == s@.len(),
            i <= n,
            views(out@) + lines(s@.skip(i as int)) == lines(s@),
        decreases n - i,
    {
        let ghost rest = s@.skip(i as int);
        let ghost before = out@;
        let end = find_char(s, '\n', i);
        proof {
            lemma_index_from_skip(s@, '\n', i as int, i as int);
        }
        if end == n {
            out.push(slice_chars(s, i, n));
            assert(out@.last()@ =~= rest);
            assert(views(out@) =~= views(before).push(rest));
            assert(s@.skip(n as int) =~= seq![]);
            assert(lines(s@.skip(n as int)) =~= seq![]);
            assert(views(out@) + lines(s@.skip(n as int)) =~= views(before) + lines(rest));
            i = n;
        } else {
            let cut = if end > i && s[end - 1] == '\r' {
                end - 1
            } else {
                end
            };
            out.push(slice_chars(s, i, cut));
            assert(rest.take(end - i) =~= s@.subrange(i as int, end as int));
            assert(out@.last()@ =~= without_cr(rest.take(end - i)));
            assert(views(out@) =~= views(before).push(without_cr(rest.take(end - i))));
            assert(rest.skip(end - i + 1) =~= s@.skip(end + 1));
            assert(views(out@) + lines(s@.skip(end + 1)) =~= views(before) + lines(rest));
            i = end + 1;
        }
    }
    assert(s@.skip(n as int) =~= seq![]);
    assert(views(out@) + lines(s@.skip(n as int)) =~= views(out@));
    out
}

/// Unicode `White_Space` characters.
pub open spec fn is_space(c: char) -> bool {
    let u = c as u32;
    ||| 0x9 <= u <= 0xD
    ||| u == 0x20
    ||| u == 0x85
    ||| u == 0xA0
    ||| u == 0x1680
    ||| 0x2000 <= u <= 0x200A
    ||| u == 0x2028
    ||| u == 0x2029
    ||| u == 0x202F
    ||| u == 0x205F
    ||| u == 0x3000
}

/// `s` without leading white space.
pub open spec fn trim_start(s: Seq<char>) -> Seq<char>
    decreases s.len(),
{
    if s.len() > 0 && is_space(s[0]) {
        trim_start(s.skip(1))
    } else {
        s
    }
}

/// `s` without trailing white space.
pub open spec fn trim_end(s: Seq<char>) -> Seq<char>
    decreases s.len(),
{
    if s.len() > 0 && is_space(s.last()) {
        trim_end(s.drop_last())
    } else {
        s
    }
}

/// `s` without leading or trailing white space.
pub open spec fn trim(s: Seq<char>) -> Seq<char> {
    trim_end(trim_start(s))
}

fn white(c: char) -> (w: bool)
    ensures
        w == is_space(c),
{
    let u = c as u32;
    (0x9 <= u && u <= 0xD) || u == 0x20 || u == 0x85 || u == 0xA0 || u == 0x1680 || (0x2000 <= u
        && u <= 0x200A) || u == 0x2028 || u == 0x2029 || u == 0x202F || u == 0x205F || u == 0x3000
}

/// Removes leading and trailing white space.
pub fn trim_chars(s: &[char]) -> (out: Vec<char>)
    ensures
        out@ == trim(s@),
{
    let mut a: usize = 0;
    assert(s@.skip(0) =~= s@);
    while a < s.len() && white(s[a])
        invariant
            a <= s@.len(),
            trim_start(s@.skip(a as int)) == trim_start(s@),
        decreases s@.len() - a,
    {
        assert(s@.skip(a as int).skip(1) =~= s@.skip(a + 1));
        a += 1;
    }
    let ghost rest = s@.skip(a as int);
    assert(rest == trim_start(s@));
    let mut b: usize = s.len();
    assert(s@.subrange(a as int, b as int) =~= rest);
    while b > a && white(s[b - 1])
        invariant
            a <= b <= s@.len(),
            trim_end(s@.subrange(a as int, b as int)) == trim_end(rest),
        decreases b,
    {
        assert(s@.subrange(a as int, b as int).drop_last() =~= s@.subrange(a as int, b - 1));
        b -= 1;
    }
    slice_chars(s, a, b)
}

// ---------------------------------------------------------------------------
// Laws of text
// ---------------------------------------------------------------------------
/// Only ASCII letters have a case. A small letter and its capital are thirty-two
/// apart, and changing the case of each leaves the other.
pub proof fn only_ascii_letters_change_case(c: char)
    ensures
        0x61 <= c as u32 <= 0x7A ==> ascii_upper(c) as u32 + 32 == c as u32 && ascii_lower(
            ascii_upper(c),
        ) == c && ascii_lower(c) == c,
        0x41 <= c as u32 <= 0x5A ==> ascii_lower(c) as u32 == c as u32 + 32 && ascii_upper(
            ascii_lower(c),
        ) == c && ascii_upper(c) == c,
        !(0x61 <= c as u32 <= 0x7A) && !(0x41 <= c as u32 <= 0x5A) ==> ascii_upper(c) == c
            && ascii_lower(c) == c,
{
}

/// Numerals are written with decimal digits and capital letters, and no shorter
/// than asked. A longer one does not begin with a zero.
pub proof fn numerals_are_capital_and_short(n: nat, radix: nat, width: nat)
    requires
        2 <= radix <= 36,
    ensures
        numeral(n, radix, width).len() >= width,
        numeral(n, radix, width).len() >= 1,
        numeral(n, radix, width).len() > 1 && numeral(n, radix, width).len() > width ==> numeral(
            n,
            radix,
            width,
        )[0] != '0',
        n > 0 && width <= 1 ==> numeral(n, radix, width)[0] != '0',
        forall|i: int|
            0 <= i < numeral(n, radix, width).len() ==> 0x30 <= #[trigger] numeral(
                n,
                radix,
                width,
            )[i] as u32 <= 0x39 || 0x41 <= numeral(n, radix, width)[i] as u32 <= 0x5A,
    decreases n, width,
{
    let s = numeral(n, radix, width);
    if n < radix && width <= 1 {
        lemma_digit_char(n);
    } else {
        assert(n / radix <= n && (n > 0 ==> n / radix < n)) by (nonlinear_arith)
            requires
                radix >= 2,
        ;
        assert(n % radix < radix) by (nonlinear_arith)
            requires
                radix >= 2,
        ;
        let w = if width == 0 {
            0
        } else {
            (width - 1) as nat
        };
        numerals_are_capital_and_short(n / radix, radix, w);
        let init = numeral(n / radix, radix, w);
        lemma_digit_char(n % radix);
        assert(s == init.push(digit_char(n % radix)));
        assert(s[0] == init[0]);
        if width <= 1 {
            assert(n / radix > 0) by (nonlinear_arith)
                requires
                    n >= radix,
                    radix >= 2,
            ;
        }
        assert forall|i: int| 0 <= i < s.len() implies 0x30 <= #[trigger] s[i] as u32 <= 0x39 || 0x41
            <= s[i] as u32 <= 0x5A by {
            if i < init.len() {
                assert(s[i] == init[i]);
            }
        }
    }
}

proof fn lemma_digit_char(d: nat)
    requires
        d < 36,
    ensures
        d < 10 ==> digit_char(d) as u32 == 0x30 + d,
        d >= 10 ==> digit_char(d) as u32 == 0x41 + d - 10,
        d > 0 ==> digit_char(d) != '0',
{
}

proof fn lemma_decimal_digit(c: char)
    requires
        0x30 <= c as u32 <= 0x39,
    ensures
        digit_value(c) == Some((c as u32 - 0x30) as nat),
{
}

/// Numbers are read as they are written: digits of either case, behind at most one
/// plus sign. Nothing else is a number, and none above the range is read.
pub proof fn numbers_are_read_as_written(s: Seq<char>, c: char)
    ensures
        digit_value(c) is Some <==> 0x30 <= c as u32 <= 0x39 || 0x41 <= c as u32 <= 0x5A || 0x61
            <= c as u32 <= 0x7A,
        0x30 <= c as u32 <= 0x39 ==> digit_value(c) == Some((c as u32 - 0x30) as nat),
        0x41 <= c as u32 <= 0x5A ==> digit_value(c) == Some((c as u32 - 0x41 + 10) as nat),
        0x61 <= c as u32 <= 0x7A ==> digit_value(c) == Some((c as u32 - 0x61 + 10) as nat),
        parse_u32(seq![], 10) is None,
        parse_u32(seq!['+'], 10) is None,
        s.len() > 0 && s[0] != '+' ==> parse_u32(seq!['+'] + s, 10) == parse_u32(s, 10),
        (exists|i: int|
            1 <= i < s.len() && !(0x30 <= (#[trigger] s[i]) as u32 <= 0x39)) ==> parse_u32(
            s,
            10,
        ) is None,
        parse_u32(s, 10) is Some && c as u32 >= 0x30 && c as u32 <= 0x39 ==> {
            let next = parse_u32(s, 10)->Some_0 * 10 + (c as u32 - 0x30);
            &&& next <= u32::MAX ==> parse_u32(s.push(c), 10) == Some(next as u32)
            &&& next > u32::MAX ==> parse_u32(s.push(c), 10) is None
        },
        s.len() == 1 && 0x30 <= s[0] as u32 <= 0x39 ==> parse_u32(s, 10) == Some(
            (s[0] as u32 - 0x30) as u32,
        ),
{
    let plus = seq!['+'] + s;
    assert(plus.skip(1) =~= s);
    assert(seq!['+'].skip(1) =~= seq![]);
    if exists|i: int| 1 <= i < s.len() && !(0x30 <= (#[trigger] s[i]) as u32 <= 0x39) {
        let i = choose|i: int| 1 <= i < s.len() && !(0x30 <= (#[trigger] s[i]) as u32 <= 0x39);
        if s[0] == '+' {
            assert(s.skip(1)[i - 1] == s[i]);
            assert(!all_digits(s.skip(1), 10));
        } else {
            assert(!all_digits(s, 10));
        }
    }
    if parse_u32(s, 10) is Some && 0x30 <= c as u32 <= 0x39 {
        let body = if s[0] == '+' {
            s.skip(1)
        } else {
            s
        };
        let longer = s.push(c);
        assert(s.len() > 0);
        assert(longer[0] == s[0]);
        let next = body.push(c);
        assert(longer.skip(1) =~= s.skip(1).push(c));
        assert forall|i: int| 0 <= i < next.len() implies (digit_value(#[trigger] next[i])
            matches Some(d) && d < 10) by {
            if i < body.len() {
                assert(next[i] == body[i]);
            }
        }
        assert(all_digits(next, 10));
        assert(next.drop_last() =~= body);
        assert(digits_value(next, 10) == digits_value(body, 10) * 10 + (c as u32 - 0x30));
    }
    if s.len() == 1 && 0x30 <= s[0] as u32 <= 0x39 {
        assert(s.drop_last().len() == 0);
        assert(digits_value(s.drop_last(), 10) == 0);
        let d = s[0];
        lemma_decimal_digit(d);
        assert forall|i: int| 0 <= i < s.len() implies (digit_value(#[trigger] s[i]) matches Some(
            v,
        ) && v < 10) by {
            assert(s[i] == d);
        }
        assert(all_digits(s, 10));
    }
}

/// A text falls into lines at its newlines: the part before the first one is a
/// line, without the carriage return in front of it, and the rest falls into lines
/// likewise. What stands behind the last newline is a line where there is any.
pub proof fn texts_fall_into_lines_at_newlines(a: Seq<char>, b: Seq<char>)
    requires
        forall|i: int| 0 <= i < a.len() ==> #[trigger] a[i] != '\n',
    ensures
        lines(a + seq!['\n'] + b) == seq![
            if a.len() > 0 && a[a.len() - 1] == '\r' {
                a.take(a.len() - 1)
            } else {
                a
            },
        ] + lines(b),
        a.len() > 0 ==> lines(a) == seq![a],
        lines(seq![]) == Seq::<Seq<char>>::empty(),
{
    let s = a + seq!['\n'] + b;
    let n = a.len() as int;
    lemma_index_of(s, '\n', n, 0);
    assert(s.take(n) =~= a);
    assert(s.skip(n + 1) =~= b);
    if a.len() > 0 {
        assert(a.drop_last() =~= a.take(n - 1));
        lemma_no_index(a, '\n', 0);
    }
}

proof fn lemma_index_of(s: Seq<char>, c: char, k: int, from: int)
    requires
        0 <= from <= k < s.len(),
        s[k] == c,
        forall|i: int| 0 <= i < k ==> #[trigger] s[i] != c,
    ensures
        index_from(s, c, from) == k,
    decreases k - from,
{
    if from < k {
        assert(s[from] != c);
        lemma_index_of(s, c, k, from + 1);
    }
}

proof fn lemma_no_index(s: Seq<char>, c: char, from: int)
    requires
        0 <= from <= s.len(),
        forall|i: int| 0 <= i < s.len() ==> #[trigger] s[i] != c,
    ensures
        index_from(s, c, from) == s.len(),
    decreases s.len() - from,
{
    if from < s.len() {
        assert(s[from] != c);
        lemma_no_index(s, c, from + 1);
    }
}

/// Trimming takes the white space off both ends, and nothing else.
pub proof fn trimming_takes_white_ends(s: Seq<char>)
    ensures
        exists|i: int, j: int|
            0 <= i <= j <= s.len() && trim(s) == #[trigger] s.subrange(i, j) && (forall|k: int|
                0 <= k < i || j <= k < s.len() ==> is_space(#[trigger] s[k])) && (i < j
                ==> !is_space(s[i]) && !is_space(s[j - 1])),
{
    let i = lemma_trim_start(s);
    let t = trim_start(s);
    let m = lemma_trim_end(t);
    let j = i + m;
    assert(trim(s) =~= s.subrange(i, j));
    assert forall|k: int| 0 <= k < i || j <= k < s.len() implies is_space(#[trigger] s[k]) by {
        if j <= k {
            assert(t[k - i] == s[k]);
        }
    }
    if i < j {
        assert(t[0] == s[i]);
        assert(t[m - 1] == s[j - 1]);
    }
}

proof fn lemma_trim_start(s: Seq<char>) -> (i: int)
    ensures
        0 <= i <= s.len(),
        trim_start(s) == s.skip(i),
        forall|k: int| 0 <= k < i ==> is_space(#[trigger] s[k]),
        i < s.len() ==> !is_space(s[i]),
    decreases s.len(),
{
    if s.len() > 0 && is_space(s[0]) {
        let t = s.skip(1);
        let j = lemma_trim_start(t);
        assert(t.skip(j) =~= s.skip(j + 1));
        assert forall|k: int| 0 <= k < j + 1 implies is_space(#[trigger] s[k]) by {
            if k > 0 {
                assert(t[k - 1] == s[k]);
            }
        }
        j + 1
    } else {
        assert(s.skip(0) =~= s);
        0
    }
}

proof fn lemma_trim_end(s: Seq<char>) -> (j: int)
    ensures
        0 <= j <= s.len(),
        trim_end(s) == s.take(j),
        forall|k: int| j <= k < s.len() ==> is_space(#[trigger] s[k]),
        j > 0 ==> !is_space(s[j - 1]),
    decreases s.len(),
{
    if s.len() > 0 && is_space(s.last()) {
        let t = s.drop_last();
        let j = lemma_trim_end(t);
        assert(t.take(j) =~= s.take(j));
        assert forall|k: int| j <= k < s.len() implies is_space(#[trigger] s[k]) by {
            if k < t.len() {
                assert(t[k] == s[k]);
            }
        }
        j
    } else {
        assert(s.take(s.len() as int) =~= s);
        s.len() as int
    }
}

/// What counts as white space.
pub proof fn white_space_is_listed(c: char)
    ensures
        is_space(c) <==> ({
            let u = c as u32;
            u == 0x20 || u == 0x09 || u == 0x0A || u == 0x0B || u == 0x0C || u == 0x0D || u == 0x85
                || u == 0xA0 || u == 0x1680 || u >= 0x2000 && u <= 0x200A || u == 0x2028 || u
                == 0x2029 || u == 0x202F || u == 0x205F || u == 0x3000
        }),
{
}

/// A text is listed when one of the list reads the same.
pub proof fn listed_texts_are_in_the_list(list: Seq<String>, s: Seq<char>)
    ensures
        listed(list, s) <==> exists|i: int| 0 <= i < list.len() && (#[trigger] list[i])@ == s,
{
}

/// A text holds another where it reads the same, character by character, and begins
/// or ends with it where that is at its beginning or its end.
pub proof fn texts_hold_what_they_read(s: Seq<char>, pat: Seq<char>, i: int)
    ensures
        occurs_at(s, pat, i) <==> 0 <= i && i + pat.len() <= s.len() && forall|k: int|
            0 <= k < pat.len() ==> #[trigger] pat[k] == s[i + k],
        contains(s, pat) <==> exists|j: int| #[trigger] occurs_at(s, pat, j),
        begins_with(s, pat) <==> pat.len() <= s.len() && forall|k: int|
            0 <= k < pat.len() ==> #[trigger] pat[k] == s[k],
        ends_with(s, pat) <==> pat.len() <= s.len() && forall|k: int|
            0 <= k < pat.len() ==> #[trigger] pat[k] == s[s.len() - pat.len() + k],
{
    lemma_occurs(s, pat, i);
    lemma_occurs(s, pat, 0);
    lemma_occurs(s, pat, s.len() - pat.len());
    if begins_with(s, pat) {
        assert forall|k: int| 0 <= k < pat.len() implies #[trigger] pat[k] == s[k] by {
            assert(pat[k] == s[0 + k]);
        }
    }
}

proof fn lemma_occurs(s: Seq<char>, pat: Seq<char>, i: int)
    ensures
        occurs_at(s, pat, i) <==> 0 <= i && i + pat.len() <= s.len() && forall|k: int|
            0 <= k < pat.len() ==> #[trigger] pat[k] == s[i + k],
{
    if 0 <= i && i + pat.len() <= s.len() {
        let part = s.subrange(i, i + pat.len());
        if part == pat {
            assert forall|k: int| 0 <= k < pat.len() implies #[trigger] pat[k] == s[i + k] by {
                assert(part[k] == s[i + k]);
            }
        }
        if forall|k: int| 0 <= k < pat.len() ==> #[trigger] pat[k] == s[i + k] {
            assert forall|k: int| 0 <= k < pat.len() implies part[k] == pat[k] by {
                assert(pat[k] == s[i + k]);
            }
            assert(part =~= pat);
        }
    }
}

/// A number in any radix goes on by one digit at a time: what was read so far times
/// the radix, and the digit.
pub proof fn digits_go_on_by_the_radix(s: Seq<char>, c: char, radix: nat, d: nat)
    requires
        2 <= radix <= 36,
        digit_value(c) == Some(d),
    ensures
        d >= radix ==> parse_u32(s.push(c), radix) is None,
        d < radix && s.len() == 0 ==> parse_u32(s.push(c), radix) == Some(d as u32),
        d < radix && parse_u32(s, radix) is Some ==> {
            let next = parse_u32(s, radix)->Some_0 * radix + d;
            &&& next <= u32::MAX ==> parse_u32(s.push(c), radix) == Some(next as u32)
            &&& next > u32::MAX ==> parse_u32(s.push(c), radix) is None
        },
        d < radix && s.len() > 0 && s[0] != '+' && parse_u32(s, radix) is None ==> parse_u32(
            s.push(c),
            radix,
        ) is None,
{
    let longer = s.push(c);
    assert(c != '+');
    if s.len() == 0 {
        assert(longer.drop_last() =~= s);
        assert(digits_value(s, radix) == 0);
        assert(0 * radix == 0) by (nonlinear_arith);
        assert(digits_value(longer, radix) == d);
        assert(longer[0] == c);
        if d < radix {
            assert forall|i: int| 0 <= i < longer.len() implies (digit_value(#[trigger] longer[i])
                matches Some(v) && v < radix) by {
                assert(longer[i] == c);
            }
            assert(all_digits(longer, radix));
        } else {
            assert(!all_digits(longer, radix)) by {
                assert(longer[0] == c);
            }
        }
    } else {
        assert(longer[0] == s[0]);
        let body = if s[0] == '+' {
            s.skip(1)
        } else {
            s
        };
        let next = body.push(c);
        assert(longer.skip(1) =~= s.skip(1).push(c));
        assert(next.drop_last() =~= body);
        assert(next.last() == c);
        assert(digits_value(next, radix) == digits_value(body, radix) * radix + d);
        if d >= radix {
            assert(next[body.len() as int] == c);
            assert(!all_digits(next, radix));
        } else {
            if all_digits(body, radix) {
                assert forall|i: int| 0 <= i < next.len() implies (digit_value(#[trigger] next[i])
                    matches Some(v) && v < radix) by {
                    if i < body.len() {
                        assert(next[i] == body[i]);
                    }
                }
                assert(all_digits(next, radix));
            } else {
                let i = choose|i: int|
                    0 <= i < body.len() && !(digit_value(#[trigger] body[i]) matches Some(v) && v
                        < radix);
                assert(next[i] == body[i]);
                assert(!all_digits(next, radix));
            }
            assert(digits_value(body, radix) * radix >= digits_value(body, radix))
                by (nonlinear_arith)
                requires
                    radix >= 1,
            ;
        }
    }
}

} // verus!
