//! Character-level text handling shared by the text-based decoders.
use vstd::prelude::*;
use vstd::std_specs::iter::IteratorSpec;
use vstd::utf8::{decode_utf8, valid_utf8};

verus! {

broadcast use vstd::string::group_string_axioms;

/// The characters of `s`, in order.
pub fn chars_of(s: &str) -> (r: Vec<char>)
    ensures
        r@ == s@,
{
    let mut it = s.chars();
    let mut v: Vec<char> = Vec::new();
    loop
        invariant
            it.obeys_prophetic_iter_laws(),
            v@ + it.remaining() == s@,
            it.decrease() is Some,
        decreases it.decrease()->0,
    {
        match it.next() {
            Some(c) => {
                v.push(c);
            },
            None => {
                assert(v@ == s@);
                return v;
            },
        }
    }
}


/// `std::str::from_utf8`: the text that `bytes` encode, if they are valid UTF-8, else the
/// decoder's error rendered with `Display` (whose text is not stated).
#[verifier::external_body]
pub(crate) fn str_from_utf8(bytes: &[u8]) -> (r: Result<&str, String>)
    ensures
        r is Ok <==> valid_utf8(bytes@),
        r matches Ok(s) ==> s@ == decode_utf8(bytes@),
{
    match std::str::from_utf8(bytes) {
        Ok(s) => Ok(s),
        Err(e) => Err(e.to_string()),
    }
}

/// What `str::to_uppercase` makes of the text `s`: the Unicode upper-case mapping, which may
/// turn one character into several.
pub uninterp spec fn upper_text(s: Seq<char>) -> Seq<char>;

/// Every character of `s` is ASCII.
pub open spec fn all_ascii(s: Seq<char>) -> bool {
    forall|i: int| 0 <= i < s.len() ==> (#[trigger] s[i] as u32) < 128
}

/// ASCII upper case of `c`; other characters are left as they are.
pub open spec fn ascii_upper(c: char) -> char {
    if 'a' <= c <= 'z' {
        ((c as u8) - 32) as char
    } else {
        c
    }
}

/// `str::to_uppercase`: the text upper-cased by Unicode rules, under which ASCII text has
/// its letters `a`-`z` raised and keeps every other character. Of other text only the
/// result's dependence on `s` alone is stated.
#[verifier::external_body]
pub(crate) fn to_upper(s: &str) -> (r: String)
    ensures
        r@ == upper_text(s@),
        all_ascii(s@) ==> r@ == s@.map_values(|c: char| ascii_upper(c)),
{
    s.to_uppercase()
}

/// What `str::to_lowercase` makes of the text `s`: the Unicode lower-case mapping, which may
/// turn one character into several.
pub uninterp spec fn lower_text(s: Seq<char>) -> Seq<char>;

/// `str::to_lowercase`: the text lower-cased by Unicode rules, under which ASCII text has
/// its letters `A`-`Z` lowered and keeps every other character. Of other text only the
/// result's dependence on `s` alone is stated.
#[verifier::external_body]
pub(crate) fn to_lower(s: &str) -> (r: String)
    ensures
        r@ == lower_text(s@),
        all_ascii(s@) ==> r@ == lower_all(s@),
{
    s.to_lowercase()
}

/// Whether `s` begins with `p`.
pub open spec fn starts(s: Seq<char>, p: Seq<char>) -> bool {
    p.len() <= s.len() && s.subrange(0, p.len() as int) == p
}

/// `String::push`: appends one character to the string.
#[verifier::external_body]
fn push_char(s: &mut String, c: char)
    ensures
        final(s)@ == old(s)@.push(c),
{
    s.push(c);
}

/// The character of decimal digit `d` (`d < 10`).
pub open spec fn digit_char(d: nat) -> char {
    if d == 0 {
        '0'
    } else if d == 1 {
        '1'
    } else if d == 2 {
        '2'
    } else if d == 3 {
        '3'
    } else if d == 4 {
        '4'
    } else if d == 5 {
        '5'
    } else if d == 6 {
        '6'
    } else if d == 7 {
        '7'
    } else if d == 8 {
        '8'
    } else {
        '9'
    }
}

/// The decimal notation of `n`, without leading zeros.
pub open spec fn decimal(n: nat) -> Seq<char>
    decreases n,
{
    if n < 10 {
        seq![digit_char(n)]
    } else {
        decimal(n / 10).push(digit_char(n % 10))
    }
}

/// The decimal notation of `n`, padded on the left with `'0'` to at least `width` characters.
pub open spec fn padded_decimal(n: nat, width: nat) -> Seq<char> {
    let d = decimal(n);
    if d.len() < width {
        Seq::new((width - d.len()) as nat, |i: int| '0') + d
    } else {
        d
    }
}

fn digit(d: usize) -> (c: char)
    requires
        d < 10,
    ensures
        c == digit_char(d as nat),
{
    if d == 0 {
        '0'
    } else if d == 1 {
        '1'
    } else if d == 2 {
        '2'
    } else if d == 3 {
        '3'
    } else if d == 4 {
        '4'
    } else if d == 5 {
        '5'
    } else if d == 6 {
        '6'
    } else if d == 7 {
        '7'
    } else if d == 8 {
        '8'
    } else {
        '9'
    }
}

/// Appends the decimal notation of `n` to `s`.
pub fn push_decimal(s: &mut String, n: usize)
    ensures
        final(s)@ == old(s)@ + decimal(n as nat),
    decreases n,
{
    if n < 10 {
        push_char(s, digit(n));
        assert(old(s)@.push(digit_char(n as nat)) =~= old(s)@ + decimal(n as nat));
    } else {
        push_decimal(s, n / 10);
        push_char(s, digit(n % 10));
        assert(old(s)@ + decimal((n / 10) as nat) + seq![digit_char((n % 10) as nat)] =~= old(s)@
            + decimal(n as nat));
    }
}

/// The decimal notation of `n`, as `n.to_string()` gives it.
pub fn decimal_string(n: usize) -> (r: String)
    ensures
        r@ == decimal(n as nat),
{
    let mut s = String::new();
    push_decimal(&mut s, n);
    assert(Seq::<char>::empty() + decimal(n as nat) =~= decimal(n as nat));
    s
}

/// Appends the characters of `t` to `s`.
pub fn push_str(s: &mut String, t: &str)
    ensures
        final(s)@ == old(s)@ + t@,
{
    let cs = chars_of(t);
    let mut i: usize = 0;
    while i < cs.len()
        invariant
            i <= cs@.len(),
            cs@ == t@,
            s@ == old(s)@ + t@.subrange(0, i as int),
        decreases cs@.len() - i,
    {
        push_char(s, cs[i]);
        assert(t@.subrange(0, i + 1) =~= t@.subrange(0, i as int).push(cs@[i as int]));
        i = i + 1;
    }
    assert(t@.subrange(0, t@.len() as int) =~= t@);
}

/// Whether the characters `s` begin with `p`.
pub fn starts_with(s: &[char], p: &str) -> (r: bool)
    ensures
        r == starts(s@, p@),
{
    let n = chars_of(p).len();
    if n > s.len() {
        return false;
    }
    range_is(s, 0, n, p)
}

/// `s` without its leading white space (`str::trim_start`).
pub open spec fn trim_start(s: Seq<char>) -> Seq<char>
    decreases s.len(),
{
    if s.len() > 0 && is_space(s[0]) {
        trim_start(s.drop_first())
    } else {
        s
    }
}

/// `s` without its trailing white space (`str::trim_end`).
pub open spec fn trim_end(s: Seq<char>) -> Seq<char>
    decreases s.len(),
{
    if s.len() > 0 && is_space(s.last()) {
        trim_end(s.drop_last())
    } else {
        s
    }
}

/// `s` without leading and trailing white space (`str::trim`).
pub open spec fn trim(s: Seq<char>) -> Seq<char> {
    trim_end(trim_start(s))
}

proof fn lemma_trim_start(s: Seq<char>, a: int)
    requires
        0 <= a <= s.len(),
        forall|k: int| 0 <= k < a ==> is_space(#[trigger] s[k]),
        a < s.len() ==> !is_space(s[a]),
    ensures
        trim_start(s) == s.subrange(a, s.len() as int),
    decreases a,
{
    if a > 0 {
        assert forall|k: int| 0 <= k < a - 1 implies is_space(#[trigger] s.drop_first()[k]) by {
            assert(s.drop_first()[k] == s[k + 1]);
        }
        lemma_trim_start(s.drop_first(), a - 1);
        assert(s.drop_first().subrange(a - 1, s.len() - 1) =~= s.subrange(a, s.len() as int));
    } else {
        assert(s.subrange(0, s.len() as int) =~= s);
    }
}

proof fn lemma_trim_end(s: Seq<char>, b: int)
    requires
        0 <= b <= s.len(),
        forall|k: int| b <= k < s.len() ==> is_space(#[trigger] s[k]),
        b > 0 ==> !is_space(s[b - 1]),
    ensures
        trim_end(s) == s.subrange(0, b),
    decreases s.len() - b,
{
    if b < s.len() {
        assert forall|k: int| b <= k < s.len() - 1 implies is_space(#[trigger] s.drop_last()[k]) by {
            assert(s.drop_last()[k] == s[k]);
        }
        lemma_trim_end(s.drop_last(), b);
        assert(s.drop_last().subrange(0, b) =~= s.subrange(0, b));
    } else {
        assert(s.subrange(0, s.len() as int) =~= s);
    }
}

/// The bounds `a..b` of `s` without its leading and trailing white space.
pub fn trim_bounds(s: &[char]) -> (r: (usize, usize))
    ensures
        r.0 <= r.1 <= s@.len(),
        s@.subrange(r.0 as int, r.1 as int) == trim(s@),
        trim_start(s@) == s@.subrange(r.0 as int, s@.len() as int),
{
    let mut a: usize = 0;
    while a < s.len() && is_space_char(s[a])
        invariant
            a <= s@.len(),
            forall|k: int| 0 <= k < a ==> is_space(#[trigger] s@[k]),
        decreases s@.len() - a,
    {
        a = a + 1;
    }
    proof {
        lemma_trim_start(s@, a as int);
    }
    let mut b: usize = s.len();
    while b > a && is_space_char(s[b - 1])
        invariant
            a <= b <= s@.len(),
            forall|k: int| b <= k < s@.len() ==> is_space(#[trigger] s@[k]),
        decreases b - a,
    {
        b = b - 1;
    }
    proof {
        let t = s@.subrange(a as int, s@.len() as int);
        assert forall|k: int| b - a <= k < t.len() implies is_space(#[trigger] t[k]) by {
            assert(t[k] == s@[a + k]);
        }
        if b > a {
            assert(t[b - a - 1] == s@[b - 1]);
        }
        lemma_trim_end(t, b - a);
        assert(t.subrange(0, b - a) =~= s@.subrange(a as int, b as int));
    }
    (a, b)
}

/// The characters of `s` without leading and trailing white space.
pub fn trimmed(s: &[char]) -> (r: Vec<char>)
    ensures
        r@ == trim(s@),
{
    let (a, b) = trim_bounds(s);
    let mut r: Vec<char> = Vec::new();
    let mut i = a;
    while i < b
        invariant
            a <= i <= b <= s@.len(),
            r@ == s@.subrange(a as int, i as int),
        decreases b - i,
    {
        r.push(s[i]);
        assert(s@.subrange(a as int, i + 1) =~= s@.subrange(a as int, i as int).push(s@[i as int]));
        i = i + 1;
    }
    r
}

/// The piece of `s` from `i` up to its next line feed (or its end).
pub open spec fn line_end(s: Seq<char>, i: int) -> int
    decreases s.len() - i,
{
    if i < 0 || i >= s.len() || s[i] == '\n' {
        i
    } else {
        line_end(s, i + 1)
    }
}

/// A line without the carriage return of a `\r\n` ending.
pub open spec fn strip_cr(l: Seq<char>) -> Seq<char> {
    if l.len() > 0 && l.last() == '\r' {
        l.drop_last()
    } else {
        l
    }
}

/// The lines of `s[i..]` as `str::lines` gives them: split at line feeds, a carriage return
/// just before a line feed dropped, no empty line after a final line feed.
pub open spec fn lines_from(s: Seq<char>, i: int) -> Seq<Seq<char>>
    decreases s.len() - i,
{
    if i < 0 || i >= s.len() {
        Seq::empty()
    } else {
        let j = line_end(s, i);
        if j >= s.len() {
            seq![s.subrange(i, j)]
        } else if i <= j {
            seq![strip_cr(s.subrange(i, j))] + lines_from(s, j + 1)
        } else {
            Seq::empty()
        }
    }
}

proof fn lemma_line_end(s: Seq<char>, i: int)
    requires
        0 <= i <= s.len(),
    ensures
        i <= line_end(s, i) <= s.len(),
        forall|k: int| i <= k < line_end(s, i) ==> #[trigger] s[k] != '\n',
        line_end(s, i) < s.len() ==> s[line_end(s, i)] == '\n',
    decreases s.len() - i,
{
    if i < s.len() && s[i] != '\n' {
        lemma_line_end(s, i + 1);
    }
}

/// The lines of `s`, as `str::lines` gives them.
pub fn split_lines(s: &[char]) -> (r: Vec<Vec<char>>)
    ensures
        r@.len() == lines_from(s@, 0).len(),
        forall|k: int| 0 <= k < r@.len() ==> (#[trigger] r@[k])@ == lines_from(s@, 0)[k],
{
    let mut r: Vec<Vec<char>> = Vec::new();
    let mut i: usize = 0;
    let ghost mut done: Seq<Seq<char>> = Seq::empty();
    while i < s.len()
        invariant
            i <= s@.len(),
            lines_from(s@, 0) == done + lines_from(s@, i as int),
            r@.len() == done.len(),
            forall|k: int| 0 <= k < r@.len() ==> (#[trigger] r@[k])@ == done[k],
        decreases s@.len() - i,
    {
        let start = i;
        proof {
            lemma_line_end(s@, i as int);
        }
        let mut line: Vec<char> = Vec::new();
        while i < s.len() && s[i] != '\n'
            invariant
                start <= i <= s@.len(),
                line_end(s@, start as int) == line_end(s@, i as int),
                line@ == s@.subrange(start as int, i as int),
            decreases s@.len() - i,
        {
            line.push(s[i]);
            assert(s@.subrange(start as int, i + 1) =~= s@.subrange(start as int, i as int).push(s@[i as int]));
            i = i + 1;
        }
        let ghost piece = line@;
        if i < s.len() {
            let n = line.len();
            if n > 0 && line[n - 1] == '\r' {
                line.pop();
            }
            proof {
                assert(line@ =~= strip_cr(piece));
                assert(lines_from(s@, start as int) == seq![strip_cr(piece)] + lines_from(s@, i + 1));
                assert(done + lines_from(s@, start as int) =~= done.push(line@) + lines_from(s@, i + 1));
                done = done.push(line@);
            }
            r.push(line);
            i = i + 1;
        } else {
            proof {
                assert(lines_from(s@, start as int) == seq![piece]);
                assert(lines_from(s@, i as int) =~= Seq::<Seq<char>>::empty());
                assert(done + lines_from(s@, start as int) =~= done.push(piece) + lines_from(s@, i as int));
                done = done.push(piece);
            }
            r.push(line);
        }
    }
    assert(done + lines_from(s@, i as int) =~= done);
    r
}

/// Whether `p` occurs in `s` (`str::contains`).
pub open spec fn has_sub(s: Seq<char>, p: Seq<char>) -> bool {
    exists|k: int| 0 <= k && k + p.len() <= s.len() && #[trigger] s.subrange(k, k + p.len()) == p
}

/// Whether `p` occurs in the characters `s`.
pub fn contains_text(s: &[char], p: &str) -> (r: bool)
    ensures
        r == has_sub(s@, p@),
{
    let m = chars_of(p).len();
    if m > s.len() {
        return false;
    }
    if m == 0 {
        assert(s@.subrange(0, 0 + p@.len() as int) =~= p@);
        return true;
    }
    let len = s.len();
    let mut k: usize = 0;
    while k <= len - m
        invariant
            m == p@.len(),
            1 <= m <= s@.len(),
            len == s@.len(),
            k <= s@.len() - m + 1,
            forall|j: int| 0 <= j < k ==> #[trigger] s@.subrange(j, j + m) != p@,
        decreases s@.len() - m + 1 - k,
    {
        if range_is(s, k, k + m, p) {
            return true;
        }
        k = k + 1;
    }
    false
}

/// The number of bytes UTF-8 takes for `c`.
pub open spec fn utf8_width(c: char) -> nat {
    let u = c as u32;
    if u < 0x80 {
        1
    } else if u < 0x800 {
        2
    } else if u < 0x10000 {
        3
    } else {
        4
    }
}

/// The character position at which the first `bytes` bytes of the UTF-8 form of `s[i..]`
/// end, if that is a character boundary.
pub open spec fn char_cut(s: Seq<char>, i: int, bytes: nat) -> Option<int>
    decreases bytes,
{
    if bytes == 0 {
        Some(i)
    } else if i < 0 || i >= s.len() || utf8_width(s[i]) > bytes {
        None
    } else {
        char_cut(s, i + 1, (bytes - utf8_width(s[i])) as nat)
    }
}

fn width_of(c: char) -> (w: usize)
    ensures
        w == utf8_width(c),
{
    let u = c as u32;
    if u < 0x80 {
        1
    } else if u < 0x800 {
        2
    } else if u < 0x10000 {
        3
    } else {
        4
    }
}

/// The number of bytes of the UTF-8 form of `s`.
pub open spec fn utf8_len(s: Seq<char>) -> nat
    decreases s.len(),
{
    if s.len() == 0 {
        0
    } else {
        utf8_len(s.drop_last()) + utf8_width(s.last())
    }
}

/// The number of bytes of the UTF-8 form of `s[..k]`.
pub fn utf8_len_of(s: &[char], k: usize) -> (r: u128)
    requires
        k <= s@.len(),
    ensures
        r == utf8_len(s@.subrange(0, k as int)),
        r <= 4 * k,
{
    let mut i: usize = 0;
    let mut total: u128 = 0;
    while i < k
        invariant
            i <= k <= s@.len(),
            total == utf8_len(s@.subrange(0, i as int)),
            total <= 4 * i,
        decreases k - i,
    {
        let w = width_of(s[i]);
        assert(s@.subrange(0, i + 1).drop_last() =~= s@.subrange(0, i as int));
        total = total + w as u128;
        i = i + 1;
    }
    total
}

/// The character position where the first `bytes` bytes of the UTF-8 form of `s` end, or
/// `None` when that falls inside a character or past the end.
pub fn cut_at_byte(s: &[char], bytes: u128) -> (r: Option<usize>)
    ensures
        match char_cut(s@, 0, bytes as nat) {
            Some(m) => r == Some(m as usize) && 0 <= m <= s@.len(),
            None => r is None,
        },
{
    let mut i: usize = 0;
    let mut rem: u128 = bytes;
    while rem > 0
        invariant
            i <= s@.len(),
            char_cut(s@, 0, bytes as nat) == char_cut(s@, i as int, rem as nat),
        decreases rem,
    {
        if i >= s.len() {
            return None;
        }
        let w = width_of(s[i]) as u128;
        if w > rem {
            return None;
        }
        rem = rem - w;
        i = i + 1;
    }
    Some(i)
}

/// Whether `s[at..at + p.len()]` spells `p`.
pub fn slice_matches(s: &[char], at: usize, p: &[char]) -> (r: bool)
    requires
        at + p@.len() <= s@.len(),
    ensures
        r == (s@.subrange(at as int, at + p@.len()) == p@),
{
    let sl = s.len();
    let mut q: usize = 0;
    while q < p.len()
        invariant
            q <= p@.len(),
            sl == s@.len(),
            at + p@.len() <= s@.len(),
            forall|j: int| 0 <= j < q ==> s@[at + j] == p@[j],
        decreases p@.len() - q,
    {
        if s[at + q] != p[q] {
            assert(s@.subrange(at as int, at + p@.len())[q as int] != p@[q as int]);
            return false;
        }
        q = q + 1;
    }
    assert(s@.subrange(at as int, at + p@.len()) =~= p@);
    true
}

/// A `String` holding exactly the characters `s[a..b]`.
pub fn string_of(s: &[char], a: usize, b: usize) -> (r: String)
    requires
        a <= b <= s@.len(),
    ensures
        r@ == s@.subrange(a as int, b as int),
{
    let mut r = String::new();
    let mut i: usize = a;
    while i < b
        invariant
            a <= i <= b <= s@.len(),
            r@ == s@.subrange(a as int, i as int),
        decreases b - i,
    {
        push_char(&mut r, s[i]);
        i = i + 1;
        assert(r@ == s@.subrange(a as int, i as int));
    }
    r
}

/// Unicode `White_Space`: the characters `char::is_whitespace` accepts.
pub open spec fn is_space(c: char) -> bool {
    let u = c as u32;
    ||| 0x09 <= u <= 0x0D
    ||| u == 0x20
    ||| u == 0x85
    ||| u == 0xA0
    ||| u == 0x1680
    ||| 0x2000 <= u <= 0x200A
    ||| u == 0x2028
    ||| u == 0x2029
    ||| u == 0x202F
    ||| u == 0x205F
    ||| u == 0x3000
}

/// Whether `c` is Unicode white space.
pub fn is_space_char(c: char) -> (b: bool)
    ensures
        b == is_space(c),
{
    let u = c as u32;
    (0x09 <= u && u <= 0x0D) || u == 0x20 || u == 0x85 || u == 0xA0 || u == 0x1680 || (0x2000
        <= u && u <= 0x200A) || u == 0x2028 || u == 0x2029 || u == 0x202F || u == 0x205F || u
        == 0x3000
}

/// Index one past the end of the run of non-space characters starting at `i`.
pub open spec fn word_end(s: Seq<char>, i: int) -> int
    decreases s.len() - i,
{
    if i < 0 || i >= s.len() || is_space(s[i]) {
        i
    } else {
        word_end(s, i + 1)
    }
}

/// The white-space separated words of `s[i..]`, in order (`str::split_whitespace`).
pub open spec fn words_from(s: Seq<char>, i: int) -> Seq<Seq<char>>
    decreases s.len() - i,
{
    if i < 0 || i >= s.len() {
        Seq::empty()
    } else if is_space(s[i]) {
        words_from(s, i + 1)
    } else {
        let j = word_end(s, i);
        if i < j <= s.len() {
            seq![s.subrange(i, j)].add(words_from(s, j))
        } else {
            Seq::empty()
        }
    }
}

/// The white-space separated words of `s`.
pub open spec fn words(s: Seq<char>) -> Seq<Seq<char>> {
    words_from(s, 0)
}

pub proof fn lemma_word_end(s: Seq<char>, i: int)
    requires
        0 <= i <= s.len(),
    ensures
        i <= word_end(s, i) <= s.len(),
        forall|k: int| i <= k < word_end(s, i) ==> !is_space(#[trigger] s[k]),
        word_end(s, i) < s.len() ==> is_space(s[word_end(s, i)]),
    decreases s.len() - i,
{
    if i < s.len() && !is_space(s[i]) {
        lemma_word_end(s, i + 1);
    }
}

/// The start and end of each word of `s`, with the words themselves.
pub open spec fn ranges_match(s: Seq<char>, r: Seq<(usize, usize)>, w: Seq<Seq<char>>) -> bool {
    &&& r.len() == w.len()
    &&& forall|k: int|
        0 <= k < r.len() ==> {
            &&& (#[trigger] r[k]).0 < r[k].1 <= s.len()
            &&& s.subrange(r[k].0 as int, r[k].1 as int) == w[k]
        }
}

/// The positions of the white-space separated words of `s`.
pub fn word_ranges(s: &[char]) -> (r: Vec<(usize, usize)>)
    ensures
        ranges_match(s@, r@, words(s@)),
{
    let mut r: Vec<(usize, usize)> = Vec::new();
    let mut i: usize = 0;
    let ghost mut done: Seq<Seq<char>> = Seq::empty();
    while i < s.len()
        invariant
            i <= s.len(),
            words(s@) == done + words_from(s@, i as int),
            ranges_match(s@, r@, done),
        decreases s.len() - i,
    {
        if is_space_char(s[i]) {
            i = i + 1;
        } else {
            let start = i;
            proof {
                lemma_word_end(s@, i as int);
            }
            while i < s.len() && !is_space_char(s[i])
                invariant
                    start <= i <= s.len(),
                    word_end(s@, start as int) == word_end(s@, i as int),
                    start < s.len(),
                    !is_space(s@[start as int]),
                decreases s.len() - i,
            {
                i = i + 1;
            }
            proof {
                assert(i == word_end(s@, start as int));
                let w = s@.subrange(start as int, i as int);
                assert(words_from(s@, start as int) == seq![w].add(words_from(s@, i as int)));
                assert(done + words_from(s@, start as int) == done.push(w) + words_from(
                    s@,
                    i as int,
                ));
                done = done.push(w);
            }
            r.push((start, i));
        }
    }
    r
}


/// Whether `s[a..b]` spells exactly `kw`.
pub fn range_is(s: &[char], a: usize, b: usize, kw: &str) -> (r: bool)
    requires
        a <= b <= s@.len(),
    ensures
        r == (s@.subrange(a as int, b as int) == kw@),
{
    let k = chars_of(kw);
    if b - a != k.len() {
        return false;
    }
    let mut i: usize = 0;
    while i < k.len()
        invariant
            i <= k.len(),
            b - a == k.len(),
            a <= b <= s@.len(),
            k@ == kw@,
            forall|j: int| 0 <= j < i ==> s@[a + j] == k@[j],
        decreases k.len() - i,
    {
        if s[a + i] != k[i] {
            assert(s@.subrange(a as int, b as int)[i as int] != kw@[i as int]);
            return false;
        }
        i = i + 1;
    }
    assert(s@.subrange(a as int, b as int) =~= kw@);
    true
}

/// An ASCII decimal digit.
pub open spec fn is_digit(c: char) -> bool {
    '0' <= c <= '9'
}

/// Every character of `s` is an ASCII digit.
pub open spec fn all_digits(s: Seq<char>) -> bool {
    forall|i: int| 0 <= i < s.len() ==> is_digit(#[trigger] s[i])
}

/// The value of a string of decimal digits.
pub open spec fn digits_value(s: Seq<char>) -> nat
    decreases s.len(),
{
    if s.len() == 0 {
        0
    } else {
        digits_value(s.drop_last()) * 10 + (s.last() as nat - '0' as nat) as nat
    }
}

/// The unsigned integer spelled by `t`, as `str::parse` reads it: an optional `+` sign
/// and at least one digit, nothing else (the bound on the type is applied by the caller).
pub open spec fn unsigned_value(t: Seq<char>) -> Option<nat> {
    let d = if t.len() > 0 && t[0] == '+' {
        t.drop_first()
    } else {
        t
    };
    if d.len() > 0 && all_digits(d) {
        Some(digits_value(d))
    } else {
        None
    }
}

/// The `usize` that `usize::from_str` gives for `t`, if any.
pub open spec fn usize_value(t: Seq<char>) -> Option<usize> {
    match unsigned_value(t) {
        Some(v) => if v <= usize::MAX {
            Some(v as usize)
        } else {
            None
        },
        None => None,
    }
}

/// The `u32` that `u32::from_str` gives for `t`, if any.
pub open spec fn u32_value(t: Seq<char>) -> Option<u32> {
    match unsigned_value(t) {
        Some(v) => if v <= u32::MAX {
            Some(v as u32)
        } else {
            None
        },
        None => None,
    }
}

proof fn lemma_digits_prefix(d: Seq<char>, i: int)
    requires
        0 <= i < d.len(),
    ensures
        digits_value(d.subrange(0, i + 1)) == digits_value(d.subrange(0, i)) * 10 + (d[i] as nat
            - '0' as nat) as nat,
{
    assert(d.subrange(0, i + 1).drop_last() =~= d.subrange(0, i));
}

proof fn lemma_digits_monotone(d: Seq<char>, i: int, j: int)
    requires
        0 <= i <= j <= d.len(),
        all_digits(d),
    ensures
        digits_value(d.subrange(0, i)) <= digits_value(d.subrange(0, j)),
    decreases j - i,
{
    if i < j {
        lemma_digits_monotone(d, i, j - 1);
        lemma_digits_prefix(d, j - 1);
    }
}

/// Reads `s[a..b]` as an unsigned decimal no greater than `max`.
fn parse_bounded(s: &[char], a: usize, b: usize, max: u64) -> (r: Option<u64>)
    requires
        a <= b <= s@.len(),
    ensures
        r == (match unsigned_value(s@.subrange(a as int, b as int)) {
            Some(v) => if v <= max {
                Some(v as u64)
            } else {
                None
            },
            None => None,
        }),
{
    let ghost t = s@.subrange(a as int, b as int);
    let mut i = a;
    if i < b && s[i] == '+' {
        i = i + 1;
    }
    let ghost d = if t.len() > 0 && t[0] == '+' {
        t.drop_first()
    } else {
        t
    };
    assert(unsigned_value(t) == (if d.len() > 0 && all_digits(d) {
        Some(digits_value(d))
    } else {
        None::<nat>
    }));
    assert(d =~= s@.subrange(i as int, b as int));
    if i == b {
        return None;
    }
    let start = i;
    let mut v: u64 = 0;
    while i < b
        invariant
            start <= i <= b <= s@.len(),
            d == s@.subrange(start as int, b as int),
            t == s@.subrange(a as int, b as int),
            d.len() > 0,
            unsigned_value(t) == (if all_digits(d) {
                Some(digits_value(d))
            } else {
                None::<nat>
            }),
            all_digits(d.subrange(0, i - start)),
            v == digits_value(d.subrange(0, i - start)),
            v <= max,
        decreases b - i,
    {
        let c = s[i];
        if !('0' <= c && c <= '9') {
            assert(d[i - start] == c);
            assert(!all_digits(d));
            assert(unsigned_value(t).is_none());
            return None;
        }
        let dig = (c as u32 - '0' as u32) as u64;
        proof {
            lemma_digits_prefix(d, i - start);
            assert(d.subrange(0, i - start + 1) =~= d.subrange(0, i - start).push(c));
        }
        if dig > max || v > (max - dig) / 10 {
            proof {
                assert(v * 10 + dig > max) by (nonlinear_arith)
                    requires
                        dig > max || v > (max - dig) / 10,
                ;
                if all_digits(d) {
                    lemma_digits_monotone(d, i - start + 1, d.len() as int);
                    assert(d.subrange(0, d.len() as int) =~= d);
                } else {
                    assert(unsigned_value(t).is_none());
                }
            }
            return None;
        }
        assert(v * 10 + dig <= max) by (nonlinear_arith)
            requires
                dig <= max,
                v <= (max - dig) / 10,
        ;
        v = v * 10 + dig;
        i = i + 1;
    }
    assert(d.subrange(0, d.len() as int) =~= d);
    Some(v)
}


/// The `usize` spelled by `s[a..b]`, as `usize::from_str` reads it.
pub fn parse_usize(s: &[char], a: usize, b: usize) -> (r: Option<usize>)
    requires
        a <= b <= s@.len(),
    ensures
        r == usize_value(s@.subrange(a as int, b as int)),
{
    match parse_bounded(s, a, b, usize::MAX as u64) {
        Some(v) => Some(v as usize),
        None => None,
    }
}

/// The `u32` spelled by `s[a..b]`, as `u32::from_str` reads it.
pub fn parse_u32(s: &[char], a: usize, b: usize) -> (r: Option<u32>)
    requires
        a <= b <= s@.len(),
    ensures
        r == u32_value(s@.subrange(a as int, b as int)),
{
    match parse_bounded(s, a, b, u32::MAX as u64) {
        Some(v) => Some(v as u32),
        None => None,
    }
}

/// A `+` or `-` sign.
pub open spec fn is_sign(c: char) -> bool {
    c == '+' || c == '-'
}

/// ASCII lower case of `c`; other characters are left as they are.
pub open spec fn ascii_lower(c: char) -> char {
    if 'A' <= c <= 'Z' {
        ((c as u8) + 32) as char
    } else {
        c
    }
}

/// `s` with its ASCII capitals lowered.
pub open spec fn lower_all(s: Seq<char>) -> Seq<char> {
    s.map_values(|c: char| ascii_lower(c))
}

/// The digits-and-point part of a decimal literal: `d+`, `d+.d*` or `d*.d+`.
pub open spec fn is_mantissa(m: Seq<char>) -> bool {
    ||| (m.len() > 0 && all_digits(m))
    ||| exists|k: int|
        0 <= k < m.len() && m[k] == '.' && m.len() >= 2 && all_digits(m.subrange(0, k))
            && all_digits(m.subrange(k + 1, m.len() as int))
}

/// The exponent digits after `e`: an optional sign and at least one digit.
pub open spec fn is_exponent(x: Seq<char>) -> bool {
    let d = if x.len() > 0 && is_sign(x[0]) {
        x.drop_first()
    } else {
        x
    };
    d.len() > 0 && all_digits(d)
}

/// `e` or `E`.
pub open spec fn is_exp_mark(c: char) -> bool {
    c == 'e' || c == 'E'
}

/// An unsigned decimal literal with an optional exponent.
pub open spec fn is_number(b: Seq<char>) -> bool {
    ||| is_mantissa(b)
    ||| exists|k: int|
        0 <= k < b.len() && is_exp_mark(b[k]) && is_mantissa(b.subrange(0, k)) && is_exponent(
            b.subrange(k + 1, b.len() as int),
        )
}

/// `inf`, `infinity` or `nan`, in any ASCII case.
pub open spec fn is_special(b: Seq<char>) -> bool {
    let l = lower_all(b);
    l == "inf"@ || l == "infinity"@ || l == "nan"@
}

/// The texts that `f32::from_str` accepts: an optional sign, then a decimal literal with an
/// optional exponent, or `inf`, `infinity`, `nan` in any case.
pub open spec fn is_float_text(t: Seq<char>) -> bool {
    let b = if t.len() > 0 && is_sign(t[0]) {
        t.drop_first()
    } else {
        t
    };
    is_special(b) || is_number(b)
}

fn is_mantissa_range(s: &[char], a: usize, b: usize) -> (r: bool)
    requires
        a <= b <= s@.len(),
    ensures
        r == is_mantissa(s@.subrange(a as int, b as int)),
{
    let ghost m = s@.subrange(a as int, b as int);
    let mut dot: Option<usize> = None;
    let mut i = a;
    while i < b
        invariant
            a <= i <= b <= s@.len(),
            m == s@.subrange(a as int, b as int),
            match dot {
                None => all_digits(m.subrange(0, i - a)),
                Some(k) => a <= k < i && m[k - a] == '.' && all_digits(m.subrange(0, k - a))
                    && all_digits(m.subrange(k - a + 1, i - a)),
            },
        decreases b - i,
    {
        let c = s[i];
        if c == '.' {
            if let Some(k) = dot {
                proof {
                    assert(!all_digits(m)) by {
                        assert(!is_digit(m[k - a]));
                    }
                    assert forall|j: int|
                        0 <= j < m.len() && m[j] == '.' && m.len() >= 2 implies !(all_digits(
                        m.subrange(0, j),
                    ) && all_digits(m.subrange(j + 1, m.len() as int))) by {
                        if j < i - a {
                            assert(m.subrange(j + 1, m.len() as int)[i - a - j - 1] == '.');
                        } else {
                            assert(m.subrange(0, j)[k - a] == '.');
                        }
                    }
                }
                return false;
            }
            dot = Some(i);
            assert(m.subrange(i - a + 1, i - a + 1) =~= Seq::<char>::empty());
        } else if !('0' <= c && c <= '9') {
            proof {
                assert(!all_digits(m)) by {
                    assert(!is_digit(m[i - a]));
                }
                assert forall|j: int|
                    0 <= j < m.len() && m[j] == '.' && m.len() >= 2 implies !(all_digits(
                    m.subrange(0, j),
                ) && all_digits(m.subrange(j + 1, m.len() as int))) by {
                    if j < i - a {
                        assert(m.subrange(j + 1, m.len() as int)[i - a - j - 1] == c);
                    } else {
                        assert(m.subrange(0, j)[i - a] == c);
                    }
                }
            }
            return false;
        } else {
            proof {
                match dot {
                    None => {
                        assert(m.subrange(0, i - a + 1) =~= m.subrange(0, i - a).push(c));
                    },
                    Some(k) => {
                        assert(m.subrange(k - a + 1, i - a + 1) =~= m.subrange(k - a + 1, i - a).push(
                            c,
                        ));
                    },
                }
            }
        }
        i = i + 1;
    }
    assert(m.subrange(0, m.len() as int) =~= m);
    match dot {
        None => {
            if b > a {
                true
            } else {
                false
            }
        },
        Some(k) => {
            if b - a >= 2 {
                true
            } else {
                proof {
                    assert forall|j: int|
                        0 <= j < m.len() && m[j] == '.' implies !(m.len() >= 2) by {}
                    assert(!all_digits(m)) by {
                        assert(!is_digit(m[k - a]));
                    }
                }
                false
            }
        },
    }
}


fn all_digits_range(s: &[char], a: usize, b: usize) -> (r: bool)
    requires
        a <= b <= s@.len(),
    ensures
        r == all_digits(s@.subrange(a as int, b as int)),
{
    let mut i = a;
    while i < b
        invariant
            a <= i <= b <= s@.len(),
            all_digits(s@.subrange(a as int, i as int)),
        decreases b - i,
    {
        if !('0' <= s[i] && s[i] <= '9') {
            assert(!is_digit(s@.subrange(a as int, b as int)[i - a]));
            return false;
        }
        assert(s@.subrange(a as int, i + 1) =~= s@.subrange(a as int, i as int).push(s@[i as int]));
        i = i + 1;
    }
    true
}

fn is_exponent_range(s: &[char], a: usize, b: usize) -> (r: bool)
    requires
        a <= b <= s@.len(),
    ensures
        r == is_exponent(s@.subrange(a as int, b as int)),
{
    let ghost x = s@.subrange(a as int, b as int);
    let mut i = a;
    if i < b && (s[i] == '+' || s[i] == '-') {
        i = i + 1;
        assert(x.drop_first() =~= s@.subrange(i as int, b as int));
    } else {
        assert(x =~= s@.subrange(i as int, b as int));
    }
    i < b && all_digits_range(s, i, b)
}

/// Whether the lower-cased `s[a..b]` spells `kw`.
pub fn lower_range_is(s: &[char], a: usize, b: usize, kw: &str) -> (r: bool)
    requires
        a <= b <= s@.len(),
    ensures
        r == (lower_all(s@.subrange(a as int, b as int)) == kw@),
{
    let ghost l = lower_all(s@.subrange(a as int, b as int));
    let k = chars_of(kw);
    if b - a != k.len() {
        return false;
    }
    let mut i: usize = 0;
    while i < k.len()
        invariant
            i <= k.len(),
            b - a == k.len(),
            a <= b <= s@.len(),
            k@ == kw@,
            l == lower_all(s@.subrange(a as int, b as int)),
            forall|j: int| 0 <= j < i ==> l[j] == k@[j],
        decreases k.len() - i,
    {
        let c = s[a + i];
        let lc = if 'A' <= c && c <= 'Z' {
            ((c as u8) + 32) as char
        } else {
            c
        };
        assert(l[i as int] == ascii_lower(c));
        if lc != k[i] {
            return false;
        }
        i = i + 1;
    }
    assert(l =~= kw@);
    true
}

/// Whether `s[a..b]` is a text that `f32::from_str` accepts.
pub fn is_float_range(s: &[char], a: usize, b: usize) -> (r: bool)
    requires
        a <= b <= s@.len(),
    ensures
        r == is_float_text(s@.subrange(a as int, b as int)),
{
    let ghost t = s@.subrange(a as int, b as int);
    let mut i = a;
    if i < b && (s[i] == '+' || s[i] == '-') {
        i = i + 1;
    }
    let ghost body = if t.len() > 0 && is_sign(t[0]) {
        t.drop_first()
    } else {
        t
    };
    assert(body =~= s@.subrange(i as int, b as int));
    if lower_range_is(s, i, b, "inf") || lower_range_is(s, i, b, "infinity") || lower_range_is(
        s,
        i,
        b,
        "nan",
    ) {
        return true;
    }
    // The exponent mark, if any, is the first `e`/`E`: the mantissa holds none.

    let mut e = i;
    while e < b && !(s[e] == 'e' || s[e] == 'E')
        invariant
            i <= e <= b <= s@.len(),
            forall|j: int| i <= j < e ==> !is_exp_mark(#[trigger] s@[j]),
        decreases b - e,
    {
        e = e + 1;
    }
    if e == b {
        let r = is_mantissa_range(s, i, b);
        proof {
            assert forall|k: int| 0 <= k < body.len() implies !is_exp_mark(#[trigger] body[k]) by {
                assert(body[k] == s@[i + k]);
            }
        }
        return r;
    }
    let r = is_mantissa_range(s, i, e) && is_exponent_range(s, e + 1, b);
    proof {
        let k0 = e - i;
        assert(body.subrange(0, k0) =~= s@.subrange(i as int, e as int));
        assert(body.subrange(k0 + 1, body.len() as int) =~= s@.subrange(e + 1, b as int));
        assert(is_exp_mark(body[k0]));
        // A mantissa never holds an exponent mark.
        assert(!is_mantissa(body)) by {
            assert(!is_digit(body[k0]) && body[k0] != '.');
            if body.len() > 0 && all_digits(body) {
                assert(is_digit(body[k0]));
            }
            assert forall|j: int|
                0 <= j < body.len() && body[j] == '.' && body.len() >= 2 implies !(all_digits(
                body.subrange(0, j),
            ) && all_digits(body.subrange(j + 1, body.len() as int))) by {
                if k0 < j {
                    assert(body.subrange(0, j)[k0] == body[k0]);
                } else if k0 > j {
                    assert(body.subrange(j + 1, body.len() as int)[k0 - j - 1] == body[k0]);
                }
            }
        }
        assert forall|k: int|
            0 <= k < body.len() && is_exp_mark(body[k]) && k != k0 implies !is_mantissa(
            body.subrange(0, k),
        ) by {
            if k < k0 {
                assert(body[k] == s@[i + k]);
            } else {
                let m = body.subrange(0, k);
                assert(m[k0] == body[k0]);
                assert(!is_digit(m[k0]) && m[k0] != '.');
                if m.len() > 0 && all_digits(m) {
                    assert(is_digit(m[k0]));
                }
                assert forall|j: int|
                    0 <= j < m.len() && m[j] == '.' && m.len() >= 2 implies !(all_digits(
                    m.subrange(0, j),
                ) && all_digits(m.subrange(j + 1, m.len() as int))) by {
                    if k0 < j {
                        assert(m.subrange(0, j)[k0] == m[k0]);
                    } else if k0 > j {
                        assert(m.subrange(j + 1, m.len() as int)[k0 - j - 1] == m[k0]);
                    }
                }
            }
        }
    }
    r
}

/// The time step a selector names: the selector read as a `usize`; otherwise a parse error
/// whose message is `message` followed by the selector.
pub fn parse_selector(selector: &str, message: &str) -> (r: Result<usize, crate::error::IoError>)
    ensures
        match usize_value(selector@) {
            Some(v) => r == Ok::<usize, crate::error::IoError>(v),
            None => r matches Err(crate::error::IoError::Parse(m)) && m@ == message@ + selector@,
        },
{
    let cs = chars_of(selector);
    assert(cs@.subrange(0, cs@.len() as int) =~= selector@);
    match parse_usize(cs.as_slice(), 0, cs.len()) {
        Some(v) => Ok(v),
        None => {
            let mut m = String::new();
            push_str(&mut m, message);
            push_str(&mut m, selector);
            assert(m@ =~= message@ + selector@);
            Err(crate::error::IoError::Parse(m))
        },
    }
}

} // verus!
