//! Character-level text handling used by every message of the protocol:
//! splitting on a separator, splitting on whitespace, trimming, decimal
//! numbers and booleans, all over sequences of `char`.

use vstd::prelude::*;

verus! {

/// Appends one character to a string.
/// Trusted: std's `String::push` appends the character at the end, as its
/// documentation says.
#[verifier::external_body]
pub(crate) fn push_char(s: &mut String, c: char)
    ensures
        final(s)@ == old(s)@.push(c),
{
    s.push(c);
}

/// The characters of a string slice, in order.
pub fn chars_of(s: &str) -> (r: Vec<char>)
    ensures
        r@ == s@,
{
    let mut r: Vec<char> = Vec::new();
    for c in it: s.chars()
        invariant
            r@ == it.seq().take(it.index() as int),
            it.seq() == s@,
    {
        r.push(c);
    }
    r
}

/// A string holding the given characters.
pub fn string_of(cs: &[char]) -> (r: String)
    ensures
        r@ == cs@,
{
    let mut r = String::new();
    let n = cs.len();
    for i in 0..n
        invariant
            n == cs@.len(),
            r@ == cs@.take(i as int),
    {
        push_char(&mut r, cs[i]);
        assert(cs@.take(i as int).push(cs@[i as int]) =~= cs@.take(i + 1));
    }
    assert(cs@.take(n as int) =~= cs@);
    r
}

/// Appends the characters of `src` to `dst`.
pub fn append_chars(dst: &mut String, src: &[char])
    ensures
        final(dst)@ == old(dst)@ + src@,
{
    let n = src.len();
    for i in 0..n
        invariant
            n == src@.len(),
            dst@ == old(dst)@ + src@.take(i as int),
    {
        push_char(dst, src[i]);
        assert(src@.take(i as int).push(src@[i as int]) =~= src@.take(i + 1));
    }
    assert(src@.take(n as int) =~= src@);
}

/// Appends the characters of a string slice to `dst`.
pub fn append_str(dst: &mut String, src: &str)
    ensures
        final(dst)@ == old(dst)@ + src@,
{
    let cs = chars_of(src);
    append_chars(dst, cs.as_slice());
}

/// Whether two character sequences are equal.
pub fn chars_equal(a: &[char], b: &[char]) -> (r: bool)
    ensures
        r == (a@ == b@),
{
    if a.len() != b.len() {
        return false;
    }
    let n = a.len();
    for i in 0..n
        invariant
            n == a@.len(),
            n == b@.len(),
            forall|j: int| 0 <= j < i ==> a@[j] == b@[j],
    {
        if a[i] != b[i] {
            return false;
        }
    }
    assert(a@ =~= b@);
    true
}

/// Whether a string equals a string slice, character for character.
pub fn text_is(a: &String, b: &str) -> (r: bool)
    ensures
        r == (a@ == b@),
{
    let x = chars_of(a.as_str());
    let y = chars_of(b);
    chars_equal(x.as_slice(), y.as_slice())
}

// ---------------------------------------------------------------------------
// Splitting on a separator character (the behaviour of `str::split(char)`).

/// The fields of `s` separated by `d`: one more field than there are
/// separators, empty fields included.
pub open spec fn split_on(s: Seq<char>, d: char) -> Seq<Seq<char>>
    decreases s.len(),
{
    if s.len() == 0 {
        seq![Seq::<char>::empty()]
    } else {
        let prev = split_on(s.drop_last(), d);
        if s.last() == d {
            prev.push(Seq::<char>::empty())
        } else {
            prev.update(prev.len() - 1, prev.last().push(s.last()))
        }
    }
}

pub proof fn lemma_split_on_nonempty(s: Seq<char>, d: char)
    ensures
        split_on(s, d).len() >= 1,
    decreases s.len(),
{
    if s.len() > 0 {
        lemma_split_on_nonempty(s.drop_last(), d);
    }
}

/// Splits `s` at every occurrence of `d`.
pub fn split_chars(s: &[char], d: char) -> (r: Vec<Vec<char>>)
    ensures
        r@.len() == split_on(s@, d).len(),
        forall|i: int| 0 <= i < r@.len() ==> #[trigger] r@[i]@ == split_on(s@, d)[i],
{
    let mut acc: Vec<Vec<char>> = Vec::new();
    let mut cur: Vec<char> = Vec::new();
    let n = s.len();
    for i in 0..n
        invariant
            n == s@.len(),
            split_on(s@.take(i as int), d).len() == acc@.len() + 1,
            forall|j: int| 0 <= j < acc@.len() ==> #[trigger] acc@[j]@ == split_on(s@.take(i as int), d)[j],
            cur@ == split_on(s@.take(i as int), d).last(),
    {
        proof {
            assert(s@.take(i + 1).drop_last() =~= s@.take(i as int));
            lemma_split_on_nonempty(s@.take(i as int), d);
        }
        let c = s[i];
        if c == d {
            let done = cur;
            acc.push(done);
            cur = Vec::new();
        } else {
            cur.push(c);
        }
    }
    acc.push(cur);
    assert(s@.take(n as int) =~= s@);
    acc
}

// ---------------------------------------------------------------------------
// Whitespace (the behaviour of `char::is_whitespace`, `str::trim` and
// `str::split_whitespace`).

/// The Unicode `White_Space` characters, which `char::is_whitespace` accepts.
pub open spec fn is_ws(c: char) -> bool {
    ||| '\u{9}' <= c <= '\u{d}'
    ||| c == ' '
    ||| c == '\u{85}'
    ||| c == '\u{a0}'
    ||| c == '\u{1680}'
    ||| '\u{2000}' <= c <= '\u{200a}'
    ||| c == '\u{2028}'
    ||| c == '\u{2029}'
    ||| c == '\u{202f}'
    ||| c == '\u{205f}'
    ||| c == '\u{3000}'
}

/// Whether a character is Unicode whitespace.
pub fn is_whitespace(c: char) -> (r: bool)
    ensures
        r == is_ws(c),
{
    ('\u{9}' <= c && c <= '\u{d}') || c == ' ' || c == '\u{85}' || c == '\u{a0}' || c
        == '\u{1680}' || ('\u{2000}' <= c && c <= '\u{200a}') || c == '\u{2028}' || c
        == '\u{2029}' || c == '\u{202f}' || c == '\u{205f}' || c == '\u{3000}'
}

/// The fields of `s` separated by single whitespace characters.
pub open spec fn ws_fields(s: Seq<char>) -> Seq<Seq<char>>
    decreases s.len(),
{
    if s.len() == 0 {
        seq![Seq::<char>::empty()]
    } else {
        let prev = ws_fields(s.drop_last());
        if is_ws(s.last()) {
            prev.push(Seq::<char>::empty())
        } else {
            prev.update(prev.len() - 1, prev.last().push(s.last()))
        }
    }
}

/// The non-empty members of a sequence of fields, in order.
pub open spec fn drop_empty(f: Seq<Seq<char>>) -> Seq<Seq<char>>
    decreases f.len(),
{
    if f.len() == 0 {
        Seq::<Seq<char>>::empty()
    } else {
        let p = drop_empty(f.drop_last());
        if f.last().len() == 0 {
            p
        } else {
            p.push(f.last())
        }
    }
}

/// The words of `s`: its maximal runs of non-whitespace characters.
pub open spec fn words(s: Seq<char>) -> Seq<Seq<char>> {
    drop_empty(ws_fields(s))
}

pub proof fn lemma_ws_fields_nonempty(s: Seq<char>)
    ensures
        ws_fields(s).len() >= 1,
    decreases s.len(),
{
    if s.len() > 0 {
        lemma_ws_fields_nonempty(s.drop_last());
    }
}

/// Splits `s` into its words.
pub fn split_words(s: &[char]) -> (r: Vec<Vec<char>>)
    ensures
        r@.len() == words(s@).len(),
        forall|i: int| 0 <= i < r@.len() ==> #[trigger] r@[i]@ == words(s@)[i],
{
    let mut acc: Vec<Vec<char>> = Vec::new();
    let mut cur: Vec<char> = Vec::new();
    let ghost mut closed: Seq<Seq<char>> = Seq::empty();
    let n = s.len();
    for i in 0..n
        invariant
            n == s@.len(),
            ws_fields(s@.take(i as int)) == closed.push(cur@),
            drop_empty(closed).len() == acc@.len(),
            forall|j: int| 0 <= j < acc@.len() ==> #[trigger] acc@[j]@ == drop_empty(closed)[j],
    {
        proof {
            assert(s@.take(i + 1).drop_last() =~= s@.take(i as int));
            assert(s@.take(i + 1).last() == s@[i as int]);
        }
        let c = s[i];
        if is_whitespace(c) {
            proof {
                let nc = closed.push(cur@);
                assert(nc.drop_last() =~= closed);
                assert(ws_fields(s@.take(i + 1)) =~= nc.push(Seq::<char>::empty()));
                closed = nc;
            }
            if cur.len() > 0 {
                let done = cur;
                acc.push(done);
            }
            cur = Vec::new();
        } else {
            cur.push(c);
            proof {
                let f = ws_fields(s@.take(i as int));
                assert(f.update(f.len() - 1, f.last().push(c)) =~= closed.push(cur@));
            }
        }
    }
    proof {
        assert(s@.take(n as int) =~= s@);
        let f = closed.push(cur@);
        assert(f.drop_last() =~= closed);
    }
    if cur.len() > 0 {
        acc.push(cur);
    }
    acc
}

/// Index of the first non-whitespace character, or the length if none.
pub open spec fn trim_start_index(s: Seq<char>) -> int
    decreases s.len(),
{
    if s.len() == 0 {
        0
    } else if is_ws(s[0]) {
        1 + trim_start_index(s.drop_first())
    } else {
        0
    }
}

/// One past the last non-whitespace character, or 0 if none.
pub open spec fn trim_end_index(s: Seq<char>) -> int
    decreases s.len(),
{
    if s.len() == 0 {
        0
    } else if is_ws(s.last()) {
        trim_end_index(s.drop_last())
    } else {
        s.len() as int
    }
}

/// `s` without leading and trailing whitespace.
pub open spec fn trim(s: Seq<char>) -> Seq<char> {
    if trim_start_index(s) >= trim_end_index(s) {
        Seq::<char>::empty()
    } else {
        s.subrange(trim_start_index(s), trim_end_index(s))
    }
}


proof fn lemma_trim_start_step(s: Seq<char>, i: int)
    requires
        0 <= i < s.len(),
        forall|j: int| 0 <= j < i ==> is_ws(s[j]),
    ensures
        is_ws(s[i]) ==> trim_start_index(s.skip(i)) == 1 + trim_start_index(s.skip(i + 1)),
        !is_ws(s[i]) ==> trim_start_index(s.skip(i)) == 0,
{
    assert(s.skip(i).drop_first() =~= s.skip(i + 1));
}

proof fn lemma_trim_start_prefix(s: Seq<char>, i: int)
    requires
        0 <= i <= s.len(),
        forall|j: int| 0 <= j < i ==> is_ws(s[j]),
    ensures
        trim_start_index(s) == i + trim_start_index(s.skip(i)),
    decreases i,
{
    if i > 0 {
        lemma_trim_start_prefix(s, i - 1);
        assert(s.skip(i - 1).drop_first() =~= s.skip(i));
    } else {
        assert(s.skip(0) =~= s);
    }
}

proof fn lemma_trim_end_suffix(s: Seq<char>, k: int)
    requires
        0 <= k <= s.len(),
        forall|j: int| k <= j < s.len() ==> is_ws(s[j]),
    ensures
        trim_end_index(s) == trim_end_index(s.take(k)),
    decreases s.len() - k,
{
    if k < s.len() {
        assert(s.drop_last().take(k) =~= s.take(k));
        lemma_trim_end_suffix(s.drop_last(), k);
    } else {
        assert(s.take(k) =~= s);
    }
}

proof fn lemma_trim_start_le(s: Seq<char>)
    ensures
        0 <= trim_start_index(s) <= s.len(),
        trim_start_index(s) < s.len() ==> !is_ws(s[trim_start_index(s)]),
        forall|j: int| 0 <= j < trim_start_index(s) ==> is_ws(s[j]),
    decreases s.len(),
{
    if s.len() > 0 && is_ws(s[0]) {
        lemma_trim_start_le(s.drop_first());
        assert forall|j: int| 0 <= j < trim_start_index(s) implies is_ws(s[j]) by {
            if j > 0 {
                assert(s[j] == s.drop_first()[j - 1]);
            }
        }
    }
}

proof fn lemma_trim_end_le(s: Seq<char>)
    ensures
        0 <= trim_end_index(s) <= s.len(),
        trim_end_index(s) > 0 ==> !is_ws(s[trim_end_index(s) - 1]),
        forall|j: int| trim_end_index(s) <= j < s.len() ==> is_ws(s[j]),
    decreases s.len(),
{
    if s.len() > 0 && is_ws(s.last()) {
        lemma_trim_end_le(s.drop_last());
        assert forall|j: int| trim_end_index(s) <= j < s.len() implies is_ws(s[j]) by {
            if j < s.len() - 1 {
                assert(s[j] == s.drop_last()[j]);
            }
        }
    }
}

/// `s` without leading and trailing whitespace (the behaviour of `str::trim`).
pub fn trim_chars(s: &[char]) -> (r: Vec<char>)
    ensures
        r@ == trim(s@),
{
    let n = s.len();
    let mut a: usize = 0;
    while a < n && is_whitespace(s[a])
        invariant
            a <= n,
            n == s@.len(),
            forall|j: int| 0 <= j < a ==> is_ws(s@[j]),
        decreases n - a,
    {
        a = a + 1;
    }
    let mut b: usize = n;
    while b > 0 && is_whitespace(s[b - 1])
        invariant
            b <= n,
            n == s@.len(),
            forall|j: int| b <= j < n ==> is_ws(s@[j]),
        decreases b,
    {
        b = b - 1;
    }
    proof {
        lemma_trim_start_prefix(s@, a as int);
        if a < n {
            lemma_trim_start_step(s@, a as int);
        } else {
            assert(s@.skip(a as int).len() == 0);
        }
        lemma_trim_end_suffix(s@, b as int);
        if b > 0 {
            assert(s@.take(b as int).last() == s@[b - 1]);
        }
    }
    let mut r: Vec<char> = Vec::new();
    if a < b {
        let mut i = a;
        while i < b
            invariant
                a <= i <= b,
                b <= n,
                n == s@.len(),
                r@ == s@.subrange(a as int, i as int),
            decreases b - i,
        {
            r.push(s[i]);
            assert(s@.subrange(a as int, i as int).push(s@[i as int]) =~= s@.subrange(a as int, i + 1));
            i = i + 1;
        }
    }
    r
}

// ---------------------------------------------------------------------------
// Decimal numbers (the behaviour of `str::parse` for the integer types and of
// `to_string` on them).

pub open spec fn is_digit(c: char) -> bool {
    '0' <= c <= '9'
}

pub open spec fn digit_value(c: char) -> nat {
    (c as u32 - '0' as u32) as nat
}

pub open spec fn all_digits(s: Seq<char>) -> bool {
    forall|i: int| 0 <= i < s.len() ==> is_digit(#[trigger] s[i])
}

/// The number that a run of decimal digits denotes.
pub open spec fn digits_value(s: Seq<char>) -> nat
    decreases s.len(),
{
    if s.len() == 0 {
        0
    } else {
        digits_value(s.drop_last()) * 10 + digit_value(s.last())
    }
}

/// The unsigned number that `s` spells: an optional `+`, then one or more
/// decimal digits.
pub open spec fn unsigned_text(s: Seq<char>) -> Option<nat> {
    let body = if s.len() > 0 && s[0] == '+' { s.drop_first() } else { s };
    if body.len() > 0 && all_digits(body) {
        Some(digits_value(body))
    } else {
        None
    }
}

/// What `s.parse::<u32>()` gives back, `None` for its error.
pub open spec fn parse_u32_spec(s: Seq<char>) -> Option<u32> {
    match unsigned_text(s) {
        Some(v) => if v <= u32::MAX { Some(v as u32) } else { None },
        None => None,
    }
}

/// What `s.parse::<u16>()` gives back, `None` for its error.
pub open spec fn parse_u16_spec(s: Seq<char>) -> Option<u16> {
    match unsigned_text(s) {
        Some(v) => if v <= u16::MAX { Some(v as u16) } else { None },
        None => None,
    }
}

/// What `s.parse::<usize>()` gives back, `None` for its error.
pub open spec fn parse_usize_spec(s: Seq<char>) -> Option<usize> {
    match unsigned_text(s) {
        Some(v) => if v <= usize::MAX { Some(v as usize) } else { None },
        None => None,
    }
}

/// What `s.parse::<i32>()` gives back, `None` for its error: an optional sign,
/// then one or more decimal digits, within the range of `i32`.
pub open spec fn parse_i32_spec(s: Seq<char>) -> Option<i32> {
    if s.len() > 0 && s[0] == '-' {
        let body = s.drop_first();
        if body.len() > 0 && all_digits(body) && digits_value(body) <= 0x8000_0000 {
            Some((0 - digits_value(body)) as i32)
        } else {
            None
        }
    } else {
        match unsigned_text(s) {
            Some(v) => if v <= i32::MAX { Some(v as i32) } else { None },
            None => None,
        }
    }
}

proof fn lemma_digits_value_grows(s: Seq<char>, i: int)
    requires
        0 <= i <= s.len(),
    ensures
        digits_value(s.take(i)) <= digits_value(s),
    decreases s.len() - i,
{
    if i < s.len() {
        assert(s.drop_last().take(i) =~= s.take(i));
        lemma_digits_value_grows(s.drop_last(), i);
    } else {
        assert(s.take(i) =~= s);
    }
}

/// Reads the digits of `s` from `start` on; `None` unless they are one or
/// more digits denoting a value at most `limit`.
fn digits_upto(s: &[char], start: usize, limit: u64) -> (r: Option<u64>)
    requires
        start <= s@.len(),
    ensures
        ({
            let body = s@.skip(start as int);
            match r {
                Some(v) => body.len() > 0 && all_digits(body) && v == digits_value(body) && v <= limit,
                None => !(body.len() > 0 && all_digits(body) && digits_value(body) <= limit),
            }
        }),
{
    let ghost body = s@.skip(start as int);
    let n = s.len();
    if start >= n {
        return None;
    }
    let mut acc: u64 = 0;
    let mut i = start;
    while i < n
        invariant
            start <= i <= n,
            n == s@.len(),
            body == s@.skip(start as int),
            all_digits(body.take(i - start)),
            acc == digits_value(body.take(i - start)),
            acc <= limit,
        decreases n - i,
    {
        let c = s[i];
        proof {
            assert(body.take(i + 1 - start).drop_last() =~= body.take(i - start));
            assert(body.take(i + 1 - start).last() == c);
        }
        if c < '0' || c > '9' {
            proof {
                assert(!is_digit(body[i - start]));
            }
            return None;
        }
        let d = (c as u32 - '0' as u32) as u64;
        if (acc as u128) * 10 + (d as u128) > (limit as u128) {
            proof {
                lemma_digits_value_grows(body, i + 1 - start);
            }
            return None;
        }
        acc = acc * 10 + d;
        proof {
            assert forall|j: int| 0 <= j < i + 1 - start implies is_digit(#[trigger] body.take(i + 1 - start)[j]) by {
                if j < i - start {
                    assert(body.take(i + 1 - start)[j] == body.take(i - start)[j]);
                }
            }
        }
        i = i + 1;
    }
    assert(body.take(n - start) =~= body);
    Some(acc)
}


/// Reads an unsigned number with an optional leading `+`, at most `limit`.
fn unsigned_upto(s: &[char], limit: u64) -> (r: Option<u64>)
    ensures
        match r {
            Some(v) => unsigned_text(s@) == Some(v as nat) && v <= limit,
            None => match unsigned_text(s@) {
                Some(v) => v > limit,
                None => true,
            },
        },
{
    let start: usize = if s.len() > 0 && s[0] == '+' { 1 } else { 0 };
    proof {
        if start == 1 {
            assert(s@.skip(1) =~= s@.drop_first());
        } else {
            assert(s@.skip(0) =~= s@);
        }
    }
    digits_upto(s, start, limit)
}

/// `s.parse::<u32>()`, with `None` for its error.
pub fn parse_u32(s: &[char]) -> (r: Option<u32>)
    ensures
        r == parse_u32_spec(s@),
{
    match unsigned_upto(s, 0xffff_ffff) {
        Some(v) => Some(v as u32),
        None => None,
    }
}

/// `s.parse::<u16>()`, with `None` for its error.
pub fn parse_u16(s: &[char]) -> (r: Option<u16>)
    ensures
        r == parse_u16_spec(s@),
{
    match unsigned_upto(s, 0xffff) {
        Some(v) => Some(v as u16),
        None => None,
    }
}

/// `s.parse::<usize>()`, with `None` for its error.
pub fn parse_usize(s: &[char]) -> (r: Option<usize>)
    ensures
        r == parse_usize_spec(s@),
{
    match unsigned_upto(s, usize::MAX as u64) {
        Some(v) => Some(v as usize),
        None => None,
    }
}

/// `s.parse::<i32>()`, with `None` for its error.
pub fn parse_i32(s: &[char]) -> (r: Option<i32>)
    ensures
        r == parse_i32_spec(s@),
{
    if s.len() > 0 && s[0] == '-' {
        proof {
            assert(s@.skip(1) =~= s@.drop_first());
        }
        match digits_upto(s, 1, 0x8000_0000) {
            Some(v) => {
                let r: i64 = 0 - (v as i64);
                Some(r as i32)
            },
            None => None,
        }
    } else {
        match unsigned_upto(s, 0x7fff_ffff) {
            Some(v) => Some(v as i32),
            None => None,
        }
    }
}

/// What `s.parse::<bool>()` gives back, `None` for its error.
pub open spec fn parse_bool_spec(s: Seq<char>) -> Option<bool> {
    if s == "true"@ {
        Some(true)
    } else if s == "false"@ {
        Some(false)
    } else {
        None
    }
}

/// `s.parse::<bool>()`, with `None` for its error.
pub fn parse_bool(s: &[char]) -> (r: Option<bool>)
    ensures
        r == parse_bool_spec(s@),
{
    let t = chars_of("true");
    let f = chars_of("false");
    if chars_equal(s, t.as_slice()) {
        Some(true)
    } else if chars_equal(s, f.as_slice()) {
        Some(false)
    } else {
        None
    }
}

/// The decimal digit for a value below ten.
pub open spec fn digit_char(d: nat) -> char {
    ((d + '0' as u32) as u32) as char
}

/// The decimal spelling of a natural number, without leading zeros
/// (the `to_string` of an unsigned integer).
pub open spec fn decimal(n: nat) -> Seq<char>
    decreases n,
{
    if n < 10 {
        seq![digit_char(n)]
    } else {
        decimal(n / 10).push(digit_char(n % 10))
    }
}

/// The spelling of a signed number (the `to_string` of a signed integer).
pub open spec fn signed_decimal(n: int) -> Seq<char> {
    if n < 0 {
        seq!['-'] + decimal((0 - n) as nat)
    } else {
        decimal(n as nat)
    }
}

fn digit_of(d: u64) -> (c: char)
    requires
        d < 10,
    ensures
        c == digit_char(d as nat),
{
    if d == 0 { '0' } else if d == 1 { '1' } else if d == 2 { '2' } else if d == 3 { '3' }
    else if d == 4 { '4' } else if d == 5 { '5' } else if d == 6 { '6' } else if d == 7 { '7' }
    else if d == 8 { '8' } else { '9' }
}

/// Appends the decimal spelling of `n` to `out`.
pub fn push_decimal(out: &mut String, n: u64)
    ensures
        final(out)@ == old(out)@ + decimal(n as nat),
    decreases n,
{
    if n < 10 {
        push_char(out, digit_of(n));
        assert(decimal(n as nat) =~= seq![digit_char(n as nat)]);
    } else {
        push_decimal(out, n / 10);
        push_char(out, digit_of(n % 10));
        assert(old(out)@ + decimal((n / 10) as nat) + seq![digit_char((n % 10) as nat)] =~= old(out)@ + decimal(n as nat));
    }
}

/// The decimal spelling of `n` (its `to_string`).
pub fn decimal_string(n: u64) -> (r: String)
    ensures
        r@ == decimal(n as nat),
{
    let mut r = String::new();
    push_decimal(&mut r, n);
    assert(Seq::<char>::empty() + decimal(n as nat) =~= decimal(n as nat));
    r
}

/// Appends the spelling of a signed number to `out`.
pub fn push_signed_decimal(out: &mut String, n: i64)
    requires
        n > i64::MIN,
    ensures
        final(out)@ == old(out)@ + signed_decimal(n as int),
{
    if n < 0 {
        push_char(out, '-');
        push_decimal(out, (0 - n) as u64);
        assert(old(out)@.push('-') + decimal((0 - n) as nat) =~= old(out)@ + (seq!['-'] + decimal((0 - n) as nat)));
    } else {
        push_decimal(out, n as u64);
    }
}


/// The dotted-decimal text of an IPv4 address given as its 32-bit value
/// (the `to_string` of `Ipv4Addr`).
pub open spec fn ipv4_text(x: u32) -> Seq<char> {
    decimal((x / 16777216) as nat) + seq!['.'] + decimal(((x / 65536) % 256) as nat) + seq!['.']
        + decimal(((x / 256) % 256) as nat) + seq!['.'] + decimal((x % 256) as nat)
}

/// The dotted-decimal text of an IPv4 address.
pub fn ipv4_string(x: u32) -> (r: String)
    ensures
        r@ == ipv4_text(x),
{
    let mut r = String::new();
    push_decimal(&mut r, (x / 16777216) as u64);
    push_char(&mut r, '.');
    push_decimal(&mut r, ((x / 65536) % 256) as u64);
    push_char(&mut r, '.');
    push_decimal(&mut r, ((x / 256) % 256) as u64);
    push_char(&mut r, '.');
    push_decimal(&mut r, (x % 256) as u64);
    assert(r@ =~= ipv4_text(x));
    r
}


pub proof fn lemma_digit_char(d: nat)
    requires
        d < 10,
    ensures
        is_digit(digit_char(d)),
        digit_value(digit_char(d)) == d,
{
    assert((digit_char(d) as u32) == d + 48);
}

/// A decimal spelling is a non-empty run of digits denoting its number.
pub proof fn lemma_decimal(n: nat)
    ensures
        decimal(n).len() >= 1,
        all_digits(decimal(n)),
        digits_value(decimal(n)) == n,
    decreases n,
{
    lemma_digit_char(n % 10);
    let s = decimal(n);
    if n < 10 {
        assert(s.drop_last() =~= Seq::<char>::empty());
        assert(digits_value(s) == digits_value(s.drop_last()) * 10 + digit_value(s.last()));
    } else {
        lemma_decimal(n / 10);
        assert(s.drop_last() =~= decimal(n / 10));
        assert(s.last() == digit_char(n % 10));
        assert(digits_value(s) == digits_value(s.drop_last()) * 10 + digit_value(s.last()));
        assert forall|i: int| 0 <= i < s.len() implies is_digit(#[trigger] s[i]) by {
            if i < s.len() - 1 {
                assert(s[i] == decimal(n / 10)[i]);
            }
        }
    }
}


/// The parts joined with `d` between them.
pub open spec fn joined_by(parts: Seq<Seq<char>>, d: char) -> Seq<char>
    decreases parts.len(),
{
    if parts.len() == 0 {
        Seq::<char>::empty()
    } else if parts.len() == 1 {
        parts[0]
    } else {
        joined_by(parts.drop_last(), d) + seq![d] + parts.last()
    }
}

/// The parts joined with `d` between them, as a string.
pub fn line_of(parts: &Vec<String>, d: char) -> (r: String)
    ensures
        r@ == joined_by(parts@.map_values(|s: String| s@), d),
{
    let ghost pv = parts@.map_values(|s: String| s@);
    let mut r = String::new();
    let n = parts.len();
    for i in 0..n
        invariant
            n == parts@.len(),
            pv == parts@.map_values(|s: String| s@),
            r@ == joined_by(pv.take(i as int), d),
    {
        assert(pv.take(i + 1).drop_last() =~= pv.take(i as int));
        assert(pv[i as int] == parts@[i as int]@);
        if i > 0 {
            push_char(&mut r, d);
        }
        append_str(&mut r, parts[i].as_str());
        proof {
            if i == 0 {
                assert(r@ =~= pv.take(1)[0]);
            } else {
                assert(r@ =~= joined_by(pv.take(i as int), d) + seq![d] + pv.take(i + 1).last());
            }
        }
    }
    assert(pv.take(n as int) =~= pv);
    r
}

/// Seq of characters free of `d`.
pub open spec fn free_of(s: Seq<char>, d: char) -> bool {
    forall|i: int| 0 <= i < s.len() ==> s[i] != d
}

/// Seq of characters free of whitespace.
pub open spec fn no_ws(s: Seq<char>) -> bool {
    forall|i: int| 0 <= i < s.len() ==> !is_ws(s[i])
}

proof fn lemma_split_on_free(x: Seq<char>, d: char)
    requires
        free_of(x, d),
    ensures
        split_on(x, d) == seq![x],
    decreases x.len(),
{
    if x.len() > 0 {
        lemma_split_on_free(x.drop_last(), d);
        assert(x.drop_last().push(x.last()) =~= x);
        assert(seq![x.drop_last()].update(0, x.drop_last().push(x.last())) =~= seq![x]);
    } else {
        assert(x =~= Seq::<char>::empty());
    }
}

proof fn lemma_split_on_append(p: Seq<char>, t: Seq<char>, d: char)
    requires
        free_of(t, d),
    ensures
        split_on(p + t, d) == split_on(p, d).update(split_on(p, d).len() - 1, split_on(p, d).last() + t),
    decreases t.len(),
{
    lemma_split_on_nonempty(p, d);
    let f = split_on(p, d);
    if t.len() == 0 {
        assert(p + t =~= p);
        assert(f.last() + t =~= f.last());
        assert(f.update(f.len() - 1, f.last()) =~= f);
    } else {
        lemma_split_on_append(p, t.drop_last(), d);
        assert((p + t).drop_last() =~= p + t.drop_last());
        assert((p + t).last() == t.last());
        assert((f.last() + t.drop_last()).push(t.last()) =~= f.last() + t);
        assert(f.update(f.len() - 1, f.last() + t.drop_last()).update(f.len() - 1, (f.last() + t.drop_last()).push(t.last()))
            =~= f.update(f.len() - 1, f.last() + t));
    }
}

/// Splitting joined parts on the separator gives the parts back, when no
/// part holds the separator.
pub proof fn lemma_split_joined(parts: Seq<Seq<char>>, d: char)
    requires
        parts.len() >= 1,
        forall|i: int| 0 <= i < parts.len() ==> free_of(#[trigger] parts[i], d),
    ensures
        split_on(joined_by(parts, d), d) == parts,
    decreases parts.len(),
{
    if parts.len() == 1 {
        assert(free_of(parts[0], d));
        lemma_split_on_free(parts[0], d);
        assert(seq![parts[0]] =~= parts);
    } else {
        let init = parts.drop_last();
        assert forall|i: int| 0 <= i < init.len() implies free_of(#[trigger] init[i], d) by {
            assert(init[i] == parts[i]);
        }
        lemma_split_joined(init, d);
        let j = joined_by(init, d);
        assert(j + seq![d] =~= j.push(d));
        assert(j.push(d).drop_last() =~= j);
        assert(free_of(parts[parts.len() - 1], d));
        lemma_split_on_append(j.push(d), parts.last(), d);
        assert(init.push(Seq::<char>::empty()).update(init.len() as int, Seq::<char>::empty() + parts.last()) =~= parts);
    }
}

proof fn lemma_ws_fields_free(x: Seq<char>)
    requires
        no_ws(x),
    ensures
        ws_fields(x) == seq![x],
    decreases x.len(),
{
    if x.len() > 0 {
        lemma_ws_fields_free(x.drop_last());
        assert(x.drop_last().push(x.last()) =~= x);
        assert(seq![x.drop_last()].update(0, x.drop_last().push(x.last())) =~= seq![x]);
    } else {
        assert(x =~= Seq::<char>::empty());
    }
}

proof fn lemma_ws_fields_append(p: Seq<char>, t: Seq<char>)
    requires
        no_ws(t),
    ensures
        ws_fields(p + t) == ws_fields(p).update(ws_fields(p).len() - 1, ws_fields(p).last() + t),
    decreases t.len(),
{
    lemma_ws_fields_nonempty(p);
    let f = ws_fields(p);
    if t.len() == 0 {
        assert(p + t =~= p);
        assert(f.last() + t =~= f.last());
        assert(f.update(f.len() - 1, f.last()) =~= f);
    } else {
        lemma_ws_fields_append(p, t.drop_last());
        assert((p + t).drop_last() =~= p + t.drop_last());
        assert((p + t).last() == t.last());
        assert((f.last() + t.drop_last()).push(t.last()) =~= f.last() + t);
        assert(f.update(f.len() - 1, f.last() + t.drop_last()).update(f.len() - 1, (f.last() + t.drop_last()).push(t.last()))
            =~= f.update(f.len() - 1, f.last() + t));
    }
}

proof fn lemma_drop_empty_full(f: Seq<Seq<char>>)
    requires
        forall|i: int| 0 <= i < f.len() ==> (#[trigger] f[i]).len() > 0,
    ensures
        drop_empty(f) == f,
    decreases f.len(),
{
    if f.len() > 0 {
        assert forall|i: int| 0 <= i < f.drop_last().len() implies (#[trigger] f.drop_last()[i]).len() > 0 by {
            assert(f.drop_last()[i] == f[i]);
        }
        lemma_drop_empty_full(f.drop_last());
        assert(f[f.len() - 1].len() > 0);
        assert(f.drop_last().push(f.last()) =~= f);
    }
}

/// The words of space-joined parts are the parts, when every part is a
/// non-empty run without whitespace.
pub proof fn lemma_words_joined(parts: Seq<Seq<char>>)
    requires
        parts.len() >= 1,
        forall|i: int| 0 <= i < parts.len() ==> no_ws(#[trigger] parts[i]) && parts[i].len() > 0,
    ensures
        ws_fields(joined_by(parts, ' ')) == parts,
        words(joined_by(parts, ' ')) == parts,
    decreases parts.len(),
{
    if parts.len() == 1 {
        assert(no_ws(parts[0]));
        lemma_ws_fields_free(parts[0]);
        assert(seq![parts[0]] =~= parts);
    } else {
        let init = parts.drop_last();
        assert forall|i: int| 0 <= i < init.len() implies no_ws(#[trigger] init[i]) && init[i].len() > 0 by {
            assert(init[i] == parts[i]);
        }
        lemma_words_joined(init);
        let j = joined_by(init, ' ');
        assert(j + seq![' '] =~= j.push(' '));
        assert(j.push(' ').drop_last() =~= j);
        assert(no_ws(parts[parts.len() - 1]));
        lemma_ws_fields_append(j.push(' '), parts.last());
        assert(init.push(Seq::<char>::empty()).update(init.len() as int, Seq::<char>::empty() + parts.last()) =~= parts);
    }
    assert forall|i: int| 0 <= i < parts.len() implies (#[trigger] parts[i]).len() > 0 by {}
    lemma_drop_empty_full(parts);
}

/// Trimming leaves a text whose ends are not whitespace unchanged.
pub proof fn lemma_trim_plain(s: Seq<char>)
    requires
        s.len() > 0,
        !is_ws(s[0]),
        !is_ws(s.last()),
    ensures
        trim(s) == s,
{
    assert(s.subrange(0, s.len() as int) =~= s);
}

/// A decimal spelling reads back as its number.
pub proof fn lemma_parse_decimal_u32(n: nat)
    requires
        n <= u32::MAX,
    ensures
        parse_u32_spec(decimal(n)) == Some(n as u32),
        parse_usize_spec(decimal(n)) == Some(n as usize),
        n <= u16::MAX ==> parse_u16_spec(decimal(n)) == Some(n as u16),
{
    lemma_decimal(n);
    assert(is_digit(decimal(n)[0]));
}

/// A decimal spelling has no whitespace.
pub proof fn lemma_decimal_plain(n: nat)
    ensures
        decimal(n).len() > 0,
        no_ws(decimal(n)),
        forall|d: char| !is_digit(d) ==> free_of(decimal(n), d),
{
    lemma_decimal(n);
    assert forall|i: int| 0 <= i < decimal(n).len() implies !is_ws(decimal(n)[i]) by {
        assert(is_digit(decimal(n)[i]));
    }
    assert forall|d: char| !is_digit(d) implies free_of(decimal(n), d) by {
        assert forall|i: int| 0 <= i < decimal(n).len() implies decimal(n)[i] != d by {
            assert(is_digit(decimal(n)[i]));
        }
    }
}


/// A text without the separator is a single field.
pub proof fn lemma_split_on_free_pub(x: Seq<char>, d: char)
    requires
        free_of(x, d),
    ensures
        split_on(x, d) == seq![x],
{
    lemma_split_on_free(x, d);
}

} // verus!
