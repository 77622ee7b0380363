//! Text helpers: joining, trimming, searching, and reading or writing numbers.

use vstd::prelude::*;

verus! {

// ---------------------------------------------------------------------------
// what the standard library provides

/// `String::push` appends one character.
#[verifier::external_body]
pub(crate) fn push_char(s: &mut String, c: char)
    ensures
        final(s)@ == old(s)@.push(c),
{
    s.push(c);
}

/// Whether a character has the Unicode `White_Space` property.
pub uninterp spec fn whitespace(c: char) -> bool;

/// Calls `char::is_whitespace`, whose result is a function of the character.
/// Among the ASCII characters exactly the space and U+0009 to U+000D are white.
#[verifier::external_body]
pub(crate) fn is_whitespace(c: char) -> (r: bool)
    ensures
        r == whitespace(c),
        (c as u32) < 128 ==> r == (c == ' ' || '\t' <= c <= '\r'),
{
    c.is_whitespace()
}

/// A string as `{:?}` shows it: in double quotes, with escapes.
pub uninterp spec fn quoted(s: Seq<char>) -> Seq<char>;

/// Formats a string with `{:?}`; the result depends on the string alone.
#[verifier::external_body]
pub(crate) fn quote(s: &str) -> (r: String)
    ensures
        r@ == quoted(s@),
{
    format!("{:?}", s)
}

// ---------------------------------------------------------------------------
// comparing and joining

/// Whether two strings hold the same characters.
pub fn str_eq(a: &str, b: &str) -> (r: bool)
    ensures
        r == (a@ == b@),
{
    a.to_owned() == b.to_owned()
}

/// `a` followed by `b`.
pub fn join2(a: &str, b: &str) -> (r: String)
    ensures
        r@ == a@ + b@,
{
    let mut s = a.to_owned();
    s.append(b);
    s
}

/// `a`, `b`, `c` in a row.
pub fn join3(a: &str, b: &str, c: &str) -> (r: String)
    ensures
        r@ == a@ + b@ + c@,
{
    let mut s = a.to_owned();
    s.append(b);
    s.append(c);
    s
}

/// Five pieces in a row.
pub fn join5(a: &str, b: &str, c: &str, d: &str, e: &str) -> (r: String)
    ensures
        r@ == a@ + b@ + c@ + d@ + e@,
{
    let mut s = a.to_owned();
    s.append(b);
    s.append(c);
    s.append(d);
    s.append(e);
    s
}

/// The characters of a string.
pub fn to_chars(s: &str) -> (r: Vec<char>)
    ensures
        r@ == s@,
{
    let mut v: Vec<char> = Vec::new();
    for c in it: s.chars()
        invariant
            it.seq() == s@,
            v@ == it.seq().take(it.index()),
    {
        v.push(c);
    }
    v
}

/// The string made of `v[from..to]`.
pub fn from_chars(v: &Vec<char>, from: usize, to: usize) -> (r: String)
    requires
        from <= to <= v.len(),
    ensures
        r@ == v@.subrange(from as int, to as int),
{
    let mut s = String::new();
    let mut i: usize = from;
    while i < to
        invariant
            from <= i <= to <= v.len(),
            s@ == v@.subrange(from as int, i as int),
        decreases to - i,
    {
        push_char(&mut s, v[i]);
        assert(v@.subrange(from as int, i + 1) == v@.subrange(from as int, i as int).push(
            v@[i as int],
        ));
        i = i + 1;
    }
    s
}

// ---------------------------------------------------------------------------
// case and blanks

/// Every character is an ASCII one.
pub open spec fn ascii(s: Seq<char>) -> bool {
    forall|i: int| 0 <= i < s.len() ==> #[trigger] s[i] <= '\u{7f}'
}

/// Whether every character of a text is an ASCII one.
pub fn is_ascii_text(s: &str) -> (r: bool)
    ensures
        r == ascii(s@),
{
    let v = to_chars(s);
    let mut i: usize = 0;
    while i < v.len()
        invariant
            v@ == s@,
            i <= v@.len(),
            forall|j: int| 0 <= j < i ==> #[trigger] v@[j] <= '\u{7f}',
        decreases v@.len() - i,
    {
        if v[i] > '\u{7f}' {
            assert(!(s@[i as int] <= '\u{7f}'));
            return false;
        }
        i = i + 1;
    }
    true
}

/// An ASCII capital as its small letter, any other character as it is.
pub open spec fn lower_char(c: char) -> char {
    if 'A' <= c <= 'Z' {
        ((c as u32) + 32) as char
    } else {
        c
    }
}

/// The text with ASCII capitals made small.
pub open spec fn lower(s: Seq<char>) -> Seq<char> {
    Seq::new(s.len(), |i: int| lower_char(s[i]))
}

/// The text with ASCII capitals made small.
pub fn to_lower(s: &str) -> (r: String)
    ensures
        r@ == lower(s@),
{
    let v = to_chars(s);
    let mut out = String::new();
    for i in 0..v.len()
        invariant
            v@ == s@,
            out@ == lower(s@).take(i as int),
    {
        let c = v[i];
        let l: char = if 'A' <= c && c <= 'Z' {
            ((c as u8) + 32) as char
        } else {
            c
        };
        assert(l == lower_char(c));
        push_char(&mut out, l);
    }
    assert(lower(s@).take(s@.len() as int) == lower(s@));
    out
}

/// An ASCII small letter as its capital, any other character as it is.
pub open spec fn upper_char(c: char) -> char {
    if 'a' <= c <= 'z' {
        ((c as u32) - 32) as char
    } else {
        c
    }
}

/// The text with ASCII small letters made capital.
pub open spec fn upper(s: Seq<char>) -> Seq<char> {
    Seq::new(s.len(), |i: int| upper_char(s[i]))
}

/// The text with ASCII small letters made capital.
pub fn to_upper(s: &str) -> (r: String)
    ensures
        r@ == upper(s@),
{
    let v = to_chars(s);
    let mut out = String::new();
    for i in 0..v.len()
        invariant
            v@ == s@,
            out@ == upper(s@).take(i as int),
    {
        let c = v[i];
        let u: char = if 'a' <= c && c <= 'z' {
            ((c as u8) - 32) as char
        } else {
            c
        };
        assert(u == upper_char(c));
        push_char(&mut out, u);
    }
    assert(upper(s@).take(s@.len() as int) == upper(s@));
    out
}

/// The text without its leading blanks.
pub open spec fn trimmed_start(s: Seq<char>) -> Seq<char>
    decreases s.len(),
{
    if s.len() > 0 && whitespace(s[0]) {
        trimmed_start(s.skip(1))
    } else {
        s
    }
}

/// The text without its trailing blanks.
pub open spec fn trimmed_end(s: Seq<char>) -> Seq<char>
    decreases s.len(),
{
    if s.len() > 0 && whitespace(s.last()) {
        trimmed_end(s.drop_last())
    } else {
        s
    }
}

/// The text without blanks at either end.
pub open spec fn trimmed(s: Seq<char>) -> Seq<char> {
    trimmed_end(trimmed_start(s))
}

/// The text without its leading blanks.
pub fn trim_start(s: &str) -> (r: String)
    ensures
        r@ == trimmed_start(s@),
{
    let v = to_chars(s);
    let mut i: usize = 0;
    assert(v@.skip(0) == s@);
    while i < v.len() && is_whitespace(v[i])
        invariant
            v@ == s@,
            i <= v.len(),
            trimmed_start(s@) == trimmed_start(v@.skip(i as int)),
        ensures
            i <= v.len(),
            i < v.len() ==> !whitespace(v@[i as int]),
            trimmed_start(s@) == trimmed_start(v@.skip(i as int)),
        decreases v.len() - i,
    {
        assert(v@.skip(i as int).skip(1) == v@.skip(i + 1));
        i = i + 1;
    }
    assert(v@.skip(i as int) == v@.subrange(i as int, v@.len() as int));
    from_chars(&v, i, v.len())
}

/// The text without its trailing blanks.
pub fn trim_end(s: &str) -> (r: String)
    ensures
        r@ == trimmed_end(s@),
{
    let v = to_chars(s);
    let mut n: usize = v.len();
    assert(v@.take(n as int) == s@);
    while n > 0 && is_whitespace(v[n - 1])
        invariant
            v@ == s@,
            n <= v.len(),
            trimmed_end(s@) == trimmed_end(v@.take(n as int)),
        ensures
            n <= v.len(),
            n > 0 ==> !whitespace(v@[n - 1]),
            trimmed_end(s@) == trimmed_end(v@.take(n as int)),
        decreases n,
    {
        assert(v@.take(n as int).drop_last() == v@.take(n - 1));
        n = n - 1;
    }
    assert(v@.take(n as int) == v@.subrange(0, n as int));
    from_chars(&v, 0, n)
}

/// The text without blanks at either end.
pub fn trim(s: &str) -> (r: String)
    ensures
        r@ == trimmed(s@),
{
    let t = trim_start(s);
    trim_end(t.as_str())
}

// ---------------------------------------------------------------------------
// searching

/// `needle` stands in `hay` at position `i`.
pub open spec fn occurs_at(hay: Seq<char>, needle: Seq<char>, i: int) -> bool {
    0 <= i && i + needle.len() <= hay.len() && hay.subrange(i, i + needle.len()) == needle
}

/// The first position at or after `from` where `needle` stands in `hay`.
pub open spec fn find(hay: Seq<char>, needle: Seq<char>, from: int) -> Option<int>
    decreases hay.len() + 1 - from,
{
    if from < 0 || from + needle.len() > hay.len() {
        None
    } else if occurs_at(hay, needle, from) {
        Some(from)
    } else {
        find(hay, needle, from + 1)
    }
}

/// `find` gives a position at or after its start, where the needle stands.
pub(crate) proof fn lemma_find(hay: Seq<char>, needle: Seq<char>, from: int)
    ensures
        find(hay, needle, from) matches Some(i) ==> from <= i && occurs_at(hay, needle, i),
    decreases hay.len() + 1 - from,
{
    if from < 0 || from + needle.len() > hay.len() || occurs_at(hay, needle, from) {
    } else {
        lemma_find(hay, needle, from + 1);
    }
}

/// Whether `needle` stands in `hay` at position `i`.
pub fn matches_at(hay: &Vec<char>, needle: &Vec<char>, i: usize) -> (r: bool)
    ensures
        r == occurs_at(hay@, needle@, i as int),
{
    if i > hay.len() || needle.len() > hay.len() - i {
        return false;
    }
    let mut k: usize = 0;
    while k < needle.len()
        invariant
            k <= needle.len(),
            i + needle.len() <= hay.len(),
            forall|j: int| 0 <= j < k ==> hay@[i + j] == needle@[j],
        decreases needle.len() - k,
    {
        if hay[i + k] != needle[k] {
            assert(hay@.subrange(i as int, i + needle.len())[k as int] != needle@[k as int]);
            return false;
        }
        k = k + 1;
    }
    assert(hay@.subrange(i as int, i + needle.len()) =~= needle@);
    true
}

/// The first position at or after `from` where `needle` stands in `hay`.
pub fn find_from(hay: &Vec<char>, needle: &Vec<char>, from: usize) -> (r: Option<usize>)
    ensures
        match find(hay@, needle@, from as int) {
            Some(i) => r matches Some(j) && j == i,
            None => r is None,
        },
{
    let mut i: usize = from;
    while i <= hay.len() && needle.len() <= hay.len() - i
        invariant
            from <= i,
            find(hay@, needle@, from as int) == find(hay@, needle@, i as int),
        decreases hay.len() + 1 - i,
    {
        if matches_at(hay, needle, i) {
            return Some(i);
        }
        assert(find(hay@, needle@, i as int) == find(hay@, needle@, i + 1));
        if i == hay.len() {
            return None;
        }
        i = i + 1;
    }
    None
}

// ---------------------------------------------------------------------------
// numbers

/// The decimal digit of a number below ten.
pub open spec fn digit(d: nat) -> char {
    (('0' as u32) + d) as char
}

/// A natural number in decimal, without leading zeros.
pub open spec fn decimal(n: nat) -> Seq<char>
    decreases n,
{
    if n < 10 {
        seq![digit(n)]
    } else {
        decimal(n / 10).push(digit(n % 10))
    }
}

/// An integer in decimal, with a minus sign where it is negative.
pub open spec fn signed_decimal(n: int) -> Seq<char> {
    if n < 0 {
        seq!['-'] + decimal((-n) as nat)
    } else {
        decimal(n as nat)
    }
}

/// A number in decimal.
pub fn decimal_u64(n: u64) -> (r: String)
    ensures
        r@ == decimal(n as nat),
    decreases n,
{
    let mut s = if n < 10 {
        String::new()
    } else {
        decimal_u64(n / 10)
    };
    let d: u8 = (n % 10) as u8;
    push_char(&mut s, (48 + d) as char);
    s
}

/// A number in decimal.
pub fn decimal_usize(n: usize) -> (r: String)
    ensures
        r@ == decimal(n as nat),
{
    decimal_u64(n as u64)
}

/// A signed number in decimal.
pub fn decimal_i64(n: i64) -> (r: String)
    ensures
        r@ == signed_decimal(n as int),
{
    if n >= 0 {
        decimal_u64(n as u64)
    } else {
        let m: u64 = (-(n as i128)) as u64;
        let d = decimal_u64(m);
        let mut s = String::new();
        push_char(&mut s, '-');
        s.append(d.as_str());
        s
    }
}

/// The characters are all decimal digits.
pub open spec fn all_digits(s: Seq<char>) -> bool {
    forall|i: int| 0 <= i < s.len() ==> '0' <= #[trigger] s[i] <= '9'
}

/// The number that a row of decimal digits stands for.
pub open spec fn digits_value(s: Seq<char>) -> nat
    decreases s.len(),
{
    if s.len() == 0 {
        0
    } else {
        digits_value(s.drop_last()) * 10 + ((s.last() as nat) - ('0' as nat)) as nat
    }
}

/// The number that a text stands for: digits, perhaps behind one plus sign,
/// with a value of at most `max`.
pub open spec fn parsed_number(s: Seq<char>, max: nat) -> Option<nat> {
    let d = if s.len() > 0 && s[0] == '+' {
        s.skip(1)
    } else {
        s
    };
    if d.len() > 0 && all_digits(d) && digits_value(d) <= max {
        Some(digits_value(d))
    } else {
        None
    }
}

proof fn lemma_digits_value_grows(s: Seq<char>, n: int)
    requires
        0 <= n <= s.len(),
    ensures
        digits_value(s.take(n)) <= digits_value(s),
    decreases s.len(),
{
    if n == s.len() {
        assert(s.take(n) == s);
    } else {
        lemma_digits_value_grows(s.drop_last(), n);
        assert(s.drop_last().take(n) == s.take(n));
    }
}

/// Reads a number as `str::parse` does: digits, perhaps behind one plus sign.
pub fn parse_usize(s: &str) -> (r: Option<usize>)
    ensures
        match parsed_number(s@, usize::MAX as nat) {
            Some(n) => r matches Some(m) && m == n,
            None => r is None,
        },
{
    let v = to_chars(s);
    let start: usize = if v.len() > 0 && v[0] == '+' {
        1
    } else {
        0
    };
    let ghost d = v@.skip(start as int);
    assert(start == 0 ==> d == s@);
    if v.len() == start {
        return None;
    }
    let mut acc: usize = 0;
    let mut i: usize = start;
    while i < v.len()
        invariant
            start <= i <= v.len(),
            start <= 1,
            v@ == s@,
            d == v@.skip(start as int),
            d.len() > 0,
            parsed_number(s@, usize::MAX as nat) == (if all_digits(d) && digits_value(d)
                <= usize::MAX {
                Some(digits_value(d))
            } else {
                None
            }),
            all_digits(d.take(i - start)),
            acc == digits_value(d.take(i - start)),
        decreases v.len() - i,
    {
        let c = v[i];
        assert(d[i - start] == c);
        if !('0' <= c && c <= '9') {
            return None;
        }
        let x: usize = ((c as u8) - 48) as usize;
        assert(d.take(i - start + 1).drop_last() == d.take(i - start));
        assert(digits_value(d.take(i - start + 1)) == acc * 10 + x);
        proof {
            lemma_digits_value_grows(d, i - start + 1);
        }
        if acc > (usize::MAX - x) / 10 {
            return None;
        }
        acc = acc * 10 + x;
        i = i + 1;
    }
    assert(d.take(i - start) == d);
    Some(acc)
}

// ---------------------------------------------------------------------------
// laws

/// Making a letter small adds 32 to the code of a capital from `A` (65) to `Z` (90)
/// and leaves every other character; making it capital takes 32 from a small letter
/// from `a` (97) to `z` (122).
pub proof fn case_moves_letters_by_32(c: char)
    ensures
        65 <= c as u32 <= 90 ==> lower_char(c) as u32 == c as u32 + 32,
        !(65 <= c as u32 <= 90) ==> lower_char(c) == c,
        97 <= c as u32 <= 122 ==> upper_char(c) as u32 == c as u32 - 32,
        !(97 <= c as u32 <= 122) ==> upper_char(c) == c,
{
}

/// Changing the case keeps every character in its place.
pub proof fn case_keeps_places(s: Seq<char>, i: int)
    requires
        0 <= i < s.len(),
    ensures
        lower(s).len() == s.len() && lower(s)[i] == lower_char(s[i]),
        upper(s).len() == s.len() && upper(s)[i] == upper_char(s[i]),
{
}

/// The text without blanks around it is a part of the text: what is cut off at either
/// end is blank, and what is left neither starts nor ends with a blank.
pub proof fn trimming_cuts_blanks_only(s: Seq<char>) -> (r: (int, int))
    ensures
        0 <= r.0 <= r.1 <= s.len(),
        trimmed(s) == s.subrange(r.0, r.1),
        forall|i: int| 0 <= i < r.0 ==> whitespace(#[trigger] s[i]),
        forall|i: int| r.1 <= i < s.len() ==> whitespace(#[trigger] s[i]),
        r.0 < r.1 ==> !whitespace(s[r.0]) && !whitespace(s[r.1 - 1]),
{
    let a = lemma_trim_front(s);
    let t = trimmed_start(s);
    let b = lemma_trim_back(t);
    assert(trimmed(s) =~= s.subrange(a, a + b));
    assert forall|i: int| a + b <= i < s.len() implies whitespace(#[trigger] s[i]) by {
        assert(t[i - a] == s[i]);
    }
    if 0 < b {
        assert(t[0] == s[a] && t[b - 1] == s[a + b - 1]);
    }
    (a, a + b)
}

proof fn lemma_trim_front(s: Seq<char>) -> (a: int)
    ensures
        0 <= a <= s.len(),
        trimmed_start(s) == s.subrange(a, s.len() as int),
        forall|i: int| 0 <= i < a ==> whitespace(#[trigger] s[i]),
        a < s.len() ==> !whitespace(s[a]),
    decreases s.len(),
{
    if s.len() > 0 && whitespace(s[0]) {
        let t = s.skip(1);
        let a = lemma_trim_front(t);
        assert(t.subrange(a, t.len() as int) =~= s.subrange(a + 1, s.len() as int));
        assert forall|i: int| 0 <= i < a + 1 implies whitespace(#[trigger] s[i]) by {
            if i > 0 {
                assert(t[i - 1] == s[i]);
            }
        }
        if a + 1 < s.len() {
            assert(t[a] == s[a + 1]);
        }
        a + 1
    } else {
        assert(s.subrange(0, s.len() as int) =~= s);
        0
    }
}

proof fn lemma_trim_back(s: Seq<char>) -> (b: int)
    ensures
        0 <= b <= s.len(),
        trimmed_end(s) == s.subrange(0, b),
        forall|i: int| b <= i < s.len() ==> whitespace(#[trigger] s[i]),
        b > 0 ==> !whitespace(s[b - 1]),
    decreases s.len(),
{
    if s.len() > 0 && whitespace(s.last()) {
        let t = s.drop_last();
        let b = lemma_trim_back(t);
        assert(t.subrange(0, b) =~= s.subrange(0, b));
        assert forall|i: int| b <= i < s.len() implies whitespace(#[trigger] s[i]) by {
            if i < s.len() - 1 {
                assert(t[i] == s[i]);
            }
        }
        b
    } else {
        assert(s.subrange(0, s.len() as int) =~= s);
        s.len() as int
    }
}

/// A search finds the first place at or after `from` where each character of the
/// needle stands, and nothing where there is none.
pub proof fn search_finds_the_first_place(hay: Seq<char>, needle: Seq<char>, from: int, i: int)
    requires
        0 <= from,
    ensures
        find(hay, needle, from) matches Some(p) ==> {
            &&& from <= p <= hay.len() - needle.len()
            &&& forall|k: int| 0 <= k < needle.len() ==> #[trigger] hay[p + k] == needle[k]
        },
        from <= i <= hay.len() - needle.len() && (forall|k: int|
            0 <= k < needle.len() ==> #[trigger] hay[i + k] == needle[k]) ==> (find(
            hay,
            needle,
            from,
        ) matches Some(p) && p <= i),
    decreases hay.len() + 1 - from,
{
    if from + needle.len() <= hay.len() {
        if occurs_at(hay, needle, from) {
            assert forall|k: int| 0 <= k < needle.len() implies #[trigger] hay[from + k]
                == needle[k] by {
                assert(hay.subrange(from, from + needle.len())[k] == hay[from + k]);
            }
        } else {
            search_finds_the_first_place(hay, needle, from + 1, i);
            if i == from && (forall|k: int|
                0 <= k < needle.len() ==> #[trigger] hay[i + k] == needle[k]) {
                assert(hay.subrange(from, from + needle.len()) =~= needle) by {
                    assert forall|k: int| 0 <= k < needle.len() implies hay.subrange(
                        from,
                        from + needle.len(),
                    )[k] == needle[k] by {
                        assert(hay[i + k] == needle[k]);
                    }
                }
            }
        }
    }
}

/// The digits of a number stand for it to the base ten, `0` being code 48: the last
/// one for its ones, those before it for its tens.
pub proof fn decimals_stand_for_their_number(n: nat)
    ensures
        decimal(n).len() >= 1,
        decimal(n).last() as nat == 48 + n % 10,
        n >= 10 ==> decimal(n).drop_last() == decimal(n / 10),
        n < 10 ==> decimal(n).len() == 1,
        n > 0 ==> decimal(n)[0] != '0',
        signed_decimal(n as int) == decimal(n),
        n > 0 ==> signed_decimal(-(n as int)) == seq!['-'] + decimal(n),
    decreases n,
{
    if n >= 10 {
        decimals_stand_for_their_number(n / 10);
        assert(decimal(n).drop_last() =~= decimal(n / 10));
        assert(decimal(n)[0] == decimal(n / 10)[0]);
    }
}

proof fn lemma_decimal_digits(n: nat)
    ensures
        decimal(n).len() >= 1,
        all_digits(decimal(n)),
        digits_value(decimal(n)) == n,
    decreases n,
{
    if n < 10 {
        let d = decimal(n);
        assert(d.drop_last() =~= Seq::empty());
        assert(digits_value(d.drop_last()) == 0);
    } else {
        lemma_decimal_digits(n / 10);
        let d = decimal(n);
        assert(d.drop_last() =~= decimal(n / 10));
        assert forall|i: int| 0 <= i < d.len() implies '0' <= #[trigger] d[i] <= '9' by {
            if i < d.len() - 1 {
                assert(d.drop_last()[i] == d[i]);
            }
        }
    }
}

/// A number is read back from its decimal digits, with or without a plus sign, unless
/// it is too large.
pub proof fn numbers_are_read_back(n: nat, max: nat)
    ensures
        n <= max ==> parsed_number(decimal(n), max) == Some(n),
        n > max ==> parsed_number(decimal(n), max) is None,
        n <= max ==> parsed_number(seq!['+'] + decimal(n), max) == Some(n),
{
    lemma_decimal_digits(n);
    let d = decimal(n);
    assert('0' <= d[0] <= '9');
    assert((seq!['+'] + d).skip(1) =~= d);
}

/// A text with a character that is no digit, other than one plus sign in front, stands
/// for no number, and neither does one without a digit.
pub proof fn other_texts_are_no_numbers(s: Seq<char>, max: nat, i: int)
    ensures
        0 <= i < s.len() && !(48 <= s[i] as nat <= 57) && !(i == 0 && s[i] == '+')
            ==> parsed_number(s, max) is None,
        s.len() == 0 ==> parsed_number(s, max) is None,
        s.len() == 1 && s[0] == '+' ==> parsed_number(s, max) is None,
{
    if 0 <= i < s.len() && !(48 <= s[i] as nat <= 57) && !(i == 0 && s[i] == '+') {
        if s[0] == '+' {
            assert(s.skip(1)[i - 1] == s[i]);
        }
    }
}

/// A number below zero is written with a minus sign before its opposite.
pub proof fn negative_numbers_have_a_minus_sign(n: nat)
    ensures
        n > 0 ==> signed_decimal(-(n as int)) == seq!['-'] + decimal(n),
        signed_decimal(n as int) == decimal(n),
{
}

/// A text is ASCII exactly where every character is below code 128.
pub proof fn ascii_ends_at_127(s: Seq<char>, i: int, c: char)
    requires
        0 <= i < s.len(),
        c == s[i],
    ensures
        ascii(s) ==> c as u32 <= 127,
        s.len() == 1 && c as u32 <= 127 ==> ascii(s),
        ascii(s) <==> ascii(s.take(i)) && ascii(s.skip(i)),
{
    let (a, b) = (s.take(i), s.skip(i));
    if ascii(s) {
        assert forall|k: int| 0 <= k < a.len() implies #[trigger] a[k] <= '\u{7f}' by {
            assert(a[k] == s[k]);
        }
        assert forall|k: int| 0 <= k < b.len() implies #[trigger] b[k] <= '\u{7f}' by {
            assert(b[k] == s[i + k]);
        }
    }
    if ascii(a) && ascii(b) {
        assert forall|k: int| 0 <= k < s.len() implies #[trigger] s[k] <= '\u{7f}' by {
            if k < i {
                assert(a[k] == s[k]);
            } else {
                assert(b[k - i] == s[k]);
            }
        }
    }
}

} // verus!
