//! Text: the character-level functions that the parsers and the rule engine
//! share, each stated over the sequence of characters that a string holds.

use vstd::prelude::*;
use vstd::utf8::{decode_utf8, valid_utf8};

verus! {

/// `String::push` appends one character.
pub assume_specification[ String::push ](s: &mut String, c: char)
    ensures
        final(s)@ == old(s)@.push(c),
;

/// `==` on two string slices compares their characters.
pub assume_specification[ <str as PartialEq>::eq ](a: &str, b: &str) -> (r: bool)
    ensures
        r == (a@ == b@),
;

/// The views of a list of literals.
pub open spec fn str_views(v: Seq<&'static str>) -> Seq<Seq<char>> {
    v.map_values(|s: &'static str| s@)
}

/// The views of a list of strings.
pub open spec fn texts(v: Seq<String>) -> Seq<Seq<char>> {
    v.map_values(|s: String| s@)
}

/// The decimal digit `d` as a character.
pub open spec fn digit(d: nat) -> char {
    (48 + d) as char
}

/// The decimal numeral of `n`, without leading zeros.
pub open spec fn dec(n: nat) -> Seq<char>
    decreases n,
{
    if n < 10 {
        seq![digit(n)]
    } else {
        dec(n / 10).push(digit(n % 10))
    }
}

/// The decimal numeral of `n`, with a leading `-` where it is negative.
pub open spec fn dec_int(n: int) -> Seq<char> {
    if n < 0 {
        seq!['-'] + dec((-n) as nat)
    } else {
        dec(n as nat)
    }
}

/// The lower-case hexadecimal digit `d` as a character.
pub open spec fn hex_digit(d: nat) -> char {
    if d < 10 {
        (48 + d) as char
    } else {
        (87 + d) as char
    }
}

/// Two hexadecimal digits per byte, the high one first.
pub open spec fn hex(bytes: Seq<u8>) -> Seq<char>
    decreases bytes.len(),
{
    if bytes.len() == 0 {
        seq![]
    } else {
        hex(bytes.drop_last()) + seq![
            hex_digit((bytes.last() / 16) as nat),
            hex_digit((bytes.last() % 16) as nat),
        ]
    }
}

/// The ASCII lower case of one character.
pub open spec fn ascii_lower(c: char) -> char {
    if 'A' <= c <= 'Z' {
        (c as u32 + 32) as char
    } else {
        c
    }
}

/// The capital letter of a small ASCII letter; any other character as it is.
pub open spec fn ascii_upper(c: char) -> char {
    if 'a' <= c && c <= 'z' {
        ((c as int) - 32) as char
    } else {
        c
    }
}

/// Whether a character is an ASCII letter, an ASCII digit or an underscore.
pub open spec fn is_ascii_word(c: char) -> bool {
    ('a' <= c && c <= 'z') || ('A' <= c && c <= 'Z') || ('0' <= c && c <= '9') || c == '_'
}

/// The ASCII lower case of a text.
pub open spec fn ascii_lower_all(s: Seq<char>) -> Seq<char> {
    s.map_values(|c: char| ascii_lower(c))
}

/// Whether two texts are equal up to ASCII case.
pub open spec fn same_ignoring_ascii_case(a: Seq<char>, b: Seq<char>) -> bool {
    ascii_lower_all(a) == ascii_lower_all(b)
}

/// The texts of `parts`, with `sep` between each two.
pub open spec fn joined(parts: Seq<Seq<char>>, sep: Seq<char>) -> Seq<char>
    decreases parts.len(),
{
    if parts.len() == 0 {
        seq![]
    } else if parts.len() == 1 {
        parts[0]
    } else {
        joined(parts.drop_last(), sep) + sep + parts.last()
    }
}

/// Whether `needle` stands in `hay` at position `at`.
pub open spec fn occurs_at(hay: Seq<char>, needle: Seq<char>, at: int) -> bool {
    &&& 0 <= at
    &&& at + needle.len() <= hay.len()
    &&& hay.subrange(at, at + needle.len()) == needle
}

/// Whether `needle` stands anywhere in `hay`.
pub open spec fn occurs_in(hay: Seq<char>, needle: Seq<char>) -> bool {
    exists|at: int| #[trigger] occurs_at(hay, needle, at)
}

/// Whether `hay` ends in `needle`.
pub open spec fn ends_with(hay: Seq<char>, needle: Seq<char>) -> bool {
    occurs_at(hay, needle, hay.len() - needle.len())
}

/// Whether `a` comes before `b` in the lexicographic order by code point,
/// the order of strings.
pub open spec fn text_lt(a: Seq<char>, b: Seq<char>) -> bool
    decreases a.len(),
{
    if b.len() == 0 {
        false
    } else if a.len() == 0 {
        true
    } else if a[0] != b[0] {
        a[0] < b[0]
    } else {
        text_lt(a.drop_first(), b.drop_first())
    }
}

/// Whether two texts are equal.
pub fn same(a: &str, b: &str) -> (r: bool)
    ensures
        r == (a@ == b@),
{
    *a == *b
}

/// The characters of `s`.
pub fn chars_of(s: &str) -> (v: Vec<char>)
    ensures
        v@ == s@,
{
    let mut v: Vec<char> = Vec::new();
    for c in it: s.chars()
        invariant
            it.seq() == s@,
            v@ == s@.take(it.index() as int),
    {
        v.push(c);
    }
    v
}

/// The string of `v[from..to]`.
pub fn string_of(v: &Vec<char>, from: usize, to: usize) -> (s: String)
    requires
        from <= to <= v.len(),
    ensures
        s@ == v@.subrange(from as int, to as int),
{
    let mut s = String::new();
    let mut i: usize = from;
    while i < to
        invariant
            from <= i <= to <= v.len(),
            s@ == v@.subrange(from as int, i as int),
        decreases to - i,
    {
        s.push(v[i]);
        i += 1;
    }
    s
}

/// The decimal numeral of `n`.
pub fn dec_u64(n: u64) -> (s: String)
    ensures
        s@ == dec(n as nat),
    decreases n,
{
    let low: u8 = (n % 10) as u8;
    let mut s = if n < 10 {
        String::new()
    } else {
        dec_u64(n / 10)
    };
    s.push((48 + low) as char);
    s
}

/// The decimal numeral of `n`, signed.
pub fn dec_i64(n: i64) -> (s: String)
    ensures
        s@ == dec_int(n as int),
{
    if n < 0 {
        let mut s = String::new();
        s.push('-');
        let m: u64 = (-(n + 1)) as u64 + 1;
        let digits = dec_u64(m);
        s.append(digits.as_str());
        s
    } else {
        dec_u64(n as u64)
    }
}

fn hex_char(d: u8) -> (c: char)
    requires
        d < 16,
    ensures
        c == hex_digit(d as nat),
{
    if d < 10 {
        (48 + d) as char
    } else {
        (87 + d) as char
    }
}

/// Two lower-case hexadecimal digits for each byte.
pub fn hex_encode(bytes: &[u8]) -> (s: String)
    ensures
        s@ == hex(bytes@),
{
    let mut s = String::new();
    let mut i: usize = 0;
    while i < bytes.len()
        invariant
            i <= bytes.len(),
            s@ == hex(bytes@.take(i as int)),
        decreases bytes.len() - i,
    {
        let b: u8 = bytes[i];
        proof {
            let next = bytes@.take(i + 1);
            assert(next.drop_last() == bytes@.take(i as int));
            assert(next.last() == b);
        }
        s.push(hex_char(b / 16));
        s.push(hex_char(b % 16));
        assert(s@ == hex(bytes@.take(i as int)) + seq![
            hex_digit((b / 16) as nat),
            hex_digit((b % 16) as nat),
        ]);
        i += 1;
    }
    assert(bytes@.take(i as int) == bytes@);
    s
}

/// The ASCII lower case of one character.
pub fn lower_char(c: char) -> (r: char)
    ensures
        r == ascii_lower(c),
{
    if 'A' <= c && c <= 'Z' {
        ((c as u8) + 32) as char
    } else {
        c
    }
}

/// The capital letter of a small ASCII letter; any other character as it is.
pub fn upper_char(c: char) -> (r: char)
    ensures
        r == ascii_upper(c),
{
    if 'a' <= c && c <= 'z' {
        ((c as u8) - 32) as char
    } else {
        c
    }
}

/// Whether a character is an ASCII letter, an ASCII digit or an underscore.
pub fn ascii_word(c: char) -> (r: bool)
    ensures
        r == is_ascii_word(c),
{
    ('a' <= c && c <= 'z') || ('A' <= c && c <= 'Z') || ('0' <= c && c <= '9') || c == '_'
}

/// Whether two texts are equal up to ASCII case.
pub fn eq_ignore_ascii_case(a: &str, b: &str) -> (r: bool)
    ensures
        r == same_ignoring_ascii_case(a@, b@),
{
    let x = chars_of(a);
    let y = chars_of(b);
    if x.len() != y.len() {
        assert(ascii_lower_all(a@).len() != ascii_lower_all(b@).len());
        return false;
    }
    let mut i: usize = 0;
    while i < x.len()
        invariant
            i <= x.len(),
            x.len() == y.len(),
            x@ == a@,
            y@ == b@,
            forall|j: int| 0 <= j < i ==> ascii_lower(a@[j]) == ascii_lower(b@[j]),
        decreases x.len() - i,
    {
        if lower_char(x[i]) != lower_char(y[i]) {
            assert(ascii_lower_all(a@)[i as int] != ascii_lower_all(b@)[i as int]);
            return false;
        }
        i += 1;
    }
    assert(ascii_lower_all(a@) =~= ascii_lower_all(b@));
    true
}

/// The texts of `parts`, with `sep` between each two.
pub fn join(parts: &Vec<String>, sep: &str) -> (r: String)
    ensures
        r@ == joined(texts(parts@), sep@),
{
    let mut r = String::new();
    let mut i: usize = 0;
    while i < parts.len()
        invariant
            i <= parts.len(),
            r@ == joined(texts(parts@).take(i as int), sep@),
        decreases parts.len() - i,
    {
        proof {
            let next = texts(parts@).take(i + 1);
            assert(next.drop_last() == texts(parts@).take(i as int));
            assert(next.last() == parts@[i as int]@);
            if i == 0 {
                assert(r@ + parts@[i as int]@ == parts@[i as int]@);
            }
        }
        if i > 0 {
            r.append(sep);
        }
        r.append(parts[i].as_str());
        i += 1;
    }
    assert(texts(parts@).take(i as int) == texts(parts@));
    r
}

/// Whether `needle` stands in `hay` at position `at`.
pub fn matches_at(hay: &Vec<char>, needle: &Vec<char>, at: usize) -> (r: bool)
    requires
        at <= hay.len(),
    ensures
        r == occurs_at(hay@, needle@, at as int),
{
    if needle.len() > hay.len() - at {
        return false;
    }
    let mut i: usize = 0;
    while i < needle.len()
        invariant
            i <= needle.len(),
            at + needle.len() <= hay.len(),
            forall|j: int| 0 <= j < i ==> hay@[at + j] == needle@[j],
        decreases needle.len() - i,
    {
        if hay[at + i] != needle[i] {
            assert(hay@.subrange(at as int, at + needle@.len())[i as int] != needle@[i as int]);
            return false;
        }
        i += 1;
    }
    assert(hay@.subrange(at as int, at + needle@.len()) =~= needle@);
    true
}

/// Whether `needle` stands anywhere in `hay`.
pub fn contains(hay: &str, needle: &str) -> (r: bool)
    ensures
        r == occurs_in(hay@, needle@),
{
    let h = chars_of(hay);
    let n = chars_of(needle);
    let mut at: usize = 0;
    loop
        invariant
            at <= h.len(),
            h@ == hay@,
            n@ == needle@,
            forall|j: int| 0 <= j < at ==> !#[trigger] occurs_at(hay@, needle@, j),
        decreases h.len() - at,
    {
        if matches_at(&h, &n, at) {
            return true;
        }
        if at == h.len() {
            return false;
        }
        at += 1;
    }
}

/// Whether `hay` ends in `needle`.
pub fn has_suffix(hay: &str, needle: &str) -> (r: bool)
    ensures
        r == ends_with(hay@, needle@),
{
    let h = chars_of(hay);
    let n = chars_of(needle);
    if n.len() > h.len() {
        return false;
    }
    matches_at(&h, &n, h.len() - n.len())
}

/// Whether `a` comes before `b` in the order of strings.
pub fn text_less(a: &str, b: &str) -> (r: bool)
    ensures
        r == text_lt(a@, b@),
{
    let x = chars_of(a);
    let y = chars_of(b);
    let mut i: usize = 0;
    assert(a@.skip(0) == a@ && b@.skip(0) == b@);
    while i < x.len() && i < y.len()
        invariant
            i <= x.len(),
            i <= y.len(),
            x@ == a@,
            y@ == b@,
            text_lt(a@, b@) == text_lt(a@.skip(i as int), b@.skip(i as int)),
        decreases x.len() - i,
    {
        proof {
            assert(a@.skip(i as int).drop_first() == a@.skip(i + 1));
            assert(b@.skip(i as int).drop_first() == b@.skip(i + 1));
        }
        if x[i] != y[i] {
            return x[i] < y[i];
        }
        i += 1;
    }
    i < y.len()
}

/// The order of strings is irreflexive, transitive and total.
pub proof fn lemma_text_order(a: Seq<char>, b: Seq<char>, c: Seq<char>)
    ensures
        !text_lt(a, a),
        text_lt(a, b) && text_lt(b, c) ==> text_lt(a, c),
        text_lt(a, b) || text_lt(b, a) || a == b,
        !(text_lt(a, b) && text_lt(b, a)),
    decreases a.len(),
{
    if a.len() > 0 {
        lemma_text_order(a.drop_first(), a.drop_first(), a.drop_first());
        if b.len() > 0 {
            let a1 = a.drop_first();
            let b1 = b.drop_first();
            lemma_text_order(a1, b1, if c.len() > 0 { c.drop_first() } else { c });
            if a[0] == b[0] && a1 == b1 {
                assert(a == seq![a[0]] + a1);
                assert(b == seq![b[0]] + b1);
            }
        }
    } else if b.len() == 0 {
        assert(a == b);
    }
}

/// The hexadecimal numeral of `n`, without leading zeros.
pub open spec fn hex_numeral(n: nat) -> Seq<char>
    decreases n,
{
    if n < 16 {
        seq![hex_digit(n)]
    } else {
        hex_numeral(n / 16).push(hex_digit(n % 16))
    }
}

/// The hexadecimal numeral of `n` behind `0x`.
pub open spec fn prefixed_hex(n: nat) -> Seq<char> {
    "0x"@ + hex_numeral(n)
}

fn hex_u64(n: u64) -> (s: String)
    ensures
        s@ == hex_numeral(n as nat),
    decreases n,
{
    let mut s = if n < 16 {
        String::new()
    } else {
        hex_u64(n / 16)
    };
    s.push(hex_char((n % 16) as u8));
    s
}

/// The hexadecimal numeral of `n` behind `0x`.
pub fn prefixed_hex_u64(n: u64) -> (s: String)
    ensures
        s@ == prefixed_hex(n as nat),
{
    let mut s = "0x".to_owned();
    s.append(hex_u64(n).as_str());
    s
}

/// How a text is written by std's `Debug`: in quotes, with escapes.
pub uninterp spec fn debug_quoted(s: Seq<char>) -> Seq<char>;

/// `format!` with `{:?}` on a string; which escapes the result holds is left
/// to the name.
#[verifier::external_body]
pub(crate) fn quote_debug(s: &str) -> (r: String)
    ensures
        r@ == debug_quoted(s@),
{
    format!("{s:?}")
}

/// The text of a byte string in which what is not valid UTF-8 is replaced, as
/// `String::from_utf8_lossy` does it.
pub uninterp spec fn lossy_text(b: Seq<u8>) -> Seq<char>;

/// `String::from_utf8_lossy`. Valid UTF-8 is decoded unchanged; how many
/// replacement characters stand for an invalid stretch is left to the name.
#[verifier::external_body]
pub(crate) fn decode_lossy(bytes: &[u8]) -> (r: String)
    ensures
        r@ == lossy_text(bytes@),
        valid_utf8(bytes@) ==> r@ == decode_utf8(bytes@),
{
    String::from_utf8_lossy(bytes).into_owned()
}

/// The position of the first `c` in `s`, or the length of `s`.
pub open spec fn first_index(s: Seq<char>, c: char) -> int
    decreases s.len(),
{
    if s.len() == 0 || s[0] == c {
        0
    } else {
        1 + first_index(s.drop_first(), c)
    }
}

/// The parts of `s` before and behind the first `c`.
pub open spec fn split_at_first(s: Seq<char>, c: char) -> Option<(Seq<char>, Seq<char>)> {
    let i = first_index(s, c);
    if i < s.len() {
        Some((s.take(i), s.skip(i + 1)))
    } else {
        None
    }
}

/// Where the first `c` is.
pub proof fn lemma_first_index(s: Seq<char>, c: char)
    ensures
        0 <= first_index(s, c) <= s.len(),
        first_index(s, c) < s.len() ==> s[first_index(s, c)] == c,
        forall|i: int| 0 <= i < first_index(s, c) ==> s[i] != c,
    decreases s.len(),
{
    if s.len() > 0 && s[0] != c {
        lemma_first_index(s.drop_first(), c);
        assert forall|i: int| 0 <= i < first_index(s, c) implies s[i] != c by {
            if i > 0 {
                assert(s[i] == s.drop_first()[i - 1]);
            }
        }
    }
}

/// The position of the first `c` in `v`, or the length of `v`.
pub fn find_char(v: &Vec<char>, c: char) -> (i: usize)
    ensures
        i == first_index(v@, c),
        i <= v.len(),
{
    let mut i: usize = 0;
    assert(v@.skip(0) == v@);
    while i < v.len()
        invariant
            i <= v.len(),
            first_index(v@, c) == i + first_index(v@.skip(i as int), c),
        decreases v.len() - i,
    {
        proof {
            assert(v@.skip(i as int)[0] == v@[i as int]);
            assert(v@.skip(i as int).drop_first() == v@.skip(i + 1));
        }
        if v[i] == c {
            return i;
        }
        i += 1;
    }
    i
}

/// The parts of `s` before and behind the first `c`.
pub fn split_once(s: &str, c: char) -> (r: Option<(String, String)>)
    ensures
        match r {
            Some((a, b)) => split_at_first(s@, c) == Some((a@, b@)),
            None => split_at_first(s@, c) is None,
        },
{
    let v = chars_of(s);
    let i: usize = find_char(&v, c);
    if i < v.len() {
        let a = string_of(&v, 0, i);
        let b = string_of(&v, i + 1, v.len());
        proof {
            assert(a@ == s@.take(i as int));
            assert(b@ == s@.skip(i + 1));
        }
        Some((a, b))
    } else {
        None
    }
}

/// The value of a non-empty string of decimal digits.
pub open spec fn numeral(s: Seq<char>) -> Option<nat>
    decreases s.len(),
{
    if s.len() == 0 || !('0' <= s.last() <= '9') {
        None
    } else if s.len() == 1 {
        Some((s.last() as int - 48) as nat)
    } else {
        match numeral(s.drop_last()) {
            Some(n) => Some(10 * n + (s.last() as int - 48) as nat),
            None => None,
        }
    }
}

/// The value of the decimal digits `v[from..]`; a value over `u64::MAX` is
/// reported as some value over `u64::MAX`.
pub fn parse_digits(v: &Vec<char>, from: usize) -> (r: Option<u128>)
    requires
        from <= v.len(),
    ensures
        match r {
            Some(n) => {
                &&& numeral(v@.skip(from as int)) is Some
                &&& n <= u64::MAX ==> numeral(v@.skip(from as int)) == Some(n as nat)
                &&& n > u64::MAX ==> numeral(v@.skip(from as int))->0 > u64::MAX
            },
            None => numeral(v@.skip(from as int)) is None,
        },
{
    let ghost s = v@.skip(from as int);
    if from == v.len() {
        return None;
    }
    let mut n: u128 = 0;
    let mut i: usize = from;
    while i < v.len()
        invariant
            from <= i <= v.len(),
            from < v.len(),
            s == v@.skip(from as int),
            n <= u64::MAX + 1,
            i == from ==> n == 0,
            i > from ==> numeral(s.take(i - from)) is Some,
            i > from && n <= u64::MAX ==> numeral(s.take(i - from)) == Some(n as nat),
            i > from && n > u64::MAX ==> numeral(s.take(i - from))->0 > u64::MAX,
        decreases v.len() - i,
    {
        let c: char = v[i];
        proof {
            let next = s.take(i + 1 - from);
            assert(next.last() == c);
            assert(next.drop_last() == s.take(i - from));
        }
        if !('0' <= c && c <= '9') {
            proof {
                lemma_numeral_prefix(s, i + 1 - from);
            }
            return None;
        }
        let d: u8 = c as u8 - 48;
        n = n * 10 + d as u128;
        if n > u64::MAX as u128 {
            n = u64::MAX as u128 + 1;
        }
        i += 1;
    }
    assert(s.take(i - from) == s);
    Some(n)
}

/// Where a part from the start is no numeral, the whole is none.
proof fn lemma_numeral_prefix(s: Seq<char>, n: int)
    requires
        0 < n <= s.len(),
        numeral(s.take(n)) is None,
    ensures
        numeral(s) is None,
    decreases s.len(),
{
    if n == s.len() {
        assert(s.take(n) == s);
    } else {
        assert(s.drop_last().take(n) == s.take(n));
        lemma_numeral_prefix(s.drop_last(), n);
    }
}

/// The number that a text is, as an unsigned integer with an optional plus
/// sign.
pub open spec fn parsed_u64(s: Seq<char>) -> Option<u64> {
    let digits = if s.len() > 0 && s[0] == '+' {
        s.skip(1)
    } else {
        s
    };
    match numeral(digits) {
        Some(n) => if n <= u64::MAX {
            Some(n as u64)
        } else {
            None
        },
        None => None,
    }
}

/// The number that a text is, as an unsigned integer with an optional plus
/// sign.
pub fn parse_u64(s: &str) -> (r: Option<u64>)
    ensures
        r == parsed_u64(s@),
{
    let v = chars_of(s);
    let from: usize = if v.len() > 0 && v[0] == '+' {
        1
    } else {
        0
    };
    assert(v@.skip(0) == v@);
    match parse_digits(&v, from) {
        Some(n) => if n <= u64::MAX as u128 {
            Some(n as u64)
        } else {
            None
        },
        None => None,
    }
}

/// The number that a text of decimal digits is, as a 32-bit unsigned integer.
pub open spec fn digits_u32(s: Seq<char>) -> Option<u32> {
    match numeral(s) {
        Some(n) => if n <= u32::MAX {
            Some(n as u32)
        } else {
            None
        },
        None => None,
    }
}

/// The number that the decimal digits `v[from..]` are, as a 32-bit unsigned integer.
pub fn parse_digits_u32(v: &Vec<char>, from: usize) -> (r: Option<u32>)
    requires
        from <= v.len(),
    ensures
        r == digits_u32(v@.skip(from as int)),
{
    match parse_digits(v, from) {
        Some(n) => if n <= u32::MAX as u128 {
            Some(n as u32)
        } else {
            None
        },
        None => None,
    }
}

/// The parts of `s` between the occurrences of `c`.
pub open spec fn split_on(s: Seq<char>, c: char) -> Seq<Seq<char>>
    decreases s.len(),
{
    let i = first_index(s, c);
    if 0 <= i < s.len() {
        seq![s.take(i)] + split_on(s.skip(i + 1), c)
    } else {
        seq![s]
    }
}

/// The parts of `s` between the occurrences of `c`.
pub fn split(s: &str, c: char) -> (r: Vec<String>)
    ensures
        texts(r@) == split_on(s@, c),
{
    let v = chars_of(s);
    let ghost whole = s@;
    let mut r: Vec<String> = Vec::new();
    let mut from: usize = 0;
    let mut i: usize = 0;
    proof {
        assert(texts(r@) =~= seq![]);
        assert(whole.skip(0) == whole);
        assert(seq![] + split_on(whole, c) =~= split_on(whole, c));
    }
    while i < v.len()
        invariant
            v@ == whole,
            whole == s@,
            from <= i <= v.len(),
            forall|k: int| from <= k < i ==> whole[k] != c,
            split_on(whole, c) == texts(r@) + split_on(whole.skip(from as int), c),
        decreases v.len() - i,
    {
        if v[i] == c {
            let ghost before = r@;
            let part = string_of(&v, from, i);
            r.push(part);
            proof {
                let rest = whole.skip(from as int);
                lemma_first_index_is(rest, c, i - from);
                assert(rest.take(i - from) == part@);
                assert(rest.skip(i - from + 1) == whole.skip(i + 1));
                assert(texts(r@) =~= texts(before).push(part@));
                assert(texts(before) + (seq![part@] + split_on(whole.skip(i + 1), c)) =~= texts(r@)
                    + split_on(whole.skip(i + 1), c));
            }
            from = i + 1;
        }
        i += 1;
    }
    let ghost before = r@;
    let part = string_of(&v, from, v.len());
    r.push(part);
    proof {
        let rest = whole.skip(from as int);
        lemma_first_index(rest, c);
        assert(part@ == rest);
        assert(texts(r@) =~= texts(before).push(part@));
        assert(texts(before) + seq![part@] =~= texts(r@));
        if first_index(rest, c) < rest.len() {
            assert(whole[from + first_index(rest, c)] == c);
        }
    }
    r
}

/// The first `c` is where it stands and does not stand before.
proof fn lemma_first_index_is(s: Seq<char>, c: char, i: int)
    requires
        0 <= i < s.len(),
        s[i] == c,
        forall|k: int| 0 <= k < i ==> s[k] != c,
    ensures
        first_index(s, c) == i,
{
    lemma_first_index(s, c);
    let j = first_index(s, c);
    if j < i {
        assert(s[j] == c);
    }
}

/// The text that a byte string encodes, where it is valid UTF-8.
pub open spec fn utf8_view(b: Seq<u8>) -> Option<Seq<char>> {
    if valid_utf8(b) {
        Some(decode_utf8(b))
    } else {
        None
    }
}

/// `std::str::from_utf8`: the text that the bytes encode, where they are valid
/// UTF-8.
#[verifier::external_body]
pub(crate) fn utf8_string(bytes: &[u8]) -> (r: Option<String>)
    ensures
        match r {
            Some(s) => utf8_view(bytes@) == Some(s@),
            None => utf8_view(bytes@) is None,
        },
{
    std::str::from_utf8(bytes).ok().map(str::to_string)
}

/// The number that a text is, as a signed 64-bit integer with an optional sign.
pub open spec fn parsed_i64(s: Seq<char>) -> Option<i64> {
    let signed = s.len() > 0 && (s[0] == '+' || s[0] == '-');
    let digits = if signed {
        s.skip(1)
    } else {
        s
    };
    match numeral(digits) {
        Some(n) => if signed && s[0] == '-' {
            if n <= 0x8000_0000_0000_0000 {
                Some((-n) as i64)
            } else {
                None
            }
        } else if n <= i64::MAX {
            Some(n as i64)
        } else {
            None
        },
        None => None,
    }
}

/// The number that a text is, as a signed 64-bit integer with an optional sign.
pub fn parse_i64(s: &str) -> (r: Option<i64>)
    ensures
        r == parsed_i64(s@),
{
    let v = chars_of(s);
    let signed: bool = v.len() > 0 && (v[0] == '+' || v[0] == '-');
    let from: usize = if signed {
        1
    } else {
        0
    };
    assert(v@.skip(0) == v@);
    match parse_digits(&v, from) {
        Some(n) => if signed && v[0] == '-' {
            if n <= 0x8000_0000_0000_0000 {
                Some((-(n as i128)) as i64)
            } else {
                None
            }
        } else if n <= i64::MAX as u128 {
            Some(n as i64)
        } else {
            None
        },
        None => None,
    }
}

/// The position of the last `c` in `s`, or -1.
pub open spec fn last_index(s: Seq<char>, c: char) -> int
    decreases s.len(),
{
    if s.len() == 0 {
        -1
    } else if s.last() == c {
        s.len() - 1
    } else {
        last_index(s.drop_last(), c)
    }
}

/// The extension of a file name: what stands behind its last dot, if that is
/// not its first character.
pub open spec fn extension_of(name: Seq<char>) -> Option<Seq<char>> {
    let i = last_index(name, '.');
    if i <= 0 || name == ".."@ {
        None
    } else {
        Some(name.skip(i + 1))
    }
}

/// One more than the position of the last `c`; 0 where there is none.
pub fn find_last(v: &Vec<char>, c: char) -> (i: usize)
    ensures
        i == last_index(v@, c) + 1,
        i <= v.len(),
{
    let mut i: usize = v.len();
    assert(v@.take(i as int) == v@);
    while i > 0 && v[i - 1] != c
        invariant
            i <= v.len(),
            last_index(v@, c) == last_index(v@.take(i as int), c),
        decreases i,
    {
        proof {
            assert(v@.take(i as int).drop_last() == v@.take(i - 1));
            assert(v@.take(i as int).last() == v@[i - 1]);
        }
        i -= 1;
    }
    proof {
        if i > 0 {
            assert(v@.take(i as int).last() == v@[i - 1]);
        }
    }
    i
}

fn extension(name: &str) -> (r: Option<String>)
    ensures
        match r {
            Some(ext) => extension_of(name@) == Some(ext@),
            None => extension_of(name@) is None,
        },
{
    if same(name, "..") {
        return None;
    }
    let v = chars_of(name);
    let i: usize = find_last(&v, '.');
    if i <= 1 {
        return None;
    }
    let rest = string_of(&v, i, v.len());
    assert(rest@ == name@.skip(i as int));
    Some(rest)
}

/// Whether the extension of a file name is `ext`.
pub fn has_extension(name: &str, ext: &str) -> (r: bool)
    ensures
        r == (extension_of(name@) == Some(ext@)),
{
    match extension(name) {
        Some(found) => same(found.as_str(), ext),
        None => false,
    }
}

/// Whether the extension of a file name is `ext`, but for the case of ASCII
/// letters.
pub fn has_extension_ignoring_case(name: &str, ext: &str) -> (r: bool)
    ensures
        r == (match extension_of(name@) {
            Some(found) => same_ignoring_ascii_case(found, ext@),
            None => false,
        }),
{
    match extension(name) {
        Some(found) => eq_ignore_ascii_case(found.as_str(), ext),
        None => false,
    }
}

/// Whether a character has the Unicode property `White_Space`.
pub open spec fn is_white(c: char) -> bool {
    let n = c as int;
    ||| 0x09 <= n <= 0x0d
    ||| n == 0x20
    ||| n == 0x85
    ||| n == 0xa0
    ||| n == 0x1680
    ||| 0x2000 <= n <= 0x200a
    ||| n == 0x2028
    ||| n == 0x2029
    ||| n == 0x202f
    ||| n == 0x205f
    ||| n == 0x3000
}

/// `char::is_whitespace` says which characters have the property `White_Space`.
pub assume_specification[ char::is_whitespace ](c: char) -> (r: bool)
    ensures
        r == is_white(c),
;

/// `s` without the white space at its beginning.
pub open spec fn trimmed_start(s: Seq<char>) -> Seq<char>
    decreases s.len(),
{
    if s.len() > 0 && is_white(s[0]) {
        trimmed_start(s.drop_first())
    } else {
        s
    }
}

/// `s` without the white space at its end.
pub open spec fn trimmed_end(s: Seq<char>) -> Seq<char>
    decreases s.len(),
{
    if s.len() > 0 && is_white(s.last()) {
        trimmed_end(s.drop_last())
    } else {
        s
    }
}

/// `s` without the white space at its two ends.
pub open spec fn trimmed(s: Seq<char>) -> Seq<char> {
    trimmed_end(trimmed_start(s))
}

/// `s` without the white space at its two ends.
pub fn trim(s: &str) -> (r: String)
    ensures
        r@ == trimmed(s@),
{
    let v = chars_of(s);
    let mut from: usize = 0;
    assert(v@.skip(0) == v@);
    while from < v.len() && v[from].is_whitespace()
        invariant
            from <= v.len(),
            v@ == s@,
            trimmed_start(s@) == trimmed_start(s@.skip(from as int)),
        decreases v.len() - from,
    {
        proof {
            assert(s@.skip(from as int)[0] == s@[from as int]);
            assert(s@.skip(from as int).drop_first() == s@.skip(from + 1));
        }
        from += 1;
    }
    let ghost rest = s@.skip(from as int);
    proof {
        if from < v.len() {
            assert(rest[0] == s@[from as int]);
        }
        assert(trimmed_start(s@) == rest);
    }
    let mut to: usize = v.len();
    assert(rest.take(to - from) == rest);
    while to > from && v[to - 1].is_whitespace()
        invariant
            from <= to <= v.len(),
            v@ == s@,
            rest == s@.skip(from as int),
            trimmed_end(rest) == trimmed_end(rest.take(to - from)),
        decreases to,
    {
        proof {
            let here = rest.take(to - from);
            assert(here.last() == s@[to - 1]);
            assert(here.drop_last() == rest.take(to - 1 - from));
        }
        to -= 1;
    }
    proof {
        let here = rest.take(to - from);
        if to > from {
            assert(here.last() == s@[to - 1]);
        }
        assert(trimmed_end(rest) == here);
        assert(here == v@.subrange(from as int, to as int));
    }
    string_of(&v, from, to)
}

/// The lines of a text: what stands between line feeds, without a carriage
/// return before the line feed. What stands behind the last line feed is a line
/// only where it is not empty.
pub open spec fn lines_of(s: Seq<char>) -> Seq<Seq<char>>
    decreases s.len(),
{
    let i = first_index(s, '\n');
    if s.len() == 0 {
        seq![]
    } else if 0 <= i < s.len() {
        let line = s.take(i);
        let stripped = if line.len() > 0 && line.last() == '\r' {
            line.drop_last()
        } else {
            line
        };
        seq![stripped] + lines_of(s.skip(i + 1))
    } else {
        seq![s]
    }
}

/// The lines of a text.
pub fn lines(s: &str) -> (r: Vec<String>)
    ensures
        texts(r@) == lines_of(s@),
{
    let v = chars_of(s);
    let ghost whole = s@;
    let mut r: Vec<String> = Vec::new();
    let mut from: usize = 0;
    let mut i: usize = 0;
    proof {
        assert(texts(r@) =~= seq![]);
        assert(whole.skip(0) == whole);
        assert(seq![] + lines_of(whole) =~= lines_of(whole));
    }
    while i < v.len()
        invariant
            v@ == whole,
            whole == s@,
            from <= i <= v.len(),
            forall|k: int| from <= k < i ==> whole[k] != '\n',
            lines_of(whole) == texts(r@) + lines_of(whole.skip(from as int)),
        decreases v.len() - i,
    {
        if v[i] == '\n' {
            let ghost before = r@;
            let end: usize = if i > from && v[i - 1] == '\r' {
                i - 1
            } else {
                i
            };
            let line = string_of(&v, from, end);
            r.push(line);
            proof {
                let rest = whole.skip(from as int);
                lemma_first_index_is(rest, '\n', i - from);
                let full = rest.take(i - from);
                assert(full == whole.subrange(from as int, i as int));
                if i > from {
                    assert(full.last() == whole[i - 1]);
                    assert(full.drop_last() =~= whole.subrange(from as int, i - 1));
                }
                assert(rest.skip(i - from + 1) == whole.skip(i + 1));
                assert(texts(r@) =~= texts(before).push(line@));
                assert(texts(before) + (seq![line@] + lines_of(whole.skip(i + 1))) =~= texts(r@)
                    + lines_of(whole.skip(i + 1)));
            }
            from = i + 1;
        }
        i += 1;
    }
    let ghost before = r@;
    proof {
        let rest = whole.skip(from as int);
        lemma_first_index(rest, '\n');
        if first_index(rest, '\n') < rest.len() {
            assert(whole[from + first_index(rest, '\n')] == '\n');
        }
    }
    if from < v.len() {
        let line = string_of(&v, from, v.len());
        r.push(line);
        proof {
            assert(line@ == whole.skip(from as int));
            assert(texts(r@) =~= texts(before).push(line@));
            assert(texts(before) + seq![line@] =~= texts(r@));
        }
    } else {
        assert(whole.skip(from as int) =~= seq![]);
        assert(texts(before) + Seq::<Seq<char>>::empty() =~= texts(before));
    }
    r
}

proof fn lemma_hex_len(a: Seq<u8>)
    ensures
        hex(a).len() == 2 * a.len(),
    decreases a.len(),
{
    if a.len() > 0 {
        lemma_hex_len(a.drop_last());
    }
}

/// The text of bytes in hexadecimal has two digits for each, and differs where the
/// bytes do.
pub proof fn lemma_hex_is_faithful(a: Seq<u8>, b: Seq<u8>)
    ensures
        hex(a).len() == 2 * a.len(),
        hex(a) == hex(b) ==> a == b,
    decreases a.len() + b.len(),
{
    lemma_hex_len(a);
    lemma_hex_len(b);
    if a.len() > 0 && b.len() > 0 {
        lemma_hex_len(a.drop_last());
        lemma_hex_len(b.drop_last());
        lemma_hex_is_faithful(a.drop_last(), b.drop_last());
        let (ha, hb) = (hex(a), hex(b));
        let (x, y) = (a.last(), b.last());
        assert(ha[ha.len() - 2] == hex_digit((x / 16) as nat));
        assert(ha[ha.len() - 1] == hex_digit((x % 16) as nat));
        assert(hb[hb.len() - 2] == hex_digit((y / 16) as nat));
        assert(hb[hb.len() - 1] == hex_digit((y % 16) as nat));
        assert(ha.take(ha.len() - 2) =~= hex(a.drop_last()));
        assert(hb.take(hb.len() - 2) =~= hex(b.drop_last()));
        if ha == hb {
            assert(a.drop_last() == b.drop_last());
            assert(x / 16 == y / 16);
            assert(x % 16 == y % 16);
            assert(x == y);
            assert(a =~= a.drop_last().push(x));
            assert(b =~= b.drop_last().push(y));
        }
    } else if hex(a) == hex(b) {
        assert(a =~= b);
    }
}

} // verus!
