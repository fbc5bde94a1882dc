//! What the numbers, lines, parts and names in texts are, as relations between texts.

use vstd::prelude::*;

use crate::paths::{
    is_step, joined_path, lemma_joined_steps, parent_path, path_file_name, path_steps, plain_path,
    stem_of,
};
use crate::text::{
    ascii_lower, ascii_lower_all, ascii_upper, dec, dec_int, extension_of, first_index, hex, is_white,
    hex_numeral, joined, last_index, lemma_first_index, lines_of, numeral, parsed_i64, parsed_u64,
    prefixed_hex, same_ignoring_ascii_case, split_on, text_lt, trimmed, trimmed_end, trimmed_start,
};

verus! {

/// Whether a text is made of decimal digits.
pub open spec fn all_digits(s: Seq<char>) -> bool {
    forall|i: int| 0 <= i < s.len() ==> '0' <= #[trigger] s[i] <= '9'
}

/// A text is a numeral if and only if it is made of digits, at least one.
pub proof fn lemma_numerals_are_digits(s: Seq<char>)
    ensures
        numeral(s) is Some <==> s.len() > 0 && all_digits(s),
    decreases s.len(),
{
    if s.len() > 1 {
        let front = s.drop_last();
        lemma_numerals_are_digits(front);
        assert forall|i: int| 0 <= i < s.len() - 1 implies front[i] == #[trigger] s[i] by {}
        if all_digits(s) {
            assert forall|i: int| 0 <= i < front.len() implies '0' <= #[trigger] front[i] <= '9' by {
                assert(s[i] == front[i]);
            }
            assert('0' <= s[s.len() - 1] <= '9');
        }
        if all_digits(front) && '0' <= s.last() <= '9' {
            assert forall|i: int| 0 <= i < s.len() implies '0' <= #[trigger] s[i] <= '9' by {
                if i < s.len() - 1 {
                    assert(front[i] == s[i]);
                }
            }
        }
    } else if s.len() == 1 {
        assert(s.last() == s[0]);
    }
}

/// The digit at a place from the right stands for itself times that power of ten: a digit
/// more behind a numeral is ten times its value and the digit.
pub proof fn lemma_digit_more(s: Seq<char>, c: char)
    requires
        s.len() > 0,
        all_digits(s),
        '0' <= c <= '9',
    ensures
        numeral(seq![c]) == Some((c as int - '0' as int) as nat),
        numeral(s.push(c)) == Some((10 * numeral(s)->0 + (c as int - '0' as int)) as nat),
{
    lemma_numerals_are_digits(s);
    assert(s.push(c).drop_last() =~= s);
    assert(seq![c].last() == c);
}

/// The digits of a number are its numeral, and have no zero before them.
pub proof fn lemma_digits_of_number(n: nat)
    ensures
        numeral(dec(n)) == Some(n),
        all_digits(dec(n)),
        dec(n).len() > 0,
        dec(n)[0] == '0' <==> n == 0,
        dec(n).len() == 1 <==> n < 10,
    decreases n,
{
    if n >= 10 {
        lemma_digits_of_number(n / 10);
        let s = dec(n);
        assert(s.drop_last() =~= dec(n / 10));
        assert(s[0] == dec(n / 10)[0]);
    }
    lemma_numerals_are_digits(dec(n));
}

/// A number that was written in decimal is read back as it was.
pub proof fn lemma_numbers_are_read_back(n: int)
    ensures
        0 <= n <= u64::MAX ==> parsed_u64(dec_int(n)) == Some(n as u64),
        i64::MIN <= n <= i64::MAX ==> parsed_i64(dec_int(n)) == Some(n as i64),
        n < 0 ==> parsed_u64(dec_int(n)) is None,
{
    if n >= 0 {
        lemma_digits_of_number(n as nat);
        assert('0' <= dec(n as nat)[0] <= '9');
    } else {
        lemma_digits_of_number((-n) as nat);
        let s = dec_int(n);
        assert(s[0] == '-');
        assert(s.skip(1) =~= dec((-n) as nat));
        lemma_numerals_are_digits(s);
    }
}

/// The character of a value below sixteen.
pub open spec fn is_hex_digit_of(c: char, value: int) -> bool {
    ||| 0 <= value < 10 && c as int == '0' as int + value
    ||| 10 <= value < 16 && c as int == 'a' as int + value - 10
}

/// Bytes in hexadecimal: two digits for each, the higher half first.
pub proof fn lemma_bytes_in_hex(b: Seq<u8>)
    ensures
        hex(b).len() == 2 * b.len(),
        forall|i: int|
            0 <= i < b.len() ==> is_hex_digit_of(hex(b)[2 * i], (#[trigger] b[i]) as int / 16)
                && is_hex_digit_of(hex(b)[2 * i + 1], b[i] as int % 16),
    decreases b.len(),
{
    if b.len() > 0 {
        let front = b.drop_last();
        lemma_bytes_in_hex(front);
        assert forall|i: int| 0 <= i < b.len() implies is_hex_digit_of(
            hex(b)[2 * i],
            (#[trigger] b[i]) as int / 16,
        ) && is_hex_digit_of(hex(b)[2 * i + 1], b[i] as int % 16) by {
            if i < b.len() - 1 {
                assert(front[i] == b[i]);
                assert(hex(b)[2 * i] == hex(front)[2 * i]);
                assert(hex(b)[2 * i + 1] == hex(front)[2 * i + 1]);
            }
        }
    }
}

/// The value of a numeral whose digits have the given values, the highest first.
pub open spec fn value_in_base(values: Seq<int>, base: int) -> int
    decreases values.len(),
{
    if values.len() == 0 {
        0
    } else {
        base * value_in_base(values.drop_last(), base) + values.last()
    }
}

/// A number in hexadecimal: `0x` and digits whose value is the number, without a zero
/// before them.
pub proof fn lemma_number_in_hex(n: nat) -> (values: Seq<int>)
    ensures
        prefixed_hex(n) == seq!['0', 'x'] + hex_numeral(n),
        hex_numeral(n).len() == values.len(),
        values.len() > 0,
        forall|i: int|
            0 <= i < values.len() ==> is_hex_digit_of(hex_numeral(n)[i], #[trigger] values[i]),
        value_in_base(values, 16) == n,
        values[0] == 0 <==> n == 0,
    decreases n,
{
    reveal_strlit("0x");
    assert("0x"@ =~= seq!['0', 'x']);
    if n < 16 {
        let values = seq![n as int];
        assert(values.drop_last() =~= Seq::<int>::empty());
        assert(value_in_base(values.drop_last(), 16) == 0);
        assert(values.last() == n);
        values
    } else {
        let before = lemma_number_in_hex(n / 16);
        let values = before.push(n as int % 16);
        assert(values.drop_last() =~= before);
        assert(values[0] == before[0]);
        assert forall|i: int| 0 <= i < values.len() implies is_hex_digit_of(
            hex_numeral(n)[i],
            #[trigger] values[i],
        ) by {
            if i < before.len() {
                assert(values[i] == before[i]);
                assert(hex_numeral(n)[i] == hex_numeral(n / 16)[i]);
            }
        }
        values
    }
}

/// Whether two characters are the same, or the two cases of an ASCII letter.
pub open spec fn is_same_letter(a: char, b: char) -> bool {
    ||| a == b
    ||| 'a' <= a <= 'z' && a as int == b as int + 32
    ||| 'a' <= b <= 'z' && b as int == a as int + 32
}

/// Two texts are the same up to ASCII case if and only if their characters are.
pub proof fn lemma_ascii_case(a: Seq<char>, b: Seq<char>)
    ensures
        same_ignoring_ascii_case(a, b) <==> a.len() == b.len() && forall|i: int|
            0 <= i < a.len() ==> is_same_letter(#[trigger] a[i], b[i]),
{
    let (x, y) = (ascii_lower_all(a), ascii_lower_all(b));
    if same_ignoring_ascii_case(a, b) {
        assert(x.len() == y.len());
        assert forall|i: int| 0 <= i < a.len() implies is_same_letter(#[trigger] a[i], b[i]) by {
            assert(x[i] == y[i]);
        }
    }
    if a.len() == b.len() && forall|i: int|
        0 <= i < a.len() ==> is_same_letter(#[trigger] a[i], b[i]) {
        assert forall|i: int| 0 <= i < x.len() implies x[i] == y[i] by {
            assert(is_same_letter(a[i], b[i]));
        }
        assert(x =~= y);
    }
}

/// The two cases of an ASCII letter lead to each other; other characters stay.
pub proof fn lemma_letter_cases(c: char)
    ensures
        is_same_letter(c, ascii_lower(c)),
        is_same_letter(c, ascii_upper(c)),
        !('A' <= ascii_lower(c) <= 'Z'),
        !('a' <= ascii_upper(c) <= 'z'),
{
}

/// A text comes before another if they part at a place where it has the lower character,
/// or where it ends and the other does not.
pub proof fn lemma_texts_in_order(a: Seq<char>, b: Seq<char>)
    ensures
        text_lt(a, b) <==> exists|k: int|
            0 <= k <= a.len() && k < b.len() && #[trigger] a.take(k) == b.take(k) && (k == a.len()
                || a[k] < b[k]),
    decreases a.len(),
{
    if b.len() == 0 {
    } else if a.len() == 0 {
        assert(a.take(0) =~= b.take(0));
    } else if a[0] != b[0] {
        assert(a.take(0) =~= b.take(0));
        assert forall|k: int|
            0 <= k <= a.len() && k < b.len() && #[trigger] a.take(k) == b.take(k) && (k == a.len()
                || a[k] < b[k]) implies a[0] < b[0] by {
            if k > 0 {
                assert(a.take(k)[0] == a[0]);
                assert(b.take(k)[0] == b[0]);
            }
        }
    } else {
        let (x, y) = (a.drop_first(), b.drop_first());
        lemma_texts_in_order(x, y);
        if text_lt(x, y) {
            let k = choose|k: int|
                0 <= k <= x.len() && k < y.len() && #[trigger] x.take(k) == y.take(k) && (k
                    == x.len() || x[k] < y[k]);
            assert(a.take(k + 1) =~= seq![a[0]] + x.take(k));
            assert(b.take(k + 1) =~= seq![b[0]] + y.take(k));
            assert(a.take(k + 1) == b.take(k + 1));
        }
        assert forall|k: int|
            0 <= k <= a.len() && k < b.len() && #[trigger] a.take(k) == b.take(k) && (k == a.len()
                || a[k] < b[k]) implies text_lt(x, y) by {
            if k > 0 {
                assert(x.take(k - 1) =~= a.take(k).drop_first());
                assert(y.take(k - 1) =~= b.take(k).drop_first());
                assert(x.take(k - 1) == y.take(k - 1));
            }
        }
    }
}

proof fn lemma_first_at(a: Seq<char>, c: char, rest: Seq<char>)
    requires
        !a.contains(c),
    ensures
        first_index(a + seq![c] + rest, c) == a.len(),
{
    let s = a + seq![c] + rest;
    lemma_first_index(s, c);
    let k = first_index(s, c);
    assert(s[a.len() as int] == c);
    if k < a.len() {
        assert(a[k] == s[k]);
        assert(a.contains(c));
    }
}

proof fn lemma_not_there(a: Seq<char>, c: char)
    requires
        !a.contains(c),
    ensures
        first_index(a, c) == a.len(),
{
    lemma_first_index(a, c);
    let k = first_index(a, c);
    if k < a.len() {
        assert(a[k] == c);
        assert(a.contains(c));
    }
}

/// A text ends at the first separator, and what stands behind it is parted by itself; one
/// without a separator is one part.
pub proof fn lemma_parts_of_text(part: Seq<char>, c: char, rest: Seq<char>)
    requires
        !part.contains(c),
    ensures
        split_on(part, c) == seq![part],
        split_on(part + seq![c] + rest, c) == seq![part] + split_on(rest, c),
{
    lemma_not_there(part, c);
    lemma_first_at(part, c, rest);
    let s = part + seq![c] + rest;
    let n = part.len() as int;
    assert(s.take(n) =~= part);
    assert(s.skip(n + 1) =~= rest);
}

/// The parts of a text hold no separator, and with one between each two they are the text.
pub proof fn lemma_parts_make_text(s: Seq<char>, c: char)
    ensures
        split_on(s, c).len() > 0,
        forall|i: int| 0 <= i < split_on(s, c).len() ==> !(#[trigger] split_on(s, c)[i]).contains(c),
        joined(split_on(s, c), seq![c]) == s,
    decreases s.len(),
{
    let i = first_index(s, c);
    lemma_first_index(s, c);
    let parts = split_on(s, c);
    if i < s.len() {
        let rest = s.skip(i + 1);
        lemma_parts_make_text(rest, c);
        let tail = split_on(rest, c);
        assert forall|k: int| 0 <= k < parts.len() implies !(#[trigger] parts[k]).contains(c) by {
            if k > 0 {
                assert(parts[k] == tail[k - 1]);
            } else {
                assert(parts[0] == s.take(i));
            }
        }
        lemma_joined_front(s.take(i), tail, seq![c]);
        assert(s =~= s.take(i) + seq![c] + rest);
    } else {
        assert(parts =~= seq![s]);
        assert(parts[0] == s);
    }
}

/// Texts with a separator between them: the first, the separator, and the others.
pub proof fn lemma_joined_front(first: Seq<char>, others: Seq<Seq<char>>, sep: Seq<char>)
    ensures
        others.len() == 0 ==> joined(seq![first] + others, sep) == first,
        others.len() > 0 ==> joined(seq![first] + others, sep) == first + sep + joined(others, sep),
    decreases others.len(),
{
    let all = seq![first] + others;
    if others.len() == 0 {
        assert(all =~= seq![first]);
    } else if others.len() == 1 {
        assert(all.drop_last() =~= seq![first]);
        assert(all.last() == others[0]);
        assert(joined(seq![first], sep) == first);
    } else {
        assert(all.drop_last() =~= seq![first] + others.drop_last());
        assert(all.last() == others.last());
        lemma_joined_front(first, others.drop_last(), sep);
        assert(joined(all, sep) =~= first + sep + joined(others, sep));
    }
}

/// A line ends at the first line feed, and what stands behind that is lines by itself. A
/// carriage return before the line feed belongs to the end of the line. What stands behind
/// the last line feed is a line where there is anything.
pub proof fn lemma_lines_of_text(line: Seq<char>, rest: Seq<char>)
    requires
        !line.contains('\n'),
    ensures
        lines_of(Seq::empty()) == Seq::<Seq<char>>::empty(),
        line.len() > 0 ==> lines_of(line) == seq![line],
        line.len() == 0 || line.last() != '\r' ==> lines_of(line + seq!['\n'] + rest) == seq![line]
            + lines_of(rest),
        lines_of(line + seq!['\r', '\n'] + rest) == seq![line] + lines_of(rest),
{
    lemma_not_there(line, '\n');
    lemma_first_at(line, '\n', rest);
    let n = line.len() as int;
    let s = line + seq!['\n'] + rest;
    assert(s.take(n) =~= line);
    assert(s.skip(n + 1) =~= rest);
    let with = line.push('\r');
    assert(!with.contains('\n')) by {
        assert forall|i: int| 0 <= i < with.len() implies with[i] != '\n' by {
            if i < n {
                assert(line[i] == with[i]);
            }
        }
    }
    lemma_first_at(with, '\n', rest);
    let t = line + seq!['\r', '\n'] + rest;
    assert(t =~= with + seq!['\n'] + rest);
    assert(t.take(n + 1) =~= with);
    assert(with.drop_last() =~= line);
    assert(t.skip(n + 2) =~= rest);
}

/// Whether a text is made of white space.
pub open spec fn all_white(s: Seq<char>) -> bool {
    forall|i: int| 0 <= i < s.len() ==> is_white(#[trigger] s[i])
}

proof fn lemma_trimmed_start(s: Seq<char>) -> (before: Seq<char>)
    ensures
        s == before + trimmed_start(s),
        all_white(before),
        trimmed_start(s).len() > 0 ==> !is_white(trimmed_start(s)[0]),
    decreases s.len(),
{
    if s.len() > 0 && is_white(s[0]) {
        let inner = lemma_trimmed_start(s.drop_first());
        let before = seq![s[0]] + inner;
        let rest = trimmed_start(s.drop_first());
        assert(s =~= seq![s[0]] + s.drop_first());
        assert(before + rest =~= seq![s[0]] + (inner + rest));
        before
    } else {
        assert(s =~= Seq::<char>::empty() + s);
        Seq::empty()
    }
}

proof fn lemma_trimmed_end(s: Seq<char>) -> (after: Seq<char>)
    ensures
        s == trimmed_end(s) + after,
        all_white(after),
        trimmed_end(s).len() > 0 ==> !is_white(trimmed_end(s).last()) && trimmed_end(s)[0] == s[0],
    decreases s.len(),
{
    if s.len() > 0 && is_white(s.last()) {
        let inner = lemma_trimmed_end(s.drop_last());
        let after = inner.push(s.last());
        let rest = trimmed_end(s.drop_last());
        assert(s =~= s.drop_last().push(s.last()));
        assert(rest + after =~= (rest + inner).push(s.last()));
        after
    } else {
        assert(s =~= s + Seq::<char>::empty());
        Seq::empty()
    }
}

/// A trimmed text is what the text is between white space, and begins and ends with none.
pub proof fn lemma_trimmed_text(s: Seq<char>)
    ensures
        exists|before: Seq<char>, after: Seq<char>|
            all_white(before) && all_white(after) && s == #[trigger] (before + trimmed(s) + after),
        trimmed(s).len() > 0 ==> !is_white(trimmed(s)[0]) && !is_white(trimmed(s).last()),
{
    let before = lemma_trimmed_start(s);
    let after = lemma_trimmed_end(trimmed_start(s));
    assert(s =~= before + trimmed(s) + after);
}

proof fn lemma_last_index(s: Seq<char>, c: char)
    ensures
        -1 <= last_index(s, c) < s.len(),
        last_index(s, c) >= 0 ==> s[last_index(s, c)] == c,
        forall|i: int| last_index(s, c) < i < s.len() ==> s[i] != c,
    decreases s.len(),
{
    if s.len() > 0 && s.last() != c {
        lemma_last_index(s.drop_last(), c);
        assert forall|i: int| last_index(s, c) < i < s.len() implies s[i] != c by {
            if i < s.len() - 1 {
                assert(s[i] == s.drop_last()[i]);
            }
        }
    }
}

/// The extension of a name is what stands behind its last dot, where something stands
/// before that.
pub proof fn lemma_extension_of_name(stem: Seq<char>, ext: Seq<char>)
    requires
        !ext.contains('.'),
    ensures
        extension_of(ext) is None,
        extension_of(seq!['.'] + ext) is None,
        stem.len() > 0 && !(stem == seq!['.'] && ext.len() == 0) ==> extension_of(
            stem + seq!['.'] + ext,
        ) == Some(ext),
{
    reveal_strlit("..");
    let name = stem + seq!['.'] + ext;
    let n = stem.len() as int;
    lemma_last_index(name, '.');
    let k = last_index(name, '.');
    assert(name[n] == '.');
    if k > n {
        assert(ext[k - n - 1] == name[k]);
        assert(ext.contains('.'));
    }
    assert(k == n);
    assert(name.skip(n + 1) =~= ext);
    if name == ".."@ {
        assert(name[0] == '.' && name.len() == 2);
        assert(stem =~= seq!['.'] || stem.len() == 0) by {
            if stem.len() == 1 {
                assert(stem[0] == name[0]);
            }
        }
        assert(stem.len() <= 1);
    }
    lemma_last_index(ext, '.');
    if last_index(ext, '.') >= 0 {
        assert(ext.contains('.'));
    }
    let hidden = seq!['.'] + ext;
    lemma_last_index(hidden, '.');
    let h = last_index(hidden, '.');
    if h > 0 {
        assert(ext[h - 1] == hidden[h]);
        assert(ext.contains('.'));
    }
}

/// The path of a file under a directory leads to the file: its name is the last step, and
/// what stands before it is the directory. A path that begins at the root is itself.
pub proof fn lemma_file_in_directory(dir: Seq<char>, name: Seq<char>)
    ensures
        is_step(name) ==> parent_path(joined_path(dir, name)) == Some(plain_path(dir)),
        is_step(name) && name != ".."@ ==> path_file_name(joined_path(dir, name)) == Some(name),
        name.len() > 0 && name[0] == '/' ==> joined_path(dir, name) == name,
        name.len() > 0 && name[0] != '/' && dir.len() == 0 ==> joined_path(dir, name) == name,
        name.len() > 0 && name[0] != '/' && dir.len() > 0 && dir.last() != '/' ==> joined_path(
            dir,
            name,
        ) == dir + seq!['/'] + name,
{
    reveal_strlit("/");
    assert("/"@ =~= seq!['/']);
    assert(dir.len() == 0 ==> dir + name =~= name);
    if is_step(name) {
        lemma_joined_steps(dir, name);
        let steps = path_steps(joined_path(dir, name));
        assert(steps.last() == name);
        assert(steps.drop_last() =~= path_steps(dir));
    }
}

/// The stem of a name is what stands before its last dot, where something does.
pub proof fn lemma_stem_of_name(stem: Seq<char>, ext: Seq<char>)
    requires
        !ext.contains('.'),
    ensures
        stem_of(ext) == ext,
        stem_of(seq!['.'] + ext) == seq!['.'] + ext,
        stem.len() > 0 ==> stem_of(stem + seq!['.'] + ext) == stem,
{
    let name = stem + seq!['.'] + ext;
    let n = stem.len() as int;
    lemma_last_index(name, '.');
    let k = last_index(name, '.');
    assert(name[n] == '.');
    if k > n {
        assert(ext[k - n - 1] == name[k]);
        assert(ext.contains('.'));
    }
    assert(name.take(n) =~= stem);
    lemma_last_index(ext, '.');
    if last_index(ext, '.') >= 0 {
        assert(ext.contains('.'));
    }
    let hidden = seq!['.'] + ext;
    lemma_last_index(hidden, '.');
    let h = last_index(hidden, '.');
    if h > 0 {
        assert(ext[h - 1] == hidden[h]);
        assert(ext.contains('.'));
    }
}

} // verus!
