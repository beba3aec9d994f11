//! The names of the segment files: the generation in decimal, `_kv_`, the
//! number of the segment in decimal, and `.dat`.

use vstd::prelude::*;
use vstd::string::StrSliceExecFns;
use vstd::string::StringExecFns;

verus! {

/// Whether `c` is one of the ten decimal digits.
pub open spec fn is_digit(c: char) -> bool {
    '0' <= c <= '9'
}

/// The digit that `c` stands for.
pub open spec fn digit_value(c: char) -> nat
    recommends
        is_digit(c),
{
    (c as u32 - '0' as u32) as nat
}

/// The character for a digit.
pub open spec fn digit_char(d: nat) -> char
    recommends
        d < 10,
{
    (d + '0' as u32) as char
}

/// The number of digits that `s` starts with.
pub open spec fn leading_digits(s: Seq<char>) -> nat
    decreases s.len(),
{
    if s.len() > 0 && is_digit(s[0]) {
        1 + leading_digits(s.drop_first())
    } else {
        0
    }
}

/// The number that a sequence of digits spells in decimal.
pub open spec fn decimal(s: Seq<char>) -> nat
    decreases s.len(),
{
    if s.len() == 0 {
        0
    } else {
        decimal(s.drop_last()) * 10 + digit_value(s.last())
    }
}

/// The decimal digits of `n`, without leading zeros.
pub open spec fn decimal_text(n: nat) -> Seq<char>
    decreases n,
{
    if n < 10 {
        seq![digit_char(n)]
    } else {
        decimal_text(n / 10).push(digit_char(n % 10))
    }
}

/// The name of the file of segment `seq` of generation `gen`.
pub open spec fn name_of(gen: u32, seq: u32) -> Seq<char> {
    decimal_text(gen as nat) + "_kv_"@ + decimal_text(seq as nat) + ".dat"@
}

/// The generation and the number that a file name gives, `None` where the
/// name is not that of a segment: one or more digits, `_kv_`, one or more
/// digits, `.dat`, both numbers within `u32`.
pub open spec fn parse_name(name: Seq<char>) -> Option<(u32, u32)> {
    let n1 = leading_digits(name) as int;
    let rest = name.skip(n1 + 4);
    let n2 = leading_digits(rest) as int;
    if n1 > 0 && name.len() >= n1 + 4 && name.subrange(n1, n1 + 4) == "_kv_"@ && n2 > 0
        && rest.skip(n2) == ".dat"@ && decimal(name.take(n1)) <= u32::MAX && decimal(
        rest.take(n2),
    ) <= u32::MAX {
        Some((decimal(name.take(n1)) as u32, decimal(rest.take(n2)) as u32))
    } else {
        None
    }
}

/// Reads the digits that `name` holds from position `from` on.  Gives the
/// number of digits and their value, or `None` for the value where it does not
/// fit `u32`.
fn read_digits(name: &str, from: usize, len: usize) -> (out: (usize, Option<u32>))
    requires
        from <= len,
        len == name@.len(),
    ensures
        out.0 == leading_digits(name@.skip(from as int)),
        from + out.0 <= len,
        match out.1 {
            Some(value) => value == decimal(name@.subrange(from as int, from + out.0)),
            None => decimal(name@.subrange(from as int, from + out.0)) > u32::MAX,
        },
{
    let mut count: usize = 0;
    let mut value: Option<u32> = Some(0);
    let mut more = true;
    let ghost text = name@;
    while more && from + count < len
        invariant
            text == name@,
            len == text.len(),
            from + count <= len,
            leading_digits(text.skip(from as int)) == count + leading_digits(
                text.skip(from + count),
            ),
            !more ==> leading_digits(text.skip(from + count)) == 0,
            match value {
                Some(v) => v == decimal(text.subrange(from as int, from + count)),
                None => decimal(text.subrange(from as int, from + count)) > u32::MAX,
            },
        decreases len - (from + count) + (if more { 1int } else { 0int }),
    {
        let c = name.get_char(from + count);
        let ghost here = text.skip(from + count);
        assert(here[0] == c);
        if '0' <= c && c <= '9' {
            let d = (c as u32) - ('0' as u32);
            proof {
                assert(here.drop_first() =~= text.skip(from + count + 1));
                let longer = text.subrange(from as int, from + count + 1);
                assert(longer.drop_last() =~= text.subrange(from as int, from + count));
                assert(longer.last() == c);
            }
            value = match value {
                Some(v) => {
                    if v > (u32::MAX - d) / 10 {
                        None
                    } else {
                        Some(v * 10 + d)
                    }
                },
                None => None,
            };
            count = count + 1;
        } else {
            more = false;
        }
    }
    (count, value)
}

/// Whether the characters of `name` from `from` on are those of `word`.
fn has_word(name: &str, from: usize, len: usize, word: &str, word_len: usize) -> (out: bool)
    requires
        from <= len,
        len == name@.len(),
        word_len == word@.len(),
    ensures
        out == (from + word_len <= len && name@.subrange(from as int, from + word_len) == word@),
{
    if len - from < word_len {
        return false;
    }
    let mut i: usize = 0;
    while i < word_len
        invariant
            i <= word_len,
            from + word_len <= len,
            len == name@.len(),
            word_len == word@.len(),
            name@.subrange(from as int, from + i) == word@.take(i as int),
        decreases word_len - i,
    {
        if name.get_char(from + i) != word.get_char(i) {
            assert(name@.subrange(from as int, from + word_len)[i as int] != word@[i as int]);
            return false;
        }
        assert(name@.subrange(from as int, from + i + 1) =~= name@.subrange(
            from as int,
            from + i,
        ).push(name@[from + i]));
        assert(word@.take(i + 1) =~= word@.take(i as int).push(word@[i as int]));
        i = i + 1;
    }
    assert(word@.take(word_len as int) =~= word@);
    true
}

/// Reads the generation and the number of a segment from the name of its
/// file.
pub fn parse_segment_name(name: &str) -> (out: Option<(u32, u32)>)
    ensures
        out == parse_name(name@),
{
    let len = name.unicode_len();
    let (n1, gen) = read_digits(name, 0, len);
    assert(name@.skip(0) =~= name@);
    assert(name@.subrange(0, n1 as int) =~= name@.take(n1 as int));
    proof {
        reveal_strlit("_kv_");
        reveal_strlit(".dat");
    }
    if n1 == 0 || !has_word(name, n1, len, "_kv_", 4) {
        return None;
    }
    let (n2, seq) = read_digits(name, n1 + 4, len);
    let ghost rest = name@.skip(n1 + 4);
    assert(name@.subrange(n1 + 4, n1 + 4 + n2) =~= rest.take(n2 as int));
    assert(rest.skip(n2 as int) =~= name@.subrange(n1 + 4 + n2, len as int));
    if n2 == 0 || len - n1 - n2 != 8 || !has_word(name, n1 + 4 + n2, len, ".dat", 4) {
        return None;
    }
    match (gen, seq) {
        (Some(gen), Some(seq)) => Some((gen, seq)),
        _ => None,
    }
}

/// The text of one decimal digit.
fn digit_text(d: u32) -> (out: &'static str)
    requires
        d < 10,
    ensures
        out@ == seq![digit_char(d as nat)],
{
    proof {
        reveal_strlit("0");
        reveal_strlit("1");
        reveal_strlit("2");
        reveal_strlit("3");
        reveal_strlit("4");
        reveal_strlit("5");
        reveal_strlit("6");
        reveal_strlit("7");
        reveal_strlit("8");
        reveal_strlit("9");
    }
    let out = if d == 0 {
        "0"
    } else if d == 1 {
        "1"
    } else if d == 2 {
        "2"
    } else if d == 3 {
        "3"
    } else if d == 4 {
        "4"
    } else if d == 5 {
        "5"
    } else if d == 6 {
        "6"
    } else if d == 7 {
        "7"
    } else if d == 8 {
        "8"
    } else {
        "9"
    };
    assert(out@ =~= seq![digit_char(d as nat)]);
    out
}

/// Writes `n` in decimal behind `text`.
fn push_decimal(text: &mut String, n: u32)
    ensures
        final(text)@ == old(text)@ + decimal_text(n as nat),
    decreases n,
{
    if n >= 10 {
        push_decimal(text, n / 10);
    }
    text.append(digit_text(n % 10));
    assert(text@ =~= old(text)@ + decimal_text(n as nat));
}

/// The name of the file of segment `seq` of generation `gen`.
pub fn segment_name(gen: u32, seq: u32) -> (out: String)
    ensures
        out@ == name_of(gen, seq),
{
    let mut out = String::new();
    push_decimal(&mut out, gen);
    out.append("_kv_");
    push_decimal(&mut out, seq);
    out.append(".dat");
    assert(out@ =~= name_of(gen, seq));
    out
}

/// Whether every character of `s` is a digit.
pub open spec fn all_digits(s: Seq<char>) -> bool {
    forall|i: int| 0 <= i < s.len() ==> is_digit(#[trigger] s[i])
}

/// The decimal text of a number is made of digits and spells the number.
pub proof fn lemma_decimal_text(n: nat)
    ensures
        decimal_text(n).len() >= 1,
        all_digits(decimal_text(n)),
        decimal(decimal_text(n)) == n,
    decreases n,
{
    if n < 10 {
        let text = decimal_text(n);
        assert(text.drop_last() =~= Seq::<char>::empty());
        assert(decimal(text.drop_last()) == 0);
    } else {
        lemma_decimal_text(n / 10);
        let text = decimal_text(n);
        assert(text.drop_last() =~= decimal_text(n / 10));
    }
}

/// Digits in front of a text that does not start with a digit are all the
/// digits that the whole starts with.
pub proof fn lemma_leading_digits(digits: Seq<char>, rest: Seq<char>)
    requires
        all_digits(digits),
        rest.len() == 0 || !is_digit(rest[0]),
    ensures
        leading_digits(digits + rest) == digits.len(),
    decreases digits.len(),
{
    let whole = digits + rest;
    if digits.len() == 0 {
        assert(whole =~= rest);
    } else {
        assert(whole[0] == digits[0]);
        assert(whole.drop_first() =~= digits.drop_first() + rest);
        lemma_leading_digits(digits.drop_first(), rest);
    }
}

/// The name that is written for a segment is read as that segment.
pub proof fn lemma_parse_name_of(gen: u32, seq: u32)
    ensures
        parse_name(name_of(gen, seq)) == Some((gen, seq)),
{
    reveal_strlit("_kv_");
    reveal_strlit(".dat");
    let first = decimal_text(gen as nat);
    let second = decimal_text(seq as nat);
    let name = name_of(gen, seq);
    lemma_decimal_text(gen as nat);
    lemma_decimal_text(seq as nat);
    let tail = "_kv_"@ + second + ".dat"@;
    assert(name =~= first + tail);
    lemma_leading_digits(first, tail);
    let n1 = first.len() as int;
    assert(name.take(n1) =~= first);
    assert(name.subrange(n1, n1 + 4) =~= "_kv_"@);
    let rest = name.skip(n1 + 4);
    assert(rest =~= second + ".dat"@);
    lemma_leading_digits(second, ".dat"@);
    let n2 = second.len() as int;
    assert(rest.take(n2) =~= second);
    assert(rest.skip(n2) =~= ".dat"@);
}

} // verus!
