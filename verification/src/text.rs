//! Character-level helpers on strings, shared by every other module.
//!
//! A string's model is its sequence of characters (`Seq<char>`).

use vstd::prelude::*;
use vstd::string::*;
use vstd::utf8::{decode_utf8, encode_scalar, encode_utf8, valid_utf8};

verus! {

/// `std::string::String::push`: appends one character to the end.
pub assume_specification[ String::push ](s: &mut String, c: char)
    ensures
        final(s)@ == old(s)@.push(c),
;

/// How `std::str::Utf8Error` describes what is wrong with `bytes`.
pub uninterp spec fn utf8_error_text(bytes: Seq<u8>) -> Seq<char>;

/// `std::str::from_utf8`: the string that `bytes` encode, if they are valid
/// UTF-8; else the error's own description.
#[verifier::external_body]
pub(crate) fn string_from_utf8(bytes: &[u8]) -> (r: Result<String, String>)
    ensures
        match r {
            Ok(s) => valid_utf8(bytes@) && s@ == decode_utf8(bytes@),
            Err(e) => !valid_utf8(bytes@) && e@ == utf8_error_text(bytes@),
        },
{
    match std::str::from_utf8(bytes) {
        Ok(s) => Ok(s.to_string()),
        Err(e) => Err(e.to_string()),
    }
}

/// The characters of `s`, in order.
pub fn chars_of(s: &str) -> (r: Vec<char>)
    ensures
        r@ == s@,
{
    let mut out: Vec<char> = Vec::new();
    for c in it: s.chars()
        invariant
            it.seq() == s@,
            out@ == s@.subrange(0, it.index() as int),
    {
        out.push(c);
        assert(out@ =~= s@.subrange(0, it.index() + 1));
    }
    assert(s@.subrange(0, s@.len() as int) =~= s@);
    out
}

/// The string made of the characters `cs[from..to]`.
pub fn string_of_range(cs: &Vec<char>, from: usize, to: usize) -> (r: String)
    requires
        from <= to <= cs@.len(),
    ensures
        r@ == cs@.subrange(from as int, to as int),
{
    let mut out: String = String::new();
    let mut i: usize = from;
    while i < to
        invariant
            from <= i <= to <= cs@.len(),
            out@ == cs@.subrange(from as int, i as int),
        decreases to - i,
    {
        out.push(cs[i]);
        i = i + 1;
        assert(out@ =~= cs@.subrange(from as int, i as int));
    }
    out
}

/// Whether two strings hold the same characters.
pub fn str_eq(a: &str, b: &str) -> (r: bool)
    ensures
        r == (a@ == b@),
{
    let x: Vec<char> = chars_of(a);
    let y: Vec<char> = chars_of(b);
    chars_eq(&x, &y)
}

/// Whether two character vectors are equal.
pub fn chars_eq(x: &Vec<char>, y: &Vec<char>) -> (r: bool)
    ensures
        r == (x@ == y@),
{
    if x.len() != y.len() {
        return false;
    }
    let mut i: usize = 0;
    while i < x.len()
        invariant
            0 <= i <= x.len(),
            x.len() == y.len(),
            forall|k: int| 0 <= k < i ==> x@[k] == y@[k],
        decreases x.len() - i,
    {
        if x[i] != y[i] {
            return false;
        }
        i = i + 1;
    }
    assert(x@ =~= y@);
    true
}

/// How many line breaks `cs` holds.
pub open spec fn newlines(cs: Seq<char>) -> nat
    decreases cs.len(),
{
    if cs.len() == 0 {
        0
    } else {
        newlines(cs.drop_last()) + if cs.last() == '\n' {
            1nat
        } else {
            0
        }
    }
}

/// Where the line that holds position `i` begins: right after the last line
/// break before `i`.
pub open spec fn line_start_of(cs: Seq<char>, i: int) -> int
    decreases i,
{
    if i <= 0 || cs[i - 1] == '\n' {
        i
    } else {
        line_start_of(cs, i - 1)
    }
}

/// `line_start_of` looks only at the characters before the position.
pub proof fn lemma_line_start_prefix(cs: Seq<char>, n: int, i: int)
    requires
        0 <= i <= n <= cs.len(),
    ensures
        line_start_of(cs.take(n), i) == line_start_of(cs, i),
        0 <= line_start_of(cs, i) <= i,
    decreases i,
{
    assert(cs.drop_last() =~= cs.take(cs.len() - 1));
    if i > 0 && cs[i - 1] != '\n' {
        lemma_line_start_prefix(cs, n, i - 1);
    }
}

/// The decimal digit of value `d`.
pub open spec fn digit_char(d: int) -> char {
    (48 + d) as char
}

/// `n` in decimal, without leading zeros.
pub open spec fn decimal(n: nat) -> Seq<char>
    decreases n,
{
    if n < 10 {
        seq![digit_char(n as int)]
    } else {
        decimal(n / 10).push(digit_char((n % 10) as int))
    }
}

/// Appends the digit of value `d`.
pub fn push_digit(s: &mut String, d: u8)
    requires
        d < 10,
    ensures
        final(s)@ == old(s)@.push(digit_char(d as int)),
{
    s.push((48u8 + d) as char);
}

/// `n` in decimal.
pub fn decimal_string(n: u64) -> (r: String)
    ensures
        r@ == decimal(n as nat),
    decreases n,
{
    let mut s: String = if n < 10 {
        String::new()
    } else {
        decimal_string(n / 10)
    };
    push_digit(&mut s, (n % 10) as u8);
    assert(n < 10 ==> s@ =~= seq![digit_char(n as int)]);
    s
}

/// `cs` with zeros in front, up to `width` places.
pub open spec fn pad_zeros(cs: Seq<char>, width: nat) -> Seq<char>
    decreases width,
{
    if cs.len() >= width {
        cs
    } else {
        seq!['0'] + pad_zeros(cs, (width - 1) as nat)
    }
}

/// `n` in decimal, in at least `width` places.
pub fn padded_decimal(n: u64, width: usize) -> (r: String)
    ensures
        r@ == pad_zeros(decimal(n as nat), width as nat),
{
    let body: String = decimal_string(n);
    let len: usize = body.as_str().unicode_len();
    let mut out: String = String::new();
    let mut w: usize = width;
    let ghost want = pad_zeros(body@, width as nat);
    assert(out@ + want =~= want);
    while w > len
        invariant
            len == body@.len(),
            want == pad_zeros(body@, width as nat),
            out@ + pad_zeros(body@, w as nat) == want,
        decreases w,
    {
        let ghost rest = pad_zeros(body@, (w - 1) as nat);
        assert(out@ + (seq!['0'] + rest) =~= out@.push('0') + rest);
        out.push('0');
        w = w - 1;
    }
    out.append(body.as_str());
    out
}

/// The number that digits stand for.
pub open spec fn digits_value(cs: Seq<char>) -> nat
    decreases cs.len(),
{
    if cs.len() == 0 {
        0
    } else {
        (digits_value(cs.drop_last()) * 10 + (cs.last() as int - 48)) as nat
    }
}

pub open spec fn all_digits(cs: Seq<char>) -> bool {
    forall|i: int| 0 <= i < cs.len() ==> is_digit(#[trigger] cs[i])
}

/// A non-empty run of digits, as a number of at most `max`.
pub open spec fn parse_digits(cs: Seq<char>, max: nat) -> Option<nat> {
    if cs.len() > 0 && all_digits(cs) && digits_value(cs) <= max {
        Some(digits_value(cs))
    } else {
        None
    }
}

/// An unsigned number: digits, after an optional `+`.
pub open spec fn parse_nat(cs: Seq<char>, max: nat) -> Option<nat> {
    if cs.len() > 0 && cs[0] == '+' {
        parse_digits(cs.skip(1), max)
    } else {
        parse_digits(cs, max)
    }
}

/// A signed 32-bit number: digits, after an optional `+` or `-`.
pub open spec fn parse_int(cs: Seq<char>) -> Option<int> {
    if cs.len() > 0 && cs[0] == '-' {
        match parse_digits(cs.skip(1), 0x8000_0000) {
            Some(n) => Some(-(n as int)),
            None => None,
        }
    } else {
        match parse_nat(cs, 0x7fff_ffff) {
            Some(n) => Some(n as int),
            None => None,
        }
    }
}

proof fn lemma_digits_value_prefix(cs: Seq<char>, n: int)
    requires
        0 <= n <= cs.len(),
        all_digits(cs),
    ensures
        digits_value(cs.take(n)) <= digits_value(cs),
    decreases cs.len(),
{
    if n < cs.len() {
        assert(all_digits(cs.drop_last()));
        lemma_digits_value_prefix(cs.drop_last(), n);
        assert(cs.drop_last().take(n) =~= cs.take(n));
        assert(is_digit(cs[cs.len() - 1]));
    } else {
        assert(cs.take(n) =~= cs);
    }
}

/// The number of the digits `cs[from..]`.
fn read_digits(cs: &Vec<char>, from: usize, max: u64) -> (r: Option<u64>)
    requires
        from <= cs@.len(),
        max <= 0xffff_ffff,
    ensures
        match r {
            Some(n) => parse_digits(cs@.skip(from as int), max as nat) == Some(n as nat),
            None => parse_digits(cs@.skip(from as int), max as nat) is None,
        },
{
    let ghost body = cs@.skip(from as int);
    if from == cs.len() {
        return None;
    }
    let mut n: u64 = 0;
    let mut i: usize = from;
    assert(body.take(0) =~= Seq::<char>::empty());
    while i < cs.len()
        invariant
            from <= i <= cs@.len(),
            body == cs@.skip(from as int),
            max <= 0xffff_ffff,
            n <= max,
            n as nat == digits_value(body.take(i - from)),
            forall|k: int| 0 <= k < i - from ==> is_digit(#[trigger] body[k]),
        decreases cs@.len() - i,
    {
        let c: char = cs[i];
        assert(body[i - from] == c);
        if !ascii_digit(c) {
            return None;
        }
        proof {
            assert(body.take(i - from + 1).drop_last() =~= body.take(i - from));
            assert(body.take(i - from + 1).last() == c);
        }
        n = n * 10 + (c as u32 - 48) as u64;
        if n > max {
            proof {
                if all_digits(body) {
                    lemma_digits_value_prefix(body, i - from + 1);
                }
            }
            return None;
        }
        i = i + 1;
    }
    assert(body.take(i - from) =~= body);
    Some(n)
}

/// The unsigned number that `s` gives, by the rules of `str::parse`.
pub fn parse_unsigned(s: &str) -> (r: Option<u32>)
    ensures
        match r {
            Some(n) => parse_nat(s@, u32::MAX as nat) == Some(n as nat),
            None => parse_nat(s@, u32::MAX as nat) is None,
        },
{
    let cs: Vec<char> = chars_of(s);
    let from: usize = if cs.len() > 0 && cs[0] == '+' {
        1
    } else {
        0
    };
    assert(cs@.skip(0) =~= cs@);
    match read_digits(&cs, from, 0xffff_ffff) {
        Some(n) => Some(n as u32),
        None => None,
    }
}

/// The signed number that `s` gives, by the rules of `str::parse`.
pub fn parse_signed(s: &str) -> (r: Option<i32>)
    ensures
        match r {
            Some(n) => parse_int(s@) == Some(n as int),
            None => parse_int(s@) is None,
        },
{
    let cs: Vec<char> = chars_of(s);
    assert(cs@.skip(0) =~= cs@);
    if cs.len() > 0 && cs[0] == '-' {
        match read_digits(&cs, 1, 0x8000_0000) {
            Some(n) => Some((-(n as i64)) as i32),
            None => None,
        }
    } else {
        let from: usize = if cs.len() > 0 && cs[0] == '+' {
            1
        } else {
            0
        };
        match read_digits(&cs, from, 0x7fff_ffff) {
            Some(n) => Some(n as i32),
            None => None,
        }
    }
}

/// Writing a number and reading it back gives the number.
pub proof fn lemma_decimal(n: nat)
    ensures
        all_digits(decimal(n)),
        decimal(n).len() > 0,
        digits_value(decimal(n)) == n,
    decreases n,
{
    let t = decimal(n);
    if n < 10 {
        assert(t.drop_last() =~= Seq::<char>::empty());
        assert(digits_value(t.drop_last()) == 0);
    } else {
        lemma_decimal(n / 10);
        assert(t.drop_last() =~= decimal(n / 10));
        assert forall|i: int| 0 <= i < t.len() implies is_digit(#[trigger] t[i]) by {
            if i < t.len() - 1 {
                assert(t[i] == decimal(n / 10)[i]);
            }
        }
    }
}

/// Zeros in front change no value.
pub proof fn lemma_digits_pad(cs: Seq<char>, width: nat)
    requires
        all_digits(cs),
        cs.len() > 0,
    ensures
        all_digits(pad_zeros(cs, width)),
        pad_zeros(cs, width).len() > 0,
        digits_value(pad_zeros(cs, width)) == digits_value(cs),
    decreases width,
{
    if cs.len() < width {
        let rest = pad_zeros(cs, (width - 1) as nat);
        lemma_digits_pad(cs, (width - 1) as nat);
        lemma_zero_front(rest);
        let t = pad_zeros(cs, width);
        assert forall|i: int| 0 <= i < t.len() implies is_digit(#[trigger] t[i]) by {
            if i > 0 {
                assert(t[i] == rest[i - 1]);
            }
        }
    }
}

proof fn lemma_zero_front(cs: Seq<char>)
    ensures
        digits_value(seq!['0'] + cs) == digits_value(cs),
    decreases cs.len(),
{
    let t = seq!['0'] + cs;
    if cs.len() > 0 {
        lemma_zero_front(cs.drop_last());
        assert(t.drop_last() =~= seq!['0'] + cs.drop_last());
        assert(t.last() == cs.last());
    } else {
        assert(t.drop_last() =~= Seq::<char>::empty());
        assert(digits_value(t.drop_last()) == 0);
    }
}

// ---- searching and replacing ----

/// Whether `pat` stands at position `i`.
pub open spec fn matches_at(cs: Seq<char>, i: int, pat: Seq<char>) -> bool {
    0 <= i && i + pat.len() <= cs.len() && cs.subrange(i, i + pat.len()) == pat
}

/// The first place at or after `i` where `pat` stands.
pub open spec fn first_match(cs: Seq<char>, i: int, pat: Seq<char>) -> Option<int>
    decreases cs.len() + 1 - i,
{
    if i > cs.len() {
        None
    } else if matches_at(cs, i, pat) {
        Some(i)
    } else {
        first_match(cs, i + 1, pat)
    }
}

/// `cs` from `i` on, with `with` in place of each `pat`, taken from left to right.
pub open spec fn replaced_from(cs: Seq<char>, i: int, pat: Seq<char>, with: Seq<char>) -> Seq<char>
    decreases cs.len() - i,
{
    if 0 <= i < cs.len() {
        if pat.len() > 0 && matches_at(cs, i, pat) {
            with + replaced_from(cs, i + pat.len(), pat, with)
        } else {
            seq![cs[i]] + replaced_from(cs, i + 1, pat, with)
        }
    } else {
        Seq::empty()
    }
}

/// Whether `pat` stands at position `i`.
pub fn match_at(cs: &Vec<char>, i: usize, pat: &Vec<char>) -> (r: bool)
    ensures
        r == matches_at(cs@, i as int, pat@),
{
    if i > cs.len() || pat.len() > cs.len() - i {
        return false;
    }
    let ghost part = cs@.subrange(i as int, i + pat@.len());
    let end: usize = i + pat.len();
    let mut k: usize = 0;
    while k < pat.len()
        invariant
            0 <= k <= pat@.len(),
            end == i + pat@.len(),
            end <= cs@.len(),
            part == cs@.subrange(i as int, i + pat@.len()),
            forall|j: int| 0 <= j < k ==> part[j] == pat@[j],
        decreases pat@.len() - k,
    {
        if cs[i + k] != pat[k] {
            assert(part[k as int] != pat@[k as int]);
            return false;
        }
        k = k + 1;
    }
    assert(part =~= pat@);
    true
}

/// The first place where `pat` stands.
pub fn find_match(cs: &Vec<char>, pat: &Vec<char>) -> (r: Option<usize>)
    ensures
        match r {
            Some(i) => first_match(cs@, 0, pat@) == Some(i as int) && matches_at(
                cs@,
                i as int,
                pat@,
            ),
            None => first_match(cs@, 0, pat@) is None,
        },
{
    let mut i: usize = 0;
    loop
        invariant
            0 <= i <= cs@.len(),
            first_match(cs@, i as int, pat@) == first_match(cs@, 0, pat@),
        decreases cs@.len() - i,
    {
        if match_at(cs, i, pat) {
            return Some(i);
        }
        if i >= cs.len() {
            assert(first_match(cs@, i + 1, pat@) is None);
            return None;
        }
        i = i + 1;
    }
}

/// `s` with `with` in place of each `pat`, as `str::replace` has it.
pub fn replace_all(s: &str, pat: &str, with: &str) -> (r: String)
    requires
        pat@.len() > 0,
    ensures
        r@ == replaced_from(s@, 0, pat@, with@),
{
    let cs: Vec<char> = chars_of(s);
    let p: Vec<char> = chars_of(pat);
    let mut out: String = String::new();
    let mut i: usize = 0;
    assert(out@ + replaced_from(s@, 0, pat@, with@) =~= replaced_from(s@, 0, pat@, with@));
    while i < cs.len()
        invariant
            0 <= i <= cs@.len(),
            cs@ == s@,
            p@ == pat@,
            pat@.len() > 0,
            out@ + replaced_from(s@, i as int, pat@, with@) == replaced_from(s@, 0, pat@, with@),
        decreases cs@.len() - i,
    {
        let ghost before = out@;
        if match_at(&cs, i, &p) {
            let ghost rest = replaced_from(s@, i + pat@.len(), pat@, with@);
            assert(before + (with@ + rest) =~= (before + with@) + rest);
            out.append(with);
            i = i + p.len();
        } else {
            let ghost rest = replaced_from(s@, i + 1, pat@, with@);
            assert(before + (seq![s@[i as int]] + rest) =~= before.push(s@[i as int]) + rest);
            out.push(cs[i]);
            i = i + 1;
        }
    }
    assert(out@ + Seq::<char>::empty() =~= out@);
    out
}

/// The lines of a text as `str::lines` has them: ended by `\n` or `\r\n`, the
/// last one by the end of the text too.
pub open spec fn text_lines_from(cs: Seq<char>, i: int) -> Seq<Seq<char>>
    decreases cs.len() - i,
    via text_lines_decreases
{
    if 0 <= i < cs.len() {
        let e = next_sep(cs, i, '\n');
        if e < cs.len() {
            let end = if e > i && cs[e - 1] == '\r' {
                e - 1
            } else {
                e
            };
            seq![cs.subrange(i, end)] + text_lines_from(cs, e + 1)
        } else {
            seq![cs.subrange(i, e)]
        }
    } else {
        Seq::empty()
    }
}

#[via_fn]
proof fn text_lines_decreases(cs: Seq<char>, i: int) {
    if 0 <= i < cs.len() {
        lemma_next_sep(cs, i, '\n');
    }
}

/// The lines of `s`.
pub fn text_lines(s: &str) -> (r: Vec<String>)
    ensures
        r@.map_values(|l: String| l@) == text_lines_from(s@, 0),
{
    let cs: Vec<char> = chars_of(s);
    let n: usize = cs.len();
    let mut out: Vec<String> = Vec::new();
    let mut i: usize = 0;
    assert(out@.map_values(|l: String| l@) + text_lines_from(s@, 0) =~= text_lines_from(s@, 0));
    while i < n
        invariant
            0 <= i <= n,
            n == cs@.len(),
            cs@ == s@,
            out@.map_values(|l: String| l@) + text_lines_from(s@, i as int) == text_lines_from(
                s@,
                0,
            ),
        decreases n - i,
    {
        let ghost before = out@.map_values(|l: String| l@);
        let mut e: usize = i;
        while e < n && cs[e] != '\n'
            invariant
                i <= e <= n,
                n == cs@.len(),
                next_sep(cs@, e as int, '\n') == next_sep(cs@, i as int, '\n'),
            decreases n - e,
        {
            e = e + 1;
        }
        let end: usize = if e < n && e > i && cs[e - 1] == '\r' {
            e - 1
        } else {
            e
        };
        let line: String = string_of_range(&cs, i, end);
        out.push(line);
        let ghost piece = cs@.subrange(i as int, end as int);
        assert(out@.map_values(|l: String| l@) =~= before.push(piece));
        if e >= n {
            assert(text_lines_from(s@, n as int) =~= Seq::<Seq<char>>::empty());
            assert(before.push(piece) + Seq::<Seq<char>>::empty() =~= before + seq![piece]);
            i = n;
        } else {
            let ghost rest = text_lines_from(s@, e + 1);
            assert(before.push(piece) + rest =~= before + (seq![piece] + rest));
            i = e + 1;
        }
    }
    assert(text_lines_from(s@, i as int) =~= Seq::<Seq<char>>::empty());
    assert(out@.map_values(|l: String| l@) + Seq::<Seq<char>>::empty() =~= out@.map_values(
        |l: String| l@,
    ));
    out
}

// ---- white space ----

/// The characters with the Unicode property `White_Space`.
pub open spec fn is_whitespace(c: char) -> bool {
    let v = c as u32;
    (9 <= v && v <= 13) || v == 32 || v == 0x85 || v == 0xa0 || v == 0x1680 || (0x2000 <= v && v
        <= 0x200a) || v == 0x2028 || v == 0x2029 || v == 0x202f || v == 0x205f || v == 0x3000
}

pub fn whitespace(c: char) -> (r: bool)
    ensures
        r == is_whitespace(c),
{
    let v: u32 = c as u32;
    (9 <= v && v <= 13) || v == 32 || v == 0x85 || v == 0xa0 || v == 0x1680 || (0x2000 <= v && v
        <= 0x200a) || v == 0x2028 || v == 0x2029 || v == 0x202f || v == 0x205f || v == 0x3000
}

/// `cs` without its leading white space.
pub open spec fn trimmed_start(cs: Seq<char>) -> Seq<char>
    decreases cs.len(),
{
    if cs.len() > 0 && is_whitespace(cs[0]) {
        trimmed_start(cs.drop_first())
    } else {
        cs
    }
}

/// `cs` without its trailing white space.
pub open spec fn trimmed_end(cs: Seq<char>) -> Seq<char>
    decreases cs.len(),
{
    if cs.len() > 0 && is_whitespace(cs.last()) {
        trimmed_end(cs.drop_last())
    } else {
        cs
    }
}

/// `cs` without white space at either end.
pub open spec fn trimmed(cs: Seq<char>) -> Seq<char> {
    trimmed_end(trimmed_start(cs))
}

/// `s` without white space at either end.
pub fn trim<'a>(s: &'a str) -> (r: &'a str)
    ensures
        r@ == trimmed(s@),
{
    let cs: Vec<char> = chars_of(s);
    let n: usize = cs.len();
    let mut a: usize = 0;
    assert(cs@.subrange(0, n as int) =~= cs@);
    while a < n && whitespace(cs[a])
        invariant
            0 <= a <= n,
            n == cs@.len(),
            cs@ == s@,
            trimmed_start(cs@.subrange(a as int, n as int)) == trimmed_start(cs@),
        decreases n - a,
    {
        assert(cs@.subrange(a as int, n as int).drop_first() =~= cs@.subrange(a + 1, n as int));
        a = a + 1;
    }
    let ghost start = cs@.subrange(a as int, n as int);
    let mut b: usize = n;
    while b > a && whitespace(cs[b - 1])
        invariant
            0 <= a <= b <= n,
            n == cs@.len(),
            trimmed_end(cs@.subrange(a as int, b as int)) == trimmed_end(start),
        decreases b,
    {
        assert(cs@.subrange(a as int, b as int).drop_last() =~= cs@.subrange(a as int, b - 1));
        b = b - 1;
    }
    s.substring_char(a, b)
}

/// The first position at or after `i` that holds white space, if `ws`, or none,
/// if not (the end of the text if there is no such position).
pub open spec fn next_space(cs: Seq<char>, i: int, ws: bool) -> int
    decreases cs.len() - i,
{
    if i < cs.len() && is_whitespace(cs[i]) != ws {
        next_space(cs, i + 1, ws)
    } else {
        i
    }
}

pub proof fn lemma_next_space(cs: Seq<char>, i: int, ws: bool)
    requires
        0 <= i <= cs.len(),
    ensures
        i <= next_space(cs, i, ws) <= cs.len(),
        next_space(cs, i, ws) < cs.len() ==> is_whitespace(cs[next_space(cs, i, ws)]) == ws,
    decreases cs.len() - i,
{
    if i < cs.len() && is_whitespace(cs[i]) != ws {
        lemma_next_space(cs, i + 1, ws);
    }
}

/// The words of `cs` from `i` on: what stands between white space.
pub open spec fn words_from(cs: Seq<char>, i: int) -> Seq<Seq<char>>
    decreases cs.len() - i,
    via words_from_decreases
{
    if 0 <= i <= cs.len() {
        let a = next_space(cs, i, false);
        if a < cs.len() {
            let b = next_space(cs, a, true);
            seq![cs.subrange(a, b)] + words_from(cs, b)
        } else {
            Seq::empty()
        }
    } else {
        Seq::empty()
    }
}

#[via_fn]
proof fn words_from_decreases(cs: Seq<char>, i: int) {
    if 0 <= i <= cs.len() {
        lemma_next_space(cs, i, false);
        let a = next_space(cs, i, false);
        if a < cs.len() {
            lemma_next_space(cs, a + 1, true);
        }
    }
}

/// The words of a text, as `str::split_whitespace` has them.
pub open spec fn word_list(cs: Seq<char>) -> Seq<Seq<char>> {
    words_from(cs, 0)
}

/// The words of `s`.
pub fn split_words(s: &str) -> (r: Vec<String>)
    ensures
        r@.map_values(|w: String| w@) == word_list(s@),
{
    let cs: Vec<char> = chars_of(s);
    let n: usize = cs.len();
    let mut out: Vec<String> = Vec::new();
    let mut i: usize = 0;
    assert(out@.map_values(|w: String| w@) + word_list(s@) =~= word_list(s@));
    loop
        invariant
            0 <= i <= n,
            n == cs@.len(),
            cs@ == s@,
            out@.map_values(|w: String| w@) + words_from(s@, i as int) == word_list(s@),
        decreases n - i,
    {
        let ghost before = out@.map_values(|w: String| w@);
        let mut a: usize = i;
        while a < n && whitespace(cs[a])
            invariant
                i <= a <= n,
                n == cs@.len(),
                next_space(cs@, a as int, false) == next_space(cs@, i as int, false),
            decreases n - a,
        {
            a = a + 1;
        }
        if a >= n {
            assert(before + Seq::<Seq<char>>::empty() =~= before);
            return out;
        }
        let mut b: usize = a + 1;
        while b < n && !whitespace(cs[b])
            invariant
                a < b <= n,
                n == cs@.len(),
                next_space(cs@, b as int, true) == next_space(cs@, a as int, true),
            decreases n - b,
        {
            b = b + 1;
        }
        out.push(string_of_range(&cs, a, b));
        proof {
            let w = cs@.subrange(a as int, b as int);
            let rest = words_from(s@, b as int);
            assert(out@.map_values(|w: String| w@) =~= before.push(w));
            assert(before.push(w) + rest =~= before + (seq![w] + rest));
        }
        i = b;
    }
}

/// `cs` without `suffix` at its end, as often as it stands there.
pub open spec fn trimmed_suffix(cs: Seq<char>, suffix: Seq<char>) -> Seq<char>
    decreases cs.len(),
{
    if suffix.len() > 0 && matches_at(cs, cs.len() - suffix.len(), suffix) {
        trimmed_suffix(cs.take(cs.len() - suffix.len()), suffix)
    } else {
        cs
    }
}

/// `s` without `suffix` at its end, as often as it stands there.
pub fn trim_suffix(s: &str, suffix: &str) -> (r: String)
    ensures
        r@ == trimmed_suffix(s@, suffix@),
{
    let cs: Vec<char> = chars_of(s);
    let p: Vec<char> = chars_of(suffix);
    let mut n: usize = cs.len();
    assert(cs@.take(n as int) =~= cs@);
    while p.len() > 0 && p.len() <= n && match_at(&cs, n - p.len(), &p)
        invariant
            0 <= n <= cs@.len(),
            cs@ == s@,
            p@ == suffix@,
            trimmed_suffix(cs@.take(n as int), suffix@) == trimmed_suffix(s@, suffix@),
        decreases n,
    {
        proof {
            let t = cs@.take(n as int);
            let k = n - p@.len();
            assert(t.subrange(k, k + p@.len()) =~= cs@.subrange(k, k + p@.len()));
            assert(t.take(k) =~= cs@.take(k));
        }
        n = n - p.len();
    }
    proof {
        let t = cs@.take(n as int);
        let k = n - p@.len();
        if k >= 0 {
            assert(t.subrange(k, k + p@.len()) =~= cs@.subrange(k, k + p@.len()));
        }
        assert(cs@.subrange(0, n as int) =~= t);
    }
    string_of_range(&cs, 0, n)
}

/// A text that starts and ends with other characters has nothing to trim.
pub proof fn lemma_trimmed_noop(cs: Seq<char>)
    requires
        cs.len() > 0,
        !is_whitespace(cs[0]),
        !is_whitespace(cs[cs.len() - 1]),
    ensures
        trimmed(cs) == cs,
{
}

// ---- UTF-8 lengths ----

/// The encoding of a concatenation is the concatenation of the encodings.
pub proof fn lemma_encode_concat(a: Seq<char>, b: Seq<char>)
    ensures
        encode_utf8(a + b) == encode_utf8(a) + encode_utf8(b),
    decreases a.len(),
{
    if a.len() == 0 {
        assert(a + b =~= b);
        assert(encode_utf8(a) + encode_utf8(b) =~= encode_utf8(b));
    } else {
        lemma_encode_concat(a.drop_first(), b);
        assert((a + b).drop_first() =~= a.drop_first() + b);
        assert(encode_utf8(a + b) =~= encode_utf8(a) + encode_utf8(b));
    }
}

/// The encoding of one character.
pub proof fn lemma_encode_one(c: char)
    ensures
        encode_utf8(seq![c]) == encode_scalar(c as u32),
        1 <= encode_scalar(c as u32).len() <= 4,
{
    assert(seq![c].drop_first() =~= Seq::<char>::empty());
    assert(encode_utf8(Seq::<char>::empty()) =~= Seq::<u8>::empty());
    assert(encode_utf8(seq![c]) =~= encode_scalar(c as u32));
}

/// How many bytes encode `c`.
pub fn utf8_width(c: char) -> (r: usize)
    ensures
        r == encode_scalar(c as u32).len(),
        1 <= r <= 4,
{
    let v: u32 = c as u32;
    if v < 0x80 {
        1
    } else if v < 0x800 {
        2
    } else if v < 0x10000 {
        3
    } else {
        4
    }
}

// ---- splitting ----

/// The first position at or after `i` that holds `sep` (the end of the text if
/// there is none).
pub open spec fn next_sep(cs: Seq<char>, i: int, sep: char) -> int
    decreases cs.len() - i,
{
    if i < cs.len() && cs[i] != sep {
        next_sep(cs, i + 1, sep)
    } else {
        i
    }
}

pub proof fn lemma_next_sep(cs: Seq<char>, i: int, sep: char)
    requires
        0 <= i <= cs.len(),
    ensures
        i <= next_sep(cs, i, sep) <= cs.len(),
        next_sep(cs, i, sep) < cs.len() ==> cs[next_sep(cs, i, sep)] == sep,
        forall|k: int| i <= k < next_sep(cs, i, sep) ==> #[trigger] cs[k] != sep,
    decreases cs.len() - i,
{
    if i < cs.len() && cs[i] != sep {
        lemma_next_sep(cs, i + 1, sep);
    }
}

/// The pieces of `cs` from `i` on between separators, as `str::split` has them:
/// one more than there are separators.
pub open spec fn pieces_from(cs: Seq<char>, i: int, sep: char) -> Seq<Seq<char>>
    decreases cs.len() - i,
    via pieces_from_decreases
{
    if 0 <= i <= cs.len() {
        let e = next_sep(cs, i, sep);
        if e < cs.len() {
            seq![cs.subrange(i, e)] + pieces_from(cs, e + 1, sep)
        } else {
            seq![cs.subrange(i, e)]
        }
    } else {
        Seq::empty()
    }
}

#[via_fn]
proof fn pieces_from_decreases(cs: Seq<char>, i: int, sep: char) {
    if 0 <= i <= cs.len() {
        lemma_next_sep(cs, i, sep);
    }
}

/// The pieces of `cs` between separators.
pub open spec fn pieces(cs: Seq<char>, sep: char) -> Seq<Seq<char>> {
    pieces_from(cs, 0, sep)
}

/// The pieces from `i` on are the pieces of what is left from `i` on.
pub proof fn lemma_pieces_shift(cs: Seq<char>, i: int, k: int, sep: char)
    requires
        0 <= i <= cs.len(),
        0 <= k <= cs.len() - i,
    ensures
        next_sep(cs, i + k, sep) == i + next_sep(cs.skip(i), k, sep),
        pieces_from(cs, i + k, sep) == pieces_from(cs.skip(i), k, sep),
    decreases cs.len() - i - k,
{
    let t = cs.skip(i);
    lemma_sep_shift(cs, i, k, sep);
    lemma_next_sep(t, k, sep);
    let e = next_sep(t, k, sep);
    assert(cs.subrange(i + k, i + e) =~= t.subrange(k, e));
    if e < t.len() {
        lemma_pieces_shift(cs, i, e + 1, sep);
    }
}

proof fn lemma_sep_shift(cs: Seq<char>, i: int, k: int, sep: char)
    requires
        0 <= i <= cs.len(),
        0 <= k <= cs.len() - i,
    ensures
        next_sep(cs, i + k, sep) == i + next_sep(cs.skip(i), k, sep),
    decreases cs.len() - i - k,
{
    if k < cs.len() - i && cs[i + k] != sep {
        lemma_sep_shift(cs, i, k + 1, sep);
    }
}

/// A text without separators is one piece.
pub proof fn lemma_pieces_one(a: Seq<char>, sep: char)
    requires
        forall|k: int| 0 <= k < a.len() ==> #[trigger] a[k] != sep,
    ensures
        pieces(a, sep) == seq![a],
{
    lemma_next_sep(a, 0, sep);
    assert(a.subrange(0, a.len() as int) =~= a);
}

/// What stands before the first separator is the first piece.
pub proof fn lemma_pieces_cons(a: Seq<char>, b: Seq<char>, sep: char)
    requires
        forall|k: int| 0 <= k < a.len() ==> #[trigger] a[k] != sep,
    ensures
        pieces(a + seq![sep] + b, sep) == seq![a] + pieces(b, sep),
{
    let t = a + seq![sep] + b;
    lemma_next_sep(t, 0, sep);
    let e = next_sep(t, 0, sep);
    assert(e == a.len()) by {
        if e < a.len() {
            assert(t[e] == a[e]);
        } else {
            assert(t[a.len() as int] == sep);
        }
    }
    assert(t.subrange(0, e) =~= a);
    lemma_pieces_shift(t, e + 1, 0, sep);
    assert(t.skip(e + 1) =~= b);
}

/// The pieces of `s` between separators.
pub fn split<'a>(s: &'a str, sep: char) -> (r: Vec<&'a str>)
    ensures
        r@.map_values(|p: &str| p@) == pieces(s@, sep),
        r@.len() > 0,
{
    let cs: Vec<char> = chars_of(s);
    let mut out: Vec<&'a str> = Vec::new();
    let mut i: usize = 0;
    assert(out@.map_values(|p: &str| p@) + pieces_from(cs@, 0, sep) =~= pieces(cs@, sep));
    loop
        invariant
            0 <= i <= cs@.len(),
            cs@ == s@,
            out@.map_values(|p: &str| p@) + pieces_from(cs@, i as int, sep) == pieces(cs@, sep),
        decreases cs@.len() - i,
    {
        let ghost before = out@.map_values(|p: &str| p@);
        let mut e: usize = i;
        while e < cs.len() && cs[e] != sep
            invariant
                i <= e <= cs@.len(),
                next_sep(cs@, e as int, sep) == next_sep(cs@, i as int, sep),
            decreases cs@.len() - e,
        {
            e = e + 1;
        }
        let piece: &'a str = s.substring_char(i, e);
        out.push(piece);
        proof {
            assert(out@.map_values(|p: &str| p@) =~= before.push(cs@.subrange(i as int, e as int)));
        }
        if e >= cs.len() {
            assert(out@.map_values(|p: &str| p@) =~= before + pieces_from(cs@, i as int, sep));
            return out;
        }
        proof {
            let rest = pieces_from(cs@, e + 1, sep);
            assert(out@.map_values(|p: &str| p@) + rest =~= before + (seq![
                cs@.subrange(i as int, e as int),
            ] + rest));
        }
        i = e + 1;
    }
}

/// A signed number in decimal.
pub open spec fn int_text(n: int) -> Seq<char> {
    if n < 0 {
        seq!['-'] + decimal((-n) as nat)
    } else {
        decimal(n as nat)
    }
}

/// A signed number in decimal.
pub fn int_string(n: i32) -> (r: String)
    ensures
        r@ == int_text(n as int),
{
    if n < 0 {
        let mut s: String = String::new();
        s.push('-');
        s.append(decimal_string((-(n as i64)) as u64).as_str());
        assert(s@ =~= int_text(n as int));
        s
    } else {
        decimal_string(n as u64)
    }
}

/// An ASCII decimal digit.
pub open spec fn is_digit(c: char) -> bool {
    '0' <= c && c <= '9'
}

/// An ASCII letter.
pub open spec fn is_letter(c: char) -> bool {
    ('a' <= c && c <= 'z') || is_upper(c)
}

/// An ASCII capital letter.
pub open spec fn is_upper(c: char) -> bool {
    'A' <= c && c <= 'Z'
}

pub fn ascii_digit(c: char) -> (r: bool)
    ensures
        r == is_digit(c),
{
    '0' <= c && c <= '9'
}

pub fn ascii_upper(c: char) -> (r: bool)
    ensures
        r == is_upper(c),
{
    'A' <= c && c <= 'Z'
}

pub fn ascii_letter(c: char) -> (r: bool)
    ensures
        r == is_letter(c),
{
    ('a' <= c && c <= 'z') || ascii_upper(c)
}

} // verus!
