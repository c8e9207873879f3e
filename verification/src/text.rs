//! Text as sequences of characters: the readings of text the library decides
//! by, each with what it answers stated over `Seq<char>`.

use vstd::prelude::*;
use vstd::string::*;
use vstd::utf8::encode_utf8;

verus! {

// ---------------------------------------------------------------------------
// What is taken on trust of std's text.
// ---------------------------------------------------------------------------

/// `String::push`: appends one character.
pub assume_specification[ String::push ](text: &mut String, c: char)
    ensures
        final(text)@ == old(text)@.push(c),
;

/// `str`'s equality: whether two texts hold the same characters.
pub assume_specification[ <str as PartialEq<str>>::eq ](a: &str, b: &str) -> (r: bool)
    ensures
        r == (a@ == b@),
;

/// The characters with Unicode's `White_Space` property.
pub open spec fn is_white_space(c: char) -> bool {
    let n = c as u32;
    ||| 0x09 <= n <= 0x0d
    ||| n == 0x20
    ||| n == 0x85
    ||| n == 0xa0
    ||| n == 0x1680
    ||| 0x2000 <= n <= 0x200a
    ||| n == 0x2028
    ||| n == 0x2029
    ||| n == 0x202f
    ||| n == 0x205f
    ||| n == 0x3000
}

/// `char::is_whitespace`: whether a character has Unicode's `White_Space`
/// property.
pub assume_specification[ char::is_whitespace ](c: char) -> (r: bool)
    ensures
        r == is_white_space(c),
;

/// How `str`'s `Debug` writes a text: quoted, with escapes.
pub uninterp spec fn quoted(text: Seq<char>) -> Seq<char>;

/// `format!("{text:?}")`: `str`'s `Debug`, named [`quoted`].
#[verifier::external_body]
pub(crate) fn quoted_of(text: &str) -> (r: String)
    ensures
        r@ == quoted(text@),
{
    format!("{text:?}")
}

// ---------------------------------------------------------------------------
// Characters, one by one.
// ---------------------------------------------------------------------------

/// The characters of several texts.
pub open spec fn texts(all: Seq<String>) -> Seq<Seq<char>> {
    Seq::new(all.len(), |i: int| all[i]@)
}

/// The characters of `text`.
pub fn chars_of(text: &str) -> (r: Vec<char>)
    ensures
        r@ == text@,
{
    let mut out: Vec<char> = Vec::new();
    for c in it: text.chars()
        invariant
            out@ == it.seq().take(it.index() as int),
            it.seq() == text@,
    {
        out.push(c);
    }
    proof {
        assert(out@ =~= text@);
    }
    out
}

/// The text whose characters are `chars[from..to]`.
pub fn string_of(chars: &Vec<char>, from: usize, to: usize) -> (r: String)
    requires
        from <= to <= chars@.len(),
    ensures
        r@ == chars@.subrange(from as int, to as int),
{
    let mut out = String::new();
    let mut i: usize = from;
    while i < to
        invariant
            from <= i <= to <= chars@.len(),
            out@ == chars@.subrange(from as int, i as int),
        decreases to - i,
    {
        out.push(chars[i]);
        proof {
            assert(chars@.subrange(from as int, i as int).push(chars@[i as int])
                =~= chars@.subrange(from as int, i + 1));
        }
        i += 1;
    }
    out
}

/// Whether two texts are the same.
pub fn same_text(a: &str, b: &str) -> (r: bool)
    ensures
        r == (a@ == b@),
{
    *a == *b
}

/// How many bytes `text` is in UTF-8.
pub fn byte_len(text: &str) -> (r: usize)
    ensures
        r == encode_utf8(text@).len(),
{
    text.as_bytes().len()
}

/// A copy of `all`, text by text.
pub fn copied_texts(all: &Vec<String>) -> (r: Vec<String>)
    ensures
        r@ == all@,
{
    let mut out: Vec<String> = Vec::new();
    let mut i: usize = 0;
    while i < all.len()
        invariant
            i <= all@.len(),
            out@ =~= all@.take(i as int),
        decreases all@.len() - i,
    {
        out.push(all[i].clone());
        i += 1;
    }
    proof {
        assert(out@ =~= all@);
    }
    out
}

/// Whether `all` holds `text`.
pub fn holds_text(all: &Vec<String>, text: &str) -> (r: bool)
    ensures
        r == texts(all@).contains(text@),
{
    let mut i: usize = 0;
    while i < all.len()
        invariant
            i <= all@.len(),
            forall|k: int| 0 <= k < i ==> (#[trigger] texts(all@)[k]) != text@,
        decreases all@.len() - i,
    {
        if same_text(all[i].as_str(), text) {
            proof {
                assert(texts(all@)[i as int] == text@);
            }
            return true;
        }
        i += 1;
    }
    false
}

/// Whether `c` is one of `a` to `z`.
pub open spec fn is_lower(c: char) -> bool {
    'a' <= c <= 'z'
}

/// Whether `c` is one of `A` to `Z`.
pub open spec fn is_upper(c: char) -> bool {
    'A' <= c <= 'Z'
}

/// Whether `c` is one of `0` to `9`.
pub open spec fn is_digit(c: char) -> bool {
    '0' <= c <= '9'
}

/// Whether `c` is an ASCII letter.
pub open spec fn is_letter(c: char) -> bool {
    is_lower(c) || is_upper(c)
}

/// `c`, in lower case when it is an ASCII letter.
pub open spec fn lower_char(c: char) -> char {
    if is_upper(c) {
        (c as u8 + 32) as u8 as char
    } else {
        c
    }
}

/// `text` with its ASCII letters in lower case.
pub open spec fn lower(text: Seq<char>) -> Seq<char> {
    text.map_values(|c: char| lower_char(c))
}

/// `c`, in lower case when it is an ASCII letter.
pub fn lower_char_of(c: char) -> (r: char)
    ensures
        r == lower_char(c),
{
    if 'A' <= c && c <= 'Z' {
        let n: u8 = c as u8;
        let m: u8 = n + 32;
        m as char
    } else {
        c
    }
}

/// `text` with its ASCII letters in lower case.
pub fn lower_of(text: &str) -> (r: String)
    ensures
        r@ == lower(text@),
{
    let chars = chars_of(text);
    let mut out = String::new();
    let mut i: usize = 0;
    while i < chars.len()
        invariant
            i <= chars@.len(),
            chars@ == text@,
            out@ =~= lower(text@).take(i as int),
        decreases chars@.len() - i,
    {
        out.push(lower_char_of(chars[i]));
        i += 1;
    }
    proof {
        assert(out@ =~= lower(text@));
    }
    out
}

// ---------------------------------------------------------------------------
// Putting texts together.
// ---------------------------------------------------------------------------

/// `a` then `b`.
pub fn cat2(a: &str, b: &str) -> (r: String)
    ensures
        r@ == a@ + b@,
{
    a.to_owned().concat(b)
}

/// `a`, `b`, then `c`.
pub fn cat3(a: &str, b: &str, c: &str) -> (r: String)
    ensures
        r@ == a@ + b@ + c@,
{
    cat2(a, b).concat(c)
}

/// Four texts, in order.
pub fn cat4(a: &str, b: &str, c: &str, d: &str) -> (r: String)
    ensures
        r@ == a@ + b@ + c@ + d@,
{
    cat3(a, b, c).concat(d)
}

/// Five texts, in order.
pub fn cat5(a: &str, b: &str, c: &str, d: &str, e: &str) -> (r: String)
    ensures
        r@ == a@ + b@ + c@ + d@ + e@,
{
    cat4(a, b, c, d).concat(e)
}

/// Six texts, in order.
pub fn cat6(a: &str, b: &str, c: &str, d: &str, e: &str, f: &str) -> (r: String)
    ensures
        r@ == a@ + b@ + c@ + d@ + e@ + f@,
{
    cat5(a, b, c, d, e).concat(f)
}

/// Seven texts, in order.
pub fn cat7(a: &str, b: &str, c: &str, d: &str, e: &str, f: &str, g: &str) -> (r: String)
    ensures
        r@ == a@ + b@ + c@ + d@ + e@ + f@ + g@,
{
    cat6(a, b, c, d, e, f).concat(g)
}

/// `parts` with `sep` between each two.
pub open spec fn joined(parts: Seq<Seq<char>>, sep: Seq<char>) -> Seq<char>
    decreases parts.len(),
{
    if parts.len() == 0 {
        Seq::empty()
    } else if parts.len() == 1 {
        parts[0]
    } else {
        joined(parts.drop_last(), sep) + sep + parts.last()
    }
}

/// `parts` with `sep` between each two.
pub fn join(parts: &Vec<String>, sep: &str) -> (r: String)
    ensures
        r@ == joined(texts(parts@), sep@),
{
    let mut out = String::new();
    let mut i: usize = 0;
    proof {
        assert(texts(parts@).take(0) =~= Seq::<Seq<char>>::empty());
    }
    while i < parts.len()
        invariant
            i <= parts@.len(),
            out@ == joined(texts(parts@).take(i as int), sep@),
        decreases parts@.len() - i,
    {
        let ghost before = texts(parts@).take(i as int);
        let ghost after = texts(parts@).take(i + 1);
        proof {
            assert(after.drop_last() =~= before);
            assert(after.last() == parts@[i as int]@);
        }
        if i == 0 {
            out = parts[i].clone();
        } else {
            out.append(sep);
            out.append(parts[i].as_str());
        }
        i += 1;
    }
    proof {
        assert(texts(parts@).take(i as int) =~= texts(parts@));
    }
    out
}

/// The digit character for `d`, one of 0 to 9.
pub open spec fn digit_char(d: nat) -> char {
    (48 + d) as u8 as char
}

/// `n` in decimal.
pub open spec fn decimal(n: nat) -> Seq<char>
    decreases n,
{
    if n < 10 {
        seq![digit_char(n)]
    } else {
        decimal(n / 10).push(digit_char(n % 10))
    }
}

/// `n` in decimal.
pub fn decimal_of(n: u64) -> (r: String)
    ensures
        r@ == decimal(n as nat),
    decreases n,
{
    if n < 10 {
        let d: u8 = 48 + n as u8;
        let mut out = String::new();
        out.push(d as char);
        proof {
            assert(out@ =~= seq![digit_char(n as nat)]);
        }
        out
    } else {
        let mut out = decimal_of(n / 10);
        let d: u8 = 48 + (n % 10) as u8;
        out.push(d as char);
        out
    }
}

/// The hexadecimal digit for `d`, one of 0 to 15.
pub open spec fn hex_char(d: nat) -> char {
    if d < 10 {
        (48 + d) as u8 as char
    } else {
        (87 + d) as u8 as char
    }
}

/// `bytes` in hexadecimal, two digits each.
pub open spec fn hex(bytes: Seq<u8>) -> Seq<char> {
    Seq::new(
        2 * bytes.len(),
        |i: int| if i % 2 == 0 { hex_char(bytes[i / 2] as nat / 16) } else { hex_char(bytes[i / 2] as nat % 16) },
    )
}

/// The hexadecimal digit for `d`.
pub fn hex_char_of(d: u8) -> (r: char)
    requires
        d < 16,
    ensures
        r == hex_char(d as nat),
{
    if d < 10 {
        let c: u8 = 48 + d;
        c as char
    } else {
        let c: u8 = 87 + d;
        c as char
    }
}

/// `bytes[..count]` in hexadecimal, two lower-case digits each.
pub fn hex_of(bytes: &Vec<u8>, count: usize) -> (r: String)
    requires
        count <= bytes@.len(),
    ensures
        r@ == hex(bytes@.take(count as int)),
{
    let mut out = String::new();
    let mut i: usize = 0;
    proof {
        assert(hex(bytes@.take(0)) =~= Seq::<char>::empty());
    }
    while i < count
        invariant
            i <= count <= bytes@.len(),
            out@ == hex(bytes@.take(i as int)),
        decreases count - i,
    {
        let b: u8 = bytes[i];
        out.push(hex_char_of(b / 16));
        out.push(hex_char_of(b % 16));
        proof {
            assert(out@ =~= hex(bytes@.take(i + 1)));
        }
        i += 1;
    }
    out
}

// ---------------------------------------------------------------------------
// Reading numbers.
// ---------------------------------------------------------------------------

/// The number the digits of `text` write.
pub open spec fn digits_value(text: Seq<char>) -> nat
    decreases text.len(),
{
    if text.len() == 0 {
        0
    } else {
        digits_value(text.drop_last()) * 10 + (text.last() as u32 - 48) as nat
    }
}

/// Whether `text` is digits alone, at least one.
pub open spec fn all_digits(text: Seq<char>) -> bool {
    text.len() > 0 && forall|i: int| 0 <= i < text.len() ==> is_digit(#[trigger] text[i])
}

/// `text` after one leading `+`.
pub open spec fn unsigned_part(text: Seq<char>) -> Seq<char> {
    if text.len() > 0 && text[0] == '+' {
        text.skip(1)
    } else {
        text
    }
}

/// What `text` reads as, a whole number no more than `max`: digits, after an
/// optional `+`.
pub open spec fn unsigned_value(text: Seq<char>, max: nat) -> Option<nat> {
    let digits = unsigned_part(text);
    if all_digits(digits) && digits_value(digits) <= max {
        Some(digits_value(digits))
    } else {
        None
    }
}

proof fn lemma_digits_value_grows(text: Seq<char>, i: int)
    requires
        0 <= i <= text.len(),
        forall|k: int| 0 <= k < text.len() ==> is_digit(#[trigger] text[k]),
    ensures
        digits_value(text.take(i)) <= digits_value(text),
    decreases text.len(),
{
    if i < text.len() {
        lemma_digits_value_grows(text.drop_last(), i);
        assert(text.drop_last().take(i) =~= text.take(i));
    } else {
        assert(text.take(i) =~= text);
    }
}

/// What `text` reads as: digits, after an optional `+`, no more than `max`.
pub fn parse_unsigned(text: &str, max: u64) -> (r: Option<u64>)
    ensures
        match r {
            Some(n) => unsigned_value(text@, max as nat) == Some(n as nat),
            None => unsigned_value(text@, max as nat) is None,
        },
{
    let chars = chars_of(text);
    let start: usize = if chars.len() > 0 && chars[0] == '+' {
        1
    } else {
        0
    };
    let ghost digits = unsigned_part(text@);
    proof {
        assert(digits =~= text@.skip(start as int));
    }
    if start == chars.len() {
        return None;
    }
    let mut value: u64 = 0;
    let mut i: usize = start;
    proof {
        assert(digits.take(0) =~= Seq::<char>::empty());
    }
    while i < chars.len()
        invariant
            start <= i <= chars@.len(),
            chars@ == text@,
            digits == text@.skip(start as int),
            digits == unsigned_part(text@),
            value <= max,
            forall|k: int| start <= k < i ==> is_digit(#[trigger] chars@[k]),
            value == digits_value(digits.take(i - start)),
        decreases chars@.len() - i,
    {
        let c = chars[i];
        if !('0' <= c && c <= '9') {
            proof {
                assert(digits[i - start] == c);
            }
            return None;
        }
        let d: u64 = (c as u32 - 48) as u64;
        proof {
            let next = digits.take(i - start + 1);
            assert(next.drop_last() =~= digits.take(i - start));
            assert(next.last() == c);
            assert(digits_value(next) == value * 10 + d);
            if all_digits(digits) {
                lemma_digits_value_grows(digits, i - start + 1);
            }
        }
        if d > max || value > (max / 10) || value * 10 > max - d {
            proof {
                assert(value * 10 + d > max);
            }
            return None;
        }
        value = value * 10 + d;
        i += 1;
    }
    proof {
        assert(digits.take(i - start) =~= digits);
        assert forall|k: int| 0 <= k < digits.len() implies is_digit(#[trigger] digits[k]) by {
            assert(digits[k] == chars@[k + start]);
        }
    }
    Some(value)
}

/// The digits a number is written in are digits, and write that number.
pub proof fn lemma_decimal_value(n: nat)
    ensures
        all_digits(decimal(n)),
        digits_value(decimal(n)) == n,
    decreases n,
{
    reveal_with_fuel(digits_value, 2);
    if n < 10 {
        assert(decimal(n).drop_last() =~= Seq::<char>::empty());
        assert(is_digit(digit_char(n)));
    } else {
        lemma_decimal_value(n / 10);
        assert(decimal(n).drop_last() =~= decimal(n / 10));
        assert(is_digit(digit_char(n % 10)));
        assert forall|i: int| 0 <= i < decimal(n).len() implies is_digit(#[trigger] decimal(n)[i]) by {
            if i < decimal(n / 10).len() {
                assert(decimal(n)[i] == decimal(n / 10)[i]);
            }
        }
    }
}

/// A number written in decimal reads as that number.
pub proof fn decimal_round_trip(n: nat, max: nat)
    requires
        n <= max,
    ensures
        unsigned_value(decimal(n), max) == Some(n),
{
    lemma_decimal_value(n);
    assert(is_digit(decimal(n)[0]));
}

// ---------------------------------------------------------------------------
// Trimming and splitting.
// ---------------------------------------------------------------------------

/// How many characters of white space `text` starts with.
pub open spec fn leading(text: Seq<char>) -> nat
    decreases text.len(),
{
    if text.len() > 0 && is_white_space(text[0]) {
        1 + leading(text.skip(1))
    } else {
        0
    }
}

/// How many characters of white space `text` ends with.
pub open spec fn trailing(text: Seq<char>) -> nat
    decreases text.len(),
{
    if text.len() > 0 && is_white_space(text.last()) {
        1 + trailing(text.drop_last())
    } else {
        0
    }
}

/// `text` without the white space at its end.
pub open spec fn trimmed_end(text: Seq<char>) -> Seq<char> {
    text.take(text.len() - trailing(text))
}

/// `text` without the white space at its start and end.
pub open spec fn trimmed(text: Seq<char>) -> Seq<char> {
    trimmed_end(text.skip(leading(text) as int))
}

/// Whether `text` is white space alone, or nothing.
pub open spec fn is_blank(text: Seq<char>) -> bool {
    forall|i: int| 0 <= i < text.len() ==> is_white_space(#[trigger] text[i])
}

pub proof fn lemma_trailing_bound(text: Seq<char>)
    ensures
        trailing(text) <= text.len(),
    decreases text.len(),
{
    if text.len() > 0 && is_white_space(text.last()) {
        lemma_trailing_bound(text.drop_last());
    }
}

pub proof fn lemma_leading_bound(text: Seq<char>)
    ensures
        leading(text) <= text.len(),
    decreases text.len(),
{
    if text.len() > 0 && is_white_space(text[0]) {
        lemma_leading_bound(text.skip(1));
    }
}

/// Where the white space at the start of `chars[..to]` ends.
fn leading_end(chars: &Vec<char>) -> (r: usize)
    ensures
        r == leading(chars@),
        r <= chars@.len(),
{
    let mut i: usize = 0;
    proof {
        assert(chars@.skip(0) =~= chars@);
    }
    while i < chars.len() && chars[i].is_whitespace()
        invariant
            i <= chars@.len(),
            leading(chars@) == i + leading(chars@.skip(i as int)),
        decreases chars@.len() - i,
    {
        proof {
            assert(chars@.skip(i as int).skip(1) =~= chars@.skip(i + 1));
        }
        i += 1;
    }
    i
}

/// Where the white space at the end of `chars[from..]` starts.
fn trailing_start(chars: &Vec<char>, from: usize) -> (r: usize)
    requires
        from <= chars@.len(),
    ensures
        from <= r <= chars@.len(),
        r == chars@.len() - trailing(chars@.skip(from as int)),
{
    let ghost rest = chars@.skip(from as int);
    let mut j: usize = chars.len();
    proof {
        assert(rest.take(rest.len() as int) =~= rest);
    }
    while j > from && chars[j - 1].is_whitespace()
        invariant
            from <= j <= chars@.len(),
            rest == chars@.skip(from as int),
            trailing(rest) == (chars@.len() - j) + trailing(rest.take(j - from)),
        decreases j,
    {
        proof {
            assert(rest.take(j - from).drop_last() =~= rest.take(j - 1 - from));
        }
        j -= 1;
    }
    j
}

/// `text` without the white space at its start and end.
pub fn trim(text: &str) -> (r: String)
    ensures
        r@ == trimmed(text@),
{
    let chars = chars_of(text);
    let from = leading_end(&chars);
    let to = trailing_start(&chars, from);
    proof {
        assert(chars@.subrange(from as int, to as int) =~= trimmed(text@));
    }
    string_of(&chars, from, to)
}

/// `text` without the white space at its end.
pub fn trim_end(text: &str) -> (r: String)
    ensures
        r@ == trimmed_end(text@),
{
    let chars = chars_of(text);
    let to = trailing_start(&chars, 0);
    proof {
        assert(chars@.skip(0) =~= chars@);
        assert(chars@.subrange(0, to as int) =~= trimmed_end(text@));
    }
    string_of(&chars, 0, to)
}

/// Whether `text` is white space alone, or nothing.
pub fn blank(text: &str) -> (r: bool)
    ensures
        r == is_blank(text@),
{
    let chars = chars_of(text);
    let mut i: usize = 0;
    while i < chars.len()
        invariant
            i <= chars@.len(),
            chars@ == text@,
            forall|k: int| 0 <= k < i ==> is_white_space(#[trigger] text@[k]),
        decreases chars@.len() - i,
    {
        if !chars[i].is_whitespace() {
            return false;
        }
        i += 1;
    }
    true
}

/// `text` cut at each character `at` holds of: the pieces between, empty ones
/// among them.
pub open spec fn split_where(text: Seq<char>, at: spec_fn(char) -> bool) -> Seq<Seq<char>>
    decreases text.len(),
{
    if text.len() == 0 {
        seq![Seq::empty()]
    } else {
        let before = split_where(text.drop_last(), at);
        if at(text.last()) {
            before.push(Seq::empty())
        } else {
            before.drop_last().push(before.last().push(text.last()))
        }
    }
}

/// Whether a character is `sep`.
pub open spec fn is_char(sep: char) -> spec_fn(char) -> bool {
    |c: char| c == sep
}

/// `text` cut at each `sep`.
pub open spec fn split_on(text: Seq<char>, sep: char) -> Seq<Seq<char>> {
    split_where(text, is_char(sep))
}

/// The words of `text`: its runs of characters that are not white space.
pub open spec fn words(text: Seq<char>) -> Seq<Seq<char>> {
    split_where(text, |c: char| is_white_space(c)).filter(|w: Seq<char>| w.len() > 0)
}

pub proof fn lemma_split_nonempty(text: Seq<char>, at: spec_fn(char) -> bool)
    ensures
        split_where(text, at).len() > 0,
    decreases text.len(),
{
    if text.len() > 0 {
        lemma_split_nonempty(text.drop_last(), at);
    }
}

/// `text` cut at each `sep`.
pub fn split(text: &str, sep: char) -> (r: Vec<String>)
    ensures
        texts(r@) == split_on(text@, sep),
        r@.len() > 0,
{
    let chars = chars_of(text);
    let ghost at = is_char(sep);
    let mut done: Vec<String> = Vec::new();
    let mut current = String::new();
    let mut i: usize = 0;
    proof {
        assert(text@.take(0) =~= Seq::<char>::empty());
        assert(texts(done@).push(current@) =~= split_where(text@.take(0), at));
    }
    while i < chars.len()
        invariant
            i <= chars@.len(),
            chars@ == text@,
            at == is_char(sep),
            texts(done@).push(current@) == split_where(text@.take(i as int), at),
        decreases chars@.len() - i,
    {
        let c = chars[i];
        let ghost before = texts(done@).push(current@);
        proof {
            assert(text@.take(i + 1).drop_last() =~= text@.take(i as int));
            assert(before.drop_last() =~= texts(done@));
        }
        if c == sep {
            done.push(current);
            current = String::new();
            proof {
                assert(texts(done@).push(current@) =~= before.push(Seq::empty()));
            }
        } else {
            current.push(c);
            proof {
                assert(texts(done@).push(current@) =~= before.drop_last().push(before.last().push(c)));
            }
        }
        i += 1;
    }
    let ghost all = texts(done@).push(current@);
    done.push(current);
    proof {
        assert(text@.take(i as int) =~= text@);
        assert(texts(done@) =~= all);
    }
    done
}

/// The words of `text`.
pub fn words_of(text: &str) -> (r: Vec<String>)
    ensures
        texts(r@) == words(text@),
{
    let chars = chars_of(text);
    let ghost at = |c: char| is_white_space(c);
    let ghost kept = |w: Seq<char>| w.len() > 0;
    let mut done: Vec<String> = Vec::new();
    let mut current: Vec<char> = Vec::new();
    let ghost mut cut: Seq<Seq<char>> = Seq::empty();
    let mut i: usize = 0;
    proof {
        assert(text@.take(0) =~= Seq::<char>::empty());
        assert(cut.push(current@) =~= split_where(text@.take(0), at));
        assert(texts(done@) =~= cut.filter(kept));
    }
    while i < chars.len()
        invariant
            i <= chars@.len(),
            chars@ == text@,
            at == (|c: char| is_white_space(c)),
            kept == (|w: Seq<char>| w.len() > 0),
            cut.push(current@) == split_where(text@.take(i as int), at),
            texts(done@) == cut.filter(kept),
        decreases chars@.len() - i,
    {
        let c = chars[i];
        let ghost before = cut.push(current@);
        let ghost cut_before = cut;
        let ghost done_before = texts(done@);
        let ghost word = current@;
        proof {
            assert(text@.take(i + 1).drop_last() =~= text@.take(i as int));
            assert(before.drop_last() =~= cut);
        }
        if c.is_whitespace() {
            if current.len() > 0 {
                let whole = string_of(&current, 0, current.len());
                done.push(whole);
                proof {
                    assert(current@.subrange(0, current@.len() as int) =~= current@);
                    assert(texts(done@) =~= done_before.push(word));
                }
            }
            current = Vec::new();
            proof {
                cut = cut.push(word);
                assert(cut.drop_last() =~= cut_before);
                reveal_with_fuel(Seq::filter, 2);
                assert(cut.push(current@) =~= before.push(Seq::empty()));
                assert(texts(done@) =~= cut.filter(kept));
            }
        } else {
            current.push(c);
            proof {
                assert(cut.push(current@) =~= before.drop_last().push(before.last().push(c)));
            }
        }
        i += 1;
    }
    let ghost whole_cut = cut.push(current@);
    let ghost done_before = texts(done@);
    proof {
        assert(text@.take(i as int) =~= text@);
        assert(whole_cut.drop_last() =~= cut);
        reveal_with_fuel(Seq::filter, 2);
    }
    if current.len() > 0 {
        let whole = string_of(&current, 0, current.len());
        done.push(whole);
        proof {
            assert(current@.subrange(0, current@.len() as int) =~= current@);
            assert(texts(done@) =~= done_before.push(current@));
        }
    }
    done
}

// ---------------------------------------------------------------------------
// Finding and replacing.
// ---------------------------------------------------------------------------

/// Whether `text` reads `part` from character `at` on.
pub open spec fn occurs_at(text: Seq<char>, part: Seq<char>, at: int) -> bool {
    0 <= at && at + part.len() <= text.len() && text.subrange(at, at + part.len()) == part
}

/// Whether `text` starts with `part`.
pub open spec fn starts(text: Seq<char>, part: Seq<char>) -> bool {
    occurs_at(text, part, 0)
}

/// Whether `text` ends with `part`.
pub open spec fn ends(text: Seq<char>, part: Seq<char>) -> bool {
    occurs_at(text, part, text.len() - part.len())
}

/// Whether `text` reads `part` anywhere.
pub open spec fn holds_part(text: Seq<char>, part: Seq<char>) -> bool {
    exists|at: int| occurs_at(text, part, at)
}

/// Whether `text` reads `part` from character `at` on.
pub fn reads_at(text: &Vec<char>, part: &Vec<char>, at: usize) -> (r: bool)
    requires
        at <= text@.len(),
    ensures
        r == occurs_at(text@, part@, at as int),
{
    let len: usize = text.len();
    if part.len() > len - at {
        return false;
    }
    let mut i: usize = 0;
    while i < part.len()
        invariant
            i <= part@.len(),
            at + part@.len() <= len == text@.len(),
            forall|k: int| 0 <= k < i ==> text@[at + k] == #[trigger] part@[k],
        decreases part@.len() - i,
    {
        if text[at + i] != part[i] {
            proof {
                assert(text@.subrange(at as int, at + part@.len())[i as int] == text@[at + i]);
            }
            return false;
        }
        i += 1;
    }
    proof {
        assert(text@.subrange(at as int, at + part@.len()) =~= part@);
    }
    true
}

/// Whether `text` starts with `part`.
pub fn starts_with(text: &str, part: &str) -> (r: bool)
    ensures
        r == starts(text@, part@),
{
    let chars = chars_of(text);
    let sought = chars_of(part);
    reads_at(&chars, &sought, 0)
}

/// Whether `text` ends with `part`.
pub fn ends_with(text: &str, part: &str) -> (r: bool)
    ensures
        r == ends(text@, part@),
{
    let chars = chars_of(text);
    let sought = chars_of(part);
    if sought.len() > chars.len() {
        false
    } else {
        reads_at(&chars, &sought, chars.len() - sought.len())
    }
}

/// Where `text` first reads `part`.
pub fn find(text: &Vec<char>, part: &Vec<char>) -> (r: Option<usize>)
    ensures
        match r {
            Some(at) => occurs_at(text@, part@, at as int) && forall|k: int|
                0 <= k < at ==> !occurs_at(text@, part@, k),
            None => !holds_part(text@, part@),
        },
{
    let mut i: usize = 0;
    while i < text.len()
        invariant
            i <= text@.len(),
            forall|k: int| 0 <= k < i ==> !occurs_at(text@, part@, k),
        decreases text@.len() - i,
    {
        if reads_at(text, part, i) {
            return Some(i);
        }
        i += 1;
    }
    if reads_at(text, part, i) {
        Some(i)
    } else {
        None
    }
}

/// Whether `text` reads `part` anywhere.
pub fn contains(text: &str, part: &str) -> (r: bool)
    ensures
        r == holds_part(text@, part@),
{
    let chars = chars_of(text);
    let sought = chars_of(part);
    match find(&chars, &sought) {
        Some(at) => {
            proof {
                assert(occurs_at(text@, part@, at as int));
            }
            true
        },
        None => false,
    }
}

/// Where `c` first occurs in `text[from..]`.
pub fn find_char(text: &Vec<char>, c: char, from: usize) -> (r: Option<usize>)
    requires
        from <= text@.len(),
    ensures
        match r {
            Some(at) => from <= at < text@.len() && text@[at as int] == c && forall|k: int|
                from <= k < at ==> text@[k] != c,
            None => forall|k: int| from <= k < text@.len() ==> text@[k] != c,
        },
{
    let mut i: usize = from;
    while i < text.len()
        invariant
            from <= i <= text@.len(),
            forall|k: int| from <= k < i ==> text@[k] != c,
        decreases text@.len() - i,
    {
        if text[i] == c {
            return Some(i);
        }
        i += 1;
    }
    None
}

/// Where `c` last occurs in `text[from..]`.
pub fn rfind_char(text: &Vec<char>, c: char, from: usize) -> (r: Option<usize>)
    requires
        from <= text@.len(),
    ensures
        match r {
            Some(at) => from <= at < text@.len() && text@[at as int] == c && forall|k: int|
                at < k < text@.len() ==> text@[k] != c,
            None => forall|k: int| from <= k < text@.len() ==> text@[k] != c,
        },
{
    let mut i: usize = text.len();
    while i > from
        invariant
            from <= i <= text@.len(),
            forall|k: int| i <= k < text@.len() ==> text@[k] != c,
        decreases i,
    {
        if text[i - 1] == c {
            return Some(i - 1);
        }
        i -= 1;
    }
    None
}

/// Where `c` first occurs in `text`.
pub open spec fn first_at(text: Seq<char>, c: char) -> Option<int>
    decreases text.len(),
{
    if text.len() == 0 {
        None
    } else if text[0] == c {
        Some(0)
    } else {
        match first_at(text.skip(1), c) {
            Some(at) => Some(at + 1),
            None => None,
        }
    }
}

/// Where `c` last occurs in `text`.
pub open spec fn last_at(text: Seq<char>, c: char) -> Option<int>
    decreases text.len(),
{
    if text.len() == 0 {
        None
    } else if text.last() == c {
        Some(text.len() - 1)
    } else {
        last_at(text.drop_last(), c)
    }
}

/// The place `c` is at, with none before it, is where it first occurs.
pub proof fn lemma_first_at(text: Seq<char>, c: char, at: Option<int>)
    requires
        match at {
            Some(i) => 0 <= i < text.len() && text[i] == c && forall|k: int|
                0 <= k < i ==> text[k] != c,
            None => forall|k: int| 0 <= k < text.len() ==> text[k] != c,
        },
    ensures
        first_at(text, c) == at,
    decreases text.len(),
{
    if text.len() > 0 && text[0] != c {
        let rest = text.skip(1);
        assert(forall|k: int| 0 <= k < rest.len() ==> rest[k] == text[k + 1]);
        match at {
            Some(i) => {
                lemma_first_at(rest, c, Some(i - 1));
            },
            None => {
                lemma_first_at(rest, c, None);
            },
        }
    }
}

/// The place `c` is at, with none after it, is where it last occurs.
pub proof fn lemma_last_at(text: Seq<char>, c: char, at: Option<int>)
    requires
        match at {
            Some(i) => 0 <= i < text.len() && text[i] == c && forall|k: int|
                i < k < text.len() ==> text[k] != c,
            None => forall|k: int| 0 <= k < text.len() ==> text[k] != c,
        },
    ensures
        last_at(text, c) == at,
    decreases text.len(),
{
    if text.len() > 0 && text.last() != c {
        let rest = text.drop_last();
        assert(forall|k: int| 0 <= k < rest.len() ==> rest[k] == text[k]);
        match at {
            Some(i) => {
                lemma_last_at(rest, c, Some(i));
            },
            None => {
                lemma_last_at(rest, c, None);
            },
        }
    }
}

/// Where `c` first occurs in `text`.
pub fn first_of(text: &Vec<char>, c: char) -> (r: Option<usize>)
    ensures
        match r {
            Some(at) => at < text@.len() && first_at(text@, c) == Some(at as int),
            None => first_at(text@, c) is None,
        },
{
    match find_char(text, c, 0) {
        Some(at) => {
            proof {
                lemma_first_at(text@, c, Some(at as int));
            }
            Some(at)
        },
        None => {
            proof {
                lemma_first_at(text@, c, None);
            }
            None
        },
    }
}

/// Where `c` last occurs in `text`.
pub fn last_of(text: &Vec<char>, c: char) -> (r: Option<usize>)
    ensures
        match r {
            Some(at) => at < text@.len() && last_at(text@, c) == Some(at as int),
            None => last_at(text@, c) is None,
        },
{
    match rfind_char(text, c, 0) {
        Some(at) => {
            proof {
                lemma_last_at(text@, c, Some(at as int));
            }
            Some(at)
        },
        None => {
            proof {
                lemma_last_at(text@, c, None);
            }
            None
        },
    }
}

/// `text` with each `part` it reads, left to right and not overlapping,
/// replaced by `with`. Nothing is replaced for an empty `part`.
pub open spec fn replaced(text: Seq<char>, part: Seq<char>, with: Seq<char>) -> Seq<char>
    decreases text.len(),
{
    if part.len() == 0 || text.len() == 0 {
        text
    } else if starts(text, part) {
        with + replaced(text.skip(part.len() as int), part, with)
    } else {
        seq![text[0]] + replaced(text.skip(1), part, with)
    }
}

/// `text` with each `part` it reads, left to right and not overlapping,
/// replaced by `with`.
pub fn replace(text: &str, part: &str, with: &str) -> (r: String)
    ensures
        r@ == replaced(text@, part@, with@),
{
    let chars = chars_of(text);
    let sought = chars_of(part);
    if sought.len() == 0 {
        return text.to_owned();
    }
    let mut out = String::new();
    let mut i: usize = 0;
    proof {
        assert(text@.skip(0) =~= text@);
    }
    while i < chars.len()
        invariant
            i <= chars@.len(),
            chars@ == text@,
            sought@ == part@,
            sought@.len() > 0,
            out@ + replaced(text@.skip(i as int), part@, with@) =~= replaced(text@, part@, with@),
        decreases chars@.len() - i,
    {
        let ghost rest = text@.skip(i as int);
        let ghost done = out@;
        if reads_at(&chars, &sought, i) {
            proof {
                assert(rest.subrange(0, part@.len() as int) =~= text@.subrange(i as int, i + part@.len()));
                assert(rest.skip(part@.len() as int) =~= text@.skip(i + part@.len()));
            }
            out.append(with);
            proof {
                assert(out@ + replaced(text@.skip(i + part@.len()), part@, with@) =~= done + replaced(rest, part@, with@));
            }
            i += sought.len();
        } else {
            proof {
                if starts(rest, part@) {
                    assert(rest.subrange(0, part@.len() as int) =~= text@.subrange(i as int, i + part@.len()));
                }
                assert(rest.skip(1) =~= text@.skip(i + 1));
            }
            out.push(chars[i]);
            proof {
                assert(out@ + replaced(text@.skip(i + 1), part@, with@) =~= done + replaced(rest, part@, with@));
            }
            i += 1;
        }
    }
    proof {
        assert(text@.skip(i as int) =~= Seq::<char>::empty());
        assert(out@ =~= replaced(text@, part@, with@));
    }
    out
}

// ---------------------------------------------------------------------------
// Order.
// ---------------------------------------------------------------------------

/// Whether `a` comes before `b`: by the first character they differ at, a text
/// before every longer one it starts.
pub open spec fn text_before(a: Seq<char>, b: Seq<char>) -> bool
    decreases a.len(),
{
    if b.len() == 0 {
        false
    } else if a.len() == 0 {
        true
    } else if a[0] != b[0] {
        a[0] < b[0]
    } else {
        text_before(a.skip(1), b.skip(1))
    }
}

/// Whether `a` comes before `b`.
pub fn is_before(a: &str, b: &str) -> (r: bool)
    ensures
        r == text_before(a@, b@),
{
    let x = chars_of(a);
    let y = chars_of(b);
    let mut i: usize = 0;
    proof {
        assert(a@.skip(0) =~= a@);
        assert(b@.skip(0) =~= b@);
    }
    while i < x.len() && i < y.len()
        invariant
            i <= x@.len(),
            i <= y@.len(),
            x@ == a@,
            y@ == b@,
            text_before(a@, b@) == text_before(a@.skip(i as int), b@.skip(i as int)),
        decreases x@.len() - i,
    {
        if x[i] != y[i] {
            return x[i] < y[i];
        }
        proof {
            assert(a@.skip(i as int).skip(1) =~= a@.skip(i + 1));
            assert(b@.skip(i as int).skip(1) =~= b@.skip(i + 1));
        }
        i += 1;
    }
    i < y.len()
}

/// No text comes before itself.
pub proof fn lemma_before_irreflexive(a: Seq<char>)
    ensures
        !text_before(a, a),
    decreases a.len(),
{
    if a.len() > 0 {
        lemma_before_irreflexive(a.skip(1));
    }
}

/// Of two texts that differ, exactly one comes before the other.
pub proof fn lemma_before_total(a: Seq<char>, b: Seq<char>)
    ensures
        text_before(a, b) || text_before(b, a) || a == b,
        !(text_before(a, b) && text_before(b, a)),
    decreases a.len(),
{
    if a.len() > 0 && b.len() > 0 {
        if a[0] == b[0] {
            lemma_before_total(a.skip(1), b.skip(1));
            if a.skip(1) == b.skip(1) {
                assert(a =~= seq![a[0]] + a.skip(1));
                assert(b =~= seq![b[0]] + b.skip(1));
            }
        }
    } else if a.len() == 0 && b.len() == 0 {
        assert(a =~= b);
    }
}

/// The order of texts is transitive.
pub proof fn lemma_before_transitive(a: Seq<char>, b: Seq<char>, c: Seq<char>)
    requires
        text_before(a, b),
        text_before(b, c),
    ensures
        text_before(a, c),
    decreases a.len(),
{
    if a.len() > 0 && b.len() > 0 && c.len() > 0 {
        if a[0] == b[0] && b[0] == c[0] {
            lemma_before_transitive(a.skip(1), b.skip(1), c.skip(1));
        }
    }
}

} // verus!
