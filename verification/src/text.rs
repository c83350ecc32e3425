//! Text as sequences of characters: trimming, splitting, case folding and decimal numbers.
use vstd::multiset::Multiset;
use vstd::prelude::*;
use vstd::utf8::*;

verus! {

broadcast use vstd::seq_lib::group_seq_properties;

/// `str`'s `==` compares contents.
pub assume_specification[ <str as PartialEq>::eq ](a: &str, b: &str) -> (r: bool)
    ensures
        r == (a@ == b@),
;

/// `String::push` appends one character.
pub assume_specification[ String::push ](s: &mut String, c: char)
    ensures
        final(s)@ == old(s)@.push(c),
;

/// The text that bytes encode, where they are valid UTF-8.
pub open spec fn utf8_of(bytes: Seq<u8>) -> Option<Seq<char>> {
    if valid_utf8(bytes) {
        Some(decode_utf8(bytes))
    } else {
        None
    }
}

/// `std::str::from_utf8`: the text that the bytes encode, or nothing where they are no valid
/// UTF-8.
#[verifier::external_body]
pub(crate) fn utf8_text(bytes: &[u8]) -> (r: Option<String>)
    ensures
        text_option(r) == utf8_of(bytes@),
{
    std::str::from_utf8(bytes).ok().map(str::to_string)
}

/// The length in bytes of the UTF-8 encoding.
pub open spec fn byte_length(s: Seq<char>) -> nat {
    encode_utf8(s).len()
}

/// The view of an optional text.
pub open spec fn text_option(s: Option<String>) -> Option<Seq<char>> {
    match s {
        Some(s) => Some(s@),
        None => None,
    }
}

/// The views of a list of texts.
pub open spec fn texts(list: Seq<String>) -> Seq<Seq<char>> {
    list.map_values(|s: String| s@)
}

/// White space as Unicode's `White_Space` property lists it.
pub open spec fn is_white(c: char) -> bool {
    ||| '\u{9}' <= c <= '\u{d}'
    ||| c == ' '
    ||| c == '\u{85}'
    ||| c == '\u{a0}'
    ||| c == '\u{1680}'
    ||| '\u{2000}' <= c <= '\u{200a}'
    ||| c == '\u{2028}'
    ||| c == '\u{2029}'
    ||| c == '\u{202f}'
    ||| c == '\u{205f}'
    ||| c == '\u{3000}'
}

/// Drops leading white space.
pub open spec fn trimmed_front(s: Seq<char>) -> Seq<char>
    decreases s.len(),
{
    if s.len() > 0 && is_white(s[0]) {
        trimmed_front(s.skip(1))
    } else {
        s
    }
}

/// Drops trailing white space.
pub open spec fn trimmed_back(s: Seq<char>) -> Seq<char>
    decreases s.len(),
{
    if s.len() > 0 && is_white(s.last()) {
        trimmed_back(s.drop_last())
    } else {
        s
    }
}

/// Drops white space at both ends.
pub open spec fn trimmed(s: Seq<char>) -> Seq<char> {
    trimmed_back(trimmed_front(s))
}

/// An ASCII letter in lower case; any other character as it is.
pub open spec fn lower_char(c: char) -> char {
    if 'A' <= c <= 'Z' {
        ((c as u32 + 32) as u32) as char
    } else {
        c
    }
}

/// Every ASCII letter in lower case.
pub open spec fn lower(s: Seq<char>) -> Seq<char> {
    s.map_values(|c: char| lower_char(c))
}

/// Equality up to the case of ASCII letters.
pub open spec fn same_folded(a: Seq<char>, b: Seq<char>) -> bool {
    lower(a) == lower(b)
}

pub open spec fn is_digit(c: char) -> bool {
    '0' <= c <= '9'
}

pub open spec fn is_alphanumeric(c: char) -> bool {
    is_digit(c) || 'a' <= c <= 'z' || 'A' <= c <= 'Z'
}

/// Whether `part` occurs in `s`.
pub open spec fn occurs(s: Seq<char>, part: Seq<char>) -> bool {
    exists|i: int| 0 <= i <= s.len() - part.len() && #[trigger] s.subrange(i, i + part.len()) == part
}

/// The value of a run of decimal digits.
pub open spec fn digits_value(s: Seq<char>) -> nat
    decreases s.len(),
{
    if s.len() == 0 {
        0
    } else {
        (10 * digits_value(s.drop_last()) + (s.last() as nat - '0' as nat)) as nat
    }
}

/// The decimal numeral of a number, without leading zeros.
pub open spec fn decimal(n: nat) -> Seq<char>
    decreases n,
{
    let digit = (('0' as u32 + n % 10) as u32) as char;
    if n < 10 {
        seq![digit]
    } else {
        decimal(n / 10).push(digit)
    }
}

/// Whether every character is a decimal digit.
pub open spec fn all_digits(s: Seq<char>) -> bool {
    forall|i: int| 0 <= i < s.len() ==> is_digit(#[trigger] s[i])
}

/// A numeral without its optional leading plus sign.
pub open spec fn unsigned(s: Seq<char>) -> Seq<char> {
    if s.len() > 0 && s[0] == '+' {
        s.skip(1)
    } else {
        s
    }
}

/// What a numeral with an optional leading plus sign stands for, where 64 bits hold it.
pub open spec fn number_of(s: Seq<char>) -> Option<u64> {
    if unsigned(s).len() > 0 && all_digits(unsigned(s)) && digits_value(unsigned(s)) <= u64::MAX {
        Some(digits_value(unsigned(s)) as u64)
    } else {
        None
    }
}

pub fn byte_len(s: &str) -> (r: usize)
    ensures
        r == byte_length(s@),
{
    s.as_bytes().len()
}

/// Compares two texts.
pub fn same(a: &str, b: &str) -> (r: bool)
    ensures
        r == (a@ == b@),
{
    *a == *b
}

pub fn white(c: char) -> (r: bool)
    ensures
        r == is_white(c),
{
    ('\u{9}' <= c && c <= '\u{d}') || c == ' ' || c == '\u{85}' || c == '\u{a0}' || c == '\u{1680}'
        || ('\u{2000}' <= c && c <= '\u{200a}') || c == '\u{2028}' || c == '\u{2029}' || c
        == '\u{202f}' || c == '\u{205f}' || c == '\u{3000}'
}

pub fn digit(c: char) -> (r: bool)
    ensures
        r == is_digit(c),
{
    '0' <= c && c <= '9'
}

pub fn alphanumeric(c: char) -> (r: bool)
    ensures
        r == is_alphanumeric(c),
{
    digit(c) || ('a' <= c && c <= 'z') || ('A' <= c && c <= 'Z')
}

/// The characters of a text.
pub fn chars_of(s: &str) -> (r: Vec<char>)
    ensures
        r@ == s@,
{
    let mut out: Vec<char> = Vec::new();
    for c in it: s.chars()
        invariant
            it.seq() == s@,
            out@ == s@.take(it.index()),
    {
        proof {
            assert(s@.take(it.index() + 1) == s@.take(it.index()).push(s@[it.index()]));
        }
        out.push(c);
    }
    assert(s@.take(s@.len() as int) == s@);
    out
}

/// The text made of `chars[from..to]`.
pub fn text_of(chars: &Vec<char>, from: usize, to: usize) -> (r: String)
    requires
        from <= to <= chars.len(),
    ensures
        r@ == chars@.subrange(from as int, to as int),
{
    let mut out = String::new();
    let mut i: usize = from;
    assert(out@ == chars@.subrange(from as int, from as int));
    while i < to
        invariant
            from <= i <= to <= chars.len(),
            out@ == chars@.subrange(from as int, i as int),
        decreases to - i,
    {
        out.push(chars[i]);
        proof {
            assert(chars@.subrange(from as int, i + 1) == chars@.subrange(from as int, i as int).push(
                chars@[i as int],
            ));
        }
        i += 1;
    }
    out
}

proof fn lemma_trim_front(s: Seq<char>, n: int)
    requires
        0 <= n <= s.len(),
        forall|i: int| 0 <= i < n ==> is_white(#[trigger] s[i]),
        n < s.len() ==> !is_white(s[n]),
    ensures
        trimmed_front(s) == s.skip(n),
    decreases n,
{
    if n == 0 {
        assert(s.skip(0) == s);
    } else {
        assert(is_white(s[0]));
        lemma_trim_front(s.skip(1), n - 1);
        assert(s.skip(1).skip(n - 1) == s.skip(n));
    }
}

proof fn lemma_trim_back(s: Seq<char>, n: int)
    requires
        0 <= n <= s.len(),
        forall|i: int| n <= i < s.len() ==> is_white(#[trigger] s[i]),
        n > 0 ==> !is_white(s[n - 1]),
    ensures
        trimmed_back(s) == s.take(n),
    decreases s.len() - n,
{
    if n == s.len() {
        assert(s.take(n) == s);
    } else {
        assert(is_white(s[s.len() - 1]));
        lemma_trim_back(s.drop_last(), n);
        assert(s.drop_last().take(n) == s.take(n));
    }
}

/// Removes white space at both ends.
pub fn trim(s: &str) -> (r: String)
    ensures
        r@ == trimmed(s@),
{
    let chars = chars_of(s);
    let mut from: usize = 0;
    while from < chars.len() && white(chars[from])
        invariant
            chars@ == s@,
            from <= chars.len(),
            forall|i: int| 0 <= i < from ==> is_white(#[trigger] chars@[i]),
        decreases chars.len() - from,
    {
        from += 1;
    }
    let mut to: usize = chars.len();
    while to > from && white(chars[to - 1])
        invariant
            from <= to <= chars.len(),
            forall|i: int| to <= i < chars.len() ==> is_white(#[trigger] chars@[i]),
        decreases to,
    {
        to -= 1;
    }
    proof {
        lemma_trim_front(s@, from as int);
        let rest = s@.skip(from as int);
        assert forall|i: int| to - from <= i < rest.len() implies is_white(#[trigger] rest[i]) by {
            assert(rest[i] == chars@[i + from]);
        }
        lemma_trim_back(rest, to - from);
        assert(rest.take(to - from) == chars@.subrange(from as int, to as int));
    }
    text_of(&chars, from, to)
}

pub fn lower_of(c: char) -> (r: char)
    ensures
        r == lower_char(c),
{
    if 'A' <= c && c <= 'Z' {
        ((c as u8) + 32u8) as char
    } else {
        c
    }
}

/// The text with every ASCII letter in lower case.
pub fn to_lower(s: &str) -> (r: String)
    ensures
        r@ == lower(s@),
{
    let chars = chars_of(s);
    let mut out = String::new();
    let mut i: usize = 0;
    assert(out@ == lower(s@).take(0));
    while i < chars.len()
        invariant
            chars@ == s@,
            i <= chars.len(),
            out@ == lower(s@).take(i as int),
        decreases chars.len() - i,
    {
        out.push(lower_of(chars[i]));
        proof {
            assert(lower(s@).take(i + 1) == lower(s@).take(i as int).push(lower(s@)[i as int]));
        }
        i += 1;
    }
    assert(lower(s@).take(s@.len() as int) == lower(s@));
    out
}

/// Compares two texts up to the case of ASCII letters.
pub fn equal_folded(a: &str, b: &str) -> (r: bool)
    ensures
        r == same_folded(a@, b@),
{
    to_lower(a) == to_lower(b)
}

/// The parts before and after the first `c`.
pub fn split_once(s: &str, c: char) -> (r: Option<(String, String)>)
    ensures
        r is None <==> !s@.contains(c),
        r matches Some((a, b)) ==> s@ == a@ + seq![c] + b@ && !a@.contains(c),
{
    let chars = chars_of(s);
    let mut i: usize = 0;
    while i < chars.len()
        invariant
            chars@ == s@,
            i <= chars.len(),
            forall|j: int| 0 <= j < i ==> chars@[j] != c,
        decreases chars.len() - i,
    {
        if chars[i] == c {
            let a = text_of(&chars, 0, i);
            let b = text_of(&chars, i + 1, chars.len());
            proof {
                assert(s@[i as int] == c);
                assert(s@ == a@ + seq![c] + b@);
            }
            return Some((a, b));
        }
        i += 1;
    }
    None
}

/// Whether `s` begins with `prefix`.
pub fn begins_with(s: &str, prefix: &str) -> (r: bool)
    ensures
        r == prefix@.is_prefix_of(s@),
{
    let a = chars_of(s);
    let p = chars_of(prefix);
    if p.len() > a.len() {
        return false;
    }
    let mut i: usize = 0;
    while i < p.len()
        invariant
            a@ == s@,
            p@ == prefix@,
            i <= p.len() <= a.len(),
            forall|j: int| 0 <= j < i ==> a@[j] == p@[j],
        decreases p.len() - i,
    {
        if a[i] != p[i] {
            assert(a@.take(p@.len() as int)[i as int] != p@[i as int]);
            return false;
        }
        i += 1;
    }
    assert(prefix@ == s@.subrange(0, prefix@.len() as int));
    true
}

/// What follows `prefix`, where `s` begins with it.
pub fn after_prefix(s: &str, prefix: &str) -> (r: Option<String>)
    ensures
        r is Some <==> prefix@.is_prefix_of(s@),
        r matches Some(rest) ==> s@ == prefix@ + rest@,
{
    if begins_with(s, prefix) {
        let a = chars_of(s);
        let n = chars_of(prefix).len();
        let rest = text_of(&a, n, a.len());
        assert(s@ == prefix@ + rest@);
        Some(rest)
    } else {
        None
    }
}

/// Whether `part` occurs in `s`.
pub fn contains_text(s: &str, part: &str) -> (r: bool)
    ensures
        r == occurs(s@, part@),
{
    let a = chars_of(s);
    let p = chars_of(part);
    if p.len() > a.len() {
        return false;
    }
    let last: usize = a.len() - p.len();
    let mut i: usize = 0;
    while i <= last
        invariant
            a@ == s@,
            p@ == part@,
            last == a.len() - p.len(),
            i <= last + 1,
            forall|j: int| 0 <= j < i ==> #[trigger] s@.subrange(j, j + part@.len()) != part@,
        decreases last + 1 - i,
    {
        let mut k: usize = 0;
        while k < p.len() && a[i + k] == p[k]
            invariant
                last == a.len() - p.len(),
                i <= last,
                k <= p.len(),
                forall|j: int| 0 <= j < k ==> a@[i + j] == p@[j],
            decreases p.len() - k,
        {
            k += 1;
        }
        if k == p.len() {
            assert(s@.subrange(i as int, i + part@.len()) == part@);
            return true;
        }
        assert(s@.subrange(i as int, i + part@.len())[k as int] != part@[k as int]);
        if i == last {
            return false;
        }
        i += 1;
    }
    false
}

proof fn lemma_digits_grow(s: Seq<char>, n: int)
    requires
        0 <= n <= s.len(),
        all_digits(s),
    ensures
        digits_value(s.take(n)) <= digits_value(s),
    decreases s.len(),
{
    if n < s.len() {
        lemma_digits_grow(s.drop_last(), n);
        assert(s.drop_last().take(n) == s.take(n));
        assert(is_digit(s.last()));
    } else {
        assert(s.take(n) == s);
    }
}

/// What `str::parse::<u64>` says of a text that is no such number.
pub uninterp spec fn number_fault_text(s: Seq<char>) -> Seq<char>;

/// `str::parse::<u64>` of a text that is no such number: the words of its error, which depend on
/// the text alone.
#[verifier::external_body]
pub(crate) fn number_fault(s: &str) -> (r: String)
    requires
        number_of(s@) is None,
    ensures
        r@ == number_fault_text(s@),
{
    s.parse::<u64>().err().map(|e| e.to_string()).unwrap_or_default()
}

/// Reads an unsigned 64-bit number as `str::parse` does.
pub fn parse_number(s: &str) -> (r: Option<u64>)
    ensures
        r == number_of(s@),
{
    let chars = chars_of(s);
    let from: usize = if chars.len() > 0 && chars[0] == '+' {
        1
    } else {
        0
    };
    let ghost digits = s@.skip(from as int);
    assert(digits == unsigned(s@));
    if chars.len() == from {
        return None;
    }
    let mut value: u64 = 0;
    let mut i: usize = from;
    assert(digits.take(0) == Seq::<char>::empty());
    while i < chars.len()
        invariant
            chars@ == s@,
            from <= 1,
            from <= i <= chars.len(),
            from < chars.len(),
            digits == s@.skip(from as int),
            digits == unsigned(s@),
            forall|j: int| 0 <= j < i - from ==> is_digit(#[trigger] digits[j]),
            value == digits_value(digits.take(i - from)),
        decreases chars.len() - i,
    {
        let c = chars[i];
        assert(digits[i - from] == c);
        if !digit(c) {
            assert(!is_digit(digits[i - from]));
            return None;
        }
        let d: u64 = ((c as u8) - ('0' as u8)) as u64;
        proof {
            assert(digits.take(i - from + 1).drop_last() == digits.take(i - from));
            assert(digits.take(i - from + 1).last() == c);
        }
        if value > (u64::MAX - d) / 10 {
            proof {
                if all_digits(digits) {
                    lemma_digits_grow(digits, i - from + 1);
                    assert(digits_value(digits.take(i - from + 1)) > u64::MAX);
                }
            }
            return None;
        }
        value = value * 10 + d;
        i += 1;
    }
    assert(digits.take(digits.len() as int) == digits);
    Some(value)
}

/// The decimal numeral of a number.
pub fn number_text(n: u64) -> (r: String)
    ensures
        r@ == decimal(n as nat),
    decreases n,
{
    let mut out = if n < 10 {
        String::new()
    } else {
        number_text(n / 10)
    };
    let c: char = (('0' as u8) + (n % 10) as u8) as char;
    out.push(c);
    assert(n < 10 ==> out@ == seq![c]);
    out
}

/// The decimal numeral of a large number.
pub fn wide_text(n: u128) -> (r: String)
    ensures
        r@ == decimal(n as nat),
    decreases n,
{
    let mut out = if n < 10 {
        String::new()
    } else {
        wide_text(n / 10)
    };
    let c: char = (('0' as u8) + (n % 10) as u8) as char;
    out.push(c);
    assert(n < 10 ==> out@ == seq![c]);
    out
}

/// Joins two pieces.
pub fn join2(a: &str, b: &str) -> (r: String)
    ensures
        r@ == a@ + b@,
{
    let mut out = a.to_owned();
    out.append(b);
    out
}

/// Joins three pieces.
pub fn join3(a: &str, b: &str, c: &str) -> (r: String)
    ensures
        r@ == a@ + b@ + c@,
{
    let mut out = a.to_owned();
    out.append(b);
    out.append(c);
    out
}

/// At most the first `limit` characters.
pub fn first_chars(s: &str, limit: usize) -> (r: String)
    ensures
        r@ == (if s@.len() > limit {
            s@.take(limit as int)
        } else {
            s@
        }),
{
    let chars = chars_of(s);
    let n = if chars.len() > limit {
        limit
    } else {
        chars.len()
    };
    assert(s@.subrange(0, s@.len() as int) == s@);
    text_of(&chars, 0, n)
}

/// A copy of an optional text.
pub fn copy_option(s: &Option<String>) -> (r: Option<String>)
    ensures
        r == *s,
{
    match s {
        Some(s) => Some(s.clone()),
        None => None,
    }
}

/// Whether bytes begin with a text's encoding.
pub fn begins_with_bytes(bytes: &[u8], prefix: &str) -> (r: bool)
    ensures
        r == encode_utf8(prefix@).is_prefix_of(bytes@),
{
    let p = prefix.as_bytes();
    if p.len() > bytes.len() {
        return false;
    }
    let mut i: usize = 0;
    while i < p.len()
        invariant
            p@ == encode_utf8(prefix@),
            i <= p.len() <= bytes.len(),
            forall|j: int| 0 <= j < i ==> bytes@[j] == p@[j],
        decreases p.len() - i,
    {
        if bytes[i] != p[i] {
            assert(bytes@.take(p@.len() as int)[i as int] != p@[i as int]);
            return false;
        }
        i += 1;
    }
    assert(p@ == bytes@.subrange(0, p@.len() as int));
    true
}

/// The pieces between the occurrences of a character.
pub open spec fn pieces(s: Seq<char>, c: char) -> Seq<Seq<char>>
    decreases s.len(),
{
    if s.len() == 0 {
        seq![Seq::empty()]
    } else {
        let rest = pieces(s.drop_last(), c);
        if s.last() == c {
            rest.push(Seq::empty())
        } else {
            rest.drop_last().push(rest.last().push(s.last()))
        }
    }
}

/// The pieces between the occurrences of a character.
pub fn split(s: &str, c: char) -> (r: Vec<String>)
    ensures
        texts(r@) == pieces(s@, c),
{
    let chars = chars_of(s);
    let mut done: Vec<String> = Vec::new();
    let mut current = String::new();
    let mut i: usize = 0;
    assert(s@.take(0) =~= Seq::empty());
    assert(texts(done@).push(current@) =~= seq![Seq::empty()]);
    while i < chars.len()
        invariant
            i <= chars.len(),
            chars@ == s@,
            texts(done@).push(current@) == pieces(s@.take(i as int), c),
        decreases chars.len() - i,
    {
        let ghost before = texts(done@).push(current@);
        assert(s@.take(i + 1).drop_last() == s@.take(i as int));
        assert(before.last() == current@);
        assert(before.drop_last() == texts(done@));
        if chars[i] == c {
            done.push(current);
            assert(texts(done@) =~= before);
            current = String::new();
            assert(current@ =~= Seq::empty());
        } else {
            current.push(chars[i]);
        }
        i += 1;
    }
    assert(s@.take(s@.len() as int) == s@);
    let ghost before = texts(done@);
    done.push(current);
    assert(texts(done@) =~= before.push(current@));
    done
}

/// Whether a list holds a text.
pub fn list_contains(list: &Vec<String>, s: &str) -> (r: bool)
    ensures
        r == texts(list@).contains(s@),
{
    let mut i: usize = 0;
    while i < list.len()
        invariant
            i <= list.len(),
            forall|j: int| 0 <= j < i ==> (#[trigger] list@[j])@ != s@,
        decreases list.len() - i,
    {
        if same(&list[i], s) {
            assert(texts(list@)[i as int] == s@);
            return true;
        }
        i += 1;
    }
    assert forall|j: int| 0 <= j < texts(list@).len() implies texts(list@)[j] != s@ by {
        assert(list@[j]@ != s@);
    }
    false
}

/// Whether one text comes before another, character by character, or is the same.
pub open spec fn in_order(a: Seq<char>, b: Seq<char>) -> bool
    decreases a.len(),
{
    if a.len() == 0 {
        true
    } else if b.len() == 0 {
        false
    } else if a[0] == b[0] {
        in_order(a.skip(1), b.skip(1))
    } else {
        a[0] < b[0]
    }
}

/// Whether every text of a list comes before the later ones.
pub open spec fn is_sorted(list: Seq<Seq<char>>) -> bool {
    forall|i: int, j: int|
        0 <= i < j < list.len() ==> in_order(#[trigger] list[i], #[trigger] list[j])
}

proof fn lemma_order_total(a: Seq<char>, b: Seq<char>)
    ensures
        in_order(a, b) || in_order(b, a),
    decreases a.len(),
{
    if a.len() > 0 && b.len() > 0 && a[0] == b[0] {
        lemma_order_total(a.skip(1), b.skip(1));
    }
}

proof fn lemma_order_transitive(a: Seq<char>, b: Seq<char>, c: Seq<char>)
    requires
        in_order(a, b),
        in_order(b, c),
    ensures
        in_order(a, c),
    decreases a.len(),
{
    if a.len() > 0 && b.len() > 0 && c.len() > 0 && a[0] == b[0] && b[0] == c[0] {
        lemma_order_transitive(a.skip(1), b.skip(1), c.skip(1));
    }
}

/// Whether one text comes before another or is the same.
pub fn comes_before(a: &str, b: &str) -> (r: bool)
    ensures
        r == in_order(a@, b@),
{
    let x = chars_of(a);
    let y = chars_of(b);
    let mut i: usize = 0;
    assert(x@.skip(0) == x@);
    assert(y@.skip(0) == y@);
    while i < x.len()
        invariant
            i <= x@.len(),
            i <= y@.len(),
            x@ == a@,
            y@ == b@,
            in_order(a@, b@) == in_order(x@.skip(i as int), y@.skip(i as int)),
        decreases x@.len() - i,
    {
        if i == y.len() {
            return false;
        }
        assert(x@.skip(i as int)[0] == x@[i as int]);
        assert(y@.skip(i as int)[0] == y@[i as int]);
        assert(x@.skip(i as int).skip(1) == x@.skip(i + 1));
        assert(y@.skip(i as int).skip(1) == y@.skip(i + 1));
        if x[i] != y[i] {
            return x[i] < y[i];
        }
        i += 1;
    }
    true
}

/// The texts of a list without their order.
#[verifier::opaque]
pub open spec fn bag(list: Seq<Seq<char>>) -> Multiset<Seq<char>> {
    list.to_multiset()
}

/// Puts a text into its place in a sorted list.
fn insert_sorted(list: &mut Vec<String>, s: String)
    requires
        is_sorted(texts(old(list)@)),
    ensures
        is_sorted(texts(final(list)@)),
        bag(texts(final(list)@)) == bag(texts(old(list)@)).insert(s@),
{
    let ghost all = texts(list@);
    let mut at: usize = 0;
    while at < list.len() && comes_before(&list[at], &s)
        invariant
            at <= list@.len(),
            all == texts(list@),
            forall|k: int| 0 <= k < at ==> in_order(#[trigger] all[k], s@),
        decreases list@.len() - at,
    {
        assert(all[at as int] == list@[at as int]@);
        at += 1;
    }
    proof {
        if at < list@.len() {
            assert(all[at as int] == list@[at as int]@);
            lemma_order_total(all[at as int], s@);
        }
    }
    list.insert(at, s);
    proof {
        let after = texts(list@);
        assert(after =~= all.insert(at as int, s@));
        assert forall|i: int, j: int| 0 <= i < j < after.len() implies in_order(
            #[trigger] after[i],
            #[trigger] after[j],
        ) by {
            if i < at && j > at {
                assert(after[i] == all[i] && after[j] == all[j - 1]);
            } else if i > at {
                assert(after[i] == all[i - 1] && after[j] == all[j - 1]);
            } else if j < at {
                assert(after[i] == all[i] && after[j] == all[j]);
            } else if i == at {
                assert(after[j] == all[j - 1]);
                if j - 1 > at {
                    assert(in_order(all[at as int], all[j - 1]));
                    lemma_order_transitive(s@, all[at as int], all[j - 1]);
                }
            } else {
                assert(after[i] == all[i]);
            }
        }
        broadcast use vstd::seq_lib::group_to_multiset_ensures;
        all.to_multiset_ensures();
        assert(after.to_multiset() =~= all.to_multiset().insert(s@));
        reveal(bag);
    }
}

proof fn lemma_take_more(all: Seq<Seq<char>>, i: int)
    requires
        0 <= i < all.len(),
    ensures
        bag(all.take(i + 1)) == bag(all.take(i)).insert(all[i]),
{
    reveal(bag);
    assert(all.take(i + 1) == all.take(i).push(all[i]));
    all.take(i).to_multiset_ensures();
}

/// A list in order.
pub fn sort(list: Vec<String>) -> (r: Vec<String>)
    ensures
        is_sorted(texts(r@)),
        texts(r@).to_multiset() == texts(list@).to_multiset(),
{
    let ghost all = texts(list@);
    let mut out: Vec<String> = Vec::new();
    let mut i: usize = 0;
    assert(texts(out@) =~= all.take(0));
    while i < list.len()
        invariant
            i <= list@.len(),
            all == texts(list@),
            is_sorted(texts(out@)),
            bag(texts(out@)) == bag(all.take(i as int)),
        decreases list@.len() - i,
    {
        insert_sorted(&mut out, list[i].clone());
        proof {
            lemma_take_more(all, i as int);
        }
        i += 1;
    }
    proof {
        assert(all.take(all.len() as int) == all);
        reveal(bag);
    }
    out
}

/// The parts of a text before and after the first occurrence of a character.
pub open spec fn cut(s: Seq<char>, c: char) -> Option<(Seq<char>, Seq<char>)>
    decreases s.len(),
{
    if s.len() == 0 {
        None
    } else if s[0] == c {
        Some((Seq::empty(), s.skip(1)))
    } else {
        match cut(s.skip(1), c) {
            Some((a, b)) => Some((seq![s[0]] + a, b)),
            None => None,
        }
    }
}

pub proof fn lemma_cut(s: Seq<char>, c: char, a: Seq<char>, b: Seq<char>)
    requires
        s == a + seq![c] + b,
        !a.contains(c),
    ensures
        cut(s, c) == Some((a, b)),
    decreases a.len(),
{
    if a.len() == 0 {
        assert(s.skip(1) =~= b);
        assert(a =~= Seq::empty());
    } else {
        assert(a[0] != c);
        assert(s.skip(1) =~= a.skip(1) + seq![c] + b);
        assert forall|i: int| 0 <= i < a.skip(1).len() implies a.skip(1)[i] != c by {
            assert(a.skip(1)[i] == a[i + 1]);
        }
        lemma_cut(s.skip(1), c, a.skip(1), b);
        assert(seq![s[0]] + a.skip(1) =~= a);
    }
}

pub proof fn lemma_no_cut(s: Seq<char>, c: char)
    requires
        !s.contains(c),
    ensures
        cut(s, c) is None,
    decreases s.len(),
{
    if s.len() > 0 {
        assert(s[0] != c);
        assert forall|i: int| 0 <= i < s.skip(1).len() implies s.skip(1)[i] != c by {
            assert(s.skip(1)[i] == s[i + 1]);
        }
        lemma_no_cut(s.skip(1), c);
    }
}

/// The parts of a text before and after the first occurrence of a character.
pub fn cut_at(s: &str, c: char) -> (r: Option<(String, String)>)
    ensures
        match r {
            Some((a, b)) => cut(s@, c) == Some((a@, b@)),
            None => cut(s@, c) is None,
        },
{
    match split_once(s, c) {
        Some((a, b)) => {
            proof {
                lemma_cut(s@, c, a@, b@);
            }
            Some((a, b))
        },
        None => {
            proof {
                lemma_no_cut(s@, c);
            }
            None
        },
    }
}

/// White space is what Unicode calls so: the tabulator and what follows it up to the carriage
/// return, the space, and the separators of other scripts.
pub proof fn law_white_space(c: char)
    ensures
        is_white(c) <==> {
            let n = c as u32;
            ||| 9 <= n <= 13
            ||| n == 32
            ||| n == 133
            ||| n == 160
            ||| n == 5760
            ||| 8192 <= n <= 8202
            ||| n == 8232
            ||| n == 8233
            ||| n == 8239
            ||| n == 8287
            ||| n == 12288
        },
{
}

/// Trimming takes white space off both ends, all of it, and nothing else.
pub proof fn law_trimming(s: Seq<char>) -> (cuts: (int, int))
    ensures
        0 <= cuts.0 <= cuts.1 <= s.len(),
        trimmed(s) == s.subrange(cuts.0, cuts.1),
        forall|i: int|
            (0 <= i < cuts.0 || cuts.1 <= i < s.len()) ==> is_white(#[trigger] s[i]),
        trimmed(s).len() > 0 ==> !is_white(trimmed(s)[0]) && !is_white(trimmed(s).last()),
        trimmed(s).len() == 0 ==> forall|i: int| 0 <= i < s.len() ==> is_white(#[trigger] s[i]),
        trimmed(trimmed(s)) == trimmed(s),
{
    let a = lemma_trimmed_front(s);
    let front = trimmed_front(s);
    let n = lemma_trimmed_back(front);
    let all = trimmed(s);
    assert(all =~= s.subrange(a, a + n));
    assert forall|i: int| (0 <= i < a || a + n <= i < s.len()) implies is_white(#[trigger] s[i]) by {
        if i >= a {
            assert(s[i] == front[i - a]);
        }
    }
    if all.len() > 0 {
        assert(all[0] == front[0]);
    }
    let b = lemma_trimmed_front(all);
    let m = lemma_trimmed_back(all);
    assert(trimmed_front(all) == all);
    (a, a + n)
}

proof fn lemma_trimmed_front(s: Seq<char>) -> (a: int)
    ensures
        0 <= a <= s.len(),
        trimmed_front(s) == s.skip(a),
        forall|i: int| 0 <= i < a ==> is_white(#[trigger] s[i]),
        trimmed_front(s).len() > 0 ==> !is_white(trimmed_front(s)[0]),
    decreases s.len(),
{
    if s.len() > 0 && is_white(s[0]) {
        let rest = s.skip(1);
        let a = lemma_trimmed_front(rest);
        assert(rest.skip(a) =~= s.skip(a + 1));
        assert forall|i: int| 0 <= i < a + 1 implies is_white(#[trigger] s[i]) by {
            if i > 0 {
                assert(s[i] == rest[i - 1]);
            }
        }
        a + 1
    } else {
        assert(s.skip(0) =~= s);
        0
    }
}

proof fn lemma_trimmed_back(s: Seq<char>) -> (n: int)
    ensures
        0 <= n <= s.len(),
        trimmed_back(s) == s.take(n),
        forall|i: int| n <= i < s.len() ==> is_white(#[trigger] s[i]),
        trimmed_back(s).len() > 0 ==> !is_white(trimmed_back(s).last()),
    decreases s.len(),
{
    if s.len() > 0 && is_white(s.last()) {
        let front = s.drop_last();
        let n = lemma_trimmed_back(front);
        assert(front.take(n) =~= s.take(n));
        assert forall|i: int| n <= i < s.len() implies is_white(#[trigger] s[i]) by {
            if i < front.len() {
                assert(s[i] == front[i]);
            }
        }
        n
    } else {
        assert(s.take(s.len() as int) =~= s);
        s.len() as int
    }
}

/// Putting a text into lower case changes exactly the letters from `A` to `Z`, each into the one
/// 32 places further; doing it again changes nothing.
pub proof fn law_lower_case(s: Seq<char>, i: int)
    requires
        0 <= i < s.len(),
    ensures
        lower(s).len() == s.len(),
        65 <= s[i] as u32 <= 90 ==> lower(s)[i] as u32 == s[i] as u32 + 32,
        !(65 <= s[i] as u32 <= 90) ==> lower(s)[i] == s[i],
        lower(lower(s)) == lower(s),
{
    assert(lower(lower(s)) =~= lower(s));
}

/// The numeral of a number stands for that number, with a plus sign before it too.
pub proof fn law_numerals_stand_for_numbers(n: u64)
    ensures
        number_of(decimal(n as nat)) == Some(n),
        number_of(seq!['+'] + decimal(n as nat)) == Some(n),
        decimal(n as nat).len() > 1 ==> decimal(n as nat)[0] != '0',
{
    lemma_decimal(n as nat);
    let d = decimal(n as nat);
    assert(unsigned(d) == d);
    assert((seq!['+'] + d).skip(1) =~= d);
}

proof fn lemma_decimal(n: nat)
    ensures
        decimal(n).len() > 0,
        all_digits(decimal(n)),
        digits_value(decimal(n)) == n,
        decimal(n)[0] != '+',
        n > 0 ==> decimal(n)[0] != '0',
    decreases n,
{
    let digit = (('0' as u32 + n % 10) as u32) as char;
    assert(is_digit(digit));
    assert(digit as nat - '0' as nat == n % 10);
    if n < 10 {
        let d = seq![digit];
        assert(d.drop_last() =~= Seq::empty());
        assert(digits_value(d.drop_last()) == 0);
        assert(d.last() == digit);
        assert(decimal(n) == d);
        assert(d[0] == digit);
    } else {
        lemma_decimal(n / 10);
        let front = decimal(n / 10);
        let d = front.push(digit);
        assert(d.drop_last() =~= front);
        assert(d.last() == digit);
        assert(d[0] == front[0]);
        assert(10 * (n / 10) + n % 10 == n);
    }
}

/// Whatever is not made of digits, after a plus sign or without one, is no numeral, nor is one
/// for a number that 64 bits do not hold. A further digit makes ten times as much and that digit.
pub proof fn law_what_a_numeral_is(s: Seq<char>, c: char)
    ensures
        ({
            let digits = if s.len() > 0 && s[0] == '+' {
                s.skip(1)
            } else {
                s
            };
            &&& digits.len() == 0 ==> number_of(s) is None
            &&& (exists|i: int|
                0 <= i < digits.len() && !('0' <= #[trigger] digits[i] <= '9')) ==> number_of(s)
                is None
            &&& number_of(s) is Some && '0' <= c <= '9' ==> {
                let more = 10 * number_of(s)->0 + (c as u32 - '0' as u32);
                &&& more <= u64::MAX ==> number_of(s.push(c)) == Some(more as u64)
                &&& more > u64::MAX ==> number_of(s.push(c)) is None
            }
        }),
{
    let digits = unsigned(s);
    if exists|i: int| 0 <= i < digits.len() && !('0' <= #[trigger] digits[i] <= '9') {
        let i = choose|i: int| 0 <= i < digits.len() && !('0' <= #[trigger] digits[i] <= '9');
        assert(!is_digit(digits[i]));
    }
    if number_of(s) is Some && '0' <= c <= '9' {
        let more = unsigned(s.push(c));
        assert(s.push(c)[0] == s[0]);
        assert(more =~= digits.push(c));
        assert(more.drop_last() =~= digits);
        assert forall|i: int| 0 <= i < more.len() implies is_digit(#[trigger] more[i]) by {
            if i < digits.len() {
                assert(is_digit(digits[i]));
            }
        }
    }
}

/// A text is cut at every occurrence of a character: what stands before the first one is the
/// first piece, what follows it is cut in turn, and without one the text is the only piece.
pub proof fn law_pieces(a: Seq<char>, c: char, b: Seq<char>)
    requires
        !a.contains(c),
    ensures
        pieces(a, c) == seq![a],
        pieces(a + seq![c] + b, c) == seq![a] + pieces(b, c),
    decreases b.len(),
{
    lemma_one_piece(a, c);
    let s = a + seq![c] + b;
    if b.len() == 0 {
        assert(s.drop_last() =~= a);
        assert(s.last() == c);
        assert(pieces(s, c) =~= seq![a] + pieces(b, c));
    } else {
        let front = b.drop_last();
        law_pieces(a, c, front);
        assert(s.drop_last() =~= a + seq![c] + front);
        assert(s.last() == b.last());
        lemma_some_piece(front, c);
        let rest = pieces(front, c);
        let whole = seq![a] + rest;
        assert(whole.last() == rest.last());
        assert(whole.drop_last() =~= seq![a] + rest.drop_last());
        assert(pieces(s, c) =~= seq![a] + pieces(b, c));
    }
}

proof fn lemma_some_piece(s: Seq<char>, c: char)
    ensures
        pieces(s, c).len() > 0,
    decreases s.len(),
{
    if s.len() > 0 {
        lemma_some_piece(s.drop_last(), c);
    }
}

proof fn lemma_one_piece(a: Seq<char>, c: char)
    requires
        !a.contains(c),
    ensures
        pieces(a, c) == seq![a],
    decreases a.len(),
{
    if a.len() > 0 {
        let front = a.drop_last();
        assert(a[a.len() - 1] == a.last());
        assert(!front.contains(c)) by {
            if front.contains(c) {
                let i = choose|i: int| 0 <= i < front.len() && front[i] == c;
                assert(a[i] == c);
            }
        }
        lemma_one_piece(front, c);
        assert(front.push(a.last()) =~= a);
        assert(pieces(a, c) =~= seq![a]);
    } else {
        assert(a =~= Seq::empty());
        assert(pieces(a, c) =~= seq![a]);
    }
}

/// Texts are ordered by the first character in which they differ, and one that ends before comes
/// first.
pub proof fn law_order_of_texts(p: Seq<char>, x: char, a: Seq<char>, y: char, b: Seq<char>)
    ensures
        in_order(p, p + a),
        a.len() > 0 ==> !in_order(p + a, p),
        x < y ==> in_order(p + seq![x] + a, p + seq![y] + b) && !in_order(
            p + seq![y] + b,
            p + seq![x] + a,
        ),
    decreases p.len(),
{
    let l = p + seq![x] + a;
    let r = p + seq![y] + b;
    if p.len() > 0 {
        let q = p.skip(1);
        law_order_of_texts(q, x, a, y, b);
        assert((p + a).skip(1) =~= q + a);
        assert(l.skip(1) =~= q + seq![x] + a);
        assert(r.skip(1) =~= q + seq![y] + b);
        assert(l[0] == p[0] && r[0] == p[0]);
    } else {
        assert(l[0] == x && r[0] == y);
    }
}

/// A part occurs in a text exactly where the text is what stands before it, the part, and what
/// stands behind it.
pub proof fn law_occurrences(a: Seq<char>, part: Seq<char>, b: Seq<char>, s: Seq<char>)
    ensures
        occurs(a + part + b, part),
        occurs(s, part) ==> exists|n: int|
            0 <= n <= s.len() - part.len() && s == #[trigger] s.take(n) + part + s.skip(
                n + part.len(),
            ),
{
    let whole = a + part + b;
    let n = a.len() as int;
    assert(whole.subrange(n, n + part.len()) =~= part);
    if occurs(s, part) {
        let i = choose|i: int|
            0 <= i <= s.len() - part.len() && #[trigger] s.subrange(i, i + part.len()) == part;
        assert(s =~= s.take(i) + part + s.skip(i + part.len())) by {
            assert(s.take(i) + s.subrange(i, i + part.len()) + s.skip(i + part.len()) =~= s);
        }
    }
}

/// The bytes of a text are read as that text, and only they.
pub proof fn law_texts_and_bytes(s: Seq<char>, bytes: Seq<u8>)
    ensures
        utf8_of(encode_utf8(s)) == Some(s),
        utf8_of(bytes) matches Some(t) ==> encode_utf8(t) == bytes,
{
    encode_utf8_valid_utf8(s);
    encode_utf8_decode_utf8(s);
    if valid_utf8(bytes) {
        decode_utf8_encode_utf8(bytes);
    }
}

/// Digits are those from 0 to 9; letters are those from a to z in either case.
pub proof fn law_letters_and_digits(c: char)
    ensures
        is_digit(c) <==> 48 <= c as u32 <= 57,
        is_alphanumeric(c) <==> 48 <= c as u32 <= 57 || 65 <= c as u32 <= 90 || 97 <= c as u32 <= 122,
{
}

} // verus!
