//! Text: comparing, searching and cutting sequences of characters, and reading integers.

use vstd::prelude::*;
use vstd::utf8::{
    decode_utf8, decode_utf8_split, encode_utf8, is_char_boundary,
    is_char_boundary_iff_not_is_continuation_byte, is_char_boundary_start_end_of_seq,
    pop_first_scalar, valid_utf8, valid_utf8_concat, valid_utf8_split,
};

verus! {

/// Whether two texts hold the same characters.
pub fn same_text(a: &str, b: &str) -> (result: bool)
    ensures
        result == (a@ == b@),
{
    let left = a.as_bytes();
    let right = b.as_bytes();
    proof {
        vstd::utf8::encode_utf8_decode_utf8(a@);
        vstd::utf8::encode_utf8_decode_utf8(b@);
    }
    same_bytes(left, right)
}

/// Whether two byte strings hold the same bytes.
pub fn same_bytes(a: &[u8], b: &[u8]) -> (result: bool)
    ensures
        result == (a@ == b@),
{
    if a.len() != b.len() {
        return false;
    }
    let mut i: usize = 0;
    while i < a.len()
        invariant
            i <= a.len(),
            a.len() == b.len(),
            forall|j: int| 0 <= j < i ==> a@[j] == b@[j],
        decreases a.len() - i,
    {
        if a[i] != b[i] {
            return false;
        }
        i += 1;
    }
    assert(a@ =~= b@);
    true
}

/// Whether a list holds a text.
pub fn lists_text(list: &Vec<String>, text: &str) -> (result: bool)
    ensures
        result == views(list@).contains(text@),
{
    let mut i: usize = 0;
    while i < list.len()
        invariant
            i <= list.len(),
            forall|j: int| 0 <= j < i ==> (#[trigger] list@[j])@ != text@,
        decreases list.len() - i,
    {
        if same_text(list[i].as_str(), text) {
            assert(views(list@)[i as int] == text@);
            return true;
        }
        i += 1;
    }
    assert(!views(list@).contains(text@)) by {
        if views(list@).contains(text@) {
            let j = choose|j: int| 0 <= j < views(list@).len() && views(list@)[j] == text@;
            assert(list@[j]@ != text@);
        }
    }
    false
}

/// What a list of texts reads.
pub open spec fn views(list: Seq<String>) -> Seq<Seq<char>> {
    list.map_values(|text: String| text@)
}

/// What an optional text reads.
pub open spec fn option_view(text: Option<String>) -> Option<Seq<char>> {
    match text {
        Some(text) => Some(text@),
        None => None,
    }
}

/// Why a byte string is no UTF-8 text.
#[verifier::external_type_specification]
#[verifier::external_body]
pub struct ExUtf8Error(core::str::Utf8Error);

/// `core::str::from_utf8`: a byte string that is UTF-8 is a text of the same bytes, any other
/// one is none.
pub assume_specification[ core::str::from_utf8 ](v: &[u8]) -> (result: Result<
    &str,
    core::str::Utf8Error,
>)
    ensures
        result is Ok <==> valid_utf8(v@),
        result matches Ok(text) ==> encode_utf8(text@) == v@,
;

/// The text that a byte string is in UTF-8.
pub open spec fn text_of(bytes: Seq<u8>) -> Option<Seq<char>> {
    if valid_utf8(bytes) {
        Some(decode_utf8(bytes))
    } else {
        None
    }
}

/// Reads a byte string as UTF-8.
pub fn utf8_text(bytes: &[u8]) -> (result: Option<&str>)
    ensures
        match result {
            Some(text) => text_of(bytes@) == Some(text@),
            None => text_of(bytes@) is None,
        },
{
    match core::str::from_utf8(bytes) {
        Ok(text) => {
            proof {
                vstd::utf8::encode_utf8_decode_utf8(text@);
            }
            Some(text)
        },
        Err(_) => None,
    }
}

/// What `String::from_utf8_lossy` makes of a byte string.
pub uninterp spec fn lossy_text(bytes: Seq<u8>) -> Seq<char>;

/// Calls `String::from_utf8_lossy`. Believed of it: what it returns depends on the bytes alone,
/// and a byte string that is UTF-8 becomes its text. Where the replacement characters of any
/// other byte string stand is left unsaid.
#[verifier::external_body]
pub(crate) fn utf8_lossy(bytes: &[u8]) -> (result: String)
    ensures
        result@ == lossy_text(bytes@),
        valid_utf8(bytes@) ==> result@ == decode_utf8(bytes@),
{
    String::from_utf8_lossy(bytes).into_owned()
}

/// The characters of a text.
pub fn chars_of(text: &str) -> (result: Vec<char>)
    ensures
        result@ == text@,
{
    let mut result: Vec<char> = Vec::new();
    for c in iter: text.chars()
        invariant
            result@.len() == iter.index(),
            iter.seq() == text@,
            forall|i: int| 0 <= i < result@.len() ==> result@[i] == iter.seq()[i],
    {
        result.push(c);
    }
    assert(result@ =~= text@);
    result
}

/// The characters that Unicode calls white space.
pub open spec fn is_white(c: char) -> bool {
    let n = c as u32;
    ||| 0x9 <= n <= 0xd
    ||| n == 0x20
    ||| n == 0x85
    ||| n == 0xa0
    ||| n == 0x1680
    ||| 0x2000 <= n <= 0x200a
    ||| n == 0x2028
    ||| n == 0x2029
    ||| n == 0x202f
    ||| n == 0x205f
    ||| n == 0x3000
}

/// A text without the white space in front.
pub open spec fn trim_start(text: Seq<char>) -> Seq<char>
    decreases text.len(),
{
    if text.len() > 0 && is_white(text.first()) {
        trim_start(text.drop_first())
    } else {
        text
    }
}

/// A text without the white space at its end.
pub open spec fn trim_end(text: Seq<char>) -> Seq<char>
    decreases text.len(),
{
    if text.len() > 0 && is_white(text.last()) {
        trim_end(text.drop_last())
    } else {
        text
    }
}

/// A text without the white space around it.
pub open spec fn trim(text: Seq<char>) -> Seq<char> {
    trim_end(trim_start(text))
}

/// All characters are white space.
pub open spec fn all_white(text: Seq<char>) -> bool {
    forall|i: int| 0 <= i < text.len() ==> is_white(#[trigger] text[i])
}

proof fn lemma_trim_white(text: Seq<char>)
    requires
        all_white(text),
    ensures
        trim_start(text) == Seq::<char>::empty(),
    decreases text.len(),
{
    if text.len() > 0 {
        assert(is_white(text[0]));
        let rest = text.drop_first();
        assert forall|i: int| 0 <= i < rest.len() implies is_white(#[trigger] rest[i]) by {
            assert(rest[i] == text[i + 1]);
        }
        lemma_trim_white(rest);
    }
}

proof fn lemma_trim_front(front: Seq<char>, text: Seq<char>)
    requires
        all_white(front),
    ensures
        trim_start(front + text) == trim_start(text),
    decreases front.len(),
{
    if front.len() == 0 {
        assert(front + text =~= text);
    } else {
        assert(is_white(front[0]));
        let rest = front.drop_first();
        assert forall|i: int| 0 <= i < rest.len() implies is_white(#[trigger] rest[i]) by {
            assert(rest[i] == front[i + 1]);
        }
        assert((front + text).drop_first() =~= rest + text);
        lemma_trim_front(rest, text);
    }
}

proof fn lemma_trim_back(text: Seq<char>, back: Seq<char>)
    requires
        all_white(back),
    ensures
        trim_end(text + back) == trim_end(text),
    decreases back.len(),
{
    if back.len() == 0 {
        assert(text + back =~= text);
    } else {
        assert(is_white(back[back.len() - 1]));
        let rest = back.drop_last();
        assert forall|i: int| 0 <= i < rest.len() implies is_white(#[trigger] rest[i]) by {
            assert(rest[i] == back[i]);
        }
        assert((text + back).drop_last() =~= text + rest);
        lemma_trim_back(text, rest);
    }
}

/// What stands behind a text stays where its front is cut, unless nothing is left in front of it.
proof fn lemma_trim_start_splits(text: Seq<char>, back: Seq<char>)
    requires
        all_white(back),
    ensures
        trim_start(text + back) == trim_start(text) + back || (trim_start(text).len() == 0
            && trim_start(text + back).len() == 0),
    decreases text.len(),
{
    if text.len() == 0 {
        assert(text + back =~= back);
        lemma_trim_white(back);
    } else if is_white(text.first()) {
        assert((text + back).drop_first() =~= text.drop_first() + back);
        lemma_trim_start_splits(text.drop_first(), back);
    }
}

/// Bytes that are a text end at the end of a character, whatever follows them.
proof fn lemma_text_ends(front: Seq<u8>, back: Seq<u8>)
    requires
        valid_utf8(front),
        valid_utf8(front + back),
    ensures
        is_char_boundary(front + back, front.len() as int),
    decreases front.len(),
{
    if front.len() > 0 {
        let rest = pop_first_scalar(front);
        assert(pop_first_scalar(front + back) =~= rest + back);
        lemma_text_ends(rest, back);
    }
}

/// Where bytes in front or behind are a text, bytes and these together are a text only where both
/// are, and then it is the one text behind the other.
pub(crate) proof fn lemma_texts_join(front: Seq<u8>, back: Seq<u8>)
    requires
        valid_utf8(front) || valid_utf8(back),
    ensures
        text_of(front + back) == match (text_of(front), text_of(back)) {
            (Some(first), Some(second)) => Some(first + second),
            _ => None,
        },
{
    let all = front + back;
    let n = front.len() as int;
    if valid_utf8(front) && valid_utf8(back) {
        valid_utf8_concat(front, back);
    }
    if valid_utf8(all) {
        if back.len() == 0 {
            is_char_boundary_start_end_of_seq(all);
        } else if valid_utf8(front) {
            lemma_text_ends(front, back);
        } else {
            assert(all[n] == back[0]);
            is_char_boundary_iff_not_is_continuation_byte(all, n);
        }
        valid_utf8_split(all, n);
        decode_utf8_split(all, n);
        assert(all.subrange(0, n) =~= front);
        assert(all.subrange(n, all.len() as int) =~= back);
    }
}

/// White space around a text is cut off.
pub proof fn law_white_space_is_cut(front: Seq<char>, text: Seq<char>, back: Seq<char>)
    requires
        all_white(front),
        all_white(back),
    ensures
        trim(front + text + back) == trim(text),
{
    assert(front + text + back =~= front + (text + back));
    lemma_trim_front(front, text + back);
    lemma_trim_start_splits(text, back);
    if trim_start(text + back) == trim_start(text) + back {
        lemma_trim_back(trim_start(text), back);
    } else {
        assert(trim_start(text + back) =~= trim_start(text));
    }
}

fn white(c: char) -> (result: bool)
    ensures
        result == is_white(c),
{
    let n: u32 = c as u32;
    (0x9 <= n && n <= 0xd) || n == 0x20 || n == 0x85 || n == 0xa0 || n == 0x1680 || (0x2000 <= n
        && n <= 0x200a) || n == 0x2028 || n == 0x2029 || n == 0x202f || n == 0x205f || n == 0x3000
}

/// The text without the white space around it.
pub fn trimmed(text: &str) -> (result: &str)
    ensures
        result@ == trim(text@),
{
    let chars = chars_of(text);
    let mut from: usize = 0;
    assert(text@.skip(0) =~= text@);
    while from < chars.len() && white(chars[from])
        invariant
            from <= chars.len(),
            chars@ == text@,
            trim_start(text@) == trim_start(text@.skip(from as int)),
        decreases chars.len() - from,
    {
        assert(text@.skip(from as int).first() == chars@[from as int]);
        assert(text@.skip(from as int).drop_first() =~= text@.skip(from + 1));
        from += 1;
    }
    let ghost rest = text@.skip(from as int);
    assert(trim_start(text@) == rest) by {
        if rest.len() > 0 {
            assert(rest.first() == chars@[from as int]);
        }
    }
    let mut to: usize = chars.len();
    assert(text@.subrange(from as int, to as int) =~= rest);
    while from < to && white(chars[to - 1])
        invariant
            from <= to <= chars.len(),
            chars@ == text@,
            trim_end(rest) == trim_end(text@.subrange(from as int, to as int)),
        decreases to,
    {
        let ghost part = text@.subrange(from as int, to as int);
        assert(part.last() == chars@[to - 1]);
        assert(part.drop_last() =~= text@.subrange(from as int, to - 1));
        to -= 1;
    }
    let ghost part = text@.subrange(from as int, to as int);
    assert(trim_end(part) == part) by {
        if part.len() > 0 {
            assert(part.last() == chars@[to - 1]);
        }
    }
    text.substring_char(from, to)
}

/// `pattern` stands in `text` at `at`.
pub open spec fn occurs_at(text: Seq<char>, pattern: Seq<char>, at: int) -> bool {
    0 <= at && at + pattern.len() <= text.len() && text.subrange(at, at + pattern.len()) == pattern
}

fn matches_at(text: &Vec<char>, pattern: &Vec<char>, at: usize) -> (result: bool)
    requires
        at + pattern.len() <= text.len(),
    ensures
        result == occurs_at(text@, pattern@, at as int),
{
    let mut i: usize = 0;
    while i < pattern.len()
        invariant
            i <= pattern.len(),
            at + pattern.len() <= text.len(),
            forall|j: int| 0 <= j < i ==> text@[at + j] == pattern@[j],
        decreases pattern.len() - i,
    {
        if text[at + i] != pattern[i] {
            assert(text@.subrange(at as int, at + pattern.len())[i as int] != pattern@[i as int]);
            return false;
        }
        i += 1;
    }
    assert(text@.subrange(at as int, at + pattern.len()) =~= pattern@);
    true
}

/// Whether a text begins with another.
pub fn starts_with(text: &str, prefix: &str) -> (result: bool)
    ensures
        result == occurs_at(text@, prefix@, 0),
{
    let chars = chars_of(text);
    let wanted = chars_of(prefix);
    wanted.len() <= chars.len() && matches_at(&chars, &wanted, 0)
}

/// All characters are decimal digits, and there is one.
pub open spec fn digits(text: Seq<char>) -> bool {
    &&& text.len() > 0
    &&& forall|i: int| 0 <= i < text.len() ==> '0' <= #[trigger] text[i] <= '9'
}

/// The number that decimal digits write.
pub open spec fn digits_value(text: Seq<char>) -> int
    decreases text.len(),
{
    if text.len() == 0 {
        0
    } else {
        10 * digits_value(text.drop_last()) + (text.last() as int - '0' as int)
    }
}

/// A text without the plus sign in front.
pub open spec fn without_plus(text: Seq<char>) -> Seq<char> {
    if text.len() > 0 && text.first() == '+' {
        text.drop_first()
    } else {
        text
    }
}

/// The unsigned integer of 64 bits that a text writes: digits behind at most a plus sign.
pub open spec fn u64_text(text: Seq<char>) -> Option<u64> {
    let body = without_plus(text);
    if digits(body) && digits_value(body) <= u64::MAX {
        Some(digits_value(body) as u64)
    } else {
        None
    }
}

/// The signed integer of 64 bits that a text writes: digits behind at most a sign.
pub open spec fn i64_text(text: Seq<char>) -> Option<i64> {
    let negative = text.len() > 0 && text.first() == '-';
    let body = if negative {
        text.drop_first()
    } else {
        without_plus(text)
    };
    let value = if negative {
        -digits_value(body)
    } else {
        digits_value(body)
    };
    if digits(body) && i64::MIN <= value <= i64::MAX {
        Some(value as i64)
    } else {
        None
    }
}

/// The first digits write no larger number than all of them.
proof fn lemma_digits_value(text: Seq<char>, n: int)
    requires
        digits(text),
        0 <= n <= text.len(),
    ensures
        0 <= digits_value(text.take(n)) <= digits_value(text),
    decreases text.len() - n,
{
    if n == text.len() {
        assert(text.take(n) =~= text);
        lemma_digits_positive(text, n);
    } else {
        lemma_digits_value(text, n + 1);
        lemma_digits_positive(text, n);
        assert(text.take(n + 1).drop_last() =~= text.take(n));
        assert('0' <= text[n] <= '9');
    }
}

proof fn lemma_digits_positive(text: Seq<char>, n: int)
    requires
        digits(text),
        0 <= n <= text.len(),
    ensures
        0 <= digits_value(text.take(n)),
    decreases n,
{
    if n > 0 {
        lemma_digits_positive(text, n - 1);
        assert(text.take(n).drop_last() =~= text.take(n - 1));
        assert('0' <= text[n - 1] <= '9');
    }
}

/// Reads decimal digits from a place on.
fn parse_digits(chars: &Vec<char>, from: usize) -> (result: Option<u64>)
    requires
        from <= chars@.len(),
    ensures
        ({
            let body = chars@.skip(from as int);
            match result {
                Some(n) => digits(body) && digits_value(body) == n,
                None => !(digits(body) && digits_value(body) <= u64::MAX),
            }
        }),
{
    let ghost body = chars@.skip(from as int);
    if from == chars.len() {
        return None;
    }
    let mut value: u64 = 0;
    let mut i: usize = from;
    assert(body.take(0) =~= Seq::empty());
    while i < chars.len()
        invariant
            from <= i <= chars@.len(),
            body == chars@.skip(from as int),
            forall|j: int| 0 <= j < i - from ==> '0' <= #[trigger] body[j] <= '9',
            value == digits_value(body.take(i - from)),
        decreases chars.len() - i,
    {
        let c: char = chars[i];
        assert(body[i - from] == c);
        if c < '0' || c > '9' {
            return None;
        }
        let digit: u64 = (c as u32 - '0' as u32) as u64;
        proof {
            assert(body.take(i + 1 - from).drop_last() =~= body.take(i - from));
            assert(digits_value(body.take(i + 1 - from)) == 10 * value + digit);
        }
        if value > (u64::MAX - digit) / 10 {
            proof {
                if digits(body) {
                    lemma_digits_value(body, i + 1 - from);
                }
            }
            return None;
        }
        value = 10 * value + digit;
        i += 1;
    }
    assert(body.take(i - from) =~= body);
    Some(value)
}

/// The unsigned integer that a text writes.
pub fn parse_u64(text: &str) -> (result: Option<u64>)
    ensures
        result == u64_text(text@),
{
    let chars = chars_of(text);
    let from: usize = if chars.len() > 0 && chars[0] == '+' {
        1
    } else {
        0
    };
    assert(chars@.skip(from as int) =~= without_plus(text@));
    parse_digits(&chars, from)
}

/// The signed integer that a text writes.
pub fn parse_i64(text: &str) -> (result: Option<i64>)
    ensures
        result == i64_text(text@),
{
    let chars = chars_of(text);
    let negative = chars.len() > 0 && chars[0] == '-';
    let from: usize = if negative || (chars.len() > 0 && chars[0] == '+') {
        1
    } else {
        0
    };
    let ghost body = if negative {
        text@.drop_first()
    } else {
        without_plus(text@)
    };
    assert(chars@.skip(from as int) =~= body);
    proof {
        if digits(body) {
            lemma_digits_positive(body, body.len() as int);
            assert(body.take(body.len() as int) =~= body);
        }
    }
    match parse_digits(&chars, from) {
        Some(n) => if !negative {
            if n <= i64::MAX as u64 {
                Some(n as i64)
            } else {
                None
            }
        } else if n <= i64::MAX as u64 {
            Some(-(n as i64))
        } else if n == i64::MAX as u64 + 1 {
            Some(i64::MIN)
        } else {
            None
        },
        None => None,
    }
}

/// White space is what Unicode says it is, character by character.
pub proof fn law_white_characters(c: char)
    ensures
        is_white(c) <==> (c == '\t' || c == '\n' || c == '\u{b}' || c == '\u{c}' || c == '\r' || c
            == ' ' || c == '\u{85}' || c == '\u{a0}' || c == '\u{1680}' || '\u{2000}' <= c
            <= '\u{200a}' || c == '\u{2028}' || c == '\u{2029}' || c == '\u{202f}' || c
            == '\u{205f}' || c == '\u{3000}'),
{
}

proof fn lemma_front_cut(text: Seq<char>) -> (front: Seq<char>)
    ensures
        all_white(front),
        text == front + trim_start(text),
        trim_start(text).len() > 0 ==> !is_white(trim_start(text).first()),
    decreases text.len(),
{
    if text.len() > 0 && is_white(text.first()) {
        let rest = lemma_front_cut(text.drop_first());
        let front = seq![text.first()] + rest;
        assert(text =~= front + trim_start(text)) by {
            assert(text =~= seq![text.first()] + text.drop_first());
        }
        assert forall|i: int| 0 <= i < front.len() implies is_white(#[trigger] front[i]) by {
            if i > 0 {
                assert(front[i] == rest[i - 1]);
            }
        }
        front
    } else {
        assert(text =~= Seq::<char>::empty() + text);
        Seq::empty()
    }
}

proof fn lemma_back_cut(text: Seq<char>) -> (back: Seq<char>)
    ensures
        all_white(back),
        text == trim_end(text) + back,
        trim_end(text).len() > 0 ==> !is_white(trim_end(text).last()),
    decreases text.len(),
{
    if text.len() > 0 && is_white(text.last()) {
        let rest = lemma_back_cut(text.drop_last());
        let back = rest.push(text.last());
        assert(text =~= trim_end(text) + back) by {
            assert(text =~= text.drop_last().push(text.last()));
        }
        assert forall|i: int| 0 <= i < back.len() implies is_white(#[trigger] back[i]) by {
            if i < rest.len() {
                assert(back[i] == rest[i]);
            }
        }
        back
    } else {
        assert(text =~= text + Seq::<char>::empty());
        Seq::empty()
    }
}

/// What is cut off a text is white space in front of it and behind it, and none is left at either
/// end.
pub proof fn law_only_white_space_is_cut(text: Seq<char>)
    ensures
        exists|front: Seq<char>, back: Seq<char>|
            #![trigger all_white(front), all_white(back)]
            all_white(front) && all_white(back) && text == front + trim(text) + back,
        trim(text).len() > 0 ==> !is_white(trim(text).first()) && !is_white(trim(text).last()),
{
    let front = lemma_front_cut(text);
    let middle = trim_start(text);
    let back = lemma_back_cut(middle);
    assert(text =~= front + trim(text) + back);
    if trim(text).len() > 0 {
        assert(trim(text).first() == middle.first());
    }
}

/// A text begins with a pattern where it is the pattern and something behind it.
pub proof fn law_prefix_is_in_front(pattern: Seq<char>, rest: Seq<char>, text: Seq<char>)
    ensures
        occurs_at(pattern + rest, pattern, 0),
        occurs_at(text, pattern, 0) ==> text == pattern + text.skip(pattern.len() as int),
{
    assert((pattern + rest).subrange(0, pattern.len() as int) =~= pattern);
    if occurs_at(text, pattern, 0) {
        let head = text.subrange(0, pattern.len() as int);
        assert(text =~= head + text.skip(pattern.len() as int));
    }
}

/// The decimal digit of a number below ten.
pub open spec fn digit_char(n: nat) -> char {
    seq!['0', '1', '2', '3', '4', '5', '6', '7', '8', '9'][n as int]
}

/// A number written in decimal digits, the highest first.
pub open spec fn decimal(n: nat) -> Seq<char>
    decreases n,
{
    if n < 10 {
        seq![digit_char(n)]
    } else {
        decimal(n / 10).push(digit_char(n % 10))
    }
}

proof fn lemma_decimal(n: nat)
    ensures
        digits(decimal(n)),
        digits_value(decimal(n)) == n,
    decreases n,
{
    if n < 10 {
        assert(decimal(n).drop_last() =~= Seq::empty());
        assert(digits_value(decimal(n).drop_last()) == 0);
    } else {
        lemma_decimal(n / 10);
        assert(decimal(n).drop_last() =~= decimal(n / 10));
        assert forall|i: int| 0 <= i < decimal(n).len() implies '0' <= #[trigger] decimal(n)[i]
            <= '9' by {
            if i < decimal(n / 10).len() {
                assert(decimal(n)[i] == decimal(n / 10)[i]);
            }
        }
    }
}

proof fn lemma_zero_in_front(text: Seq<char>)
    requires
        digits(text),
    ensures
        digits("0"@ + text),
        digits_value("0"@ + text) == digits_value(text),
    decreases text.len(),
{
    reveal_strlit("0");
    let more = "0"@ + text;
    assert forall|i: int| 0 <= i < more.len() implies '0' <= #[trigger] more[i] <= '9' by {
        if i > 0 {
            assert(more[i] == text[i - 1]);
        }
    }
    assert(more.drop_last() =~= "0"@ + text.drop_last());
    if text.len() > 1 {
        let some = text.drop_last();
        assert forall|i: int| 0 <= i < some.len() implies '0' <= #[trigger] some[i] <= '9' by {
            assert(some[i] == text[i]);
        }
        lemma_zero_in_front(some);
    } else {
        assert(text.drop_last() =~= Seq::empty());
        assert("0"@ + text.drop_last() =~= "0"@);
        assert("0"@.drop_last() =~= Seq::empty());
        assert(digits_value("0"@.drop_last()) == 0);
        assert(digits_value("0"@) == 0);
        assert(digits_value(text.drop_last()) == 0);
    }
}

/// Reading an integer undoes writing it in decimal digits, with a plus sign in front or without
/// one, and a minus sign turns it below zero. A number that has no place among the integers of 64
/// bits is not read.
pub proof fn law_written_integers_are_read(n: nat)
    ensures
        u64_text(decimal(n)) == if n <= u64::MAX {
            Some(n as u64)
        } else {
            None
        },
        u64_text("+"@ + decimal(n)) == u64_text(decimal(n)),
        i64_text(decimal(n)) == if n <= i64::MAX {
            Some(n as i64)
        } else {
            None
        },
        i64_text("+"@ + decimal(n)) == i64_text(decimal(n)),
        i64_text("-"@ + decimal(n)) == if -n >= i64::MIN {
            Some((-n) as i64)
        } else {
            None
        },
        u64_text("-"@ + decimal(n)) is None,
{
    reveal_strlit("+");
    reveal_strlit("-");
    lemma_decimal(n);
    let text = decimal(n);
    assert('0' <= text[0] <= '9');
    assert(("+"@ + text).drop_first() =~= text);
    assert(("-"@ + text).drop_first() =~= text);
    assert(("-"@ + text)[0] == '-');
    assert(without_plus("-"@ + text) == "-"@ + text);
}

/// Zeros in front of digits change nothing.
pub proof fn law_zeros_in_front_count_nothing(text: Seq<char>)
    requires
        digits(text),
    ensures
        u64_text("0"@ + text) == u64_text(text),
        i64_text("0"@ + text) == i64_text(text),
{
    reveal_strlit("0");
    lemma_zero_in_front(text);
    assert('0' <= text[0] <= '9');
    assert(("0"@ + text)[0] == '0');
}

/// An integer is read only in decimal digits, behind a sign or behind none: a plus sign alone for
/// one without a sign of its own.
pub proof fn law_only_digits_are_read(text: Seq<char>)
    ensures
        u64_text(text) is Some || i64_text(text) is Some ==> text.len() > 0 && '0' <= text.last()
            <= '9' && ('0' <= text[0] <= '9' || text[0] == '+' || text[0] == '-') && forall|i: int|
            1 <= i < text.len() ==> '0' <= #[trigger] text[i] <= '9',
        u64_text(text) is Some ==> text[0] != '-',
{
    if u64_text(text) is Some || i64_text(text) is Some {
        let negative = text.len() > 0 && text.first() == '-';
        let body = if negative {
            text.drop_first()
        } else {
            without_plus(text)
        };
        assert(digits(body)) by {
            if u64_text(text) is Some && negative {
                assert('0' <= text[0] <= '9');
            }
        }
        assert('0' <= body[0] <= '9');
        assert('0' <= body[body.len() - 1] <= '9');
        assert forall|i: int| 1 <= i < text.len() implies '0' <= #[trigger] text[i] <= '9' by {
            if body == text {
                assert(body[i] == text[i]);
            } else {
                assert(body[i - 1] == text[i]);
            }
        }
    }
}

/// What a list of texts reads is what each of them reads, in their order.
pub proof fn law_texts_are_seen_whole(list: Seq<String>, text: String, i: int)
    ensures
        views(list).len() == list.len(),
        0 <= i < list.len() ==> views(list)[i] == list[i]@,
        option_view(Some(text)) == Some(text@),
        option_view(None) is None,
{
}

} // verus!
