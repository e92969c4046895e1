//! Text as sequences of characters: searching, trimming, folding, ordering,
//! and the decimal notation of integers.
use vstd::prelude::*;

verus! {

/// Appending one character to a string leaves everything before it in place.
/// Trusted: `String::push` of the standard library.
pub assume_specification[ String::push ](buffer: &mut String, c: char)
    ensures
        final(buffer)@ == old(buffer)@.push(c),
;

// ---------------------------------------------------------------------------
// Model
// ---------------------------------------------------------------------------

/// Lower case of an ASCII capital; every other character stands for itself.
pub open spec fn lower_char(c: char) -> char {
    if 'A' <= c && c <= 'Z' {
        ((c as u32) + 32) as char
    } else {
        c
    }
}

/// `text` with its ASCII capitals lowered.
pub open spec fn lower(text: Seq<char>) -> Seq<char> {
    text.map_values(|c: char| lower_char(c))
}

/// The characters with Unicode's White_Space property.
pub open spec fn is_space(c: char) -> bool {
    let n = c as u32;
    ||| 0x9 <= n <= 0xd
    ||| n == 0x20 || n == 0x85 || n == 0xa0 || n == 0x1680
    ||| 0x2000 <= n <= 0x200a
    ||| n == 0x2028 || n == 0x2029 || n == 0x202f || n == 0x205f || n == 0x3000
}

/// `text` without its leading white space.
pub open spec fn trim_start(text: Seq<char>) -> Seq<char>
    decreases text.len(),
{
    if text.len() > 0 && is_space(text[0]) {
        trim_start(text.skip(1))
    } else {
        text
    }
}

/// `text` without its trailing white space.
pub open spec fn trim_end(text: Seq<char>) -> Seq<char>
    decreases text.len(),
{
    if text.len() > 0 && is_space(text.last()) {
        trim_end(text.drop_last())
    } else {
        text
    }
}

/// `text` without the white space at its two ends.
pub open spec fn trimmed(text: Seq<char>) -> Seq<char> {
    trim_end(trim_start(text))
}

/// `part` stands in `text` from position `at` on.
pub open spec fn stands_at(text: Seq<char>, part: Seq<char>, at: int) -> bool {
    0 <= at && at + part.len() <= text.len() && text.subrange(at, at + part.len()) == part
}

/// `part` occurs somewhere in `text`.
pub open spec fn contains(text: Seq<char>, part: Seq<char>) -> bool {
    exists|at: int| stands_at(text, part, at)
}

pub open spec fn starts_with(text: Seq<char>, part: Seq<char>) -> bool {
    stands_at(text, part, 0)
}

pub open spec fn ends_with(text: Seq<char>, part: Seq<char>) -> bool {
    stands_at(text, part, text.len() - part.len())
}

/// `text` with every `from` replaced by `to`.
pub open spec fn replaced(text: Seq<char>, from: char, to: Seq<char>) -> Seq<char>
    decreases text.len(),
{
    if text.len() == 0 {
        Seq::empty()
    } else {
        replaced(text.drop_last(), from, to) + (if text.last() == from {
            to
        } else {
            seq![text.last()]
        })
    }
}

/// Dictionary order by code point, which is also the order of the UTF-8 bytes.
pub open spec fn text_le(a: Seq<char>, b: Seq<char>) -> bool
    decreases a.len(),
{
    if a.len() == 0 {
        true
    } else if b.len() == 0 {
        false
    } else if a[0] != b[0] {
        a[0] < b[0]
    } else {
        text_le(a.skip(1), b.skip(1))
    }
}

/// Number of bytes of the UTF-8 form of `text`.
pub open spec fn byte_len(text: Seq<char>) -> nat {
    vstd::utf8::encode_utf8(text).len()
}

pub open spec fn digit_char(d: int) -> char {
    (d + 48) as char
}

/// Decimal digits of a natural number, without leading zeros.
pub open spec fn digits(n: nat) -> Seq<char>
    decreases n,
{
    if n < 10 {
        seq![digit_char(n as int)]
    } else {
        digits(n / 10).push(digit_char((n % 10) as int))
    }
}

/// Decimal notation of an integer.
pub open spec fn decimal(n: int) -> Seq<char> {
    if n < 0 {
        seq!['-'] + digits((-n) as nat)
    } else {
        digits(n as nat)
    }
}

pub open spec fn is_digit(c: char) -> bool {
    '0' <= c && c <= '9'
}

pub open spec fn all_digits(text: Seq<char>) -> bool {
    forall|i: int| 0 <= i < text.len() ==> is_digit(#[trigger] text[i])
}

/// Value of a run of decimal digits.
pub open spec fn digits_value(text: Seq<char>) -> nat
    decreases text.len(),
{
    if text.len() == 0 {
        0
    } else {
        digits_value(text.drop_last()) * 10 + (text.last() as u32 - 48) as nat
    }
}

/// The integer that `text` denotes: an optional sign and at least one digit.
pub open spec fn integer_of(text: Seq<char>) -> Option<int> {
    let signed = text.len() > 0 && (text[0] == '-' || text[0] == '+');
    let body = if signed { text.skip(1) } else { text };
    if body.len() == 0 || !all_digits(body) {
        None
    } else if signed && text[0] == '-' {
        Some(-(digits_value(body) as int))
    } else {
        Some(digits_value(body) as int)
    }
}

/// The 64-bit integer that `text` denotes, `None` also where it does not fit.
pub open spec fn parsed_i64(text: Seq<char>) -> Option<i64> {
    match integer_of(text) {
        Some(n) => if i64::MIN <= n <= i64::MAX { Some(n as i64) } else { None },
        None => None,
    }
}

// ---------------------------------------------------------------------------
// The order of texts
// ---------------------------------------------------------------------------

proof fn lemma_text_le_reflexive(a: Seq<char>)
    ensures
        text_le(a, a),
    decreases a.len(),
{
    if a.len() > 0 {
        lemma_text_le_reflexive(a.skip(1));
    }
}

pub proof fn lemma_text_le_total(a: Seq<char>, b: Seq<char>)
    ensures
        text_le(a, a),
        text_le(a, b) || text_le(b, a),
        text_le(a, b) && text_le(b, a) ==> a == b,
    decreases a.len(),
{
    lemma_text_le_reflexive(a);
    if a.len() > 0 {
        if b.len() > 0 && a[0] == b[0] {
            lemma_text_le_total(a.skip(1), b.skip(1));
            if a.skip(1) == b.skip(1) {
                assert(a =~= seq![a[0]] + a.skip(1));
                assert(b =~= seq![b[0]] + b.skip(1));
            }
        }
    } else if b.len() == 0 {
        assert(a =~= b);
    }
}

pub proof fn lemma_text_le_transitive(a: Seq<char>, b: Seq<char>, c: Seq<char>)
    requires
        text_le(a, b),
        text_le(b, c),
    ensures
        text_le(a, c),
    decreases a.len(),
{
    if a.len() > 0 && b.len() > 0 && c.len() > 0 && a[0] == b[0] && b[0] == c[0] {
        lemma_text_le_transitive(a.skip(1), b.skip(1), c.skip(1));
    }
}

/// Texts are totally ordered.
pub proof fn lemma_text_order()
    ensures
        forall|a: Seq<char>| #[trigger] text_le(a, a),
        forall|a: Seq<char>, b: Seq<char>| #[trigger] text_le(a, b) || text_le(b, a),
        forall|a: Seq<char>, b: Seq<char>| #[trigger] text_le(a, b) && text_le(b, a) ==> a == b,
        forall|a: Seq<char>, b: Seq<char>, c: Seq<char>|
            #[trigger] text_le(a, b) && #[trigger] text_le(b, c) ==> text_le(a, c),
{
    assert forall|a: Seq<char>, b: Seq<char>|
        #![trigger text_le(a, b)]
        text_le(a, a) && (text_le(a, b) || text_le(b, a)) && (text_le(a, b) && text_le(b, a) ==> a
            == b) by {
        lemma_text_le_total(a, b);
    }
    assert forall|a: Seq<char>| #[trigger] text_le(a, a) by {
        lemma_text_le_total(a, a);
    }
    assert forall|a: Seq<char>, b: Seq<char>, c: Seq<char>|
        #[trigger] text_le(a, b) && #[trigger] text_le(b, c) implies text_le(a, c) by {
        lemma_text_le_transitive(a, b, c);
    }
}

// ---------------------------------------------------------------------------
// Conversions
// ---------------------------------------------------------------------------

pub fn chars_of(text: &str) -> (chars: Vec<char>)
    ensures
        chars@ == text@,
{
    let mut chars: Vec<char> = Vec::new();
    for c in it: text.chars()
        invariant
            chars@ == text@.take(it.index()),
            it.seq() == text@,
    {
        proof {
            assert(text@.take(it.index() + 1) == text@.take(it.index()).push(c));
        }
        chars.push(c);
    }
    proof {
        assert(text@.take(text@.len() as int) == text@);
    }
    chars
}

pub fn string_of(chars: &[char]) -> (text: String)
    ensures
        text@ == chars@,
{
    let mut text: String = String::new();
    for i in 0..chars.len()
        invariant
            text@ == chars@.take(i as int),
    {
        proof {
            assert(chars@.take(i + 1) == chars@.take(i as int).push(chars@[i as int]));
        }
        text.push(chars[i]);
    }
    proof {
        assert(chars@.take(chars@.len() as int) == chars@);
    }
    text
}

/// The characters from `from` up to `to`.
pub fn slice_of(chars: &[char], from: usize, to: usize) -> (part: Vec<char>)
    requires
        from <= to <= chars@.len(),
    ensures
        part@ == chars@.subrange(from as int, to as int),
{
    let mut part: Vec<char> = Vec::new();
    for i in from..to
        invariant
            from <= to <= chars@.len(),
            part@ == chars@.subrange(from as int, i as int),
    {
        proof {
            assert(chars@.subrange(from as int, i + 1) == chars@.subrange(from as int, i as int).push(
                chars@[i as int],
            ));
        }
        part.push(chars[i]);
    }
    part
}

/// Length of the UTF-8 form in bytes.
pub fn text_bytes(text: &str) -> (n: usize)
    ensures
        n == byte_len(text@),
{
    text.as_bytes().len()
}

// ---------------------------------------------------------------------------
// Comparison and search
// ---------------------------------------------------------------------------

pub fn same_chars(a: &[char], b: &[char]) -> (same: bool)
    ensures
        same == (a@ == b@),
{
    if a.len() != b.len() {
        return false;
    }
    for i in 0..a.len()
        invariant
            a.len() == b.len(),
            forall|k: int| 0 <= k < i ==> a@[k] == b@[k],
    {
        if a[i] != b[i] {
            return false;
        }
    }
    proof {
        assert(a@ =~= b@);
    }
    true
}

pub fn same_text(a: &str, b: &str) -> (same: bool)
    ensures
        same == (a@ == b@),
{
    let left = chars_of(a);
    let right = chars_of(b);
    same_chars(left.as_slice(), right.as_slice())
}

fn part_stands_at(text: &[char], part: &[char], at: usize) -> (found: bool)
    requires
        at + part@.len() <= text@.len(),
    ensures
        found == stands_at(text@, part@, at as int),
{
    let n = text.len();
    for k in 0..part.len()
        invariant
            at + part@.len() <= text@.len(),
            n == text@.len(),
            forall|j: int| 0 <= j < k ==> text@[at + j] == part@[j],
    {
        if text[at + k] != part[k] {
            proof {
                assert(text@.subrange(at as int, at + part@.len())[k as int] != part@[k as int]);
            }
            return false;
        }
    }
    proof {
        assert(text@.subrange(at as int, at + part@.len()) =~= part@);
    }
    true
}

pub fn has_part(text: &[char], part: &[char]) -> (found: bool)
    ensures
        found == contains(text@, part@),
{
    if part.len() > text.len() {
        return false;
    }
    let last: usize = text.len() - part.len();
    let mut at: usize = 0;
    while at <= last
        invariant
            last == text@.len() - part@.len(),
            at <= last + 1,
            forall|k: int| 0 <= k < at ==> !stands_at(text@, part@, k),
        decreases last + 1 - at,
    {
        if part_stands_at(text, part, at) {
            return true;
        }
        if at == last {
            return false;
        }
        at = at + 1;
    }
    false
}

pub fn has_prefix(text: &[char], part: &[char]) -> (found: bool)
    ensures
        found == starts_with(text@, part@),
{
    part.len() <= text.len() && part_stands_at(text, part, 0)
}

pub fn has_suffix(text: &[char], part: &[char]) -> (found: bool)
    ensures
        found == ends_with(text@, part@),
{
    part.len() <= text.len() && part_stands_at(text, part, text.len() - part.len())
}

pub fn text_contains(text: &str, part: &str) -> (found: bool)
    ensures
        found == contains(text@, part@),
{
    let t = chars_of(text);
    let p = chars_of(part);
    has_part(t.as_slice(), p.as_slice())
}

pub fn chars_le(a: &[char], b: &[char]) -> (le: bool)
    ensures
        le == text_le(a@, b@),
{
    let mut i: usize = 0;
    proof {
        assert(a@.skip(0) == a@);
        assert(b@.skip(0) == b@);
    }
    while i < a.len() && i < b.len()
        invariant
            i <= a@.len(),
            i <= b@.len(),
            text_le(a@, b@) == text_le(a@.skip(i as int), b@.skip(i as int)),
        decreases a@.len() - i,
    {
        if a[i] != b[i] {
            return a[i] < b[i];
        }
        proof {
            assert(a@.skip(i as int).skip(1) == a@.skip(i + 1));
            assert(b@.skip(i as int).skip(1) == b@.skip(i + 1));
        }
        i = i + 1;
    }
    i == a.len()
}

pub fn text_before(a: &str, b: &str) -> (le: bool)
    ensures
        le == text_le(a@, b@),
{
    let left = chars_of(a);
    let right = chars_of(b);
    chars_le(left.as_slice(), right.as_slice())
}

// ---------------------------------------------------------------------------
// Transformations
// ---------------------------------------------------------------------------

pub fn char_is_space(c: char) -> (space: bool)
    ensures
        space == is_space(c),
{
    let n: u32 = c as u32;
    (0x9 <= n && n <= 0xd) || n == 0x20 || n == 0x85 || n == 0xa0 || n == 0x1680 || (0x2000 <= n
        && n <= 0x200a) || n == 0x2028 || n == 0x2029 || n == 0x202f || n == 0x205f || n == 0x3000
}

/// The characters without the white space at the two ends.
pub fn trim_chars(chars: &[char]) -> (part: Vec<char>)
    ensures
        part@ == trimmed(chars@),
{
    let mut from: usize = 0;
    proof {
        assert(chars@.skip(0) == chars@);
    }
    while from < chars.len() && char_is_space(chars[from])
        invariant
            from <= chars@.len(),
            trim_start(chars@) == trim_start(chars@.skip(from as int)),
        decreases chars@.len() - from,
    {
        proof {
            assert(chars@.skip(from as int).skip(1) == chars@.skip(from + 1));
        }
        from = from + 1;
    }
    let mut to: usize = chars.len();
    proof {
        assert(chars@.skip(from as int) == chars@.subrange(from as int, to as int));
    }
    while to > from && char_is_space(chars[to - 1])
        invariant
            from <= to <= chars@.len(),
            trimmed(chars@) == trim_end(chars@.subrange(from as int, to as int)),
        decreases to,
    {
        proof {
            assert(chars@.subrange(from as int, to as int).drop_last() == chars@.subrange(
                from as int,
                to - 1,
            ));
        }
        to = to - 1;
    }
    slice_of(chars, from, to)
}

pub fn trim_text(text: &str) -> (part: String)
    ensures
        part@ == trimmed(text@),
{
    let chars = chars_of(text);
    let part = trim_chars(chars.as_slice());
    string_of(part.as_slice())
}

pub fn char_lower(c: char) -> (low: char)
    ensures
        low == lower_char(c),
{
    if c == 'A' { 'a' } else if c == 'B' { 'b' } else if c == 'C' { 'c' }
    else if c == 'D' { 'd' } else if c == 'E' { 'e' } else if c == 'F' { 'f' }
    else if c == 'G' { 'g' } else if c == 'H' { 'h' } else if c == 'I' { 'i' }
    else if c == 'J' { 'j' } else if c == 'K' { 'k' } else if c == 'L' { 'l' }
    else if c == 'M' { 'm' } else if c == 'N' { 'n' } else if c == 'O' { 'o' }
    else if c == 'P' { 'p' } else if c == 'Q' { 'q' } else if c == 'R' { 'r' }
    else if c == 'S' { 's' } else if c == 'T' { 't' } else if c == 'U' { 'u' }
    else if c == 'V' { 'v' } else if c == 'W' { 'w' } else if c == 'X' { 'x' }
    else if c == 'Y' { 'y' } else if c == 'Z' { 'z' } else { c }
}

/// The characters with ASCII capitals lowered.
pub fn lower_chars(chars: &[char]) -> (low: Vec<char>)
    ensures
        low@ == lower(chars@),
{
    let mut low: Vec<char> = Vec::new();
    for i in 0..chars.len()
        invariant
            low@ == lower(chars@.take(i as int)),
    {
        proof {
            assert(lower(chars@.take(i + 1)) == lower(chars@.take(i as int)).push(
                lower_char(chars@[i as int]),
            ));
        }
        low.push(char_lower(chars[i]));
    }
    proof {
        assert(chars@.take(chars@.len() as int) == chars@);
    }
    low
}

pub fn replace_chars(chars: &[char], from: char, to: &[char]) -> (out: Vec<char>)
    ensures
        out@ == replaced(chars@, from, to@),
{
    let mut out: Vec<char> = Vec::new();
    for i in 0..chars.len()
        invariant
            out@ == replaced(chars@.take(i as int), from, to@),
    {
        let ghost before = out@;
        proof {
            assert(chars@.take(i + 1).drop_last() == chars@.take(i as int));
        }
        if chars[i] == from {
            for k in 0..to.len()
                invariant
                    out@ == before + to@.take(k as int),
            {
                proof {
                    assert(before + to@.take(k + 1) == (before + to@.take(k as int)).push(
                        to@[k as int],
                    ));
                }
                out.push(to[k]);
            }
            proof {
                assert(to@.take(to@.len() as int) == to@);
            }
        } else {
            out.push(chars[i]);
            proof {
                assert(out@ == before + seq![chars@[i as int]]);
            }
        }
    }
    proof {
        assert(chars@.take(chars@.len() as int) == chars@);
    }
    out
}

// ---------------------------------------------------------------------------
// Decimal notation
// ---------------------------------------------------------------------------

fn digit_of(d: u64) -> (c: char)
    requires
        d < 10,
    ensures
        c == digit_char(d as int),
{
    if d == 0 { '0' } else if d == 1 { '1' } else if d == 2 { '2' } else if d == 3 { '3' }
    else if d == 4 { '4' } else if d == 5 { '5' } else if d == 6 { '6' } else if d == 7 { '7' }
    else if d == 8 { '8' } else { '9' }
}

fn digit_list(n: u64) -> (out: Vec<char>)
    ensures
        out@ == digits(n as nat),
    decreases n,
{
    if n < 10 {
        let mut out: Vec<char> = Vec::new();
        out.push(digit_of(n));
        proof {
            assert(out@ =~= seq![digit_char(n as int)]);
        }
        out
    } else {
        let mut out = digit_list(n / 10);
        out.push(digit_of(n % 10));
        out
    }
}

/// Decimal notation of an unsigned integer.
pub fn unsigned_text(n: u64) -> (text: String)
    ensures
        text@ == decimal(n as int),
{
    let list = digit_list(n);
    string_of(list.as_slice())
}

/// Decimal notation of a signed integer.
pub fn signed_text(n: i64) -> (text: String)
    ensures
        text@ == decimal(n as int),
{
    if n < 0 {
        let mut text: String = String::new();
        text.push('-');
        let magnitude: u64 = (-(n as i128)) as u64;
        let list = digit_list(magnitude);
        let tail = string_of(list.as_slice());
        text.append(tail.as_str());
        proof {
            assert(text@ =~= seq!['-'] + digits((-n) as nat));
        }
        text
    } else {
        unsigned_text(n as u64)
    }
}

/// `String::append` of two texts: a new text, the first followed by the second.
pub fn joined(a: &str, b: &str) -> (text: String)
    ensures
        text@ == a@ + b@,
{
    let mut text = a.to_string();
    text.append(b);
    text
}

/// The 64-bit integer that the characters denote.
pub fn parse_chars(chars: &[char]) -> (value: Option<i64>)
    ensures
        value == parsed_i64(chars@),
{
    let n = chars.len();
    if n == 0 {
        return None;
    }
    let signed = chars[0] == '-' || chars[0] == '+';
    let negative = chars[0] == '-';
    let start: usize = if signed { 1 } else { 0 };
    let ghost body = if signed { chars@.skip(1) } else { chars@ };
    if start == n {
        return None;
    }
    let mut total: u64 = 0;
    let mut fits = true;
    for i in start..n
        invariant
            n == chars@.len(),
            start == (if signed { 1int } else { 0int }),
            body == (if signed { chars@.skip(1) } else { chars@ }),
            start < n,
            signed == (chars@[0] == '-' || chars@[0] == '+'),
            forall|k: int| 0 <= k < i - start ==> is_digit(#[trigger] body[k]),
            fits ==> total == digits_value(body.take(i - start)) && total <= 0x8000_0000_0000_0000,
            !fits ==> digits_value(body.take(i - start)) > 0x8000_0000_0000_0000,
    {
        let c = chars[i];
        proof {
            assert(body[i - start] == chars@[i as int]);
            assert(body.take(i + 1 - start).drop_last() == body.take(i - start));
        }
        if c < '0' || c > '9' {
            proof {
                assert(!is_digit(body[i - start]));
            }
            return None;
        }
        if fits {
            let wide: u128 = total as u128 * 10 + (c as u32 - 48) as u128;
            if wide <= 0x8000_0000_0000_0000 {
                total = wide as u64;
            } else {
                fits = false;
            }
        }
    }
    proof {
        assert(body.take(n - start) == body);
        assert(all_digits(body));
    }
    if !fits {
        return None;
    }
    if negative {
        Some((-(total as i128)) as i64)
    } else if total <= 0x7fff_ffff_ffff_ffff {
        Some(total as i64)
    } else {
        None
    }
}

pub fn parse_text(text: &str) -> (value: Option<i64>)
    ensures
        value == parsed_i64(text@),
{
    let chars = chars_of(text);
    parse_chars(chars.as_slice())
}

/// Does the list hold this text?
pub fn holds_text(list: &[String], value: &str) -> (found: bool)
    ensures
        found == crate::outside::texts(list@).contains(value@),
{
    let ghost whole = crate::outside::texts(list@);
    for i in 0..list.len()
        invariant
            whole == crate::outside::texts(list@),
            forall|k: int| 0 <= k < i ==> whole[k] != value@,
    {
        proof {
            assert(whole[i as int] == list@[i as int]@);
        }
        if same_text(list[i].as_str(), value) {
            return true;
        }
    }
    false
}

} // verus!
