//! Pattern matching of the index queries: `%` stands for any run of
//! characters, `_` for one character, a backslash takes the character behind
//! it literally, and ASCII letters match in either case.
use crate::text;
use crate::text::{chars_of, replace_chars, string_of};
use vstd::prelude::*;

verus! {

/// `subject` matches `pattern`.
pub open spec fn like(pattern: Seq<char>, subject: Seq<char>) -> bool
    decreases pattern.len(), subject.len(),
{
    if pattern.len() == 0 {
        subject.len() == 0
    } else if pattern[0] == '\\' {
        &&& pattern.len() > 1
        &&& subject.len() > 0
        &&& text::lower_char(pattern[1]) == text::lower_char(subject[0])
        &&& like(pattern.skip(2), subject.skip(1))
    } else if pattern[0] == '%' {
        like(pattern.skip(1), subject) || (subject.len() > 0 && like(pattern, subject.skip(1)))
    } else if pattern[0] == '_' {
        subject.len() > 0 && like(pattern.skip(1), subject.skip(1))
    } else {
        &&& subject.len() > 0
        &&& text::lower_char(pattern[0]) == text::lower_char(subject[0])
        &&& like(pattern.skip(1), subject.skip(1))
    }
}

/// `value` with the three characters of the pattern language escaped.
pub open spec fn escaped(value: Seq<char>) -> Seq<char> {
    text::replaced(
        text::replaced(text::replaced(value, '\\', seq!['\\', '\\']), '%', seq!['\\', '%']),
        '_',
        seq!['\\', '_'],
    )
}

pub open spec fn is_special(c: char) -> bool {
    c == '\\' || c == '%' || c == '_'
}

/// What one character is escaped to.
pub open spec fn escaped_char(c: char) -> Seq<char> {
    if is_special(c) {
        seq!['\\', c]
    } else {
        seq![c]
    }
}

/// Escape a text so that a pattern takes every character of it literally.
pub fn like_escape(value: &str) -> (pattern: String)
    ensures
        pattern@ == escaped(value@),
{
    let slashes: Vec<char> = vec!['\\', '\\'];
    let percent: Vec<char> = vec!['\\', '%'];
    let underscore: Vec<char> = vec!['\\', '_'];
    let plain = chars_of(value);
    let first = replace_chars(plain.as_slice(), '\\', slashes.as_slice());
    let second = replace_chars(first.as_slice(), '%', percent.as_slice());
    let third = replace_chars(second.as_slice(), '_', underscore.as_slice());
    proof {
        assert(slashes@ =~= seq!['\\', '\\']);
        assert(percent@ =~= seq!['\\', '%']);
        assert(underscore@ =~= seq!['\\', '_']);
    }
    string_of(third.as_slice())
}

/// The pattern of every text that holds `part` somewhere.
pub open spec fn holding(part: Seq<char>) -> Seq<char> {
    seq!['%'] + escaped(part) + seq!['%']
}

/// The pattern of every text that starts with `part`.
pub open spec fn beginning(part: Seq<char>) -> Seq<char> {
    escaped(part) + seq!['%']
}

pub fn holding_pattern(part: &str) -> (pattern: Vec<char>)
    ensures
        pattern@ == holding(part@),
{
    let safe = like_escape(part);
    let mut pattern: Vec<char> = vec!['%'];
    let mut tail = chars_of(safe.as_str());
    pattern.append(&mut tail);
    pattern.push('%');
    proof {
        assert(pattern@ =~= holding(part@));
    }
    pattern
}

pub fn beginning_pattern(part: &str) -> (pattern: Vec<char>)
    ensures
        pattern@ == beginning(part@),
{
    let safe = like_escape(part);
    let mut pattern: Vec<char> = chars_of(safe.as_str());
    pattern.push('%');
    proof {
        assert(pattern@ =~= beginning(part@));
    }
    pattern
}

fn same_folded(a: char, b: char) -> (same: bool)
    ensures
        same == (text::lower_char(a) == text::lower_char(b)),
{
    text::char_lower(a) == text::char_lower(b)
}

fn matches_from(pattern: &[char], at: usize, subject: &[char], from: usize) -> (found: bool)
    requires
        at <= pattern@.len(),
        from <= subject@.len(),
    ensures
        found == like(pattern@.skip(at as int), subject@.skip(from as int)),
    decreases pattern@.len() - at, subject@.len() - from,
{
    let ghost p = pattern@.skip(at as int);
    let ghost s = subject@.skip(from as int);
    proof {
        assert(at < pattern@.len() ==> p.skip(1) =~= pattern@.skip(at + 1));
        assert(at + 1 < pattern@.len() ==> p.skip(2) =~= pattern@.skip(at + 2));
        assert(from < subject@.len() ==> s.skip(1) =~= subject@.skip(from + 1));
    }
    if at == pattern.len() {
        from == subject.len()
    } else if pattern[at] == '\\' {
        at + 1 < pattern.len() && from < subject.len() && same_folded(pattern[at + 1], subject[from])
            && matches_from(pattern, at + 2, subject, from + 1)
    } else if pattern[at] == '%' {
        // The run of `%` may take any number of characters.
        let n = pattern.len();
        let mut skip: usize = from;
        while skip < subject.len()
            invariant
                at < n == pattern@.len(),
                pattern@[at as int] == '%',
                p == pattern@.skip(at as int),
                from <= skip <= subject@.len(),
                s == subject@.skip(from as int),
                p.skip(1) == pattern@.skip(at + 1),
                like(p, s) == like(p, subject@.skip(skip as int)),
            decreases subject@.len() - skip,
        {
            if matches_from(pattern, at + 1, subject, skip) {
                return true;
            }
            proof {
                assert(subject@.skip(skip as int).skip(1) =~= subject@.skip(skip + 1));
            }
            skip = skip + 1;
        }
        matches_from(pattern, at + 1, subject, skip)
    } else if pattern[at] == '_' {
        from < subject.len() && matches_from(pattern, at + 1, subject, from + 1)
    } else {
        from < subject.len() && same_folded(pattern[at], subject[from]) && matches_from(
            pattern,
            at + 1,
            subject,
            from + 1,
        )
    }
}

/// Does `subject` match `pattern`?
pub fn like_match(pattern: &[char], subject: &[char]) -> (found: bool)
    ensures
        found == like(pattern@, subject@),
{
    proof {
        assert(pattern@.skip(0) =~= pattern@);
        assert(subject@.skip(0) =~= subject@);
    }
    matches_from(pattern, 0, subject, 0)
}

// ---------------------------------------------------------------------------
// Escaped patterns match literally
// ---------------------------------------------------------------------------

proof fn lemma_replaced_append(a: Seq<char>, b: Seq<char>, from: char, to: Seq<char>)
    ensures
        text::replaced(a + b, from, to) == text::replaced(a, from, to) + text::replaced(b, from, to),
    decreases b.len(),
{
    if b.len() == 0 {
        assert(a + b =~= a);
        assert(text::replaced(a, from, to) + text::replaced(b, from, to) =~= text::replaced(a, from, to));
    } else {
        lemma_replaced_append(a, b.drop_last(), from, to);
        assert((a + b).drop_last() =~= a + b.drop_last());
        assert((a + b).last() == b.last());
        let tail = if b.last() == from {
            to
        } else {
            seq![b.last()]
        };
        assert(text::replaced(a, from, to) + (text::replaced(b.drop_last(), from, to) + tail)
            =~= (text::replaced(a, from, to) + text::replaced(b.drop_last(), from, to)) + tail);
    }
}

proof fn lemma_replaced_one(c: char, from: char, to: Seq<char>)
    ensures
        text::replaced(seq![c], from, to) == (if c == from {
            to
        } else {
            seq![c]
        }),
{
    assert(seq![c].drop_last() =~= Seq::<char>::empty());
    assert(text::replaced(seq![c].drop_last(), from, to) =~= Seq::<char>::empty());
    let tail = if c == from {
        to
    } else {
        seq![c]
    };
    assert(Seq::<char>::empty() + tail =~= tail);
}

proof fn lemma_escaped_append(a: Seq<char>, b: Seq<char>)
    ensures
        escaped(a + b) == escaped(a) + escaped(b),
{
    let bb = seq!['\\', '\\'];
    let bp = seq!['\\', '%'];
    let a1 = text::replaced(a, '\\', bb);
    let b1 = text::replaced(b, '\\', bb);
    lemma_replaced_append(a, b, '\\', bb);
    lemma_replaced_append(a1, b1, '%', bp);
    lemma_replaced_append(
        text::replaced(a1, '%', bp),
        text::replaced(b1, '%', bp),
        '_',
        seq!['\\', '_'],
    );
}

proof fn lemma_escaped_single(c: char)
    ensures
        escaped(seq![c]) == escaped_char(c),
{
    let bb = seq!['\\', '\\'];
    let bp = seq!['\\', '%'];
    let bu = seq!['\\', '_'];
    lemma_replaced_one(c, '\\', bb);
    if c == '\\' {
        lemma_replaced_one(c, '%', bp);
        lemma_replaced_one(c, '_', bu);
        assert(bb =~= seq![c] + seq![c]);
        lemma_replaced_append(seq![c], seq![c], '%', bp);
        lemma_replaced_append(seq![c], seq![c], '_', bu);
    } else if c == '%' {
        lemma_replaced_one(c, '%', bp);
        assert(bp =~= seq!['\\'] + seq!['%']);
        lemma_replaced_append(seq!['\\'], seq!['%'], '_', bu);
        lemma_replaced_one('\\', '_', bu);
        lemma_replaced_one('%', '_', bu);
    } else {
        lemma_replaced_one(c, '%', bp);
        lemma_replaced_one(c, '_', bu);
    }
}

/// Escaping works character by character.
pub proof fn lemma_escaped_step(c: char, rest: Seq<char>)
    ensures
        escaped(seq![c] + rest) == escaped_char(c) + escaped(rest),
{
    lemma_escaped_append(seq![c], rest);
    lemma_escaped_single(c);
}

proof fn lemma_escaped_empty()
    ensures
        escaped(Seq::<char>::empty()) == Seq::<char>::empty(),
{
}

proof fn lemma_percent_matches_all(subject: Seq<char>)
    ensures
        like(seq!['%'], subject),
    decreases subject.len(),
{
    assert(seq!['%'].skip(1) =~= Seq::<char>::empty());
    assert(like(seq!['%'].skip(1), subject) == (subject.len() == 0));
    if subject.len() > 0 {
        lemma_percent_matches_all(subject.skip(1));
    }
}

proof fn lemma_lower_prefix(subject: Seq<char>, part: Seq<char>)
    requires
        part.len() > 0,
    ensures
        text::starts_with(text::lower(subject), text::lower(part)) <==> {
            &&& subject.len() > 0
            &&& text::lower_char(part[0]) == text::lower_char(subject[0])
            &&& text::starts_with(text::lower(subject.skip(1)), text::lower(part.skip(1)))
        },
{
    let s = text::lower(subject);
    let p = text::lower(part);
    if text::starts_with(s, p) {
        assert(s.subrange(0, p.len() as int)[0] == p[0]);
        assert(text::lower(subject.skip(1)).subrange(0, part.len() - 1) =~= text::lower(part.skip(1))) by {
            assert forall|k: int| 0 <= k < part.len() - 1 implies text::lower(subject.skip(1)).subrange(
                0,
                part.len() - 1,
            )[k] == text::lower(part.skip(1))[k] by {
                assert(s.subrange(0, p.len() as int)[k + 1] == p[k + 1]);
            }
        }
    }
    if subject.len() > 0 && text::lower_char(part[0]) == text::lower_char(subject[0])
        && text::starts_with(text::lower(subject.skip(1)), text::lower(part.skip(1))) {
        let t = text::lower(subject.skip(1));
        let q = text::lower(part.skip(1));
        assert(s.subrange(0, p.len() as int) =~= p) by {
            assert forall|k: int| 0 <= k < p.len() implies s.subrange(0, p.len() as int)[k] == p[k] by {
                if k > 0 {
                    assert(t.subrange(0, q.len() as int)[k - 1] == q[k - 1]);
                }
            }
        }
    }
}

/// The pattern made from `part` matches exactly the texts that start with
/// `part`, letter case of ASCII letters aside.
pub proof fn lemma_beginning_matches_prefix(part: Seq<char>, subject: Seq<char>)
    ensures
        like(beginning(part), subject) <==> text::starts_with(text::lower(subject), text::lower(part)),
    decreases part.len(),
{
    if part.len() == 0 {
        assert(part =~= Seq::<char>::empty());
        lemma_escaped_empty();
        assert(beginning(part) =~= seq!['%']);
        lemma_percent_matches_all(subject);
        assert(text::lower(subject).subrange(0, 0) =~= text::lower(part));
    } else {
        let c = part[0];
        let rest = part.skip(1);
        assert(part =~= seq![c] + rest);
        lemma_escaped_step(c, rest);
        lemma_lower_prefix(subject, part);
        if subject.len() > 0 {
            lemma_beginning_matches_prefix(rest, subject.skip(1));
        }
        let pattern = beginning(part);
        if is_special(c) {
            assert(pattern =~= seq!['\\', c] + beginning(rest));
            assert(pattern.skip(2) =~= beginning(rest));
        } else {
            assert(pattern =~= seq![c] + beginning(rest));
            assert(pattern.skip(1) =~= beginning(rest));
        }
    }
}

/// The pattern made from `part` matches exactly the texts that hold `part`,
/// letter case of ASCII letters aside.
pub proof fn lemma_holding_matches_part(part: Seq<char>, subject: Seq<char>)
    ensures
        like(holding(part), subject) <==> text::contains(text::lower(subject), text::lower(part)),
    decreases subject.len(),
{
    let pattern = holding(part);
    let s = text::lower(subject);
    let p = text::lower(part);
    assert(pattern =~= seq!['%'] + beginning(part));
    assert(pattern.skip(1) =~= beginning(part));
    lemma_beginning_matches_prefix(part, subject);
    if subject.len() > 0 {
        lemma_holding_matches_part(part, subject.skip(1));
        let t = text::lower(subject.skip(1));
        assert(t =~= s.skip(1));
        if text::contains(t, p) {
            let at = choose|at: int| text::stands_at(t, p, at);
            assert(t.subrange(at, at + p.len()) =~= s.subrange(at + 1, at + 1 + p.len()));
            assert(text::stands_at(s, p, at + 1));
        }
        if text::contains(s, p) {
            let at = choose|at: int| text::stands_at(s, p, at);
            if at > 0 {
                assert(t.subrange(at - 1, at - 1 + p.len()) =~= s.subrange(at, at + p.len()));
                assert(text::stands_at(t, p, at - 1));
            } else {
                assert(text::stands_at(s, p, 0));
            }
        }
        if text::starts_with(s, p) {
            assert(text::stands_at(s, p, 0));
        }
    } else {
        if text::contains(s, p) {
            let at = choose|at: int| text::stands_at(s, p, at);
            assert(at == 0);
        }
        if text::starts_with(s, p) {
            assert(text::stands_at(s, p, 0));
        }
    }
}

} // verus!
