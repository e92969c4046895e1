//! Fields of comma-separated records, as RFC 4180 writes them.
use crate::text;
use crate::text::{chars_of, replace_chars, string_of};
use vstd::prelude::*;

verus! {

/// Characters that a bare field cannot hold.
pub open spec fn is_special(c: char) -> bool {
    c == ',' || c == '"' || c == '\n' || c == '\r'
}

pub open spec fn needs_quotes(value: Seq<char>) -> bool {
    exists|i: int| 0 <= i < value.len() && is_special(#[trigger] value[i])
}

/// `value` with its quotes doubled.
pub open spec fn doubled(value: Seq<char>) -> Seq<char> {
    text::replaced(value, '"', seq!['"', '"'])
}

/// A field: bare where it can be, else in quotes with its own quotes doubled.
pub open spec fn field_of(value: Seq<char>) -> Seq<char> {
    if needs_quotes(value) {
        seq!['"'] + doubled(value) + seq!['"']
    } else {
        value
    }
}

pub fn csv_field(value: &str) -> (field: String)
    ensures
        field@ == field_of(value@),
{
    let chars = chars_of(value);
    let mut special = false;
    let mut i: usize = 0;
    while !special && i < chars.len()
        invariant
            i <= chars@.len(),
            special ==> needs_quotes(chars@),
            !special ==> forall|k: int| 0 <= k < i ==> !is_special(#[trigger] chars@[k]),
        decreases chars@.len() - i,
    {
        let c: char = chars[i];
        if c == ',' || c == '"' || c == '\n' || c == '\r' {
            proof {
                assert(is_special(chars@[i as int]));
            }
            special = true;
        }
        i = i + 1;
    }
    if !special {
        return value.to_string();
    }
    let mut pair: Vec<char> = Vec::new();
    pair.push('"');
    pair.push('"');
    proof {
        assert(pair@ =~= seq!['"', '"']);
    }
    let inner = replace_chars(chars.as_slice(), '"', pair.as_slice());
    let body = string_of(inner.as_slice());
    let mut field = String::new();
    field.push('"');
    field.append(body.as_str());
    field.push('"');
    proof {
        assert(field@ =~= seq!['"'] + doubled(value@) + seq!['"']);
    }
    field
}

// ---------------------------------------------------------------------------
// Reading fields back
// ---------------------------------------------------------------------------

/// Read a bare field: its value, and what follows it.
pub open spec fn read_bare(s: Seq<char>) -> (Seq<char>, Seq<char>)
    decreases s.len(),
{
    if s.len() == 0 || s[0] == ',' || s[0] == '\n' || s[0] == '\r' {
        (Seq::empty(), s)
    } else {
        let (value, rest) = read_bare(s.skip(1));
        (seq![s[0]] + value, rest)
    }
}

/// Read a field behind its opening quote: its value, and what follows the
/// closing one.
pub open spec fn read_quoted(s: Seq<char>) -> (Seq<char>, Seq<char>)
    decreases s.len(),
{
    if s.len() == 0 {
        (Seq::empty(), s)
    } else if s[0] != '"' {
        let (value, rest) = read_quoted(s.skip(1));
        (seq![s[0]] + value, rest)
    } else if s.len() > 1 && s[1] == '"' {
        let (value, rest) = read_quoted(s.skip(2));
        (seq!['"'] + value, rest)
    } else {
        (Seq::empty(), s.skip(1))
    }
}

/// Read the field at the start of a record.
pub open spec fn read_field(s: Seq<char>) -> (Seq<char>, Seq<char>) {
    if s.len() > 0 && s[0] == '"' {
        read_quoted(s.skip(1))
    } else {
        read_bare(s)
    }
}

/// Nothing more, or a separator.
pub open spec fn ends_field(rest: Seq<char>) -> bool {
    rest.len() == 0 || rest[0] == ',' || rest[0] == '\n' || rest[0] == '\r'
}

proof fn lemma_doubled_front(value: Seq<char>)
    requires
        value.len() > 0,
    ensures
        doubled(value) == (if value[0] == '"' {
            seq!['"', '"']
        } else {
            seq![value[0]]
        }) + doubled(value.skip(1)),
    decreases value.len(),
{
    let head = if value[0] == '"' {
        seq!['"', '"']
    } else {
        seq![value[0]]
    };
    if value.len() == 1 {
        assert(value.drop_last() =~= Seq::<char>::empty());
        assert(value.skip(1) =~= Seq::<char>::empty());
        assert(doubled(value.drop_last()) =~= Seq::<char>::empty());
        assert(doubled(value) =~= head + doubled(value.skip(1)));
    } else {
        lemma_doubled_front(value.drop_last());
        assert(value.drop_last().skip(1) =~= value.skip(1).drop_last());
        assert(doubled(value) =~= head + doubled(value.skip(1)));
    }
}

proof fn lemma_read_quoted(value: Seq<char>, rest: Seq<char>)
    requires
        ends_field(rest),
    ensures
        read_quoted(doubled(value) + seq!['"'] + rest) == (value, rest),
    decreases value.len(),
{
    let s = doubled(value) + seq!['"'] + rest;
    if value.len() == 0 {
        assert(doubled(value) =~= Seq::<char>::empty());
        assert(s[0] == '"');
        assert(s.skip(1) =~= rest);
        assert(value =~= Seq::<char>::empty());
    } else {
        lemma_doubled_front(value);
        let tail = value.skip(1);
        lemma_read_quoted(tail, rest);
        let after = doubled(tail) + seq!['"'] + rest;
        assert(value =~= seq![value[0]] + tail);
        if value[0] == '"' {
            assert(s[0] == '"' && s[1] == '"');
            assert(s.skip(2) =~= after);
        } else {
            assert(s[0] == value[0]);
            assert(s.skip(1) =~= after);
        }
    }
}

proof fn lemma_read_bare(value: Seq<char>, rest: Seq<char>)
    requires
        ends_field(rest),
        !needs_quotes(value),
    ensures
        read_bare(value + rest) == (value, rest),
    decreases value.len(),
{
    let s = value + rest;
    if value.len() == 0 {
        assert(s =~= rest);
        assert(value =~= Seq::<char>::empty());
    } else {
        let tail = value.skip(1);
        assert forall|i: int| 0 <= i < tail.len() implies !is_special(#[trigger] tail[i]) by {
            assert(!is_special(value[i + 1]));
        }
        assert(!is_special(value[0]));
        lemma_read_bare(tail, rest);
        assert(s.skip(1) =~= tail + rest);
        assert(value =~= seq![value[0]] + tail);
    }
}

/// A field reads back as the value it was written for, whatever characters
/// the value holds, and what stands behind the field is left as it is.
pub proof fn law_field_reads_back(value: Seq<char>, rest: Seq<char>)
    requires
        ends_field(rest),
    ensures
        read_field(field_of(value) + rest) == (value, rest),
{
    let s = field_of(value) + rest;
    if needs_quotes(value) {
        lemma_read_quoted(value, rest);
        assert(s[0] == '"');
        assert(s.skip(1) =~= doubled(value) + seq!['"'] + rest);
    } else {
        lemma_read_bare(value, rest);
        if value.len() > 0 {
            assert(!is_special(value[0]));
        }
    }
}

} // verus!
