//! Content hashes of files, full and quick, fed piece by piece; the byte
//! comparison of two files; and the move that checks what it copied.
use crate::outside::{absorb, new_hasher, squeeze};
use crate::text::same_text;
use crate::{outside, text};
use vstd::prelude::*;

verus! {

/// Bytes at the head of a file that its quick fingerprint covers.
pub const QUICK_HASH_CHUNK: u64 = 65_536;

/// Files above this size get the quick fingerprint first, and a full hash
/// only where another file has the same size and fingerprint.
pub const LARGE_FILE_QUICK_THRESHOLD: u64 = 16_777_216;

// ---------------------------------------------------------------------------
// Hexadecimal notation
// ---------------------------------------------------------------------------

pub open spec fn hex_digit(n: int) -> char {
    if n < 10 {
        (48 + n) as char
    } else {
        (87 + n) as char
    }
}

/// Two lower-case hexadecimal digits for each byte.
pub open spec fn hex(bytes: Seq<u8>) -> Seq<char>
    decreases bytes.len(),
{
    if bytes.len() == 0 {
        Seq::empty()
    } else {
        hex(bytes.drop_last()).push(hex_digit(bytes.last() as int / 16)).push(
            hex_digit(bytes.last() as int % 16),
        )
    }
}

fn hex_char(n: u8) -> (c: char)
    requires
        n < 16,
    ensures
        c == hex_digit(n as int),
{
    if n == 0 { '0' } else if n == 1 { '1' } else if n == 2 { '2' } else if n == 3 { '3' }
    else if n == 4 { '4' } else if n == 5 { '5' } else if n == 6 { '6' } else if n == 7 { '7' }
    else if n == 8 { '8' } else if n == 9 { '9' } else if n == 10 { 'a' } else if n == 11 { 'b' }
    else if n == 12 { 'c' } else if n == 13 { 'd' } else if n == 14 { 'e' } else { 'f' }
}

pub fn hex_text(bytes: &[u8]) -> (out: String)
    ensures
        out@ == hex(bytes@),
{
    let mut out: String = String::new();
    for i in 0..bytes.len()
        invariant
            out@ == hex(bytes@.take(i as int)),
    {
        proof {
            assert(bytes@.take(i + 1).drop_last() =~= bytes@.take(i as int));
            assert(bytes@.take(i + 1).last() == bytes@[i as int]);
        }
        out.push(hex_char(bytes[i] / 16));
        out.push(hex_char(bytes[i] % 16));
    }
    proof {
        assert(bytes@.take(bytes@.len() as int) =~= bytes@);
    }
    out
}

/// A hash has two digits for each byte.
pub proof fn lemma_hex_length(bytes: Seq<u8>)
    ensures
        hex(bytes).len() == 2 * bytes.len(),
    decreases bytes.len(),
{
    if bytes.len() > 0 {
        lemma_hex_length(bytes.drop_last());
    }
}

/// Different bytes are written differently.
pub proof fn law_hex_is_injective(a: Seq<u8>, b: Seq<u8>)
    requires
        hex(a) == hex(b),
    ensures
        a == b,
    decreases a.len(),
{
    lemma_hex_length(a);
    lemma_hex_length(b);
    if a.len() > 0 {
        let ha = hex(a);
        let hb = hex(b);
        let n = ha.len();
        assert(ha[n - 1] == hb[n - 1]);
        assert(ha[n - 2] == hb[n - 2]);
        assert(ha.take(n - 2) =~= hex(a.drop_last()));
        assert(hb.take(n - 2) =~= hex(b.drop_last()));
        law_hex_is_injective(a.drop_last(), b.drop_last());
        assert(a =~= a.drop_last().push(a.last()));
        assert(b =~= b.drop_last().push(b.last()));
    }
}

// ---------------------------------------------------------------------------
// Hashing files
// ---------------------------------------------------------------------------

/// The hash under which content is indexed.
pub open spec fn content_hash(bytes: Seq<u8>) -> Seq<char> {
    hex(outside::blake3_digest(bytes))
}

/// The bytes that the quick fingerprint covers.
pub open spec fn head_of(bytes: Seq<u8>) -> Seq<u8> {
    if bytes.len() <= QUICK_HASH_CHUNK {
        bytes
    } else {
        bytes.take(QUICK_HASH_CHUNK as int)
    }
}

/// The quick fingerprint of a content.
pub open spec fn quick_hash(bytes: Seq<u8>) -> Seq<char> {
    content_hash(head_of(bytes))
}

/// A file being hashed piece by piece.
pub struct FileHasher {
    state: blake3::Hasher,
    /// Bytes that may still be taken in; none means without limit.
    remaining: Option<u64>,
}

impl FileHasher {
    /// The bytes taken in so far.
    pub closed spec fn taken(self) -> Seq<u8> {
        outside::absorbed(self.state)
    }

    /// The bytes that may still be taken in.
    pub closed spec fn room(self) -> Option<u64> {
        self.remaining
    }

    /// Hash a whole file.
    pub fn full() -> (hasher: FileHasher)
        ensures
            hasher.taken() == Seq::<u8>::empty(),
            hasher.room() is None,
    {
        FileHasher { state: new_hasher(), remaining: None }
    }

    /// Hash the head of a file.
    pub fn quick() -> (hasher: FileHasher)
        ensures
            hasher.taken() == Seq::<u8>::empty(),
            hasher.room() == Some(QUICK_HASH_CHUNK),
    {
        FileHasher { state: new_hasher(), remaining: Some(QUICK_HASH_CHUNK) }
    }

    /// How many bytes to read next into a buffer of this size; zero means
    /// that no more are wanted.
    pub fn wanted(&self, buffer: usize) -> (n: usize)
        ensures
            match self.room() {
                None => n == buffer,
                Some(room) => n == (if room < buffer {
                    room as int
                } else {
                    buffer as int
                }),
            },
    {
        match self.remaining {
            None => buffer,
            Some(room) => if room < buffer as u64 {
                room as usize
            } else {
                buffer
            },
        }
    }

    /// Take in the next piece of the file.
    pub fn feed(&mut self, piece: &[u8])
        requires
            old(self).room() is Some ==> piece@.len() <= old(self).room()->0,
        ensures
            final(self).taken() == old(self).taken() + piece@,
            match old(self).room() {
                None => final(self).room() is None,
                Some(room) => final(self).room() == Some((room - piece@.len()) as u64),
            },
    {
        absorb(&mut self.state, piece);
        match self.remaining {
            None => {},
            Some(room) => {
                self.remaining = Some(room - piece.len() as u64);
            },
        }
    }

    /// The hash of what was taken in.
    pub fn finish(&self) -> (hash: String)
        ensures
            hash@ == content_hash(self.taken()),
    {
        let digest = squeeze(&self.state);
        hex_text(digest.as_slice())
    }
}

// ---------------------------------------------------------------------------
// Comparing two files
// ---------------------------------------------------------------------------

/// What two pieces read at the same place say: the verdict, or nothing yet.
pub open spec fn piece_verdict(left: Seq<u8>, right: Seq<u8>) -> Option<bool> {
    if left.len() != right.len() {
        Some(false)
    } else if left.len() == 0 {
        Some(true)
    } else if left != right {
        Some(false)
    } else {
        None
    }
}

pub fn compare_pieces(left: &[u8], right: &[u8]) -> (verdict: Option<bool>)
    ensures
        verdict == piece_verdict(left@, right@),
{
    if left.len() != right.len() {
        return Some(false);
    }
    if left.len() == 0 {
        return Some(true);
    }
    for i in 0..left.len()
        invariant
            left@.len() == right@.len(),
            left@.len() > 0,
            forall|k: int| 0 <= k < i ==> left@[k] == right@[k],
    {
        if left[i] != right[i] {
            return Some(false);
        }
    }
    proof {
        assert(left@ =~= right@);
    }
    None
}

/// The first piece of at most `n` bytes.
pub open spec fn first_piece(bytes: Seq<u8>, n: int) -> Seq<u8> {
    bytes.take(
        if bytes.len() < n {
            bytes.len() as int
        } else {
            n
        },
    )
}

/// Comparing piece by piece until there is a verdict.
pub open spec fn compared(left: Seq<u8>, right: Seq<u8>, n: int) -> bool
    decreases left.len(),
{
    let a = first_piece(left, n);
    let b = first_piece(right, n);
    match piece_verdict(a, b) {
        Some(verdict) => verdict,
        None => if n > 0 && left.len() > 0 {
            compared(left.skip(a.len() as int), right.skip(b.len() as int), n)
        } else {
            false
        },
    }
}

/// Comparing in full pieces decides whether two contents are equal.
pub proof fn law_pieces_decide_equality(left: Seq<u8>, right: Seq<u8>, n: int)
    requires
        n > 0,
    ensures
        compared(left, right, n) == (left == right),
    decreases left.len(),
{
    let a = first_piece(left, n);
    let b = first_piece(right, n);
    if piece_verdict(a, b) is None {
        let x = left.skip(a.len() as int);
        let y = right.skip(b.len() as int);
        law_pieces_decide_equality(x, y, n);
        assert(left =~= a + x);
        assert(right =~= b + y);
    } else if a.len() == 0 && b.len() == 0 {
        assert(left =~= right);
    }
}

// ---------------------------------------------------------------------------
// Moving with a check
// ---------------------------------------------------------------------------

/// What the disk has answered while a file is moved.
pub struct MoveSeen {
    /// Renaming worked.
    pub renamed: Option<bool>,
    /// A file that was renamed in vain is back in its place.
    pub returned: Option<bool>,
    /// The copy was written.
    pub copied: Option<Result<(), String>>,
    /// Hash of the file at its new place, renamed or copied.
    pub moved_hash: Option<Result<String, String>>,
    /// The bad copy was removed.
    pub discarded: bool,
    /// The source was removed.
    pub removed: Option<Result<(), String>>,
}

pub enum MoveStep {
    Rename,
    /// Hash the file at its new place.
    HashMoved,
    /// Rename the file back.
    Return,
    Copy,
    DiscardCopy,
    RemoveSource,
    Finished(Result<(), String>),
}

pub enum MoveStepView {
    Rename,
    /// Hash the file at its new place.
    HashMoved,
    /// Rename the file back.
    Return,
    Copy,
    DiscardCopy,
    RemoveSource,
    Finished(Result<(), Seq<char>>),
}

impl View for MoveStep {
    type V = MoveStepView;

    open spec fn view(&self) -> MoveStepView {
        match *self {
            MoveStep::Rename => MoveStepView::Rename,
            MoveStep::HashMoved => MoveStepView::HashMoved,
            MoveStep::Return => MoveStepView::Return,
            MoveStep::Copy => MoveStepView::Copy,
            MoveStep::DiscardCopy => MoveStepView::DiscardCopy,
            MoveStep::RemoveSource => MoveStepView::RemoveSource,
            MoveStep::Finished(result) => MoveStepView::Finished(outside::message_of(result)),
        }
    }
}

impl MoveSeen {
    pub fn new() -> (seen: MoveSeen)
        ensures
            seen == (MoveSeen {
                renamed: None,
                returned: None,
                copied: None,
                moved_hash: None,
                discarded: false,
                removed: None,
            }),
    {
        MoveSeen {
            renamed: None,
            returned: None,
            copied: None,
            moved_hash: None,
            discarded: false,
            removed: None,
        }
    }
}

/// A renamed file that is not what was expected goes back to its place.
pub open spec fn return_step(reason: Seq<char>, seen: MoveSeen) -> MoveStepView {
    match seen.returned {
        None => MoveStepView::Return,
        Some(true) => MoveStepView::Finished(Err(reason)),
        Some(false) => MoveStepView::Finished(Err(reason + "; it could not be moved back"@)),
    }
}

/// Moving a file: by renaming, or else by a copy. Either way the content is
/// checked at the new place, a copy before the source goes.
pub open spec fn move_step(expected_hash: Seq<char>, seen: MoveSeen) -> MoveStepView {
    match seen.renamed {
        None => MoveStepView::Rename,
        Some(true) => match seen.moved_hash {
            None => MoveStepView::HashMoved,
            Some(Err(error)) => return_step(error@, seen),
            Some(Ok(hash)) => if hash@ != expected_hash {
                return_step("moved file failed integrity check"@, seen)
            } else {
                MoveStepView::Finished(Ok(()))
            },
        },
        Some(false) => match seen.copied {
            None => MoveStepView::Copy,
            Some(Err(error)) => MoveStepView::Finished(Err(error@)),
            Some(Ok(_)) => match seen.moved_hash {
                None => MoveStepView::HashMoved,
                Some(Err(error)) => MoveStepView::Finished(Err(error@)),
                Some(Ok(hash)) => if hash@ != expected_hash {
                    if !seen.discarded {
                        MoveStepView::DiscardCopy
                    } else {
                        MoveStepView::Finished(Err("copied file failed integrity check"@))
                    }
                } else {
                    match seen.removed {
                        None => MoveStepView::RemoveSource,
                        Some(Err(error)) => MoveStepView::Finished(
                            Err(
                                "verified copy exists but source could not be removed: "@ + error@,
                            ),
                        ),
                        Some(Ok(_)) => MoveStepView::Finished(Ok(())),
                    }
                },
            },
        },
    }
}

fn go_back(reason: String, seen: &MoveSeen) -> (step: MoveStep)
    ensures
        step@ == return_step(reason@, *seen),
{
    match seen.returned {
        None => MoveStep::Return,
        Some(true) => MoveStep::Finished(Err(reason)),
        Some(false) => MoveStep::Finished(
            Err(text::joined(reason.as_str(), "; it could not be moved back")),
        ),
    }
}

pub fn move_verified(expected_hash: &str, seen: &MoveSeen) -> (step: MoveStep)
    ensures
        step@ == move_step(expected_hash@, *seen),
{
    match seen.renamed {
        None => return MoveStep::Rename,
        Some(true) => {
            return match &seen.moved_hash {
                None => MoveStep::HashMoved,
                Some(Err(error)) => go_back(error.clone(), seen),
                Some(Ok(hash)) => if !same_text(hash.as_str(), expected_hash) {
                    go_back("moved file failed integrity check".to_string(), seen)
                } else {
                    MoveStep::Finished(Ok(()))
                },
            };
        },
        Some(false) => {},
    }
    match &seen.copied {
        None => return MoveStep::Copy,
        Some(Err(error)) => return MoveStep::Finished(Err(error.clone())),
        Some(Ok(_)) => {},
    }
    match &seen.moved_hash {
        None => return MoveStep::HashMoved,
        Some(Err(error)) => return MoveStep::Finished(Err(error.clone())),
        Some(Ok(hash)) => {
            if !same_text(hash.as_str(), expected_hash) {
                if !seen.discarded {
                    return MoveStep::DiscardCopy;
                }
                return MoveStep::Finished(Err("copied file failed integrity check".to_string()));
            }
        },
    }
    match &seen.removed {
        None => MoveStep::RemoveSource,
        Some(Err(error)) => MoveStep::Finished(
            Err(
                text::joined(
                    "verified copy exists but source could not be removed: ",
                    error.as_str(),
                ),
            ),
        ),
        Some(Ok(_)) => MoveStep::Finished(Ok(())),
    }
}

/// The source is removed only after a copy with the expected content was
/// seen.
pub proof fn law_source_goes_only_after_a_good_copy(expected_hash: Seq<char>, seen: MoveSeen)
    requires
        move_step(expected_hash, seen) is RemoveSource,
    ensures
        seen.renamed == Some(false),
        seen.copied is Some && seen.copied->0 is Ok,
        seen.moved_hash is Some && seen.moved_hash->0 is Ok,
        seen.moved_hash->0->Ok_0@ == expected_hash,
{
}

/// However a file was moved, the move succeeds only after the file at its new
/// place was seen to have the expected content.
pub proof fn law_moved_content_is_checked(expected_hash: Seq<char>, seen: MoveSeen)
    requires
        move_step(expected_hash, seen) == MoveStepView::Finished(Ok(())),
    ensures
        seen.moved_hash is Some && seen.moved_hash->0 is Ok,
        seen.moved_hash->0->Ok_0@ == expected_hash,
{
}

} // verus!
