//! Fingerprints of text documents: texts that share most of their words get
//! fingerprints that share most of their bits.
use crate::outside::{digest_of, is_word_char};
use crate::paths::{lower_extension, Platform};
use crate::text::{chars_of, lower_chars, same_text, string_of, text_bytes};
use crate::{model, outside, paths, photos, text};
use vstd::prelude::*;

verus! {

/// File extensions of the documents that get a fingerprint.
pub open spec fn is_document_extension(extension: Seq<char>) -> bool {
    extension == "txt"@ || extension == "md"@ || extension == "csv"@ || extension == "json"@
        || extension == "xml"@ || extension == "html"@ || extension == "htm"@
}

fn document_extension(extension: &str) -> (yes: bool)
    ensures
        yes == is_document_extension(extension@),
{
    same_text(extension, "txt") || same_text(extension, "md") || same_text(extension, "csv")
        || same_text(extension, "json") || same_text(extension, "xml") || same_text(
        extension,
        "html",
    ) || same_text(extension, "htm")
}

pub open spec fn document_path(platform: Platform, path: Seq<char>) -> bool {
    match paths::folded_extension(platform, path) {
        Some(extension) => is_document_extension(extension),
        None => false,
    }
}

/// Whether a file is a document by its name.
pub fn is_document(platform: Platform, path: &str) -> (yes: bool)
    ensures
        yes == document_path(platform, path@),
{
    match lower_extension(platform, path) {
        Some(extension) => document_extension(extension.as_str()),
        None => false,
    }
}

/// The pieces of a text between the characters that belong to no word.
pub open spec fn pieces(chars: Seq<char>, flags: Seq<bool>) -> Seq<Seq<char>>
    decreases chars.len(),
{
    if chars.len() == 0 || flags.len() == 0 {
        seq![Seq::empty()]
    } else {
        let front = pieces(chars.drop_last(), flags.drop_last());
        if flags.last() {
            front.drop_last().push(front.last().push(chars.last()))
        } else {
            front.push(Seq::empty())
        }
    }
}

/// The pieces of more than two bytes, in lower case.
pub open spec fn long_words(parts: Seq<Seq<char>>) -> Seq<Seq<char>>
    decreases parts.len(),
{
    if parts.len() == 0 {
        Seq::empty()
    } else if text::byte_len(parts.last()) > 2 {
        long_words(parts.drop_last()).push(text::lower(parts.last()))
    } else {
        long_words(parts.drop_last())
    }
}

proof fn lemma_pieces_not_empty(chars: Seq<char>, flags: Seq<bool>)
    ensures
        pieces(chars, flags).len() >= 1,
    decreases chars.len(),
{
    if chars.len() > 0 && flags.len() > 0 {
        lemma_pieces_not_empty(chars.drop_last(), flags.drop_last());
    }
}

/// Keep a piece that is long enough.
fn keep_word(words: &mut Vec<String>, piece: &[char])
    ensures
        outside::texts(final(words)@) == if text::byte_len(piece@) > 2 {
            outside::texts(old(words)@).push(text::lower(piece@))
        } else {
            outside::texts(old(words)@)
        },
{
    let word = string_of(piece);
    if text_bytes(word.as_str()) > 2 {
        let low = lower_chars(piece);
        words.push(string_of(low.as_slice()));
        proof {
            assert(outside::texts(words@) =~= outside::texts(old(words)@).push(text::lower(piece@)));
        }
    }
}

/// Cut a text into words, where each character is marked as belonging to one
/// or not.
pub fn words_by(chars: &[char], flags: &[bool]) -> (words: Vec<String>)
    requires
        chars@.len() == flags@.len(),
    ensures
        outside::texts(words@) == long_words(pieces(chars@, flags@)),
{
    let mut words: Vec<String> = Vec::new();
    let mut piece: Vec<char> = Vec::new();
    proof {
        assert(outside::texts(words@) =~= Seq::<Seq<char>>::empty());
        let parts = pieces(chars@.take(0), flags@.take(0));
        assert(parts =~= seq![Seq::<char>::empty()]);
        assert(parts.drop_last() =~= Seq::<Seq<char>>::empty());
        assert(piece@ =~= parts.last());
    }
    for i in 0..chars.len()
        invariant
            chars@.len() == flags@.len(),
            pieces(chars@.take(i as int), flags@.take(i as int)).len() >= 1,
            piece@ == pieces(chars@.take(i as int), flags@.take(i as int)).last(),
            outside::texts(words@) == long_words(
                pieces(chars@.take(i as int), flags@.take(i as int)).drop_last(),
            ),
    {
        let ghost before = pieces(chars@.take(i as int), flags@.take(i as int));
        let ghost after = pieces(chars@.take(i + 1), flags@.take(i + 1));
        proof {
            assert(chars@.take(i + 1).drop_last() =~= chars@.take(i as int));
            assert(flags@.take(i + 1).drop_last() =~= flags@.take(i as int));
        }
        if flags[i] {
            piece.push(chars[i]);
            proof {
                assert(after == before.drop_last().push(before.last().push(chars@[i as int])));
                assert(after.drop_last() =~= before.drop_last());
            }
        } else {
            keep_word(&mut words, piece.as_slice());
            piece = Vec::new();
            proof {
                assert(after == before.push(Seq::empty()));
                assert(after.drop_last() =~= before);
                assert(piece@ =~= Seq::<char>::empty());
            }
        }
    }
    proof {
        assert(chars@.take(chars@.len() as int) =~= chars@);
        assert(flags@.take(flags@.len() as int) =~= flags@);
    }
    keep_word(&mut words, piece.as_slice());
    words
}

/// For each character, whether it is alphanumeric.
pub open spec fn word_flags(chars: Seq<char>) -> Seq<bool> {
    chars.map_values(|c: char| outside::alphanumeric(c))
}

/// The words of a text: alphanumeric runs of more than two bytes, in lower
/// case.
pub open spec fn words_of(value: Seq<char>) -> Seq<Seq<char>> {
    long_words(pieces(value, word_flags(value)))
}

/// Cut a text into its words.
pub fn document_words(value: &str) -> (words: Vec<String>)
    ensures
        outside::texts(words@) == words_of(value@),
{
    let chars = chars_of(value);
    let mut flags: Vec<bool> = Vec::new();
    for i in 0..chars.len()
        invariant
            flags@ =~= word_flags(chars@.take(i as int)),
    {
        flags.push(is_word_char(chars[i]));
        proof {
            assert(chars@.take(i + 1) =~= chars@.take(i as int).push(chars@[i as int]));
        }
    }
    proof {
        assert(chars@.take(chars@.len() as int) =~= chars@);
    }
    words_by(chars.as_slice(), flags.as_slice())
}

/// Bit `b` of a digest, counted from the lowest bit of its first byte.
pub open spec fn digest_bit(digest: Seq<u8>, b: int) -> bool {
    digest[b / 8] & (1u8 << ((b % 8) as u8)) != 0
}

/// How many digests have bit `b` set.
pub open spec fn votes(digests: Seq<Seq<u8>>, b: int) -> int
    decreases digests.len(),
{
    if digests.len() == 0 {
        0
    } else {
        votes(digests.drop_last(), b) + (if digest_bit(digests.last(), b) {
            1int
        } else {
            0
        })
    }
}

/// The bits that more digests have set than clear, from the highest to the
/// lowest.
pub open spec fn majority(digests: Seq<Seq<u8>>) -> Seq<bool> {
    Seq::new(64, |i: int| 2 * votes(digests, 63 - i) > digests.len())
}

pub open spec fn digest_views(digests: Seq<[u8; 32]>) -> Seq<Seq<u8>> {
    digests.map_values(|digest: [u8; 32]| digest@)
}

proof fn lemma_votes_bounded(digests: Seq<Seq<u8>>, b: int)
    ensures
        0 <= votes(digests, b) <= digests.len(),
    decreases digests.len(),
{
    if digests.len() > 0 {
        lemma_votes_bounded(digests.drop_last(), b);
    }
}

/// How many digests have bit `b` set.
fn count_votes(digests: &[[u8; 32]], b: usize) -> (count: usize)
    requires
        b < 64,
    ensures
        count == votes(digest_views(digests@), b as int),
        count <= digests@.len(),
{
    let mut count: usize = 0;
    let at: usize = b / 8;
    let mask: u8 = 1u8 << ((b % 8) as u8);
    let ghost views = digest_views(digests@);
    proof {
        assert(views.take(0) =~= Seq::<Seq<u8>>::empty());
    }
    for i in 0..digests.len()
        invariant
            b < 64,
            at == b / 8,
            mask == 1u8 << ((b % 8) as u8),
            views == digest_views(digests@),
            count == votes(views.take(i as int), b as int),
            count <= i,
    {
        proof {
            assert(views.take(i + 1).drop_last() =~= views.take(i as int));
            assert(views.take(i + 1).last() == digests@[i as int]@);
        }
        let byte: u8 = digests[i][at];
        if byte & mask != 0 {
            count = count + 1;
        }
    }
    proof {
        assert(views.take(digests@.len() as int) =~= views);
    }
    count
}

/// The fingerprint of some digests: each bit goes with the majority.
pub fn majority_hash(digests: &[[u8; 32]]) -> (hash: u64)
    ensures
        hash == photos::packed(majority(digest_views(digests@))),
{
    let mut hash: u64 = 0;
    let ghost bits = majority(digest_views(digests@));
    proof {
        assert(bits.take(0) =~= Seq::<bool>::empty());
    }
    for i in 0..64usize
        invariant
            bits == majority(digest_views(digests@)),
            hash == photos::packed(bits.take(i as int)),
    {
        let count = count_votes(digests, 63 - i);
        let bit = count > digests.len() - count;
        proof {
            assert(bits[i as int] == bit);
            assert(bits.take(i + 1).drop_last() =~= bits.take(i as int));
            assert(bits.take(i + 1).last() == bit);
        }
        if bit {
            hash = (hash << 1u64) | 1u64;
        } else {
            hash = (hash << 1u64) | 0u64;
        }
    }
    proof {
        assert(bits.take(64) =~= bits);
    }
    hash
}

/// The digests of some words.
pub open spec fn word_digests(words: Seq<Seq<char>>) -> Seq<Seq<u8>> {
    words.map_values(|word: Seq<char>| outside::blake3_digest(vstd::utf8::encode_utf8(word)))
}

/// Fingerprint and word count of a document. One with fewer than twenty words
/// has none.
pub open spec fn simhash(words: Seq<Seq<char>>) -> Option<(u64, i64)> {
    if words.len() < 20 {
        None
    } else {
        Some((photos::packed(majority(word_digests(words))), words.len() as i64))
    }
}

fn digest_words(words: &[String]) -> (digests: Vec<[u8; 32]>)
    ensures
        digest_views(digests@) == word_digests(outside::texts(words@)),
{
    let mut digests: Vec<[u8; 32]> = Vec::new();
    let ghost views = outside::texts(words@);
    for i in 0..words.len()
        invariant
            views == outside::texts(words@),
            digest_views(digests@) =~= word_digests(views.take(i as int)),
    {
        let digest = digest_of(words[i].as_str().as_bytes());
        let ghost before = digests@;
        digests.push(digest);
        proof {
            assert(views[i as int] == words@[i as int]@);
            assert(views.take(i + 1) =~= views.take(i as int).push(words@[i as int]@));
            assert(digest_views(digests@) =~= digest_views(before).push(digest@));
        }
    }
    proof {
        assert(views.take(words@.len() as int) =~= views);
    }
    digests
}

/// The fingerprint of a text document and its number of words; None for other
/// files, for content that is not text, and for texts that are too short.
pub fn document_simhash(platform: Platform, path: &str, content: &Option<String>) -> (print: Option<
    (u64, i64),
>)
    ensures
        print == match model::text_option(*content) {
            Some(value) => if document_path(platform, path@) {
                simhash(words_of(value))
            } else {
                None
            },
            None => None,
        },
{
    if !is_document(platform, path) {
        return None;
    }
    match content {
        None => None,
        Some(value) => {
            let words = document_words(value.as_str());
            let n = words.len();
            proof {
                assert(outside::texts(words@).len() == n);
            }
            if n < 20 {
                return None;
            }
            let digests = digest_words(words.as_slice());
            Some((majority_hash(digests.as_slice()), n as i64))
        },
    }
}

/// The order of the words does not matter: exchanging two neighbours keeps
/// the fingerprint.
pub proof fn law_word_order_does_not_matter(words: Seq<Seq<char>>, i: int)
    requires
        0 <= i < words.len() - 1,
    ensures
        simhash(words.update(i, words[i + 1]).update(i + 1, words[i])) == simhash(words),
{
    let swapped = words.update(i, words[i + 1]).update(i + 1, words[i]);
    let a = word_digests(words);
    let b = word_digests(swapped);
    assert forall|k: int| 0 <= k < 64 implies votes(a, k) == #[trigger] votes(b, k) by {
        lemma_swapped_votes(a, b, i, k);
    }
    assert(majority(a) =~= majority(b));
}

proof fn lemma_swapped_votes(a: Seq<Seq<u8>>, b: Seq<Seq<u8>>, i: int, k: int)
    requires
        0 <= i < a.len() - 1,
        a.len() == b.len(),
        b[i] == a[i + 1],
        b[i + 1] == a[i],
        forall|j: int| 0 <= j < a.len() && j != i && j != i + 1 ==> #[trigger] a[j] == b[j],
    ensures
        votes(a, k) == votes(b, k),
    decreases a.len(),
{
    if a.len() == i + 2 {
        assert(a.drop_last().drop_last() =~= b.drop_last().drop_last());
        reveal_with_fuel(votes, 3);
    } else {
        lemma_swapped_votes(a.drop_last(), b.drop_last(), i, k);
        assert(a[a.len() - 1] == b[a.len() - 1]);
    }
}

} // verus!
