//! What is taken for a copy, a likeness or a better copy, said of the files
//! themselves.
use crate::model::{FileView, IndexView};
use crate::paths::Platform;
use crate::photos::PairContents;
use crate::{documents, groups, keeper, matching, outside, paths, photos, text, verdicts};
use vstd::prelude::*;

verus! {

// ---------------------------------------------------------------------------
// The score of a copy
// ---------------------------------------------------------------------------

/// The stem of a path: what stands behind its last separator, slash or
/// backslash, and in front of the first dot there.
pub open spec fn is_stem(path: Seq<char>, stem: Seq<char>, from: int, to: int) -> bool {
    &&& 0 <= from <= to <= path.len()
    &&& stem == path.subrange(from, to)
    &&& from > 0 ==> path[from - 1] == '/' || path[from - 1] == '\\'
    &&& forall|k: int| from <= k < path.len() ==> path[k] != '/' && #[trigger] path[k] != '\\'
    &&& forall|k: int| from <= k < to ==> #[trigger] path[k] != '.'
    &&& to < path.len() ==> path[to] == '.'
}

/// The text holds the part somewhere.
pub open spec fn holds(whole: Seq<char>, part: Seq<char>) -> bool {
    exists|a: Seq<char>, b: Seq<char>| whole == #[trigger] ((a + part) + b)
}

/// A name that a camera gives: a known beginning, or eight digits.
pub open spec fn is_camera_name(stem: Seq<char>) -> bool {
    ||| "img_"@.is_prefix_of(stem)
    ||| "dsc"@.is_prefix_of(stem)
    ||| "pxl"@.is_prefix_of(stem)
    ||| "mvi"@.is_prefix_of(stem)
    ||| stem.len() >= 8 && forall|k: int| 0 <= k < 8 ==> '0' <= #[trigger] stem[k] <= '9'
}

/// A name that a copy gets, or a path through a messenger or the downloads.
pub open spec fn is_second_hand(path: Seq<char>, stem: Seq<char>) -> bool {
    ||| holds(stem, "(1)"@)
    ||| holds(stem, "copy"@)
    ||| holds(stem, "副本"@)
    ||| holds(stem, "mmexport"@)
    ||| holds(stem, "wx_camera"@)
    ||| holds(stem, "screenshot"@)
    ||| holds(path, "wechat"@)
    ||| holds(path, "weixin"@)
    ||| holds(path, "微信"@)
    ||| holds(path, "qq"@)
    ||| holds(path, "download"@)
    ||| holds(path, "下载"@)
}

proof fn lemma_holds(whole: Seq<char>, part: Seq<char>)
    ensures
        text::contains(whole, part) <==> holds(whole, part),
{
    if text::contains(whole, part) {
        let at = choose|at: int| text::stands_at(whole, part, at);
        let a = whole.take(at);
        let b = whole.skip(at + part.len());
        assert(whole =~= (a + part) + b);
    }
    if holds(whole, part) {
        let (a, b) = choose|a: Seq<char>, b: Seq<char>| whole == #[trigger] ((a + part) + b);
        assert(whole.subrange(a.len() as int, (a.len() + part.len()) as int) =~= part);
        assert(text::stands_at(whole, part, a.len() as int));
    }
}

proof fn lemma_begins(whole: Seq<char>, part: Seq<char>)
    ensures
        text::starts_with(whole, part) <==> part.is_prefix_of(whole),
{
    if text::starts_with(whole, part) {
        assert(part =~= whole.take(part.len() as int));
    }
    if part.is_prefix_of(whole) {
        assert(whole.subrange(0, part.len() as int) =~= part);
    }
}

proof fn lemma_first_dot(name: Seq<char>, from: int)
    requires
        0 <= from <= name.len(),
    ensures
        from <= keeper::first_dot(name, from) <= name.len(),
        forall|k: int| from <= k < keeper::first_dot(name, from) ==> #[trigger] name[k] != '.',
        keeper::first_dot(name, from) < name.len() ==> name[keeper::first_dot(name, from)] == '.',
    decreases name.len() - from,
{
    if from < name.len() && name[from] != '.' {
        lemma_first_dot(name, from + 1);
    }
}

proof fn lemma_stem(path: Seq<char>, stem: Seq<char>, from: int, to: int)
    requires
        is_stem(path, stem, from, to),
    ensures
        keeper::stem_of(path) == stem,
{
    paths::lemma_last_separator(Platform::Windows, path);
    let name = keeper::last_part(path);
    let at = match paths::last_separator(Platform::Windows, path) {
        Some(at) => at + 1,
        None => 0int,
    };
    assert(at == from) by {
        if at < from {
            assert(Platform::Windows.separates(path[from - 1]));
        }
        if from < at {
            assert(path[at - 1] != '/' && path[at - 1] != '\\');
        }
    }
    assert(name =~= path.skip(from));
    lemma_first_dot(name, 0);
    let dot = keeper::first_dot(name, 0);
    assert(dot == to - from) by {
        if dot < to - from {
            assert(name[dot] == path[from + dot]);
        }
        if to - from < dot {
            assert(name[to - from] == path[to]);
        }
    }
    assert(name.take(dot) =~= stem);
}

/// The score of a copy: fifteen points for a name that a camera gave, twenty
/// less for a copy at second hand, and up to ten for age, the earliest copy
/// getting all ten and the latest none. The case of the letters in the path
/// does not count.
pub proof fn law_the_score_tells_originals_from_copies(
    path: Seq<char>,
    stem: Seq<char>,
    from: int,
    to: int,
    modified: int,
    earliest: int,
    latest: int,
)
    requires
        is_stem(text::lower(path), stem, from, to),
        earliest <= modified <= latest,
        earliest < latest,
    ensures
        ({
            let named = (if is_camera_name(stem) { 15int } else { 0 }) - (if is_second_hand(
                text::lower(path),
                stem,
            ) { 20int } else { 0 });
            let age = keeper::keeper_points(path, modified, earliest, latest) - named;
            &&& age * (latest - earliest) <= 10 * (latest - modified) < (age + 1) * (latest
                - earliest)
            &&& modified == latest ==> age == 0
            &&& modified == earliest ==> age == 10
        }),
{
    let low = text::lower(path);
    lemma_stem(low, stem, from, to);
    lemma_begins(stem, "img_"@);
    lemma_begins(stem, "dsc"@);
    lemma_begins(stem, "pxl"@);
    lemma_begins(stem, "mvi"@);
    lemma_holds(stem, "(1)"@);
    lemma_holds(stem, "copy"@);
    lemma_holds(stem, "副本"@);
    lemma_holds(stem, "mmexport"@);
    lemma_holds(stem, "wx_camera"@);
    lemma_holds(stem, "screenshot"@);
    lemma_holds(low, "wechat"@);
    lemma_holds(low, "weixin"@);
    lemma_holds(low, "微信"@);
    lemma_holds(low, "qq"@);
    lemma_holds(low, "download"@);
    lemma_holds(low, "下载"@);
    if stem.len() >= 8 {
        let front = stem.take(8);
        assert(text::all_digits(front) <==> forall|k: int|
            0 <= k < 8 ==> '0' <= #[trigger] stem[k] <= '9') by {
            if text::all_digits(front) {
                assert forall|k: int| 0 <= k < 8 implies '0' <= #[trigger] stem[k] <= '9' by {
                    assert(text::is_digit(front[k]));
                }
            }
        }
    }
    let span = latest - earliest;
    let top = 10 * (latest - modified);
    let age = top / span;
    assert(age * span <= top < (age + 1) * span) by (nonlinear_arith)
        requires
            span > 0,
            age == top / span,
    ;
    if modified == latest {
        assert(0int / span == 0) by (nonlinear_arith)
            requires
                span > 0,
        ;
    }
    if modified == earliest {
        assert((10 * span) / span == 10) by (nonlinear_arith)
            requires
                span > 0,
        ;
    }
}

proof fn lemma_span(files: Seq<FileView>, list: Seq<int>)
    requires
        list.len() > 0,
    ensures
        exists|k: int|
            0 <= k < list.len() && files[#[trigger] list[k]].modified == groups::earliest(
                files,
                list,
            ),
        exists|k: int|
            0 <= k < list.len() && files[#[trigger] list[k]].modified == groups::latest(
                files,
                list,
            ),
        forall|k: int|
            0 <= k < list.len() ==> groups::earliest(files, list) <= files[
                #[trigger] list[k]
            ].modified <= groups::latest(files, list),
    decreases list.len(),
{
    let front = list.drop_last();
    assert(list[list.len() - 1] == list.last());
    if front.len() > 0 {
        lemma_span(files, front);
        let a = choose|k: int|
            0 <= k < front.len() && files[#[trigger] front[k]].modified == groups::earliest(
                files,
                front,
            );
        let b = choose|k: int|
            0 <= k < front.len() && files[#[trigger] front[k]].modified == groups::latest(
                files,
                front,
            );
        assert(files[list[a]].modified == groups::earliest(files, front));
        assert(files[list[b]].modified == groups::latest(files, front));
        assert forall|k: int| 0 <= k < list.len() implies groups::earliest(files, list) <= files[
            #[trigger] list[k]
        ].modified <= groups::latest(files, list) by {
            if k < front.len() {
                assert(front[k] == list[k]);
            }
        }
    }
}

/// The times that a score is measured by are the earliest and the latest of
/// the rows in the list, and each is the time of one of them.
pub proof fn law_ages_span_the_group(files: Seq<FileView>, list: Seq<int>, k: int)
    requires
        0 <= k < list.len(),
    ensures
        groups::earliest(files, list) <= files[list[k]].modified <= groups::latest(files, list),
        exists|m: int|
            0 <= m < list.len() && files[#[trigger] list[m]].modified == groups::earliest(
                files,
                list,
            ),
        exists|m: int|
            0 <= m < list.len() && files[#[trigger] list[m]].modified == groups::latest(
                files,
                list,
            ),
        groups::points(files, list, k) == keeper::keeper_points(
            files[list[k]].path,
            files[list[k]].modified as int,
            groups::earliest(files, list) as int,
            groups::latest(files, list) as int,
        ),
{
    lemma_span(files, list);
}

/// The copy that a group suggests to keep is unprotected, and no unprotected
/// copy of the group scores higher; one is suggested where one is there.
pub proof fn law_the_suggested_copy_scores_highest(files: Seq<FileView>, lead: int, k: int, m: int)
    requires
        0 <= k < groups::shown_group(files, lead).files.len(),
        0 <= m < groups::shown_group(files, lead).files.len(),
        !groups::shown_group(files, lead).files[m].protected,
    ensures
        ({
            let shown = groups::shown_group(files, lead).files;
            let list = groups::shown_members(files, lead);
            let early = groups::earliest(files, list) as int;
            let late = groups::latest(files, list) as int;
            &&& shown[k].suggested ==> !shown[k].protected && keeper::keeper_points(
                shown[m].path,
                shown[m].modified as int,
                early,
                late,
            ) <= keeper::keeper_points(shown[k].path, shown[k].modified as int, early, late)
            &&& exists|s: int| 0 <= s < shown.len() && (#[trigger] shown[s]).suggested
        }),
{
    let list = groups::shown_members(files, lead);
    let shown = groups::shown_group(files, lead).files;
    groups::law_suggestion_is_best(files, list, list.len());
    assert(!files[list[m]].protected);
    let s = groups::suggestion(files, list, list.len())->0;
    assert(shown[s].suggested);
}

// ---------------------------------------------------------------------------
// Fingerprints
// ---------------------------------------------------------------------------

/// Each bit of the gradient hash compares a grey level with its right
/// neighbour: of the nine levels of each of eight rows, the first bit is the
/// first comparison of the first row.
pub proof fn law_gradient_bits_compare_neighbours(grid: Seq<u8>, row: int, column: int)
    requires
        grid.len() == 72,
        0 <= row < 8,
        0 <= column < 8,
    ensures
        ({
            let hash = photos::packed(photos::gradient(grid));
            let place = (63 - (8 * row + column)) as u64;
            ((hash >> place) & 1 == 1) == (grid[9 * row + column] > grid[9 * row + column + 1])
        }),
{
    let i = 8 * row + column;
    assert(i / 8 == row && i % 8 == column);
    photos::law_packed_keeps_every_bit(photos::gradient(grid), 63 - i);
}

/// Each bit of the structure hash but the first compares a coefficient with
/// the median of all coefficients but the first; the first bit is never set.
pub proof fn law_structure_bits_compare_with_the_median(block: Seq<i32>, i: int)
    requires
        block.len() == 64,
        0 <= i < 64,
    ensures
        exists|sorted: Seq<i32>|
            {
                &&& #[trigger] sorted.to_multiset() == block.skip(1).to_multiset()
                &&& sorted.len() == 63
                &&& forall|a: int, b: int| 0 <= a <= b < 63 ==> sorted[a] <= sorted[b]
                &&& ((photos::packed(photos::structure(block)) >> ((63 - i) as u64)) & 1 == 1) == (i
                    > 0 && block[i] > sorted[31])
            },
{
    let order = photos::no_greater();
    photos::lemma_no_greater_is_total();
    let rest = block.skip(1);
    rest.lemma_sort_by_ensures(order);
    let sorted = rest.sort_by(order);
    vstd::seq_lib::to_multiset_len(rest);
    vstd::seq_lib::to_multiset_len(sorted);
    assert forall|a: int, b: int| 0 <= a <= b < 63 implies sorted[a] <= sorted[b] by {
        if a < b {
            assert(order(sorted[a], sorted[b]));
        }
    }
    photos::law_packed_keeps_every_bit(photos::structure(block), 63 - i);
}

/// Two photos count as identical only where both could be read and decoded,
/// to the same size and the same samples; and they do count where their
/// samples are the same, to the last bit.
pub proof fn law_identical_photos_have_the_same_pixels(
    first: Seq<char>,
    second: Seq<char>,
    contents: PairContents,
)
    ensures
        ({
            let one = photos::name_in(contents.platform, first);
            let two = photos::name_in(contents.platform, second);
            let left = outside::image_rgba(one, contents.first->Ok_0);
            let right = outside::image_rgba(two, contents.second->Ok_0);
            &&& photos::pair_identical(first, second, contents) ==> {
                &&& contents.first is Ok && contents.second is Ok
                &&& left is Ok && right is Ok
                &&& left->Ok_0 == right->Ok_0
            }
            &&& contents.first is Ok && contents.second == contents.first && one == two && left
                is Ok && photos::fine_in(one, contents.first->Ok_0) is Ok
                ==> photos::pair_identical(first, second, contents)
        }),
{
}

/// Photos of different sizes are never identical.
pub proof fn law_photos_of_different_sizes_differ(
    left: (u32, u32),
    right: (u32, u32),
    comparison: Result<bool, Seq<char>>,
)
    ensures
        left != right ==> !photos::confirmed(Some(left), Some(right), comparison),
        left == right ==> photos::confirmed(Some(left), Some(right), comparison) == (comparison
            == Ok::<bool, Seq<char>>(true)),
        photos::confirmed(None, Some(right), comparison) == (comparison == Ok::<bool, Seq<char>>(
            true,
        )),
{
}

// ---------------------------------------------------------------------------
// Words of a document
// ---------------------------------------------------------------------------

/// A text without a separator is one word, in lower case, where it is longer
/// than two bytes, and none where it is not.
pub proof fn law_a_run_of_letters_is_a_word(value: Seq<char>)
    requires
        forall|k: int| 0 <= k < value.len() ==> outside::alphanumeric(#[trigger] value[k]),
    ensures
        documents::words_of(value) == (if vstd::utf8::encode_utf8(value).len() > 2 {
            seq![text::lower(value)]
        } else {
            Seq::<Seq<char>>::empty()
        }),
{
    lemma_one_piece(value);
    let parts = documents::pieces(value, documents::word_flags(value));
    assert(parts =~= seq![value]);
    assert(parts.drop_last() =~= Seq::<Seq<char>>::empty());
    assert(documents::long_words(parts.drop_last()).len() == 0);
    assert(documents::words_of(value) =~= (if vstd::utf8::encode_utf8(value).len() > 2 {
        seq![text::lower(value)]
    } else {
        Seq::<Seq<char>>::empty()
    }));
}

proof fn lemma_one_piece(value: Seq<char>)
    requires
        forall|k: int| 0 <= k < value.len() ==> outside::alphanumeric(#[trigger] value[k]),
    ensures
        documents::pieces(value, documents::word_flags(value)) == seq![value],
    decreases value.len(),
{
    let flags = documents::word_flags(value);
    if value.len() == 0 {
        assert(value =~= Seq::<char>::empty());
    } else {
        let front = value.drop_last();
        assert(documents::word_flags(front) =~= flags.drop_last());
        lemma_one_piece(front);
        assert(flags.last() == outside::alphanumeric(value[value.len() - 1]));
        assert(front.push(value.last()) =~= value);
        let before = documents::pieces(front, flags.drop_last());
        assert(before.drop_last().push(before.last().push(value.last())) =~= seq![value]);
    }
}

/// A character that is neither letter nor digit separates: the words of a
/// text are those in front of it and then those behind it.
pub proof fn law_words_are_separated(front: Seq<char>, c: char, back: Seq<char>)
    requires
        !outside::alphanumeric(c),
    ensures
        documents::words_of(front.push(c) + back) == documents::words_of(front)
            + documents::words_of(back),
    decreases back.len(),
{
    lemma_pieces_apart(front, c, back);
    lemma_long_words_apart(
        documents::pieces(front, documents::word_flags(front)),
        documents::pieces(back, documents::word_flags(back)),
    );
}

proof fn lemma_pieces_apart(front: Seq<char>, c: char, back: Seq<char>)
    requires
        !outside::alphanumeric(c),
    ensures
        documents::pieces(front.push(c) + back, documents::word_flags(front.push(c) + back))
            == documents::pieces(front, documents::word_flags(front)) + documents::pieces(
            back,
            documents::word_flags(back),
        ),
        documents::pieces(back, documents::word_flags(back)).len() > 0,
    decreases back.len(),
{
    let whole = front.push(c) + back;
    let flags = documents::word_flags(whole);
    let ahead = documents::pieces(front, documents::word_flags(front));
    if back.len() == 0 {
        assert(whole =~= front.push(c));
        assert(whole.drop_last() =~= front);
        assert(flags.drop_last() =~= documents::word_flags(front));
        assert(flags.last() == outside::alphanumeric(c));
        assert(documents::pieces(whole, flags) =~= ahead + seq![Seq::<char>::empty()]);
    } else {
        let shorter = back.drop_last();
        lemma_pieces_apart(front, c, shorter);
        assert(whole.drop_last() =~= front.push(c) + shorter);
        assert(flags.drop_last() =~= documents::word_flags(front.push(c) + shorter));
        assert(documents::word_flags(back).drop_last() =~= documents::word_flags(shorter));
        assert(flags.last() == outside::alphanumeric(back.last()));
        assert(documents::word_flags(back).last() == outside::alphanumeric(back.last()));
        let tail = documents::pieces(shorter, documents::word_flags(shorter));
        let joined = ahead + tail;
        assert(joined.last() == tail.last());
        assert(joined.drop_last() =~= ahead + tail.drop_last());
        if outside::alphanumeric(back.last()) {
            assert(joined.drop_last().push(joined.last().push(back.last())) =~= ahead
                + tail.drop_last().push(tail.last().push(back.last())));
        } else {
            assert(joined.push(Seq::empty()) =~= ahead + tail.push(Seq::empty()));
        }
    }
}

proof fn lemma_long_words_apart(a: Seq<Seq<char>>, b: Seq<Seq<char>>)
    ensures
        documents::long_words(a + b) == documents::long_words(a) + documents::long_words(b),
    decreases b.len(),
{
    if b.len() == 0 {
        assert(a + b =~= a);
        assert(documents::long_words(a) + documents::long_words(b) =~= documents::long_words(a));
    } else {
        lemma_long_words_apart(a, b.drop_last());
        assert((a + b).drop_last() =~= a + b.drop_last());
        assert((a + b).last() == b.last());
        assert(documents::long_words(a + b) =~= documents::long_words(a) + documents::long_words(
            b,
        ));
    }
}

/// The votes for a bit are the digests that have it set.
proof fn lemma_votes(digests: Seq<Seq<u8>>, b: int)
    ensures
        documents::votes(digests, b) == Set::new(
            |k: int|
                0 <= k < digests.len() && digests[k][b / 8] & (1u8 << ((b % 8) as u8)) != 0,
        ).len(),
        Set::new(
            |k: int|
                0 <= k < digests.len() && digests[k][b / 8] & (1u8 << ((b % 8) as u8)) != 0,
        ).finite(),
    decreases digests.len(),
{
    let set = Set::new(
        |k: int| 0 <= k < digests.len() && digests[k][b / 8] & (1u8 << ((b % 8) as u8)) != 0,
    );
    if digests.len() == 0 {
        assert(set =~= Set::empty());
    } else {
        let front = digests.drop_last();
        lemma_votes(front, b);
        let fewer = Set::new(
            |k: int| 0 <= k < front.len() && front[k][b / 8] & (1u8 << ((b % 8) as u8)) != 0,
        );
        let last = digests.len() - 1;
        if documents::digest_bit(digests.last(), b) {
            assert(set =~= fewer.insert(last));
        } else {
            assert(set =~= fewer);
        }
    }
}

/// The likeness of a document: a bit is set where more than half of the
/// digests of its words have it set, and the number of words goes with it.
/// A document of fewer than twenty words has none.
pub proof fn law_likeness_is_a_majority_of_the_words(words: Seq<Seq<char>>, b: int)
    requires
        0 <= b < 64,
        words.len() <= i64::MAX,
    ensures
        documents::simhash(words) is Some <==> words.len() >= 20,
        documents::simhash(words) matches Some((hash, count)) ==> {
            &&& count == words.len()
            &&& ((hash >> (b as u64)) & 1 == 1) == (2 * Set::new(
                |k: int|
                    0 <= k < words.len() && outside::blake3_digest(
                        vstd::utf8::encode_utf8(words[k]),
                    )[b / 8] & (1u8 << ((b % 8) as u8)) != 0,
            ).len() > words.len())
        },
{
    if words.len() >= 20 {
        let digests = documents::word_digests(words);
        let bits = documents::majority(digests);
        photos::law_packed_keeps_every_bit(bits, b);
        lemma_votes(digests, b);
        assert(Set::new(
            |k: int|
                0 <= k < digests.len() && digests[k][b / 8] & (1u8 << ((b % 8) as u8)) != 0,
        ) =~= Set::new(
            |k: int|
                0 <= k < words.len() && outside::blake3_digest(
                    vstd::utf8::encode_utf8(words[k]),
                )[b / 8] & (1u8 << ((b % 8) as u8)) != 0,
        ));
    }
}

// ---------------------------------------------------------------------------
// Verdicts on pairs
// ---------------------------------------------------------------------------

/// The verdict stored for the pair was reached on the live rows at `a` and
/// `b` as they are.
pub open spec fn reached_on(
    index: IndexView,
    pair: (Seq<char>, Seq<char>),
    a: int,
    b: int,
    answer: bool,
) -> bool {
    let verdict = index.verdicts[pair];
    &&& 0 <= a < index.files.len()
    &&& 0 <= b < index.files.len()
    &&& index.files[a].path == pair.0
    &&& index.files[b].path == pair.1
    &&& index.files[a].present
    &&& index.files[b].present
    &&& index.verdicts.contains_key(pair)
    &&& verdict.size_a == index.files[a].size
    &&& verdict.mtime_a == index.files[a].modified
    &&& verdict.size_b == index.files[b].size
    &&& verdict.mtime_b == index.files[b].modified
    &&& verdict.identical == answer
}

/// A stored verdict counts only for the files that it was reached on: both
/// paths are live rows of the present size and time, and the answer is the
/// stored one.
pub proof fn law_a_verdict_counts_for_its_files_only(
    index: IndexView,
    first: Seq<char>,
    second: Seq<char>,
    answer: bool,
)
    requires
        verdicts::cached_verdict(index, first, second) == Some(answer),
    ensures
        (exists|a: int, b: int| reached_on(index, (first, second), a, b, answer)) || (exists|
            a: int,
            b: int,
        |
            reached_on(index, (second, first), a, b, answer)),
{
    let pair = verdicts::canonical(first, second);
    let a = crate::merge::live_path(index.files, pair.0)->0;
    let b = crate::merge::live_path(index.files, pair.1)->0;
    assert(reached_on(index, pair, a, b, answer));
}

/// Storing a verdict on two live files stores this one verdict, with their
/// sizes and times and the time of now; a pair of which one is not live is
/// not stored.
pub proof fn law_a_verdict_is_stored_with_its_files(
    index: IndexView,
    first: Seq<char>,
    second: Seq<char>,
    identical: bool,
    now: i64,
    a: int,
    b: int,
)
    requires
        index.wf(),
        0 <= a < index.files.len(),
        0 <= b < index.files.len(),
        index.files[a].path == first,
        index.files[b].path == second,
    ensures
        ({
            let after = verdicts::stored_one(index, first, second, identical, now);
            let live = index.files[a].present && index.files[b].present;
            &&& after == (IndexView { verdicts: after.verdicts, ..index })
            &&& !live ==> after.verdicts == index.verdicts
            &&& live ==> {
                &&& after.verdicts.contains_key((first, second)) || after.verdicts.contains_key(
                    (second, first),
                )
                &&& forall|pair: (Seq<char>, Seq<char>)|
                    pair != (first, second) && pair != (second, first) ==> (
                    #[trigger] after.verdicts.contains_key(pair)) == index.verdicts.contains_key(
                        pair,
                    ) && after.verdicts[pair] == index.verdicts[pair]
                &&& text::text_le(first, second) ==> {
                    let verdict = after.verdicts[(first, second)];
                    &&& verdict.size_a == index.files[a].size
                    &&& verdict.mtime_a == index.files[a].modified
                    &&& verdict.size_b == index.files[b].size
                    &&& verdict.mtime_b == index.files[b].modified
                    &&& verdict.identical == identical
                    &&& verdict.checked_at == now
                }
            }
        }),
{
    crate::model::lemma_at_path(index.files, a);
    crate::model::lemma_at_path(index.files, b);
}

/// Verdicts older than ninety days are outdated, and no others.
pub proof fn law_verdicts_last_ninety_days(
    table: Map<(Seq<char>, Seq<char>), crate::model::Verdict>,
    now: i64,
    pair: (Seq<char>, Seq<char>),
)
    ensures
        verdicts::outdated(table, now).contains(pair) <==> table.contains_key(pair) && now
            - table[pair].checked_at > 90 * 24 * 60 * 60,
{
}

/// A pass over pairs works on every pair without a stored verdict, once, and
/// on no other; what it reports at once are the stored verdicts.
pub proof fn law_a_pass_works_on_open_pairs(
    pairs: Seq<matching::PairText>,
    cached: Seq<Option<bool>>,
)
    requires
        pairs.len() == cached.len(),
    ensures
        matching::pending(pairs, cached).no_duplicates(),
        forall|pair: matching::PairText| #[trigger]
            matching::pending(pairs, cached).contains(pair) <==> exists|k: int|
                0 <= k < pairs.len() && #[trigger] pairs[k] == pair && cached[k] is None,
        forall|v: matching::VerdictView| #[trigger]
            matching::seeded(pairs, cached).contains(v) ==> exists|k: int|
                0 <= k < pairs.len() && #[trigger] pairs[k] == (v.first, v.second) && cached[k]
                    == Some(v.identical),
    decreases pairs.len(),
{
    if pairs.len() > 0 {
        let front = pairs.drop_last();
        let known = cached.drop_last();
        law_a_pass_works_on_open_pairs(front, known);
        let before = matching::pending(front, known);
        let now = matching::pending(pairs, cached);
        let n = pairs.len() - 1;
        assert(pairs[n] == pairs.last() && cached[n] == cached.last());
        assert forall|pair: matching::PairText| #[trigger] now.contains(pair) <==> exists|k: int|
            0 <= k < pairs.len() && #[trigger] pairs[k] == pair && cached[k] is None by {
            if now.contains(pair) {
                let i = choose|i: int| 0 <= i < now.len() && now[i] == pair;
                if i < before.len() {
                    assert(before[i] == pair);
                    assert(before.contains(pair));
                    let k = choose|k: int|
                        0 <= k < front.len() && #[trigger] front[k] == pair && known[k] is None;
                    assert(pairs[k] == pair && cached[k] is None);
                }
            }
            if exists|k: int|
                0 <= k < pairs.len() && #[trigger] pairs[k] == pair && cached[k] is None {
                let k = choose|k: int|
                    0 <= k < pairs.len() && #[trigger] pairs[k] == pair && cached[k] is None;
                if k < n {
                    assert(front[k] == pair && known[k] is None);
                    assert(before.contains(pair));
                    let i = choose|i: int| 0 <= i < before.len() && before[i] == pair;
                    assert(now[i] == pair);
                } else if before.contains(pair) {
                    let i = choose|i: int| 0 <= i < before.len() && before[i] == pair;
                    assert(now[i] == pair);
                } else {
                    assert(now[before.len() as int] == pair);
                }
            }
        }
        let shown = matching::seeded(pairs, cached);
        let earlier = matching::seeded(front, known);
        assert forall|v: matching::VerdictView| #[trigger] shown.contains(v) implies exists|k: int|
            0 <= k < pairs.len() && #[trigger] pairs[k] == (v.first, v.second) && cached[k] == Some(
                v.identical,
            ) by {
            let i = choose|i: int| 0 <= i < shown.len() && shown[i] == v;
            if i < earlier.len() {
                assert(earlier[i] == v);
                assert(earlier.contains(v));
                let k = choose|k: int|
                    0 <= k < front.len() && #[trigger] front[k] == (v.first, v.second) && known[k]
                        == Some(v.identical);
                assert(pairs[k] == (v.first, v.second) && cached[k] == Some(v.identical));
            } else {
                assert(pairs[n] == (v.first, v.second));
            }
        }
    }
}

} // verus!
