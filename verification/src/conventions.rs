//! The conventions that the rest relies on: texts and numbers, paths and the
//! rules over them, settings, and what is read of a file.
use crate::batch::BulkKind;
use crate::desk::Phase;
use crate::groups::GroupSort;
use crate::keeper::MarkStrategy;
use crate::model::IndexView;
use crate::paths::Platform;
use crate::project::{GroupRequest, ProjectView};
use crate::usn::UsnRecordView;
use crate::walk::{HashPlan, HashSeen};
use crate::{
    desk, documents, groups, hashing, loading, model, outside, paths, project, settings, text, usn,
    walk,
};
use vstd::prelude::*;

verus! {

// ---------------------------------------------------------------------------
// Texts and numbers
// ---------------------------------------------------------------------------

/// Lower case changes the letters from A to Z, each to the one thirty-two
/// places on, and nothing else.
pub proof fn law_lower_case_changes_capitals_only(value: Seq<char>, k: int)
    requires
        0 <= k < value.len(),
    ensures
        text::lower(value).len() == value.len(),
        'A' <= value[k] <= 'Z' ==> text::lower(value)[k] as int == value[k] as int + 32,
        !('A' <= value[k] <= 'Z') ==> text::lower(value)[k] == value[k],
        text::lower(text::lower(value)) == text::lower(value),
{
    let low = text::lower(value);
    assert(text::lower(low) =~= low) by {
        assert forall|m: int| 0 <= m < value.len() implies text::lower(low)[m] == low[m] by {
            if 'A' <= value[m] && value[m] <= 'Z' {
                assert(low[m] as int == value[m] as int + 32);
            }
        }
    }
}

/// The text is the core between two runs of blanks.
pub open spec fn is_framed(
    value: Seq<char>,
    before: Seq<char>,
    core: Seq<char>,
    after: Seq<char>,
) -> bool {
    &&& value == before + core + after
    &&& forall|k: int| 0 <= k < before.len() ==> text::is_space(#[trigger] before[k])
    &&& forall|k: int| 0 <= k < after.len() ==> text::is_space(#[trigger] after[k])
}

/// Trimming takes blanks off both ends, all of them, and nothing else.
pub proof fn law_trimming_takes_blanks_off_the_ends(value: Seq<char>)
    ensures
        exists|a: Seq<char>, b: Seq<char>| is_framed(value, a, text::trimmed(value), b),
        text::trimmed(value).len() > 0 ==> !text::is_space(text::trimmed(value)[0])
            && !text::is_space(text::trimmed(value).last()),
        forall|c: char| '!' <= c <= '~' ==> !#[trigger] text::is_space(c),
        text::is_space(' ') && text::is_space('\t') && text::is_space('\n') && text::is_space('\r'),
{
    let a = lemma_trim_start(value);
    let rest = text::trim_start(value);
    let b = lemma_trim_end(rest);
    let core = text::trim_end(rest);
    assert(value =~= a + core + b);
    assert(core == text::trimmed(value));
    assert(is_framed(value, a, text::trimmed(value), b));
    if core.len() > 0 {
        assert(core[0] == rest[0]);
    }
}

proof fn lemma_trim_start(value: Seq<char>) -> (a: Seq<char>)
    ensures
        value == a + text::trim_start(value),
        forall|k: int| 0 <= k < a.len() ==> text::is_space(#[trigger] a[k]),
        text::trim_start(value).len() > 0 ==> !text::is_space(text::trim_start(value)[0]),
    decreases value.len(),
{
    if value.len() > 0 && text::is_space(value[0]) {
        let a = lemma_trim_start(value.skip(1));
        let longer = seq![value[0]] + a;
        assert(value =~= seq![value[0]] + value.skip(1));
        assert(value =~= longer + text::trim_start(value));
        longer
    } else {
        assert(value =~= Seq::<char>::empty() + value);
        Seq::empty()
    }
}

proof fn lemma_trim_end(value: Seq<char>) -> (b: Seq<char>)
    ensures
        value == text::trim_end(value) + b,
        forall|k: int| 0 <= k < b.len() ==> text::is_space(#[trigger] b[k]),
        text::trim_end(value).len() > 0 ==> !text::is_space(text::trim_end(value).last()),
    decreases value.len(),
{
    if value.len() > 0 && text::is_space(value.last()) {
        let b = lemma_trim_end(value.drop_last());
        let longer = b.push(value.last());
        assert(value =~= value.drop_last().push(value.last()));
        assert(value =~= text::trim_end(value) + longer);
        longer
    } else {
        assert(value =~= value + Seq::<char>::empty());
        Seq::empty()
    }
}

proof fn lemma_digits(n: nat)
    ensures
        text::digits(n).len() > 0,
        text::all_digits(text::digits(n)),
        text::digits_value(text::digits(n)) == n,
    decreases n,
{
    let list = text::digits(n);
    if n < 10 {
        assert(list.drop_last() =~= Seq::<char>::empty());
        assert(text::digits_value(list.drop_last()) == 0);
        assert(list.last() as u32 - 48 == n);
    } else {
        lemma_digits(n / 10);
        let front = text::digits(n / 10);
        assert(list.drop_last() =~= front);
        assert(list.last() as u32 - 48 == n % 10);
        assert forall|i: int| 0 <= i < list.len() implies text::is_digit(#[trigger] list[i]) by {
            if i < front.len() {
                assert(list[i] == front[i]);
                assert(text::is_digit(front[i]));
            }
        }
    }
}

/// A number that was written is read back as that number.
pub proof fn law_a_written_number_reads_back(n: i64)
    ensures
        text::parsed_i64(text::decimal(n as int)) == Some(n),
{
    let shown = text::decimal(n as int);
    if n < 0 {
        lemma_digits((-n) as nat);
        let body = text::digits((-n) as nat);
        assert(shown.skip(1) =~= body);
        assert(shown[0] == '-');
    } else {
        lemma_digits(n as nat);
        assert(text::is_digit(shown[0]));
    }
}

// ---------------------------------------------------------------------------
// Paths
// ---------------------------------------------------------------------------

proof fn lemma_separator_at(platform: Platform, path: Seq<char>, at: int)
    requires
        0 <= at < path.len(),
        platform.separates(path[at]),
        forall|k: int| at < k < path.len() ==> !platform.separates(#[trigger] path[k]),
    ensures
        paths::last_separator(platform, path) == Some(at),
{
    paths::lemma_last_separator(platform, path);
    let found = paths::last_separator(platform, path);
    if found is Some && found->0 < at {
        assert(!platform.separates(path[at]));
    }
}

/// A separator separates: the segments of a path are those in front of it
/// and then those behind it.
pub proof fn law_segments_are_separated(
    platform: Platform,
    front: Seq<char>,
    c: char,
    back: Seq<char>,
)
    requires
        c == '/' || (platform == Platform::Windows && c == '\\'),
    ensures
        paths::segments(platform, front.push(c) + back) == paths::segments(platform, front)
            + paths::segments(platform, back),
    decreases back.len(),
{
    let whole = front.push(c) + back;
    let n = front.len() as int;
    paths::lemma_last_separator(platform, back);
    assert(platform.separates(c));
    assert(whole[n] == c);
    let ahead = paths::segments(platform, front);
    match paths::last_separator(platform, back) {
        None => {
            assert forall|k: int| n < k < whole.len() implies !platform.separates(
                #[trigger] whole[k],
            ) by {
                assert(whole[k] == back[k - n - 1]);
            }
            lemma_separator_at(platform, whole, n);
            assert(whole.take(n) =~= front);
            assert(whole.skip(n + 1) =~= back);
            if paths::names_something(back) {
                assert(ahead.push(back) =~= ahead + seq![back]);
            } else {
                assert(ahead =~= ahead + Seq::<Seq<char>>::empty());
            }
        },
        Some(at) => {
            let place = n + 1 + at;
            assert(whole[place] == back[at]);
            assert forall|k: int| place < k < whole.len() implies !platform.separates(
                #[trigger] whole[k],
            ) by {
                assert(whole[k] == back[k - n - 1]);
            }
            lemma_separator_at(platform, whole, place);
            let last = back.skip(at + 1);
            assert(whole.take(place) =~= front.push(c) + back.take(at));
            assert(whole.skip(place + 1) =~= last);
            law_segments_are_separated(platform, front, c, back.take(at));
            let middle = paths::segments(platform, back.take(at));
            if paths::names_something(last) {
                assert((ahead + middle).push(last) =~= ahead + middle.push(last));
            }
        },
    }
}

/// What lies in a directory lies under it: every path that goes on behind
/// the directory with a separator, and the directory itself.
pub proof fn law_what_is_in_a_directory_lies_under_it(
    platform: Platform,
    directory: Seq<char>,
    c: char,
    rest: Seq<char>,
)
    requires
        c == '/' || (platform == Platform::Windows && c == '\\'),
    ensures
        paths::lies_under(platform, directory.push(c) + rest, directory),
        paths::lies_under(platform, directory, directory),
{
    law_segments_are_separated(platform, directory, c, rest);
    let front = paths::segments(platform, directory);
    let all = paths::segments(platform, directory.push(c) + rest);
    assert(front =~= all.take(front.len() as int));
    assert(front =~= front.take(front.len() as int));
}

/// A name of one segment: not empty, without a separator, and none of the
/// names that stand for something else.
pub open spec fn is_plain_name(name: Seq<char>) -> bool {
    &&& name.len() > 0
    &&& name != "."@
    &&& name != ".."@
    &&& !(name.len() == 2 && name[1] == ':')
    &&& forall|k: int| 0 <= k < name.len() ==> #[trigger] name[k] != '/' && name[k] != '\\'
}

proof fn lemma_plain_segments(platform: Platform, name: Seq<char>)
    requires
        is_plain_name(name),
    ensures
        paths::segments(platform, name) == seq![name],
{
    paths::lemma_last_separator(platform, name);
}

/// The file name of a path is the name behind its last separator.
pub proof fn law_the_file_name_stands_last(
    platform: Platform,
    directory: Seq<char>,
    c: char,
    name: Seq<char>,
)
    requires
        c == '/' || (platform == Platform::Windows && c == '\\'),
        is_plain_name(name),
    ensures
        paths::file_name_of(platform, directory.push(c) + name) == Some(name),
{
    law_segments_are_separated(platform, directory, c, name);
    lemma_plain_segments(platform, name);
    let all = paths::segments(platform, directory.push(c) + name);
    assert(all.last() == name);
}

/// The place of a file in a directory has the directory in front, one
/// separator where none is there yet, and the name of the file behind it.
pub proof fn law_a_file_in_a_directory_keeps_its_name(
    platform: Platform,
    directory: Seq<char>,
    name: Seq<char>,
)
    requires
        is_plain_name(name),
        directory.len() > 0,
        !(directory.len() == 2 && directory[1] == ':'),
    ensures
        ({
            let path = paths::inside(platform, directory, name);
            &&& paths::file_name_of(platform, path) == Some(name)
            &&& paths::lies_under(platform, path, directory)
            &&& directory.last() == '/' ==> path == directory + name
            &&& directory.last() != '/' && directory.last() != '\\' ==> path.len()
                == directory.len() + 1 + name.len()
        }),
{
    let path = paths::inside(platform, directory, name);
    if platform.separates(directory.last()) {
        let front = directory.drop_last();
        let c = directory.last();
        assert(front.push(c) =~= directory);
        law_the_file_name_stands_last(platform, front, c, name);
        assert(path =~= front.push(c) + name);
        law_segments_are_separated(platform, front, c, name);
        law_segments_are_separated(platform, front, c, Seq::empty());
        assert(front.push(c) + Seq::<char>::empty() =~= directory);
        paths::lemma_last_separator(platform, Seq::empty());
        assert(paths::segments(platform, Seq::empty()) =~= Seq::<Seq<char>>::empty());
        let up = paths::segments(platform, directory);
        let all = paths::segments(platform, path);
        assert(up =~= paths::segments(platform, front));
        assert(up =~= all.take(up.len() as int));
    } else {
        let c = platform.separator();
        assert(path =~= directory.push(c) + name);
        law_the_file_name_stands_last(platform, directory, c, name);
        law_what_is_in_a_directory_lies_under_it(platform, directory, c, name);
    }
}

proof fn lemma_last_position(value: Seq<char>, c: char, at: int)
    requires
        0 <= at < value.len(),
        value[at] == c,
        forall|k: int| at < k < value.len() ==> #[trigger] value[k] != c,
    ensures
        paths::last_position(value, c) == Some(at),
    decreases value.len(),
{
    if at < value.len() - 1 {
        assert(value.last() == value[value.len() - 1]);
        lemma_last_position(value.drop_last(), c, at);
    }
}

/// The extension of a file stands behind the last dot of its name; its case
/// does not count. A file is a picture, or a document, by its extension.
pub proof fn law_a_file_is_what_its_extension_says(
    platform: Platform,
    directory: Seq<char>,
    c: char,
    stem: Seq<char>,
    extension: Seq<char>,
)
    requires
        c == '/' || (platform == Platform::Windows && c == '\\'),
        stem.len() > 0,
        is_plain_name(stem + "."@ + extension),
        forall|k: int| 0 <= k < extension.len() ==> #[trigger] extension[k] != '.',
    ensures
        ({
            let path = directory.push(c) + (stem + "."@ + extension);
            let low = text::lower(extension);
            &&& paths::folded_extension(platform, path) == Some(low)
            &&& paths::image_path(platform, path) <==> seq![
                "jpg"@,
                "jpeg"@,
                "png"@,
                "gif"@,
                "webp"@,
                "bmp"@,
                "tif"@,
                "tiff"@,
            ].contains(low)
            &&& documents::document_path(platform, path) <==> seq![
                "txt"@,
                "md"@,
                "csv"@,
                "json"@,
                "xml"@,
                "html"@,
                "htm"@,
            ].contains(low)
        }),
{
    reveal_strlit(".");
    let name = stem + "."@ + extension;
    let low = text::lower(extension);
    law_the_file_name_stands_last(platform, directory, c, name);
    assert forall|k: int| stem.len() < k < name.len() implies #[trigger] name[k] != '.' by {
        assert(name[k] == extension[k - stem.len() - 1]);
    }
    lemma_last_position(name, '.', stem.len() as int);
    assert(name.skip(stem.len() + 1int) =~= extension);
    let pictures = seq![
        "jpg"@,
        "jpeg"@,
        "png"@,
        "gif"@,
        "webp"@,
        "bmp"@,
        "tif"@,
        "tiff"@,
    ];
    assert(pictures[0] == "jpg"@ && pictures[1] == "jpeg"@ && pictures[2] == "png"@ && pictures[3]
        == "gif"@ && pictures[4] == "webp"@ && pictures[5] == "bmp"@ && pictures[6] == "tif"@
        && pictures[7] == "tiff"@);
    if pictures.contains(low) {
        let k = choose|k: int| 0 <= k < pictures.len() && pictures[k] == low;
        assert(paths::is_image_extension(low));
    }
    let texts = seq!["txt"@, "md"@, "csv"@, "json"@, "xml"@, "html"@, "htm"@];
    assert(texts[0] == "txt"@ && texts[1] == "md"@ && texts[2] == "csv"@ && texts[3] == "json"@
        && texts[4] == "xml"@ && texts[5] == "html"@ && texts[6] == "htm"@);
    if texts.contains(low) {
        let k = choose|k: int| 0 <= k < texts.len() && texts[k] == low;
        assert(documents::is_document_extension(low));
    }
}

/// What lies below a version store, a package store or a recycle bin of the
/// system is left out of every scan, with either separator.
pub proof fn law_system_directories_are_left_out(
    platform: Platform,
    front: Seq<char>,
    back: Seq<char>,
    trash: Seq<char>,
    exclude: Seq<Seq<char>>,
)
    ensures
        paths::excluded(platform, (front + "/.git/"@) + back, trash, exclude),
        paths::excluded(platform, (front + "\\.git\\"@) + back, trash, exclude),
        paths::excluded(platform, (front + "/node_modules/"@) + back, trash, exclude),
        paths::excluded(platform, (front + "\\node_modules\\"@) + back, trash, exclude),
        paths::excluded(platform, (front + "/$RECYCLE.BIN/"@) + back, trash, exclude),
        paths::excluded(platform, (front + "\\$RECYCLE.BIN\\"@) + back, trash, exclude),
{
    lemma_contained(front, "/.git/"@, back);
    lemma_contained(front, "\\.git\\"@, back);
    lemma_contained(front, "/node_modules/"@, back);
    lemma_contained(front, "\\node_modules\\"@, back);
    lemma_contained(front, "/$RECYCLE.BIN/"@, back);
    lemma_contained(front, "\\$RECYCLE.BIN\\"@, back);
}

proof fn lemma_contained(front: Seq<char>, part: Seq<char>, back: Seq<char>)
    ensures
        text::contains((front + part) + back, part),
{
    let whole = (front + part) + back;
    assert(whole.subrange(front.len() as int, (front.len() + part.len()) as int) =~= part);
    assert(text::stands_at(whole, part, front.len() as int));
}

/// A text that a rule can be compared with as it stands: no blank at either
/// end, and no backslash.
pub open spec fn is_tidy(value: Seq<char>) -> bool {
    &&& value.len() > 0 ==> !text::is_space(value[0]) && !text::is_space(value.last())
    &&& forall|k: int| 0 <= k < value.len() ==> #[trigger] value[k] != '\\'
}

proof fn lemma_replaced_nothing(value: Seq<char>)
    requires
        forall|k: int| 0 <= k < value.len() ==> #[trigger] value[k] != '\\',
    ensures
        text::replaced(value, '\\', seq!['/']) == value,
    decreases value.len(),
{
    if value.len() > 0 {
        let front = value.drop_last();
        assert forall|k: int| 0 <= k < front.len() implies #[trigger] front[k] != '\\' by {
            assert(front[k] == value[k]);
        }
        lemma_replaced_nothing(front);
        assert(value.last() == value[value.len() - 1]);
        assert(front + seq![value.last()] =~= value);
    } else {
        assert(text::replaced(value, '\\', seq!['/']) =~= value);
    }
}

proof fn lemma_tidy(value: Seq<char>)
    requires
        is_tidy(value),
    ensures
        text::trimmed(value) == value,
        paths::normalized(Platform::Posix, value) == value,
        paths::normalized(Platform::Windows, value) == outside::lowercase(value),
{
    lemma_replaced_nothing(value);
}

/// A rule protects, or excludes, the paths that hold it somewhere, where it
/// is not empty; on Windows regardless of case. Among several rules one is
/// enough, and without rules nothing is protected or excluded.
pub proof fn law_a_rule_covers_the_paths_that_hold_it(
    path: Seq<char>,
    rules: Seq<Seq<char>>,
    trash: Seq<char>,
)
    requires
        is_tidy(path),
        forall|i: int| 0 <= i < rules.len() ==> is_tidy(#[trigger] rules[i]),
    ensures
        paths::protected_by(Platform::Posix, path, rules) <==> exists|i: int, at: int|
            #![trigger rules[i], path.skip(at)]
            0 <= i < rules.len() && rules[i].len() > 0 && 0 <= at && at + rules[i].len()
                <= path.len() && path.skip(at).take(rules[i].len() as int) == rules[i],
        paths::excluded_by(Platform::Posix, path, rules) <==> paths::protected_by(
            Platform::Posix,
            path,
            rules,
        ),
        paths::excluded_by(Platform::Posix, path, rules) ==> paths::excluded(
            Platform::Posix,
            path,
            trash,
            rules,
        ),
        rules.len() == 0 ==> !paths::protected_by(Platform::Windows, path, rules)
            && !paths::excluded_by(Platform::Windows, path, rules),
        forall|i: int|
            0 <= i < rules.len() && rules[i].len() > 0 && outside::lowercase(
                #[trigger] rules[i],
            ).len() > 0 && text::contains(outside::lowercase(path), outside::lowercase(rules[i]))
                ==> paths::protected_by(Platform::Windows, path, rules) && paths::excluded_by(
                Platform::Windows,
                path,
                rules,
            ),
{
    lemma_tidy(path);
    assert forall|i: int| 0 <= i < rules.len() implies text::trimmed(#[trigger] rules[i])
        == rules[i] && paths::normalized(Platform::Posix, rules[i]) == rules[i]
        && paths::normalized(Platform::Windows, rules[i]) == outside::lowercase(rules[i]) by {
        lemma_tidy(rules[i]);
    }
    if paths::protected_by(Platform::Posix, path, rules) {
        let i = choose|i: int|
            0 <= i < rules.len() && paths::normalized(Platform::Posix, #[trigger] rules[i]).len()
                > 0 && text::contains(
                paths::normalized(Platform::Posix, path),
                paths::normalized(Platform::Posix, rules[i]),
            );
        let at = choose|at: int| text::stands_at(path, rules[i], at);
        assert(path.skip(at).take(rules[i].len() as int) =~= rules[i]);
    }
    if exists|i: int, at: int|
        #![trigger rules[i], path.skip(at)]
        0 <= i < rules.len() && rules[i].len() > 0 && 0 <= at && at + rules[i].len() <= path.len()
            && path.skip(at).take(rules[i].len() as int) == rules[i] {
        let (i, at) = choose|i: int, at: int|
            #![trigger rules[i], path.skip(at)]
            0 <= i < rules.len() && rules[i].len() > 0 && 0 <= at && at + rules[i].len()
                <= path.len() && path.skip(at).take(rules[i].len() as int) == rules[i];
        assert(path.subrange(at, at + rules[i].len()) =~= rules[i]);
        assert(text::stands_at(path, rules[i], at));
    }
}

/// The kinds of files and their extensions.
pub proof fn law_kinds_are_told_by_extension(kind: Seq<char>)
    ensures
        groups::kind_list(kind) is Some <==> seq![
            "image"@,
            "video"@,
            "audio"@,
            "document"@,
            "archive"@,
        ].contains(kind),
        groups::kind_list("image"@) == Some(
            seq![
                "jpg"@, "jpeg"@, "png"@, "gif"@, "webp"@, "bmp"@, "tif"@, "tiff"@, "heic"@,
                "heif"@, "svg"@, "ico"@,
            ],
        ),
        groups::kind_list("video"@) == Some(
            seq![
                "mp4"@, "mkv"@, "avi"@, "mov"@, "wmv"@, "flv"@, "webm"@, "m4v"@, "ts"@, "3gp"@,
            ],
        ),
        groups::kind_list("audio"@) == Some(
            seq!["mp3"@, "wav"@, "flac"@, "aac"@, "m4a"@, "ogg"@, "wma"@, "opus"@],
        ),
        groups::kind_list("document"@) == Some(
            seq![
                "pdf"@, "doc"@, "docx"@, "xls"@, "xlsx"@, "ppt"@, "pptx"@, "txt"@, "md"@, "csv"@,
                "json"@, "xml"@, "html"@, "htm"@, "epub"@,
            ],
        ),
        groups::kind_list("archive"@) == Some(
            seq!["zip"@, "rar"@, "7z"@, "tar"@, "gz"@, "bz2"@, "xz"@, "iso"@],
        ),
{
    reveal_strlit("image");
    reveal_strlit("video");
    reveal_strlit("audio");
    reveal_strlit("document");
    reveal_strlit("archive");
    assert("image"@[0] == 'i' && "video"@[0] == 'v' && "document"@[0] == 'd');
    assert("audio"@[1] == 'u' && "archive"@[1] == 'r');
    let kinds = seq!["image"@, "video"@, "audio"@, "document"@, "archive"@];
    assert(kinds[0] == "image"@ && kinds[1] == "video"@ && kinds[2] == "audio"@ && kinds[3]
        == "document"@ && kinds[4] == "archive"@);
    if kinds.contains(kind) {
        let k = choose|k: int| 0 <= k < kinds.len() && kinds[k] == kind;
    }
}

// ---------------------------------------------------------------------------
// Settings
// ---------------------------------------------------------------------------

/// A switch or a number that was stored is read back, whatever the default;
/// where nothing is stored the default counts. No other setting changes.
pub proof fn law_a_stored_setting_reads_back(
    index: IndexView,
    key: Seq<char>,
    other: Seq<char>,
    on: bool,
    n: i64,
    default: i64,
)
    requires
        other != key,
    ensures
        settings::flag_of(index.with_setting(key, settings::switch_text(on)), key, !on) == on,
        settings::number_of(index.with_setting(key, text::decimal(n as int)), key, default) == n,
        settings::flag_of(index.with_setting(key, settings::switch_text(on)), other, on)
            == settings::flag_of(index, other, on),
        !index.settings.contains_key(key) ==> settings::flag_of(index, key, on) == on
            && settings::number_of(index, key, default) == default,
        index.with_setting(key, settings::switch_text(on)).files == index.files,
        index.with_setting(key, settings::switch_text(on)).operations == index.operations,
{
    law_a_written_number_reads_back(n);
    reveal_strlit("1");
    reveal_strlit("0");
    assert("1"@[0] == '1' && "0"@[0] == '0');
}

/// Switching the strict check on switches it on: the setting that is stored
/// is the one that removals look at.
pub proof fn law_the_strict_check_is_what_is_switched(before: IndexView, after: IndexView, on: bool)
    requires
        settings::stored(before, after, Ok(()), "strict_verify"@, settings::switch_text(on)),
    ensures
        crate::promises::strict_is_on(after) <==> on,
{
    reveal_strlit("1");
    reveal_strlit("0");
    assert("1"@[0] == '1' && "0"@[0] == '0');
}

/// How long the bin keeps files: the stored number of days, or thirty where
/// none is stored or the number is no use.
pub proof fn law_the_bin_keeps_files_for_the_stored_days(index: IndexView, days: i64)
    ensures
        days >= 0 ==> settings::retention_of(
            index.with_setting("trash_retention_days"@, text::decimal(days as int)),
        ) == days,
        days < 0 ==> settings::retention_of(
            index.with_setting("trash_retention_days"@, text::decimal(days as int)),
        ) == 30,
        !index.settings.contains_key("trash_retention_days"@) ==> settings::retention_of(index)
            == 30,
{
    law_a_written_number_reads_back(days);
}

/// An index can be used where it holds a version that is a number and no
/// later than the present one. Opening an older one brings it up to date and
/// keeps every row; the fingerprints of photos are dropped where they are of
/// before version five, and kept otherwise.
pub proof fn law_opening_keeps_what_is_stored(index: IndexView)
    ensures
        settings::opened(index) is Ok <==> {
            &&& index.settings.contains_key("schema_version"@)
            &&& text::parsed_i64(index.settings["schema_version"@]) is Some
            &&& text::parsed_i64(index.settings["schema_version"@])->0 <= 8
        },
        settings::opened(index) matches Ok(after) ==> {
            let version = text::parsed_i64(index.settings["schema_version"@])->0;
            &&& after.files == index.files
            &&& after.operations == index.operations
            &&& after.documents == index.documents
            &&& after.verdicts == index.verdicts
            &&& version >= 5 ==> after.photos == index.photos
            &&& version < 5 ==> after.photos == Map::<i64, model::PhotoPrint>::empty()
            &&& version == 8 ==> after == index
            &&& text::parsed_i64(after.settings["schema_version"@]) == Some(8i64)
            &&& forall|key: Seq<char>|
                key != "schema_version"@ ==> (#[trigger] after.settings.contains_key(key))
                    == index.settings.contains_key(key) && after.settings[key]
                    == index.settings[key]
        },
{
    law_a_written_number_reads_back(8);
}

/// What a project shows of its settings: each as stored, under its own key,
/// and otherwise what holds without a setting.
pub proof fn law_a_project_shows_its_settings(
    index: IndexView,
    database: Seq<char>,
    trash: Seq<char>,
    shown: ProjectView,
)
    requires
        project::project_of(index, database, trash) == Ok::<ProjectView, Seq<char>>(shown),
    ensures
        shown.database == database,
        shown.trash_path == trash,
        index.settings.contains_key("roots"@) ==> outside::json_list(index.settings["roots"@])
            == Ok::<Seq<Seq<char>>, Seq<char>>(shown.roots),
        index.settings.contains_key("protect_rules"@) ==> outside::json_list(
            index.settings["protect_rules"@],
        ) == Ok::<Seq<Seq<char>>, Seq<char>>(shown.protect_rules),
        index.settings.contains_key("exclude_rules"@) ==> outside::json_list(
            index.settings["exclude_rules"@],
        ) == Ok::<Seq<Seq<char>>, Seq<char>>(shown.exclude_rules),
        !index.settings.contains_key("roots"@) ==> shown.roots.len() == 0,
        !index.settings.contains_key("protect_rules"@) ==> shown.protect_rules.len() == 0,
        !index.settings.contains_key("exclude_rules"@) ==> shown.exclude_rules.len() == 0,
        shown.strict_verify <==> crate::promises::strict_is_on(index),
        shown.usn_scan <==> index.settings.contains_key("usn_scan"@) && index.settings["usn_scan"@]
            == "1"@,
        shown.watch_scan <==> index.settings.contains_key("watch_scan"@)
            && index.settings["watch_scan"@] == "1"@,
        shown.auto_scan <==> (index.settings.contains_key("auto_scan_on_start"@)
            ==> index.settings["auto_scan_on_start"@] == "1"@),
        !index.settings.contains_key("min_file_size"@) ==> shown.min_file_size == 0,
        !index.settings.contains_key("similar_phash_max"@) ==> shown.similar_threshold == 10,
        index.settings.contains_key("min_file_size"@) && text::parsed_i64(
            index.settings["min_file_size"@],
        ) is Some ==> Some(shown.min_file_size) == text::parsed_i64(
            index.settings["min_file_size"@],
        ),
        index.settings.contains_key("similar_phash_max"@) && text::parsed_i64(
            index.settings["similar_phash_max"@],
        ) is Some ==> Some(shown.similar_threshold) == text::parsed_i64(
            index.settings["similar_phash_max"@],
        ),
        shown.trash_retention_days == settings::retention_of(index),
{
}

/// A request for groups asks for what it says: sizes from its smallest one
/// on, fifty groups from the first where it says nothing else, and filters
/// where they are not blank and not `all`.
pub proof fn law_a_request_asks_for_what_it_says(request: GroupRequest)
    ensures
        ({
            let query = project::requested(request);
            &&& query.min_size == (if request.min_size is Some { request.min_size->0 } else { 0 })
            &&& query.offset == (if request.offset is Some { request.offset->0 } else { 0 })
            &&& query.limit == (if request.limit is Some { request.limit->0 } else { 50 })
            &&& query.kind is Some <==> request.kind is Some && request.kind->0@ != "all"@
            &&& query.kind is Some ==> query.kind->0 == request.kind->0@
            &&& query.path_contains is Some <==> request.path_contains is Some && text::trimmed(
                request.path_contains->0@,
            ).len() > 0
            &&& query.path_contains is Some ==> query.path_contains->0 == text::trimmed(
                request.path_contains->0@,
            )
            &&& query.dir_contains is Some <==> request.dir_contains is Some
                && request.dir_contains->0@ != "all"@ && request.dir_contains->0@.len() > 0
            &&& query.dir_contains is Some ==> query.dir_contains->0 == request.dir_contains->0@
            &&& query.sort == GroupSort::Members <==> request.sort is Some && request.sort->0@
                == "members"@
            &&& query.sort == GroupSort::Path <==> request.sort is Some && request.sort->0@
                == "path"@
            &&& query.sort == GroupSort::Recoverable <==> request.sort is Some && request.sort->0@
                == "recoverable"@
        }),
{
    reveal_strlit("members");
    reveal_strlit("path");
    reveal_strlit("recoverable");
    assert("members"@[0] == 'm' && "path"@[0] == 'p' && "recoverable"@[0] == 'r');
}

/// The names of the strategies of a sweep and of the runs over many files.
pub proof fn law_names_name_what_they_say(name: Seq<char>)
    ensures
        project::strategy_named(name) == Some(MarkStrategy::Newest) <==> name == "newest"@,
        project::strategy_named(name) == Some(MarkStrategy::Oldest) <==> name == "oldest"@,
        project::strategy_named(name) == Some(MarkStrategy::Shortest) <==> name == "shortest"@,
        project::strategy_named(name) == Some(MarkStrategy::Scored) <==> name == "scored"@,
        desk::bulk_named(name) == Some(BulkKind::Trash) <==> name == "trash"@,
        desk::bulk_named(name) == Some(BulkKind::Delete) <==> name == "delete"@,
        desk::bulk_named(name) == Some(BulkKind::Hardlink) <==> name == "hardlink"@,
{
    reveal_strlit("newest");
    reveal_strlit("oldest");
    reveal_strlit("shortest");
    reveal_strlit("scored");
    assert("newest"@[0] == 'n' && "oldest"@[0] == 'o');
    assert("shortest"@[1] == 'h' && "scored"@[1] == 'c');
    reveal_strlit("trash");
    reveal_strlit("delete");
    reveal_strlit("hardlink");
    assert("trash"@[0] == 't' && "delete"@[0] == 'd' && "hardlink"@[0] == 'h');
}

/// How a scan ended: completed where it came to its end, cancelled where it
/// stopped for that, and failed, with the reason shown, otherwise.
pub proof fn law_a_scan_ends_as_it_ended(
    task: desk::ScanTaskView,
    result: Result<crate::scan::ScanSummary, String>,
)
    ensures
        ({
            let after = desk::ended(task, result);
            &&& after.phase == Phase::Completed <==> result is Ok
            &&& after.phase == Phase::Cancelled <==> result is Err && result->Err_0@
                == "scan cancelled"@
            &&& after.phase == Phase::Failed ==> after.message == result->Err_0@
            &&& after.phase != Phase::Running
            &&& after.processed == task.processed && after.total == task.total
        }),
{
}

// ---------------------------------------------------------------------------
// Reading a file
// ---------------------------------------------------------------------------

/// What is read of a file counts only where the file was the same before and
/// after: the same size and the same time. A file of more than sixteen
/// mebibytes gets a quick hash at first, any other its full hash.
pub proof fn law_a_file_that_changes_while_it_is_read_is_refused(
    platform: Platform,
    path: Seq<char>,
    seen: HashSeen,
)
    ensures
        walk::entry_of(platform, path, seen) is Ok <==> {
            &&& seen.before is Ok && seen.after is Ok && seen.hash is Ok
            &&& seen.before->Ok_0.len <= i64::MAX
            &&& seen.after->Ok_0.len == seen.before->Ok_0.len
            &&& seen.after->Ok_0.modified == seen.before->Ok_0.modified
        },
        walk::entry_of(platform, path, seen) matches Ok(entry) ==> {
            &&& entry.path == path
            &&& entry.size == seen.before->Ok_0.len
            &&& entry.modified == seen.before->Ok_0.modified
            &&& entry.size > 16 * 1024 * 1024 ==> entry.quick_hash == Some(seen.hash->Ok_0@)
                && entry.hash.len() == 0
            &&& entry.size <= 16 * 1024 * 1024 ==> entry.quick_hash is None && entry.hash
                == seen.hash->Ok_0@
            &&& entry.dev == seen.identity.dev
            &&& entry.inode == seen.identity.inode
            &&& entry.frn == seen.identity.frn
            &&& entry.photo == seen.photo
            &&& entry.document == seen.document
            &&& paths::image_path(platform, path) ==> entry.exif_taken == seen.exif_taken
            &&& !paths::image_path(platform, path) ==> entry.exif_taken == 0
        },
        forall|len: u64| #[trigger]
            walk::planned(len) == Ok::<HashPlan, Seq<char>>(HashPlan::Quick) <==> 16 * 1024 * 1024
                < len <= i64::MAX,
{
}

/// The quick hash of a content is the hash of its first sixty-four kibibytes,
/// or of all of it where it is shorter.
pub proof fn law_the_quick_hash_is_of_the_beginning(bytes: Seq<u8>)
    ensures
        bytes.len() <= 64 * 1024 ==> hashing::quick_hash(bytes) == hashing::content_hash(bytes),
        bytes.len() > 64 * 1024 ==> hashing::quick_hash(bytes) == hashing::content_hash(
            bytes.take(65_536),
        ),
{
}

// ---------------------------------------------------------------------------
// The change journal
// ---------------------------------------------------------------------------

/// Numbers in a reply are stored with the lowest byte first.
pub proof fn law_the_lowest_byte_comes_first(bytes: Seq<u8>, at: int)
    requires
        0 <= at,
        at + 4 <= bytes.len(),
    ensures
        usn::little_endian(bytes, at, 2) == bytes[at] + 256 * bytes[at + 1],
        usn::little_endian(bytes, at, 4) == bytes[at] + 0x100 * bytes[at + 1] + 0x1_0000
            * bytes[at + 2] + 0x100_0000 * bytes[at + 3],
{
    assert(usn::little_endian(bytes, at + 4, 0) == 0);
    assert(usn::little_endian(bytes, at + 2, 0) == 0);
    assert(usn::little_endian(bytes, at + 3, 1) == bytes[at + 3]);
    assert(usn::little_endian(bytes, at + 1, 1) == bytes[at + 1]);
    assert(usn::little_endian(bytes, at + 2, 2) == bytes[at + 2] + 256 * bytes[at + 3]);
    assert(usn::little_endian(bytes, at + 1, 3) == bytes[at + 1] + 256 * usn::little_endian(
        bytes,
        at + 2,
        2,
    ));
    assert(usn::little_endian(bytes, at, 4) == bytes[at] + 256 * usn::little_endian(
        bytes,
        at + 1,
        3,
    ));
}

/// What the journal lists below a root is no link, and a directory exactly
/// where its record says so.
pub proof fn law_the_journal_lists_no_links(
    rows: Seq<UsnRecordView>,
    root: Seq<char>,
    frn: u64,
    k: int,
)
    requires
        0 <= k < rows.len(),
        usn::place(rows, root, frn, k) is Some,
    ensures
        rows[k].attributes & 0x400 == 0,
        usn::kind_of(rows[k]) == walk::EntryKind::Directory <==> rows[k].attributes & 0x10 != 0,
        rows[k].name.is_suffix_of(usn::place(rows, root, frn, k)->0),
{
    usn::law_nothing_behind_a_link_is_found(rows, root, frn, k);
    usn::law_what_lies_in_a_directory_is_found(rows, root, frn, k);
    let path = usn::place(rows, root, frn, k)->0;
    let name = rows[k].name;
    assert(name =~= path.skip(path.len() - name.len()));
}

// ---------------------------------------------------------------------------
// Room for stored rows
// ---------------------------------------------------------------------------

/// Giving rows other ids to make room keeps everything together: each row
/// keeps all but its id, its operations and its fingerprints stay with it,
/// and the order of the rows is the same.
pub proof fn law_rows_keep_their_company_when_they_move_up(
    index: IndexView,
    file_from: i64,
    file_by: int,
    operation_from: i64,
    operation_by: int,
    p: int,
)
    requires
        index.wf(),
        file_by >= 0,
        operation_by >= 0,
        loading::has_room(index, file_by, operation_by),
        0 <= p < index.files.len(),
    ensures
        ({
            let after = loading::with_room(index, file_from, file_by, operation_from, operation_by);
            let id = after.files[p].id;
            &&& after.files.len() == index.files.len()
            &&& after.files[p] == (model::FileView { id, ..index.files[p] })
            &&& id == index.files[p].id + (if index.files[p].id >= file_from {
                file_by
            } else {
                0
            })
            &&& after.photos.contains_key(id) <==> index.photos.contains_key(index.files[p].id)
            &&& index.photos.contains_key(index.files[p].id) ==> after.photos[id]
                == index.photos[index.files[p].id]
            &&& after.documents.contains_key(id) <==> index.documents.contains_key(
                index.files[p].id,
            )
            &&& index.documents.contains_key(index.files[p].id) ==> after.documents[id]
                == index.documents[index.files[p].id]
            &&& after.operations.len() == index.operations.len()
            &&& forall|k: int|
                0 <= k < index.operations.len() && (#[trigger] index.operations[k]).file_id
                    == index.files[p].id ==> after.operations[k].file_id == id
            &&& after.settings == index.settings
            &&& after.verdicts == index.verdicts
        }),
{
    let after = loading::with_room(index, file_from, file_by, operation_from, operation_by);
    let last = index.files.len() - 1;
    if p < last {
        assert(index.files[p].id < index.files[last].id);
    }
    assert(index.files[p].id + file_by <= i64::MAX);
    let id = after.files[p].id;
    assert(loading::raised(id, file_from, -file_by) == index.files[p].id);
}

// ---------------------------------------------------------------------------
// Walking and moving
// ---------------------------------------------------------------------------

/// A walk takes each entry for what it is: it goes into a directory that no
/// rule leaves out, reports a file, and passes over everything else. The
/// entries before it are treated as if it were not there.
pub proof fn law_a_walk_takes_each_entry_for_what_it_is(
    rules: walk::WalkRules,
    entries: Seq<(Seq<char>, walk::EntryKind)>,
    path: Seq<char>,
    kind: walk::EntryKind,
)
    ensures
        ({
            let longer = entries.push((path, kind));
            let goes_in = kind == walk::EntryKind::Directory && !paths::excluded(
                rules.platform,
                path,
                rules.trash@,
                outside::texts(rules.exclude@),
            );
            &&& walk::entered(rules, longer) == (if goes_in {
                walk::entered(rules, entries).push(path)
            } else {
                walk::entered(rules, entries)
            })
            &&& walk::reported(rules, longer) == (if goes_in {
                walk::reported(rules, entries)
            } else if kind == walk::EntryKind::File {
                walk::reported(rules, entries).push(walk::WalkItemView::File(path))
            } else {
                walk::reported(rules, entries).push(walk::WalkItemView::Skipped)
            })
        }),
{
    assert(entries.push((path, kind)).drop_last() =~= entries);
}

/// A move by renaming is checked where the file went, and undone where the
/// content is not the expected one. A move by copying removes the source only
/// after the copy was found to be good, and a bad copy is discarded.
pub proof fn law_a_move_loses_no_content(expected: Seq<char>, seen: hashing::MoveSeen)
    ensures
        ({
            let step = hashing::move_step(expected, seen);
            let good = seen.moved_hash is Some && seen.moved_hash->0 is Ok
                && seen.moved_hash->0->Ok_0@ == expected;
            &&& step is Copy ==> seen.renamed == Some(false)
            &&& step is HashMoved ==> seen.renamed == Some(true) || (seen.copied is Some
                && seen.copied->0 is Ok)
            &&& step is Return ==> seen.renamed == Some(true) && seen.moved_hash is Some && !good
            &&& step is DiscardCopy ==> seen.renamed == Some(false) && seen.moved_hash is Some
                && !good
            &&& step is RemoveSource ==> seen.renamed == Some(false) && good
            &&& step == hashing::MoveStepView::Finished(Ok(())) <==> good && (seen.renamed == Some(
                true,
            ) || (seen.renamed == Some(false) && seen.copied is Some && seen.copied->0 is Ok
                && seen.removed is Some && seen.removed->0 is Ok))
            &&& seen.renamed is None ==> step is Rename
        }),
{
}

/// Of a name that is taken, the next candidates carry a number in front of
/// the extension.
pub proof fn law_a_numbered_name_keeps_its_extension(
    stem: Seq<char>,
    extension: Seq<char>,
    k: nat,
)
    requires
        stem.len() > 0,
        k > 0,
        forall|m: int| 0 <= m < extension.len() ==> #[trigger] extension[m] != '.',
    ensures
        crate::directories::candidate_name(stem + "."@ + extension, k) == stem + " ("@
            + text::decimal(k as int) + ")"@ + ("."@ + extension),
{
    reveal_strlit(".");
    let name = stem + "."@ + extension;
    assert forall|m: int| stem.len() < m < name.len() implies #[trigger] name[m] != '.' by {
        assert(name[m] == extension[m - stem.len() - 1]);
    }
    lemma_last_position(name, '.', stem.len() as int);
    assert(name.take(stem.len() as int) =~= stem);
    assert(name.skip(stem.len() as int) =~= "."@ + extension);
}

/// The directories that emptying the bin may remove lie above the file and
/// below the bin: each is a beginning of its path, and none is the bin.
pub proof fn law_only_directories_above_the_file_are_pruned(
    platform: Platform,
    path: Seq<char>,
    root: Seq<char>,
    k: int,
)
    requires
        0 <= k < paths::directories_above(platform, path, root).len(),
    ensures
        ({
            let directory = paths::directories_above(platform, path, root)[k];
            &&& directory.len() < path.len()
            &&& directory.is_prefix_of(path)
            &&& paths::segments(platform, directory) != paths::segments(platform, root)
        }),
    decreases path.len(),
{
    paths::lemma_directory_shorter(platform, path);
    paths::lemma_last_separator(platform, path);
    let directory = paths::directory_of(platform, path)->0;
    assert(directory =~= path.take(directory.len() as int));
    let rest = paths::directories_above(platform, directory, root);
    let all = paths::directories_above(platform, path, root);
    assert(all =~= seq![directory] + rest);
    if k > 0 {
        law_only_directories_above_the_file_are_pruned(platform, directory, root, k - 1);
        let upper = rest[k - 1];
        assert(all[k] == upper);
        assert(upper =~= path.take(upper.len() as int));
    }
}

proof fn lemma_next_separator(path: Seq<char>, from: int, to: int)
    requires
        0 <= from <= to <= path.len(),
        forall|k: int| from <= k < to ==> #[trigger] path[k] != '/' && path[k] != '\\',
        to < path.len() ==> path[to] == '/' || path[to] == '\\',
    ensures
        paths::next_separator(path, from) == to,
    decreases to - from,
{
    if from < to {
        assert(path[from] != '/' && path[from] != '\\');
        lemma_next_separator(path, from + 1, to);
    }
}

/// The volume of a path with a drive letter is the letter and the colon; that
/// of a path on a share is the server and the share.
pub proof fn law_a_volume_is_a_drive_or_a_share(
    letter: char,
    rest: Seq<char>,
    server: Seq<char>,
    share: Seq<char>,
)
    requires
        letter != '\\',
        server.len() > 0 && server[0] != '?',
        forall|k: int| 0 <= k < server.len() ==> #[trigger] server[k] != '/' && server[k] != '\\',
        forall|k: int| 0 <= k < share.len() ==> #[trigger] share[k] != '/' && share[k] != '\\',
    ensures
        paths::volume_of(seq![letter, ':'] + rest) == seq![letter, ':'],
        paths::volume_of(seq!['\\', '\\'] + server + seq!['\\'] + share + seq!['\\'] + rest)
            == seq!['\\', '\\'] + server + seq!['\\'] + share,
{
    reveal_strlit("\\\\?\\UNC\\");
    reveal_strlit("\\\\");
    let drive = seq![letter, ':'] + rest;
    if text::starts_with(drive, "\\\\"@) {
        assert(drive.subrange(0, 2)[0] == '\\');
    }
    if text::starts_with(drive, "\\\\?\\UNC\\"@) {
        assert(drive.subrange(0, 8)[0] == '\\');
    }
    assert(drive.take(2) =~= seq![letter, ':']);
    let net = seq!['\\', '\\'] + server + seq!['\\'] + share + seq!['\\'] + rest;
    if text::starts_with(net, "\\\\?\\UNC\\"@) {
        assert(net.subrange(0, 8)[2] == '?');
        assert(net[2] == server[0]);
    }
    assert(net.subrange(0, 2) =~= "\\\\"@);
    let tail = net.skip(2);
    let a = server.len() as int;
    let b = a + 1 + share.len();
    assert forall|k: int| 0 <= k < a implies #[trigger] tail[k] != '/' && tail[k] != '\\' by {
        assert(tail[k] == server[k]);
    }
    assert(tail[a] == '\\');
    lemma_next_separator(tail, 0, a);
    assert forall|k: int| a + 1 <= k < b implies #[trigger] tail[k] != '/' && tail[k] != '\\' by {
        assert(tail[k] == share[k - a - 1]);
    }
    assert(tail[b] == '\\');
    lemma_next_separator(tail, a + 1, b);
    assert(tail.take(a) =~= server);
    assert(tail.subrange(a + 1, b) =~= share);
    assert("\\\\"@ + (server + seq!['\\'] + share) =~= seq!['\\', '\\'] + server + seq!['\\']
        + share);
}

/// A watch starts a scan only when the changes that it heard have settled,
/// stops when it is told to or when there is nothing to listen to, and forgets
/// the changes that a scan takes in.
pub proof fn law_a_watch_scans_after_changes_settle(
    watch: desk::Watch,
    event: desk::WatchEvent,
    cancelled: bool,
)
    ensures
        ({
            let (after, step) = desk::heard(watch, event, cancelled);
            &&& step == desk::WatchStep::Scan <==> !cancelled && watch.settling && (event
                == desk::WatchEvent::Quiet || event == desk::WatchEvent::Closed)
            &&& step == desk::WatchStep::Stop <==> cancelled || (!watch.settling && event
                == desk::WatchEvent::Closed)
            &&& step == desk::WatchStep::Scan ==> !after.dirty && !after.settling
            &&& after.settling && !watch.settling ==> watch.dirty && event
                == desk::WatchEvent::Quiet
            &&& after.dirty && !watch.dirty ==> event == desk::WatchEvent::Change || event
                == desk::WatchEvent::Trouble
        }),
{
}

/// Saving a project stores its roots and its rules under their own keys, and
/// its smallest size, zero at least.
pub proof fn law_a_saved_project_is_stored(
    index: IndexView,
    roots: Seq<Seq<char>>,
    protect: Seq<Seq<char>>,
    exclude: Seq<Seq<char>>,
    min_file_size: i64,
)
    ensures
        ({
            let after = project::configured(index, roots, protect, exclude, min_file_size);
            &&& after.settings["roots"@] == outside::json_text(roots)
            &&& after.settings["protect_rules"@] == outside::json_text(protect)
            &&& after.settings["exclude_rules"@] == outside::json_text(exclude)
            &&& settings::number_of(after, "min_file_size"@, 7) == (if min_file_size < 0 {
                0
            } else {
                min_file_size
            })
            &&& after.files == index.files && after.operations == index.operations
            &&& after.settings.contains_key("roots"@) && after.settings.contains_key(
                "protect_rules"@,
            ) && after.settings.contains_key("exclude_rules"@)
        }),
{
    law_a_written_number_reads_back(if min_file_size < 0 { 0 } else { min_file_size });
    reveal_strlit("roots");
    reveal_strlit("protect_rules");
    reveal_strlit("exclude_rules");
    reveal_strlit("min_file_size");
    assert("roots"@[0] == 'r' && "protect_rules"@[0] == 'p' && "exclude_rules"@[0] == 'e'
        && "min_file_size"@[0] == 'm');
}

proof fn lemma_bars(a: Seq<char>, x: Seq<char>, b: Seq<char>, y: Seq<char>)
    requires
        a + seq!['|'] + x == b + seq!['|'] + y,
        text::all_digits(x),
        text::all_digits(y),
    ensures
        a == b,
        x == y,
{
    let whole = a + seq!['|'] + x;
    let other = b + seq!['|'] + y;
    assert(whole.len() == a.len() + 1 + x.len());
    assert(other.len() == b.len() + 1 + y.len());
    assert(whole[a.len() as int] == '|' && other[b.len() as int] == '|');
    if a.len() < b.len() {
        assert(whole[b.len() as int] == x[b.len() - a.len() - 1]);
        assert(text::is_digit(x[b.len() - a.len() - 1]));
    }
    if b.len() < a.len() {
        assert(other[a.len() as int] == y[a.len() - b.len() - 1]);
        assert(text::is_digit(y[a.len() - b.len() - 1]));
    }
    assert(a =~= whole.take(a.len() as int));
    assert(b =~= other.take(b.len() as int));
    assert(x =~= whole.skip(a.len() + 1int));
    assert(y =~= other.skip(b.len() + 1int));
}

/// Previews are kept apart by path, time and size: what a key is made of is
/// different where one of them is.
pub proof fn law_previews_are_kept_apart(
    path: Seq<char>,
    modified: u64,
    size: u64,
    other_path: Seq<char>,
    other_modified: u64,
    other_size: u64,
)
    requires
        crate::previews::key_text(path, modified, size) == crate::previews::key_text(
            other_path,
            other_modified,
            other_size,
        ),
    ensures
        path == other_path,
        modified == other_modified,
        size == other_size,
{
    reveal_strlit("|");
    assert("|"@ =~= seq!['|']);
    lemma_digits(modified as nat);
    lemma_digits(size as nat);
    lemma_digits(other_modified as nat);
    lemma_digits(other_size as nat);
    lemma_bars(
        path + "|"@ + text::decimal(modified as int),
        text::decimal(size as int),
        other_path + "|"@ + text::decimal(other_modified as int),
        text::decimal(other_size as int),
    );
    lemma_bars(
        path,
        text::decimal(modified as int),
        other_path,
        text::decimal(other_modified as int),
    );
}

// ---------------------------------------------------------------------------
// Times and versions
// ---------------------------------------------------------------------------

/// The number that two digits write.
pub open spec fn two_digits(date: Seq<char>, at: int) -> int {
    (date[at] as int - 48) * 10 + (date[at + 1] as int - 48)
}

proof fn lemma_two_digits(date: Seq<char>, at: int)
    requires
        0 <= at,
        at + 2 <= date.len(),
        text::is_digit(date[at]),
        text::is_digit(date[at + 1]),
    ensures
        crate::exif_time::number_at(date, at, at + 2) == two_digits(date, at),
{
    let part = date.subrange(at, at + 2);
    let front = part.drop_last();
    assert(part.last() == date[at + 1]);
    assert(front.last() == date[at]);
    assert(front.drop_last() =~= Seq::<char>::empty());
    assert(text::digits_value(front.drop_last()) == 0);
    assert(text::digits_value(front) == date[at] as u32 - 48);
}

/// The time at which a photo was taken, from a date in the notation of
/// cameras: days since the first of January 1970, and then hours, minutes and
/// seconds. A date that does not exist, or is written otherwise, gives zero.
pub proof fn law_a_camera_date_is_seconds_since_1970(value: Seq<char>)
    ensures
        ({
            let date = text::trimmed(crate::exif_time::without_nulls(value));
            let digits = |k: int| '0' <= date[k] <= '9';
            let written = date.len() == 19 && date[4] == ':' && date[7] == ':' && date[10] == ' '
                && date[13] == ':' && date[16] == ':' && digits(0) && digits(1) && digits(2)
                && digits(3) && digits(5) && digits(6) && digits(8) && digits(9) && digits(11)
                && digits(12) && digits(14) && digits(15) && digits(17) && digits(18);
            let year = two_digits(date, 0) * 100 + two_digits(date, 2);
            let month = two_digits(date, 5);
            let day = two_digits(date, 8);
            let exists_at_all = 1 <= month <= 12 && 1 <= day
                <= crate::exif_time::month_length(year, month) && two_digits(date, 11) < 24
                && two_digits(date, 14) < 60 && two_digits(date, 17) < 60;
            &&& !written || !exists_at_all ==> crate::exif_time::exif_seconds(value) == 0
            &&& written && exists_at_all ==> crate::exif_time::exif_seconds(value)
                == crate::exif_time::civil_days(year, month, day) * (24 * 60 * 60) + two_digits(
                date,
                11,
            ) * (60 * 60) + two_digits(date, 14) * 60 + two_digits(date, 17)
        }),
{
    let date = text::trimmed(crate::exif_time::without_nulls(value));
    let digits = |k: int| '0' <= date[k] <= '9';
    let written = date.len() == 19 && date[4] == ':' && date[7] == ':' && date[10] == ' '
        && date[13] == ':' && date[16] == ':' && digits(0) && digits(1) && digits(2) && digits(3)
        && digits(5) && digits(6) && digits(8) && digits(9) && digits(11) && digits(12) && digits(
        14,
    ) && digits(15) && digits(17) && digits(18);
    assert(crate::exif_time::in_notation(date) <==> written) by {
        if crate::exif_time::in_notation(date) {
            assert(crate::exif_time::fits_notation(date[0], 0));
            assert(crate::exif_time::fits_notation(date[1], 1));
            assert(crate::exif_time::fits_notation(date[2], 2));
            assert(crate::exif_time::fits_notation(date[3], 3));
            assert(crate::exif_time::fits_notation(date[4], 4));
            assert(crate::exif_time::fits_notation(date[5], 5));
            assert(crate::exif_time::fits_notation(date[6], 6));
            assert(crate::exif_time::fits_notation(date[7], 7));
            assert(crate::exif_time::fits_notation(date[8], 8));
            assert(crate::exif_time::fits_notation(date[9], 9));
            assert(crate::exif_time::fits_notation(date[10], 10));
            assert(crate::exif_time::fits_notation(date[11], 11));
            assert(crate::exif_time::fits_notation(date[12], 12));
            assert(crate::exif_time::fits_notation(date[13], 13));
            assert(crate::exif_time::fits_notation(date[14], 14));
            assert(crate::exif_time::fits_notation(date[15], 15));
            assert(crate::exif_time::fits_notation(date[16], 16));
            assert(crate::exif_time::fits_notation(date[17], 17));
            assert(crate::exif_time::fits_notation(date[18], 18));
        }
    }
    if written {
        lemma_two_digits(date, 5);
        lemma_two_digits(date, 8);
        lemma_two_digits(date, 11);
        lemma_two_digits(date, 14);
        lemma_two_digits(date, 17);
        lemma_two_digits(date, 0);
        let part = date.subrange(0, 4);
        let three = part.drop_last();
        let two = three.drop_last();
        assert(two =~= date.subrange(0, 2));
        assert(part.last() == date[3] && three.last() == date[2]);
        assert(text::digits_value(three) == text::digits_value(two) * 10 + (date[2] as u32 - 48));
        assert(crate::exif_time::number_at(date, 0, 4) == two_digits(date, 0) * 100 + two_digits(
            date,
            2,
        ));
    }
}

/// The steps that bring an older index up to date are the versions after its
/// own, up to the present one, in order.
pub proof fn law_upgrades_go_one_version_at_a_time(version: i64, k: int)
    requires
        1 <= version <= 8,
    ensures
        settings::upgrade_steps(version).len() == 8 - version,
        0 <= k < 8 - version ==> settings::upgrade_steps(version)[k] == version + 1 + k,
{
}

/// The log of a scan counts every failure and shows the last twenty.
pub proof fn law_the_log_shows_the_last_twenty(failures: Seq<(Seq<char>, Seq<char>)>, k: int)
    ensures
        ({
            let log = crate::progress::ErrorLogView::of(failures);
            let n = failures.len() as int;
            &&& log.total == n
            &&& log.recent.len() == (if n < 20 { n } else { 20 })
            &&& 0 <= k < log.recent.len() ==> log.recent[k] == failures[n - log.recent.len() + k]
        }),
{
}

/// A check of pairs runs on one worker to six, four where nothing is known of
/// the machine, and never on more workers than there are pairs.
pub proof fn law_pairs_are_checked_by_a_few_workers(parallelism: Option<usize>, pairs: nat)
    ensures
        1 <= crate::photos::worker_count(parallelism, pairs) <= 6,
        pairs > 0 ==> crate::photos::worker_count(parallelism, pairs) <= pairs,
        pairs >= 6 && parallelism is Some && 1 <= parallelism->0 <= 6
            ==> crate::photos::worker_count(parallelism, pairs) == parallelism->0,
        pairs >= 6 && parallelism is None ==> crate::photos::worker_count(parallelism, pairs) == 4,
{
}

// ---------------------------------------------------------------------------
// Places in the recycle bin
// ---------------------------------------------------------------------------

/// A name that can be one segment of a path on this platform.
pub open spec fn is_segment(platform: Platform, name: Seq<char>) -> bool {
    &&& name.len() > 0
    &&& name != "."@
    &&& forall|k: int| 0 <= k < name.len() ==> !platform.separates(#[trigger] name[k])
}

proof fn lemma_segments_are_names(platform: Platform, path: Seq<char>, k: int)
    requires
        0 <= k < paths::segments(platform, path).len(),
    ensures
        is_segment(platform, paths::segments(platform, path)[k]),
    decreases path.len(),
{
    paths::lemma_last_separator(platform, path);
    match paths::last_separator(platform, path) {
        None => {},
        Some(at) => {
            let before = paths::segments(platform, path.take(at));
            let last = path.skip(at + 1);
            if k < before.len() {
                lemma_segments_are_names(platform, path.take(at), k);
            } else {
                assert forall|m: int| 0 <= m < last.len() implies !platform.separates(
                    #[trigger] last[m],
                ) by {
                    assert(last[m] == path[at + 1 + m]);
                }
            }
        },
    }
}

proof fn lemma_inside_adds_a_segment(platform: Platform, directory: Seq<char>, name: Seq<char>)
    requires
        is_segment(platform, name),
        !paths::is_drive(platform, directory),
    ensures
        paths::segments(platform, paths::inside(platform, directory, name)) == paths::segments(
            platform,
            directory,
        ).push(name),
{
    let path = paths::inside(platform, directory, name);
    let up = paths::segments(platform, directory);
    paths::lemma_last_separator(platform, name);
    assert(paths::segments(platform, name) =~= seq![name]);
    if directory.len() == 0 {
        assert(path =~= name);
        paths::lemma_last_separator(platform, directory);
        assert(up =~= Seq::<Seq<char>>::empty());
        assert(up.push(name) =~= seq![name]);
    } else if platform.separates(directory.last()) {
        let front = directory.drop_last();
        let c = directory.last();
        assert(front.push(c) =~= directory);
        assert(path =~= front.push(c) + name);
        law_segments_are_separated(platform, front, c, name);
        law_segments_are_separated(platform, front, c, Seq::empty());
        assert(front.push(c) + Seq::<char>::empty() =~= directory);
        paths::lemma_last_separator(platform, Seq::empty());
        assert(paths::segments(platform, Seq::empty()) =~= Seq::<Seq<char>>::empty());
        assert(up =~= paths::segments(platform, front));
        assert(up.push(name) =~= paths::segments(platform, front) + seq![name]);
    } else {
        let c = platform.separator();
        assert(path =~= directory.push(c) + name);
        law_segments_are_separated(platform, directory, c, name);
        assert(up.push(name) =~= up + seq![name]);
    }
}

proof fn lemma_number_is_a_segment(platform: Platform, n: int)
    ensures
        is_segment(platform, text::decimal(n)),
        forall|k: int|
            0 <= k < text::decimal(n).len() ==> '0' <= #[trigger] text::decimal(n)[k] <= '9'
                || text::decimal(n)[k] == '-',
{
    let m = if n < 0 { (-n) as nat } else { n as nat };
    lemma_digits(m);
    let shown = text::decimal(n);
    let digits = text::digits(m);
    assert forall|k: int| 0 <= k < shown.len() implies ('0' <= #[trigger] shown[k] <= '9'
        || shown[k] == '-') by {
        let at = if n < 0 { k - 1 } else { k };
        if at >= 0 {
            assert(shown[k] == digits[at]);
            assert(text::is_digit(digits[at]));
        }
    }
    reveal_strlit(".");
    assert("."@[0] == '.');
    if shown == "."@ {
        assert(shown[0] == '.');
    }
}

proof fn lemma_bin_path(
    index: IndexView,
    platform: Platform,
    now: i64,
    id: i64,
    source: Seq<char>,
)
    requires
        crate::actions::bin_path(index, platform, now, id, source) is Ok,
        !paths::is_drive(platform, index.settings["trash_path"@]),
    ensures
        ({
            let place = crate::actions::bin_path(index, platform, now, id, source)->Ok_0;
            let up = paths::segments(platform, index.settings["trash_path"@]);
            let all = paths::segments(platform, place);
            &&& all.len() == up.len() + 4
            &&& up.is_prefix_of(all)
            &&& all[all.len() - 2] == text::decimal(id as int)
            &&& Some(all.last()) == paths::file_name_of(platform, source)
        }),
{
    let root = index.settings["trash_path"@];
    let name = paths::file_name_of(platform, source)->0;
    let parts = paths::segments(platform, source);
    lemma_segments_are_names(platform, source, parts.len() - 1);
    let batch = text::decimal(now as int) + "-"@ + text::decimal(id as int);
    reveal_strlit("-");
    reveal_strlit("files");
    reveal_strlit(".");
    lemma_number_is_a_segment(platform, now as int);
    lemma_number_is_a_segment(platform, id as int);
    let a = text::decimal(now as int);
    let b = text::decimal(id as int);
    assert(is_segment(platform, batch)) by {
        assert forall|k: int| 0 <= k < batch.len() implies !platform.separates(
            #[trigger] batch[k],
        ) by {
            if k < a.len() {
                assert(batch[k] == a[k]);
            } else if k > a.len() {
                assert(batch[k] == b[k - a.len() - 1]);
            } else {
                assert(batch[k] == '-');
            }
        }
        assert(batch.len() > 1);
    }
    assert(is_segment(platform, "files"@)) by {
        assert("files"@.len() == 5);
        assert("files"@[0] == 'f' && "files"@[1] == 'i' && "files"@[2] == 'l' && "files"@[3] == 'e'
            && "files"@[4] == 's');
    }
    let top = paths::inside(platform, root, batch);
    let files = paths::inside(platform, top, "files"@);
    let own = paths::inside(platform, files, b);
    lemma_inside_adds_a_segment(platform, root, batch);
    assert(!paths::is_drive(platform, top)) by {
        assert(top.len() >= batch.len() && batch.len() >= 3);
    }
    lemma_inside_adds_a_segment(platform, top, "files"@);
    assert(!paths::is_drive(platform, files)) by {
        assert(files.len() >= 5);
    }
    lemma_inside_adds_a_segment(platform, files, b);
    assert(!paths::is_drive(platform, own)) by {
        assert(own.len() >= files.len());
    }
    lemma_inside_adds_a_segment(platform, own, name);
    let up = paths::segments(platform, root);
    let all = paths::segments(platform, paths::inside(platform, own, name));
    assert(all =~= up.push(batch).push("files"@).push(b).push(name));
    assert(up =~= all.take(up.len() as int));
}

/// A file goes to a place of its own in the bin: below the bin, under its own
/// name, and never where a file with another id goes.
pub proof fn law_recycled_files_get_places_of_their_own(
    index: IndexView,
    platform: Platform,
    now: i64,
    id: i64,
    source: Seq<char>,
    later: i64,
    other: i64,
    other_source: Seq<char>,
)
    requires
        index.settings.contains_key("trash_path"@),
        !paths::is_drive(platform, index.settings["trash_path"@]),
        crate::actions::bin_path(index, platform, now, id, source) is Ok,
    ensures
        ({
            let place = crate::actions::bin_path(index, platform, now, id, source)->Ok_0;
            &&& paths::lies_under(platform, place, index.settings["trash_path"@])
            &&& paths::segments(platform, place).last() == paths::segments(platform, source).last()
            &&& crate::actions::bin_path(index, platform, later, other, other_source) matches Ok(
                elsewhere,
            ) ==> id != other ==> place != elsewhere
        }),
{
    lemma_bin_path(index, platform, now, id, source);
    if crate::actions::bin_path(index, platform, later, other, other_source) is Ok && id != other {
        lemma_bin_path(index, platform, later, other, other_source);
        law_a_written_number_reads_back(id);
        law_a_written_number_reads_back(other);
    }
}

/// Nothing is done to an index that cannot be used; to one that can, what was
/// asked for is done once it is up to date.
pub proof fn law_an_unusable_index_is_left_alone(
    before: IndexView,
    step: spec_fn(IndexView) -> (IndexView, crate::actions::ActionView),
)
    ensures
        settings::opened(before) is Err ==> crate::removal::opening(before, step) == (
            before,
            crate::actions::ActionView::Finished { result: Err(settings::opened(before)->Err_0) },
        ),
        settings::opened(before) is Ok ==> crate::removal::opening(before, step) == step(
            settings::opened(before)->Ok_0,
        ),
{
}

/// A record of the change journal: it is of the second version, sixty bytes
/// long at least, and its name lies within it. Its numbers stand at fixed
/// places.
pub proof fn law_journal_records_are_read_at_fixed_places(bytes: Seq<u8>)
    ensures
        usn::record_in(bytes) is Some <==> {
            &&& bytes.len() >= 60
            &&& usn::little_endian(bytes, 4, 2) == 2
            &&& usn::little_endian(bytes, 58, 2) + usn::little_endian(bytes, 56, 2) <= bytes.len()
        },
        usn::record_in(bytes) matches Some(record) ==> {
            &&& record.frn == usn::little_endian(bytes, 8, 8) as u64
            &&& record.parent == usn::little_endian(bytes, 16, 8) as u64
            &&& record.attributes == usn::little_endian(bytes, 52, 4) as u32
        },
{
}

} // verus!
