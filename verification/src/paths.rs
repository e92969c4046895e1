//! Paths as texts: their segments, the protection and exclusion rules, and
//! the names that recycled, moved and linked files get.
use crate::outside::lowercased;
use crate::text::{
    chars_of, has_part, has_prefix, joined, replace_chars, same_chars, same_text, slice_of,
    string_of, text_contains, trim_text,
};
use crate::{outside, text};
use vstd::prelude::*;

verus! {

/// The platform whose path conventions apply. Letter case carries no meaning
/// in Windows paths, and a backslash separates there too.
#[derive(Clone, Copy, Debug, PartialEq, Eq, Structural)]
pub enum Platform {
    Posix,
    Windows,
}

impl Platform {
    pub open spec fn separates(self, c: char) -> bool {
        c == '/' || (self == Platform::Windows && c == '\\')
    }

    pub open spec fn separator(self) -> char {
        match self {
            Platform::Posix => '/',
            Platform::Windows => '\\',
        }
    }
}

fn is_separator(platform: Platform, c: char) -> (yes: bool)
    ensures
        yes == platform.separates(c),
{
    c == '/' || (platform == Platform::Windows && c == '\\')
}

// ---------------------------------------------------------------------------
// Segments
// ---------------------------------------------------------------------------

/// A segment that names something: neither empty nor the current directory.
pub open spec fn names_something(segment: Seq<char>) -> bool {
    segment.len() > 0 && segment != "."@
}

/// The named segments of a path, from its root to its last part.
pub open spec fn segments(platform: Platform, path: Seq<char>) -> Seq<Seq<char>>
    decreases path.len(),
{
    match last_separator(platform, path) {
        None => if names_something(path) {
            seq![path]
        } else {
            Seq::empty()
        },
        Some(at) => {
            proof {
                lemma_last_separator(platform, path);
            }
            let before = segments(platform, path.take(at));
            let last = path.skip(at + 1);
            if names_something(last) {
                before.push(last)
            } else {
                before
            }
        },
    }
}

/// Position of the last separator.
pub open spec fn last_separator(platform: Platform, path: Seq<char>) -> Option<int>
    decreases path.len(),
{
    if path.len() == 0 {
        None
    } else if platform.separates(path.last()) {
        Some(path.len() - 1)
    } else {
        last_separator(platform, path.drop_last())
    }
}

pub proof fn lemma_last_separator(platform: Platform, path: Seq<char>)
    ensures
        match last_separator(platform, path) {
            Some(at) => {
                &&& 0 <= at < path.len()
                &&& platform.separates(path[at])
                &&& forall|k: int| at < k < path.len() ==> !platform.separates(#[trigger] path[k])
            },
            None => forall|k: int| 0 <= k < path.len() ==> !platform.separates(#[trigger] path[k]),
        },
    decreases path.len(),
{
    if path.len() > 0 && !platform.separates(path.last()) {
        let front = path.drop_last();
        lemma_last_separator(platform, front);
        assert forall|k: int| 0 <= k < path.len() && k < path.len() - 1 implies path[k] == front[k] by {}
        match last_separator(platform, front) {
            Some(at) => {
                assert forall|k: int| at < k < path.len() implies !platform.separates(
                    #[trigger] path[k],
                ) by {
                    if k < path.len() - 1 {
                        assert(front[k] == path[k]);
                    }
                }
            },
            None => {
                assert forall|k: int| 0 <= k < path.len() implies !platform.separates(
                    #[trigger] path[k],
                ) by {
                    if k < path.len() - 1 {
                        assert(front[k] == path[k]);
                    }
                }
            },
        }
    }
}

pub fn find_last_separator(platform: Platform, path: &[char]) -> (found: Option<usize>)
    ensures
        match found {
            Some(at) => at < path@.len() && last_separator(platform, path@) == Some(at as int),
            None => last_separator(platform, path@) is None,
        },
{
    let mut n: usize = path.len();
    proof {
        assert(path@.take(n as int) =~= path@);
    }
    while n > 0
        invariant
            n <= path@.len(),
            last_separator(platform, path@) == last_separator(platform, path@.take(n as int)),
        decreases n,
    {
        proof {
            assert(path@.take(n as int).last() == path@[n - 1]);
            assert(path@.take(n as int).drop_last() =~= path@.take(n - 1));
        }
        if is_separator(platform, path[n - 1]) {
            return Some(n - 1);
        }
        n = n - 1;
    }
    None
}

pub open spec fn char_lists(list: Seq<Vec<char>>) -> Seq<Seq<char>> {
    list.map_values(|part: Vec<char>| part@)
}

fn segment_named(segment: &[char]) -> (yes: bool)
    ensures
        yes == names_something(segment@),
{
    proof {
        reveal_strlit(".");
    }
    if segment.len() == 1 && segment[0] == '.' {
        proof {
            assert(segment@ =~= "."@);
        }
        false
    } else {
        segment.len() > 0
    }
}

fn split_segments(platform: Platform, path: &[char]) -> (out: Vec<Vec<char>>)
    ensures
        char_lists(out@) == segments(platform, path@),
    decreases path@.len(),
{
    match find_last_separator(platform, path) {
        None => {
            let mut out: Vec<Vec<char>> = Vec::new();
            if segment_named(path) {
                out.push(slice_of(path, 0, path.len()));
                proof {
                    assert(out@[0]@ =~= path@);
                    assert(char_lists(out@) =~= seq![path@]);
                }
            } else {
                proof {
                    assert(char_lists(out@) =~= Seq::<Seq<char>>::empty());
                }
            }
            out
        },
        Some(at) => {
            let n = path.len();
            let front = slice_of(path, 0, at);
            let last = slice_of(path, at + 1, n);
            proof {
                assert(front@ =~= path@.take(at as int));
                assert(last@ =~= path@.skip(at + 1));
            }
            let mut out = split_segments(platform, front.as_slice());
            if segment_named(last.as_slice()) {
                let ghost before = out@;
                out.push(last);
                proof {
                    assert(char_lists(out@) =~= char_lists(before).push(path@.skip(at + 1)));
                }
            }
            out
        },
    }
}

/// `path` is `base` or lies below it, segment by segment.
pub open spec fn lies_under(platform: Platform, path: Seq<char>, base: Seq<char>) -> bool {
    segments(platform, base).is_prefix_of(segments(platform, path))
}

/// Is the absolute path `path` equal to `base` or below it?
pub fn path_under(platform: Platform, path: &str, base: &str) -> (yes: bool)
    ensures
        yes == lies_under(platform, path@, base@),
{
    let p = chars_of(path);
    let b = chars_of(base);
    let whole = split_segments(platform, p.as_slice());
    let front = split_segments(platform, b.as_slice());
    let ghost ws = char_lists(whole@);
    let ghost fs = char_lists(front@);
    if front.len() > whole.len() {
        return false;
    }
    for i in 0..front.len()
        invariant
            ws == char_lists(whole@),
            fs == char_lists(front@),
            ws == segments(platform, path@),
            fs == segments(platform, base@),
            front@.len() <= whole@.len(),
            forall|k: int| 0 <= k < i ==> fs[k] == ws[k],
    {
        if !same_chars(front[i].as_slice(), whole[i].as_slice()) {
            proof {
                assert(fs[i as int] != ws[i as int]);
                assert(ws.subrange(0, fs.len() as int)[i as int] != fs[i as int]);
            }
            return false;
        }
    }
    proof {
        assert(fs =~= ws.subrange(0, fs.len() as int));
    }
    true
}

/// A drive such as `C:`.
pub open spec fn is_drive(platform: Platform, segment: Seq<char>) -> bool {
    platform == Platform::Windows && segment.len() == 2 && segment[1] == ':'
}

/// The last part of the path of a file; none where the path names no file.
pub open spec fn file_name_of(platform: Platform, path: Seq<char>) -> Option<Seq<char>> {
    let parts = segments(platform, path);
    if parts.len() == 0 || parts.last() == ".."@ || is_drive(platform, parts.last()) {
        None
    } else {
        Some(parts.last())
    }
}

pub fn file_name(platform: Platform, path: &str) -> (name: Option<String>)
    ensures
        crate::model::text_option(name) == file_name_of(platform, path@),
{
    let chars = chars_of(path);
    let parts = split_segments(platform, chars.as_slice());
    let n = parts.len();
    if n == 0 {
        return None;
    }
    proof {
        assert(char_lists(parts@).last() == parts@[n - 1]@);
    }
    let name = string_of(parts[n - 1].as_slice());
    if same_text(name.as_str(), "..") {
        return None;
    }
    if platform == Platform::Windows && parts[n - 1].len() == 2 && parts[n - 1][1] == ':' {
        return None;
    }
    Some(name)
}

/// Everything in front of the last separator, as a text of its own.
pub open spec fn parent_of(platform: Platform, path: Seq<char>) -> Option<Seq<char>> {
    match last_separator(platform, path) {
        Some(at) => Some(path.take(at)),
        None => None,
    }
}

/// Text in front of the last separator of either kind.
pub fn parent_text(path: &str) -> (parent: Option<String>)
    ensures
        crate::model::text_option(parent) == parent_of(Platform::Windows, path@),
{
    let chars = chars_of(path);
    match find_last_separator(Platform::Windows, chars.as_slice()) {
        Some(at) => {
            let front = slice_of(chars.as_slice(), 0, at);
            proof {
                assert(front@ =~= path@.take(at as int));
            }
            Some(string_of(front.as_slice()))
        },
        None => None,
    }
}

/// The directory that a path lies in. The root lies in none.
pub open spec fn directory_of(platform: Platform, path: Seq<char>) -> Option<Seq<char>> {
    match last_separator(platform, path) {
        None => if path.len() == 0 {
            None
        } else {
            Some(Seq::empty())
        },
        Some(at) => if path.len() == 1 {
            None
        } else if at == 0 {
            Some(path.take(1))
        } else {
            Some(path.take(at))
        },
    }
}

/// The directories above `path`, nearest first, up to but not including
/// `root`, or all of them where `root` is not above it.
pub open spec fn directories_above(platform: Platform, path: Seq<char>, root: Seq<char>) -> Seq<
    Seq<char>,
>
    decreases path.len(),
{
    match directory_of(platform, path) {
        None => Seq::empty(),
        Some(directory) => {
            proof {
                lemma_directory_shorter(platform, path);
            }
            if segments(platform, directory) == segments(platform, root) {
                Seq::empty()
            } else {
                seq![directory] + directories_above(platform, directory, root)
            }
        },
    }
}

pub proof fn lemma_directory_shorter(platform: Platform, path: Seq<char>)
    ensures
        match directory_of(platform, path) {
            None => true,
            Some(directory) => directory.len() < path.len(),
        },
{
    lemma_last_separator(platform, path);
}

fn same_segments(platform: Platform, a: &str, b: &str) -> (same: bool)
    ensures
        same == (segments(platform, a@) == segments(platform, b@)),
{
    let below = path_under(platform, a, b);
    let above = path_under(platform, b, a);
    proof {
        let x = segments(platform, a@);
        let y = segments(platform, b@);
        if x.is_prefix_of(y) && y.is_prefix_of(x) {
            assert(x =~= y);
        }
        assert(x.subrange(0, x.len() as int) =~= x);
    }
    below && above
}

fn directory_text(platform: Platform, path: &str) -> (directory: Option<String>)
    ensures
        crate::model::text_option(directory) == directory_of(platform, path@),
{
    let chars = chars_of(path);
    let n = chars.len();
    match find_last_separator(platform, chars.as_slice()) {
        None => if n == 0 {
            None
        } else {
            let none = String::new();
            proof {
                assert(none@ =~= Seq::<char>::empty());
            }
            Some(none)
        },
        Some(at) => if n == 1 {
            None
        } else {
            let to: usize = if at == 0 {
                1
            } else {
                at
            };
            let front = slice_of(chars.as_slice(), 0, to);
            proof {
                assert(front@ =~= path@.take(to as int));
            }
            Some(string_of(front.as_slice()))
        },
    }
}

/// The directories above a file, nearest first, up to the recycle bin's root.
pub fn parent_directories(platform: Platform, path: &str, root: &str) -> (list: Vec<String>)
    ensures
        outside::texts(list@) == directories_above(platform, path@, root@),
{
    let mut list: Vec<String> = Vec::new();
    let mut current = path.to_string();
    let mut open = true;
    let ghost whole = directories_above(platform, path@, root@);
    proof {
        assert(outside::texts(list@) + whole =~= whole);
    }
    while open
        invariant
            open ==> outside::texts(list@) + directories_above(platform, current@, root@) == whole,
            !open ==> outside::texts(list@) == whole,
        decreases current@.len(), (if open { 1int } else { 0 }),
    {
        proof {
            lemma_directory_shorter(platform, current@);
        }
        match directory_text(platform, current.as_str()) {
            None => {
                proof {
                    assert(outside::texts(list@) + Seq::<Seq<char>>::empty() =~= outside::texts(
                        list@,
                    ));
                }
                open = false;
            },
            Some(directory) => {
                if same_segments(platform, directory.as_str(), root) {
                    proof {
                        assert(outside::texts(list@) + Seq::<Seq<char>>::empty() =~= outside::texts(
                            list@,
                        ));
                    }
                    open = false;
                } else {
                    let ghost before = list@;
                    list.push(directory.clone());
                    proof {
                        assert(outside::texts(list@) =~= outside::texts(before).push(directory@));
                        let rest = directories_above(platform, directory@, root@);
                        assert(outside::texts(before) + (seq![directory@] + rest) =~= outside::texts(
                            list@,
                        ) + rest);
                    }
                    current = directory;
                }
            },
        }
    }
    list
}

/// `name` inside the directory `dir`.
pub open spec fn inside(platform: Platform, dir: Seq<char>, name: Seq<char>) -> Seq<char> {
    if dir.len() == 0 || platform.separates(dir.last()) || is_drive(platform, dir) {
        dir + name
    } else {
        dir + seq![platform.separator()] + name
    }
}

pub fn join_path(platform: Platform, dir: &str, name: &str) -> (path: String)
    ensures
        path@ == inside(platform, dir@, name@),
{
    let chars = chars_of(dir);
    let n = chars.len();
    let drive = platform == Platform::Windows && n == 2 && chars[1] == ':';
    if n == 0 || is_separator(platform, chars[n - 1]) || drive {
        joined(dir, name)
    } else {
        let mut head = dir.to_string();
        match platform {
            Platform::Posix => head.push('/'),
            Platform::Windows => head.push('\\'),
        }
        proof {
            assert(head@ =~= dir@ + seq![platform.separator()]);
        }
        joined(head.as_str(), name)
    }
}

/// The path lies in the directory, going by its text: it begins with the
/// directory, and a separator of either kind follows.
pub open spec fn inside_text(path: Seq<char>, directory: Seq<char>) -> bool {
    let n = directory.len() as int;
    &&& text::starts_with(path, directory)
    &&& path.len() > n
    &&& Platform::Windows.separates(path[n]) || (n > 0 && Platform::Windows.separates(
        directory[n - 1],
    ))
}

pub fn lies_inside(path: &str, directory: &str) -> (yes: bool)
    ensures
        yes == inside_text(path@, directory@),
{
    let p = chars_of(path);
    let d = chars_of(directory);
    let n = d.len();
    has_prefix(p.as_slice(), d.as_slice()) && p.len() > n && (is_separator(Platform::Windows, p[n])
        || (n > 0 && is_separator(Platform::Windows, d[n - 1])))
}

/// Position of the last occurrence of a character.
pub open spec fn last_position(value: Seq<char>, c: char) -> Option<int>
    decreases value.len(),
{
    if value.len() == 0 {
        None
    } else if value.last() == c {
        Some(value.len() - 1)
    } else {
        last_position(value.drop_last(), c)
    }
}

/// The part of a file name behind its last dot; a leading dot starts none.
pub open spec fn extension_of(name: Seq<char>) -> Option<Seq<char>> {
    match last_position(name, '.') {
        Some(at) => if at > 0 {
            Some(name.skip(at + 1))
        } else {
            None
        },
        None => None,
    }
}

fn find_last(value: &[char], c: char) -> (found: Option<usize>)
    ensures
        match found {
            Some(at) => at < value@.len() && last_position(value@, c) == Some(at as int),
            None => last_position(value@, c) is None,
        },
{
    let mut n: usize = value.len();
    proof {
        assert(value@.take(n as int) =~= value@);
    }
    while n > 0
        invariant
            n <= value@.len(),
            last_position(value@, c) == last_position(value@.take(n as int), c),
        decreases n,
    {
        proof {
            assert(value@.take(n as int).last() == value@[n - 1]);
            assert(value@.take(n as int).drop_last() =~= value@.take(n - 1));
        }
        if value[n - 1] == c {
            return Some(n - 1);
        }
        n = n - 1;
    }
    None
}

/// A file name cut in front of its extension's dot: the name proper and the
/// extension with its dot, which is empty where there is none.
pub open spec fn stem_and_suffix(name: Seq<char>) -> (Seq<char>, Seq<char>) {
    match last_position(name, '.') {
        Some(at) => if at > 0 {
            (name.take(at), name.skip(at))
        } else {
            (name, Seq::empty())
        },
        None => (name, Seq::empty()),
    }
}

pub fn split_extension(name: &str) -> (parts: (String, String))
    ensures
        (parts.0@, parts.1@) == stem_and_suffix(name@),
        parts.0@ + parts.1@ == name@,
{
    let chars = chars_of(name);
    match find_last(chars.as_slice(), '.') {
        Some(at) => {
            if at > 0 {
                let stem = slice_of(chars.as_slice(), 0, at);
                let suffix = slice_of(chars.as_slice(), at, chars.len());
                proof {
                    assert(stem@ =~= name@.take(at as int));
                    assert(suffix@ =~= name@.skip(at as int));
                    assert(stem@ + suffix@ =~= name@);
                }
                return (string_of(stem.as_slice()), string_of(suffix.as_slice()));
            }
        },
        None => {},
    }
    let none = String::new();
    proof {
        assert(none@ =~= Seq::<char>::empty());
        assert(name@ + none@ =~= name@);
    }
    (name.to_string(), none)
}

/// The extension of the file at `path`, with ASCII capitals lowered.
pub open spec fn folded_extension(platform: Platform, path: Seq<char>) -> Option<Seq<char>> {
    match file_name_of(platform, path) {
        Some(name) => match extension_of(name) {
            Some(extension) => Some(text::lower(extension)),
            None => None,
        },
        None => None,
    }
}

pub fn lower_extension(platform: Platform, path: &str) -> (extension: Option<String>)
    ensures
        crate::model::text_option(extension) == folded_extension(platform, path@),
{
    match file_name(platform, path) {
        None => None,
        Some(name) => {
            let chars = chars_of(name.as_str());
            match find_last(chars.as_slice(), '.') {
                Some(at) => {
                    if at > 0 {
                        let n = chars.len();
                        let tail = slice_of(chars.as_slice(), at + 1, n);
                        proof {
                            assert(tail@ =~= chars@.skip(at + 1));
                        }
                        let low = text::lower_chars(tail.as_slice());
                        Some(string_of(low.as_slice()))
                    } else {
                        None
                    }
                },
                None => None,
            }
        },
    }
}

/// The extensions of images that get a fingerprint.
pub open spec fn is_image_extension(extension: Seq<char>) -> bool {
    ||| extension == "jpg"@
    ||| extension == "jpeg"@
    ||| extension == "png"@
    ||| extension == "gif"@
    ||| extension == "webp"@
    ||| extension == "bmp"@
    ||| extension == "tif"@
    ||| extension == "tiff"@
}

pub open spec fn image_path(platform: Platform, path: Seq<char>) -> bool {
    match folded_extension(platform, path) {
        Some(extension) => is_image_extension(extension),
        None => false,
    }
}

/// Does the path name an image that gets a fingerprint?
pub fn is_image_path(platform: Platform, path: &str) -> (yes: bool)
    ensures
        yes == image_path(platform, path@),
{
    match lower_extension(platform, path) {
        Some(extension) => {
            let e = extension.as_str();
            same_text(e, "jpg") || same_text(e, "jpeg") || same_text(e, "png") || same_text(e, "gif")
                || same_text(e, "webp") || same_text(e, "bmp") || same_text(e, "tif") || same_text(
                e,
                "tiff",
            )
        },
        None => false,
    }
}

// ---------------------------------------------------------------------------
// Protection and exclusion rules
// ---------------------------------------------------------------------------

/// A path or rule as rules compare it: trimmed, with forward slashes, and
/// without letter case on Windows.
pub open spec fn normalized(platform: Platform, value: Seq<char>) -> Seq<char> {
    let slashed = text::replaced(text::trimmed(value), '\\', seq!['/']);
    match platform {
        Platform::Posix => slashed,
        Platform::Windows => outside::lowercase(slashed),
    }
}

pub fn normalize_path_text(platform: Platform, value: &str) -> (out: String)
    ensures
        out@ == normalized(platform, value@),
{
    let trimmed = trim_text(value);
    let chars = chars_of(trimmed.as_str());
    let slash: Vec<char> = vec!['/'];
    proof {
        assert(slash@ =~= seq!['/']);
    }
    let replaced = replace_chars(chars.as_slice(), '\\', slash.as_slice());
    let slashed = string_of(replaced.as_slice());
    match platform {
        Platform::Posix => slashed,
        Platform::Windows => lowercased(slashed.as_str()),
    }
}

/// Some rule, once normalized, is not empty and occurs in the path.
pub open spec fn protected_by(platform: Platform, path: Seq<char>, rules: Seq<Seq<char>>) -> bool {
    exists|i: int|
        0 <= i < rules.len() && normalized(platform, #[trigger] rules[i]).len() > 0
            && text::contains(normalized(platform, path), normalized(platform, rules[i]))
}

/// Rules match as substrings with separators normalized, so a rule stored as
/// `D:\backup` also covers `D:/backup/...`. Covering too much is safe; losing
/// a file that a rule covered is not.
pub fn is_protected_path(platform: Platform, path_text: &str, rules: &[String]) -> (yes: bool)
    ensures
        yes == protected_by(platform, path_text@, outside::texts(rules@)),
{
    let path = normalize_path_text(platform, path_text);
    let whole = chars_of(path.as_str());
    let ghost rule_texts = outside::texts(rules@);
    for i in 0..rules.len()
        invariant
            whole@ == normalized(platform, path_text@),
            rule_texts == outside::texts(rules@),
            forall|k: int|
                0 <= k < i ==> !(normalized(platform, #[trigger] rule_texts[k]).len() > 0
                    && text::contains(
                    normalized(platform, path_text@),
                    normalized(platform, rule_texts[k]),
                )),
    {
        let rule = normalize_path_text(platform, rules[i].as_str());
        let part = chars_of(rule.as_str());
        proof {
            assert(rule_texts[i as int] == rules@[i as int]@);
        }
        if part.len() > 0 && has_part(whole.as_slice(), part.as_slice()) {
            return true;
        }
    }
    false
}

/// `rule` occurs in the path once both are normalized.
pub fn contains_normalized(platform: Platform, path_text: &str, rule: &str) -> (yes: bool)
    ensures
        yes == text::contains(normalized(platform, path_text@), normalized(platform, rule@)),
{
    let path = normalize_path_text(platform, path_text);
    let part = normalize_path_text(platform, rule);
    text_contains(path.as_str(), part.as_str())
}

/// Some exclusion rule that is not blank occurs in the path.
pub open spec fn excluded_by(platform: Platform, path: Seq<char>, rules: Seq<Seq<char>>) -> bool {
    exists|i: int|
        0 <= i < rules.len() && text::trimmed(#[trigger] rules[i]).len() > 0 && text::contains(
            normalized(platform, path),
            normalized(platform, rules[i]),
        )
}

/// Directories that no scan enters, whatever the rules say.
pub open spec fn in_system_directory(path: Seq<char>) -> bool {
    ||| text::contains(path, "/.git/"@)
    ||| text::contains(path, "\\.git\\"@)
    ||| text::contains(path, "/node_modules/"@)
    ||| text::contains(path, "\\node_modules\\"@)
    ||| text::contains(path, "/$RECYCLE.BIN/"@)
    ||| text::contains(path, "\\$RECYCLE.BIN\\"@)
}

/// The scan leaves this path out.
pub open spec fn excluded(
    platform: Platform,
    path: Seq<char>,
    trash: Seq<char>,
    exclude: Seq<Seq<char>>,
) -> bool {
    ||| lies_under(platform, path, trash)
    ||| in_system_directory(path)
    ||| excluded_by(platform, path, exclude)
}

/// Does the scan leave this path out: recycle bin, system directories, or a
/// rule of the user?
pub fn is_excluded(platform: Platform, path: &str, trash: &str, exclude: &[String]) -> (yes: bool)
    ensures
        yes == excluded(platform, path@, trash@, outside::texts(exclude@)),
{
    if path_under(platform, path, trash) {
        return true;
    }
    if text_contains(path, "/.git/") || text_contains(path, "\\.git\\") || text_contains(
        path,
        "/node_modules/",
    ) || text_contains(path, "\\node_modules\\") || text_contains(path, "/$RECYCLE.BIN/")
        || text_contains(path, "\\$RECYCLE.BIN\\") {
        return true;
    }
    let ghost rules = outside::texts(exclude@);
    for i in 0..exclude.len()
        invariant
            rules == outside::texts(exclude@),
            forall|k: int|
                0 <= k < i ==> !(text::trimmed(#[trigger] rules[k]).len() > 0 && text::contains(
                    normalized(platform, path@),
                    normalized(platform, rules[k]),
                )),
    {
        let rule = trim_text(exclude[i].as_str());
        let kept = chars_of(rule.as_str());
        proof {
            assert(rules[i as int] == exclude@[i as int]@);
        }
        if kept.len() > 0 && contains_normalized(platform, path, exclude[i].as_str()) {
            return true;
        }
    }
    false
}

// ---------------------------------------------------------------------------
// Volumes
// ---------------------------------------------------------------------------

/// The first separator of either kind at or behind `from`.
pub open spec fn next_separator(path: Seq<char>, from: int) -> int
    decreases path.len() - from,
{
    if from >= path.len() || Platform::Windows.separates(path[from]) {
        from
    } else {
        next_separator(path, from + 1)
    }
}

/// Server and share at the start of `rest`, joined by a backslash. Where
/// there is no separator, all of `rest`.
pub open spec fn share_of(rest: Seq<char>) -> Seq<char> {
    let first = next_separator(rest, 0);
    if first >= rest.len() {
        rest
    } else {
        let second = next_separator(rest, first + 1);
        rest.take(first) + seq!['\\'] + rest.subrange(first + 1, second)
    }
}

/// The volume of a Windows path: its network share, or its drive.
pub open spec fn volume_of(path: Seq<char>) -> Seq<char> {
    if text::starts_with(path, "\\\\?\\UNC\\"@) {
        "\\\\?\\UNC\\"@ + share_of(path.skip("\\\\?\\UNC\\"@.len() as int))
    } else if text::starts_with(path, "\\\\"@) {
        "\\\\"@ + share_of(path.skip("\\\\"@.len() as int))
    } else {
        path.take(if path.len() < 2 {
            path.len() as int
        } else {
            2
        })
    }
}

fn find_separator(path: &[char], from: usize) -> (at: usize)
    requires
        from <= path@.len(),
    ensures
        at == next_separator(path@, from as int),
        from <= at <= path@.len(),
{
    let mut at: usize = from;
    while at < path.len() && !is_separator(Platform::Windows, path[at])
        invariant
            from <= at <= path@.len(),
            next_separator(path@, from as int) == next_separator(path@, at as int),
        decreases path@.len() - at,
    {
        at = at + 1;
    }
    at
}

fn share_text(rest: &[char]) -> (share: String)
    ensures
        share@ == share_of(rest@),
{
    let n = rest.len();
    let first = find_separator(rest, 0);
    if first >= n {
        return string_of(rest);
    }
    let second = find_separator(rest, first + 1);
    let server = slice_of(rest, 0, first);
    let share = slice_of(rest, first + 1, second);
    let mut out = string_of(server.as_slice());
    out.push('\\');
    let tail = string_of(share.as_slice());
    proof {
        assert(server@ =~= rest@.take(first as int));
        assert(out@ =~= rest@.take(first as int) + seq!['\\']);
    }
    joined(out.as_str(), tail.as_str())
}

pub fn volume_prefix(path: &str) -> (volume: String)
    ensures
        volume@ == volume_of(path@),
{
    let chars = chars_of(path);
    let verbatim = chars_of("\\\\?\\UNC\\");
    let unc = chars_of("\\\\");
    if has_prefix(chars.as_slice(), verbatim.as_slice()) {
        let rest = slice_of(chars.as_slice(), verbatim.len(), chars.len());
        proof {
            assert(rest@ =~= path@.skip("\\\\?\\UNC\\"@.len() as int));
        }
        let share = share_text(rest.as_slice());
        joined("\\\\?\\UNC\\", share.as_str())
    } else if has_prefix(chars.as_slice(), unc.as_slice()) {
        let rest = slice_of(chars.as_slice(), unc.len(), chars.len());
        proof {
            assert(rest@ =~= path@.skip("\\\\"@.len() as int));
        }
        let share = share_text(rest.as_slice());
        joined("\\\\", share.as_str())
    } else {
        let n: usize = if chars.len() < 2 {
            chars.len()
        } else {
            2
        };
        let head = slice_of(chars.as_slice(), 0, n);
        proof {
            assert(head@ =~= path@.take(n as int));
        }
        string_of(head.as_slice())
    }
}

/// Do two Windows paths lie on one volume, letter case aside?
pub fn same_volume_text(a: &str, b: &str) -> (same: bool)
    ensures
        same == (text::lower(volume_of(a@)) == text::lower(volume_of(b@))),
{
    let left = volume_prefix(a);
    let right = volume_prefix(b);
    let l = chars_of(left.as_str());
    let r = chars_of(right.as_str());
    let low_l = text::lower_chars(l.as_slice());
    let low_r = text::lower_chars(r.as_slice());
    same_chars(low_l.as_slice(), low_r.as_slice())
}

// ---------------------------------------------------------------------------
// Laws
// ---------------------------------------------------------------------------

/// More rules protect more: adding a rule never uncovers a path.
pub proof fn law_rules_only_add_protection(
    platform: Platform,
    path: Seq<char>,
    rules: Seq<Seq<char>>,
    rule: Seq<char>,
)
    ensures
        protected_by(platform, path, rules) ==> protected_by(platform, path, rules.push(rule)),
{
    if protected_by(platform, path, rules) {
        let i = choose|i: int|
            0 <= i < rules.len() && normalized(platform, #[trigger] rules[i]).len() > 0
                && text::contains(normalized(platform, path), normalized(platform, rules[i]));
        assert(rules.push(rule)[i] == rules[i]);
    }
}

proof fn lemma_replaced_backslash_keeps(value: Seq<char>)
    ensures
        text::replaced(value, '\\', seq!['/']).len() == value.len(),
        forall|k: int|
            0 <= k < value.len() ==> #[trigger] text::replaced(value, '\\', seq!['/'])[k] == (
            if value[k] == '\\' {
                '/'
            } else {
                value[k]
            }),
    decreases value.len(),
{
    if value.len() > 0 {
        lemma_replaced_backslash_keeps(value.drop_last());
    }
}

/// Which separator a path or rule was written with makes no difference to
/// the rules.
pub proof fn law_rules_ignore_separator_kind(platform: Platform, a: Seq<char>, b: Seq<char>)
    requires
        text::replaced(text::trimmed(a), '\\', seq!['/']) == text::replaced(
            text::trimmed(b),
            '\\',
            seq!['/'],
        ),
    ensures
        normalized(platform, a) == normalized(platform, b),
        forall|rules: Seq<Seq<char>>| #[trigger]
            protected_by(platform, a, rules) == protected_by(platform, b, rules),
{
}

/// Normalizing a POSIX path leaves no backslash behind.
pub proof fn law_normalized_has_no_backslash(value: Seq<char>)
    ensures
        forall|k: int|
            0 <= k < normalized(Platform::Posix, value).len() ==> #[trigger] normalized(
                Platform::Posix,
                value,
            )[k] != '\\',
{
    lemma_replaced_backslash_keeps(text::trimmed(value));
}

} // verus!
