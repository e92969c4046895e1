//! Which copy of a content deserves to stay: an advisory score from the name,
//! the directory and the age of a file.
use crate::paths::{find_last_separator, Platform};
use crate::text::{chars_of, has_part, has_prefix, lower_chars, slice_of};
use crate::{paths, text};
use vstd::prelude::*;

verus! {

/// One copy as the review shows it.
pub struct GroupFile {
    pub id: i64,
    pub path: String,
    pub protected: bool,
    pub approved: bool,
    pub modified: i64,
    /// Another copy in the group is a name of the same physical file, so
    /// removing this one frees no space.
    pub hardlinked: bool,
    /// The copy that the score would keep; advisory only.
    pub suggested: bool,
}

#[verifier::ext_equal]
pub struct GroupFileView {
    pub id: i64,
    pub path: Seq<char>,
    pub protected: bool,
    pub approved: bool,
    pub modified: i64,
    pub hardlinked: bool,
    pub suggested: bool,
}

impl View for GroupFile {
    type V = GroupFileView;

    open spec fn view(&self) -> GroupFileView {
        GroupFileView {
            id: self.id,
            path: self.path@,
            protected: self.protected,
            approved: self.approved,
            modified: self.modified,
            hardlinked: self.hardlinked,
            suggested: self.suggested,
        }
    }
}

/// Which copy a group keeps when all others are marked.
#[derive(Clone, Copy, Debug, PartialEq, Eq, Structural)]
pub enum MarkStrategy {
    Newest,
    Oldest,
    Shortest,
    /// The copy with the highest score.
    Scored,
}

/// The part of a path behind its last separator of either kind.
pub open spec fn last_part(path: Seq<char>) -> Seq<char> {
    match paths::last_separator(Platform::Windows, path) {
        Some(at) => path.skip(at + 1),
        None => path,
    }
}

/// Position of the first dot, or the length where there is none.
pub open spec fn first_dot(name: Seq<char>, from: int) -> int
    decreases name.len() - from,
{
    if from >= name.len() || name[from] == '.' {
        from
    } else {
        first_dot(name, from + 1)
    }
}

/// File name up to its first dot.
pub open spec fn stem_of(path: Seq<char>) -> Seq<char> {
    let name = last_part(path);
    name.take(first_dot(name, 0))
}

/// Named as a camera names its files.
pub open spec fn camera_named(stem: Seq<char>) -> bool {
    ||| text::starts_with(stem, "img_"@)
    ||| text::starts_with(stem, "dsc"@)
    ||| text::starts_with(stem, "pxl"@)
    ||| text::starts_with(stem, "mvi"@)
    ||| stem.len() >= 8 && text::all_digits(stem.take(8))
}

/// Named as copies and saved pictures are.
pub open spec fn copy_named(stem: Seq<char>) -> bool {
    ||| text::contains(stem, "(1)"@)
    ||| text::contains(stem, "copy"@)
    ||| text::contains(stem, "副本"@)
    ||| text::contains(stem, "mmexport"@)
    ||| text::contains(stem, "wx_camera"@)
    ||| text::contains(stem, "screenshot"@)
}

/// In a directory where received files end up.
pub open spec fn in_social_directory(path: Seq<char>) -> bool {
    ||| text::contains(path, "wechat"@)
    ||| text::contains(path, "weixin"@)
    ||| text::contains(path, "微信"@)
    ||| text::contains(path, "qq"@)
    ||| text::contains(path, "download"@)
    ||| text::contains(path, "下载"@)
}

/// Division of integers towards zero.
pub open spec fn quotient(a: int, b: int) -> int {
    if a >= 0 {
        a / b
    } else {
        -((-a) / b)
    }
}

/// The score of a copy: camera naming +15, traces of copying −20, and up to
/// +10 for being the earliest of the group.
pub open spec fn keeper_points(path: Seq<char>, modified: int, earliest: int, latest: int) -> int {
    let low = text::lower(path);
    let stem = stem_of(low);
    let span = if latest - earliest > 1 {
        latest - earliest
    } else {
        1
    };
    (if camera_named(stem) {
        15int
    } else {
        0
    }) - (if copy_named(stem) || in_social_directory(low) {
        20int
    } else {
        0
    }) + quotient(10 * (latest - modified), span)
}

fn eight_digits(stem: &[char]) -> (yes: bool)
    ensures
        yes == (stem@.len() >= 8 && text::all_digits(stem@.take(8))),
{
    if stem.len() < 8 {
        return false;
    }
    for i in 0..8usize
        invariant
            stem@.len() >= 8,
            forall|k: int| 0 <= k < i ==> text::is_digit(#[trigger] stem@[k]),
    {
        if stem[i] < '0' || stem[i] > '9' {
            proof {
                assert(!text::is_digit(stem@.take(8)[i as int]));
            }
            return false;
        }
    }
    true
}

fn starts(value: &[char], part: &str) -> (yes: bool)
    ensures
        yes == text::starts_with(value@, part@),
{
    let p = chars_of(part);
    has_prefix(value, p.as_slice())
}

fn holds(value: &[char], part: &str) -> (yes: bool)
    ensures
        yes == text::contains(value@, part@),
{
    let p = chars_of(part);
    has_part(value, p.as_slice())
}

fn stem_chars(low: &[char]) -> (stem: Vec<char>)
    ensures
        stem@ == stem_of(low@),
{
    let n = low.len();
    let start: usize = match find_last_separator(Platform::Windows, low) {
        Some(at) => at + 1,
        None => 0,
    };
    let ghost name = last_part(low@);
    proof {
        assert(name =~= low@.skip(start as int));
    }
    let mut dot: usize = start;
    while dot < n && low[dot] != '.'
        invariant
            start <= dot <= n,
            n == low@.len(),
            name == low@.skip(start as int),
            first_dot(name, 0) == first_dot(name, dot - start),
        decreases n - dot,
    {
        dot = dot + 1;
    }
    let stem = slice_of(low, start, dot);
    proof {
        assert(stem@ =~= name.take(dot - start));
    }
    stem
}

/// The score in wide arithmetic.
pub(crate) fn score(path: &str, modified: i64, earliest: i64, latest: i64) -> (points: i128)
    ensures
        points == keeper_points(path@, modified as int, earliest as int, latest as int),
        -0x1_0000_0000_0000_0000_0000 < points < 0x1_0000_0000_0000_0000_0000,
{
    let whole = chars_of(path);
    let low = lower_chars(whole.as_slice());
    let stem = stem_chars(low.as_slice());
    let mut points: i128 = 0;
    let camera = starts(stem.as_slice(), "img_") || starts(stem.as_slice(), "dsc") || starts(
        stem.as_slice(),
        "pxl",
    ) || starts(stem.as_slice(), "mvi") || eight_digits(stem.as_slice());
    if camera {
        points = 15;
    }
    let copied = holds(stem.as_slice(), "(1)") || holds(stem.as_slice(), "copy") || holds(
        stem.as_slice(),
        "副本",
    ) || holds(stem.as_slice(), "mmexport") || holds(stem.as_slice(), "wx_camera") || holds(
        stem.as_slice(),
        "screenshot",
    );
    let social = holds(low.as_slice(), "wechat") || holds(low.as_slice(), "weixin") || holds(
        low.as_slice(),
        "微信",
    ) || holds(low.as_slice(), "qq") || holds(low.as_slice(), "download") || holds(
        low.as_slice(),
        "下载",
    );
    if copied || social {
        points = points - 20;
    }
    let width: i128 = latest as i128 - earliest as i128;
    let span: i128 = if width > 1 {
        width
    } else {
        1
    };
    let age: i128 = 10 * (latest as i128 - modified as i128);
    let bonus: i128 = if age >= 0 {
        age / span
    } else {
        -((-age) / span)
    };
    proof {
        let size = if age >= 0 {
            age as int
        } else {
            -age
        };
        assert(0 <= size / (span as int) <= size) by (nonlinear_arith)
            requires
                size >= 0,
                span >= 1,
        ;
    }
    points + bonus
}

/// Score of a copy among the copies modified between `earliest` and `latest`.
/// It picks the suggested keeper; nothing is removed on its account.
pub fn keeper_score(file: &GroupFile, earliest: i64, latest: i64) -> (points: i64)
    requires
        i64::MIN <= keeper_points(file@.path, file.modified as int, earliest as int, latest as int)
            <= i64::MAX,
    ensures
        points == keeper_points(file@.path, file.modified as int, earliest as int, latest as int),
{
    score(file.path.as_str(), file.modified, earliest, latest) as i64
}

/// Inside its group's time span a score lies between −20 and 25.
pub proof fn law_score_range(path: Seq<char>, modified: int, earliest: int, latest: int)
    requires
        earliest <= modified <= latest,
    ensures
        -20 <= keeper_points(path, modified, earliest, latest) <= 25,
{
    let span = if latest - earliest > 1 {
        latest - earliest
    } else {
        1
    };
    assert(0 <= (10 * (latest - modified)) / span <= 10) by (nonlinear_arith)
        requires
            0 <= latest - modified <= span,
            span >= 1,
    ;
}

/// Of two copies with the same name and directory marks, the earlier one
/// never scores lower.
pub proof fn law_earlier_copy_scores_no_lower(
    path: Seq<char>,
    early: int,
    late: int,
    earliest: int,
    latest: int,
)
    requires
        early <= late <= latest,
    ensures
        keeper_points(path, early, earliest, latest) >= keeper_points(path, late, earliest, latest),
{
    let span = if latest - earliest > 1 {
        latest - earliest
    } else {
        1
    };
    assert((10 * (latest - early)) / span >= (10 * (latest - late)) / span) by (nonlinear_arith)
        requires
            0 <= latest - late <= latest - early,
            span >= 1,
    ;
}

} // verus!
