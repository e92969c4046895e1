//! The duplicate groups of the review: filtering, ordering, paging, and what
//! each group shows of its copies.
use crate::contents::group_table;
use crate::keeper::{score, GroupFile, GroupFileView};
use crate::like::{holding_pattern, like_match};
use crate::lists::sort_positions;
use crate::model::{FileRow, FileView, Index};
use crate::paths::lies_inside;
use crate::settings::ensure_initialized;
use crate::text::{
    chars_le, chars_of, has_suffix, lower_chars, same_chars, same_text, trim_text,
};
use crate::{contents, keeper, like, lists, model, paths, settings, text};
use vstd::prelude::*;
use vstd::relations::total_ordering;

verus! {

/// Orders of the review.
#[derive(Clone, Copy, Debug, PartialEq, Eq, Structural)]
pub enum GroupSort {
    Size,
    Members,
    Path,
    /// By the space that is freed when every removable copy goes: file size
    /// times one less than the number of physical copies. Names of one
    /// physical file free nothing.
    Recoverable,
}

/// Filters and paging of the review.
pub struct GroupQuery<'a> {
    pub min_size: i64,
    pub path_contains: Option<&'a str>,
    pub sort: GroupSort,
    pub offset: i64,
    pub limit: i64,
    /// Kind of file; none means all.
    pub kind: Option<&'a str>,
    /// Only groups with a copy under this directory.
    pub dir_contains: Option<&'a str>,
}

pub struct QueryView {
    pub min_size: i64,
    pub path_contains: Option<Seq<char>>,
    pub sort: GroupSort,
    pub offset: i64,
    pub limit: i64,
    pub kind: Option<Seq<char>>,
    pub dir_contains: Option<Seq<char>>,
}

pub open spec fn borrowed(value: Option<&str>) -> Option<Seq<char>> {
    match value {
        Some(text) => Some(text@),
        None => None,
    }
}

impl<'a> View for GroupQuery<'a> {
    type V = QueryView;

    open spec fn view(&self) -> QueryView {
        QueryView {
            min_size: self.min_size,
            path_contains: borrowed(self.path_contains),
            sort: self.sort,
            offset: self.offset,
            limit: self.limit,
            kind: borrowed(self.kind),
            dir_contains: borrowed(self.dir_contains),
        }
    }
}

/// One content and its live copies.
pub struct Group {
    pub hash: String,
    pub size: i64,
    /// Bytes freed when every removable copy goes.
    pub recoverable: i64,
    pub files: Vec<GroupFile>,
}

#[verifier::ext_equal]
pub struct GroupView {
    pub hash: Seq<char>,
    pub size: i64,
    pub recoverable: int,
    pub files: Seq<GroupFileView>,
}

pub open spec fn group_files(list: Seq<GroupFile>) -> Seq<GroupFileView> {
    list.map_values(|file: GroupFile| file@)
}

impl View for Group {
    type V = GroupView;

    open spec fn view(&self) -> GroupView {
        GroupView {
            hash: self.hash@,
            size: self.size,
            recoverable: self.recoverable as int,
            files: group_files(self.files@),
        }
    }
}

pub struct GroupsPage {
    pub total: i64,
    pub groups: Vec<Group>,
}

pub open spec fn group_views(list: Seq<Group>) -> Seq<GroupView> {
    list.map_values(|group: Group| group@)
}

// ---------------------------------------------------------------------------
// Physical copies
// ---------------------------------------------------------------------------

pub open spec fn has_identity(file: FileView) -> bool {
    file.dev != 0 || file.inode != 0
}

pub open spec fn same_identity(files: Seq<FileView>, a: int, b: int) -> bool {
    files[a].dev == files[b].dev && files[a].inode == files[b].inode
}

/// The row at `p` is another name of a physical file already in `front`.
pub open spec fn repeats(files: Seq<FileView>, front: Seq<int>, p: int) -> bool {
    has_identity(files[p]) && exists|k: int|
        0 <= k < front.len() && same_identity(files, #[trigger] front[k], p)
}

/// Number of distinct physical files among the rows.
pub open spec fn physical(files: Seq<FileView>, list: Seq<int>) -> nat
    decreases list.len(),
{
    if list.len() == 0 {
        0
    } else {
        physical(files, list.drop_last()) + (if repeats(files, list.drop_last(), list.last()) {
            0nat
        } else {
            1nat
        })
    }
}

pub proof fn lemma_physical_range(files: Seq<FileView>, list: Seq<int>)
    ensures
        physical(files, list) <= list.len(),
        list.len() > 0 ==> physical(files, list) >= 1,
    decreases list.len(),
{
    if list.len() > 0 {
        lemma_physical_range(files, list.drop_last());
        if list.len() == 1 {
            assert(list.drop_last().len() == 0);
        }
    }
}

/// Bytes freed when every removable copy of the group goes.
pub open spec fn freed(files: Seq<FileView>, lead: int) -> int {
    files[lead].size * (physical(files, contents::members(files, lead)) - 1)
}

/// An amount as it is told in 64 bits: one beyond them is told as the largest.
pub open spec fn told(amount: int) -> int {
    settings::clamped(amount, i64::MIN as int, i64::MAX as int)
}

/// Smallest path among the rows.
pub open spec fn least_path(files: Seq<FileView>, list: Seq<int>) -> Seq<char>
    decreases list.len(),
{
    if list.len() <= 1 {
        files[list[0]].path
    } else {
        let before = least_path(files, list.drop_last());
        let last = files[list.last()].path;
        if text::text_le(before, last) {
            before
        } else {
            last
        }
    }
}

// ---------------------------------------------------------------------------
// Filters
// ---------------------------------------------------------------------------

/// The extensions of each kind of file.
pub open spec fn kind_list(kind: Seq<char>) -> Option<Seq<Seq<char>>> {
    if kind == "image"@ {
        Some(
            seq![
                "jpg"@, "jpeg"@, "png"@, "gif"@, "webp"@, "bmp"@, "tif"@, "tiff"@, "heic"@,
                "heif"@, "svg"@, "ico"@,
            ],
        )
    } else if kind == "video"@ {
        Some(
            seq![
                "mp4"@, "mkv"@, "avi"@, "mov"@, "wmv"@, "flv"@, "webm"@, "m4v"@, "ts"@, "3gp"@,
            ],
        )
    } else if kind == "audio"@ {
        Some(seq!["mp3"@, "wav"@, "flac"@, "aac"@, "m4a"@, "ogg"@, "wma"@, "opus"@])
    } else if kind == "document"@ {
        Some(
            seq![
                "pdf"@, "doc"@, "docx"@, "xls"@, "xlsx"@, "ppt"@, "pptx"@, "txt"@, "md"@, "csv"@,
                "json"@, "xml"@, "html"@, "htm"@, "epub"@,
            ],
        )
    } else if kind == "archive"@ {
        Some(seq!["zip"@, "rar"@, "7z"@, "tar"@, "gz"@, "bz2"@, "xz"@, "iso"@])
    } else {
        None
    }
}

pub open spec fn str_texts(list: Seq<&'static str>) -> Seq<Seq<char>> {
    list.map_values(|item: &'static str| item@)
}

/// The extensions of a kind of file; none where the kind is unknown.
pub fn kind_extensions(kind: &str) -> (list: Option<Vec<&'static str>>)
    ensures
        match list {
            Some(extensions) => kind_list(kind@) == Some(str_texts(extensions@)),
            None => kind_list(kind@) is None,
        },
{
    if same_text(kind, "image") {
        let list = vec![
            "jpg", "jpeg", "png", "gif", "webp", "bmp", "tif", "tiff", "heic", "heif", "svg", "ico",
        ];
        proof {
            assert(str_texts(list@) =~= kind_list(kind@)->0);
        }
        Some(list)
    } else if same_text(kind, "video") {
        let list = vec![
            "mp4", "mkv", "avi", "mov", "wmv", "flv", "webm", "m4v", "ts", "3gp",
        ];
        proof {
            assert(str_texts(list@) =~= kind_list(kind@)->0);
        }
        Some(list)
    } else if same_text(kind, "audio") {
        let list = vec!["mp3", "wav", "flac", "aac", "m4a", "ogg", "wma", "opus"];
        proof {
            assert(str_texts(list@) =~= kind_list(kind@)->0);
        }
        Some(list)
    } else if same_text(kind, "document") {
        let list = vec![
            "pdf", "doc", "docx", "xls", "xlsx", "ppt", "pptx", "txt", "md", "csv", "json", "xml",
            "html", "htm", "epub",
        ];
        proof {
            assert(str_texts(list@) =~= kind_list(kind@)->0);
        }
        Some(list)
    } else if same_text(kind, "archive") {
        let list = vec!["zip", "rar", "7z", "tar", "gz", "bz2", "xz", "iso"];
        proof {
            assert(str_texts(list@) =~= kind_list(kind@)->0);
        }
        Some(list)
    } else {
        None
    }
}

/// A number that tells short texts apart.
spec fn weight(text: Seq<char>) -> int {
    text[0] as int + 0x100 * (if text.len() > 1 {
        text[1] as int
    } else {
        0
    }) + 0x1_0000 * (if text.len() > 2 {
        text[2] as int
    } else {
        0
    }) + 0x100_0000 * (if text.len() > 3 {
        text[3] as int
    } else {
        0
    })
}

/// No extension belongs to two kinds, so a file is of one kind at most.
#[verifier::rlimit(60)]
pub proof fn law_kinds_share_no_extension(a: Seq<char>, b: Seq<char>, i: int, j: int)
    requires
        kind_list(a) is Some,
        kind_list(b) is Some,
        a != b,
        0 <= i < kind_list(a)->0.len(),
        0 <= j < kind_list(b)->0.len(),
    ensures
        kind_list(a)->0[i] != kind_list(b)->0[j],
{
    reveal_strlit("jpg");
    reveal_strlit("jpeg");
    reveal_strlit("png");
    reveal_strlit("gif");
    reveal_strlit("webp");
    reveal_strlit("bmp");
    reveal_strlit("tif");
    reveal_strlit("tiff");
    reveal_strlit("heic");
    reveal_strlit("heif");
    reveal_strlit("svg");
    reveal_strlit("ico");
    reveal_strlit("mp4");
    reveal_strlit("mkv");
    reveal_strlit("avi");
    reveal_strlit("mov");
    reveal_strlit("wmv");
    reveal_strlit("flv");
    reveal_strlit("webm");
    reveal_strlit("m4v");
    reveal_strlit("ts");
    reveal_strlit("3gp");
    reveal_strlit("mp3");
    reveal_strlit("wav");
    reveal_strlit("flac");
    reveal_strlit("aac");
    reveal_strlit("m4a");
    reveal_strlit("ogg");
    reveal_strlit("wma");
    reveal_strlit("opus");
    reveal_strlit("pdf");
    reveal_strlit("doc");
    reveal_strlit("docx");
    reveal_strlit("xls");
    reveal_strlit("xlsx");
    reveal_strlit("ppt");
    reveal_strlit("pptx");
    reveal_strlit("txt");
    reveal_strlit("md");
    reveal_strlit("csv");
    reveal_strlit("json");
    reveal_strlit("xml");
    reveal_strlit("html");
    reveal_strlit("htm");
    reveal_strlit("epub");
    reveal_strlit("zip");
    reveal_strlit("rar");
    reveal_strlit("7z");
    reveal_strlit("tar");
    reveal_strlit("gz");
    reveal_strlit("bz2");
    reveal_strlit("xz");
    reveal_strlit("iso");
    let x = kind_list(a)->0[i];
    let y = kind_list(b)->0[j];
    if x == y {
        assert(weight(x) == weight(y));
    }
}

/// Every picture that the scan takes a fingerprint of is of the kind image.
pub proof fn law_pictures_are_images(extension: Seq<char>)
    requires
        paths::is_image_extension(extension),
    ensures
        kind_list("image"@) is Some,
        kind_list("image"@)->0.contains(extension),
{
    let list = kind_list("image"@)->0;
    assert(list[0] == "jpg"@ && list[1] == "jpeg"@ && list[2] == "png"@ && list[3] == "gif"@);
    assert(list[4] == "webp"@ && list[5] == "bmp"@ && list[6] == "tif"@ && list[7] == "tiff"@);
}

/// The path, letter case aside, ends in a dot and one of the extensions.
pub open spec fn has_extension(path: Seq<char>, extensions: Seq<Seq<char>>) -> bool {
    exists|e: int|
        0 <= e < extensions.len() && text::ends_with(
            text::lower(path),
            seq!['.'] + #[trigger] extensions[e],
        )
}

/// The path holds the text, ASCII letter case aside.
pub open spec fn path_holds(path: Seq<char>, part: Seq<char>) -> bool {
    text::contains(text::lower(path), text::lower(part))
}

/// Some row of the list has an extension of the kind.
pub open spec fn any_of_kind(
    files: Seq<FileView>,
    list: Seq<int>,
    extensions: Seq<Seq<char>>,
) -> bool {
    exists|k: int| 0 <= k < list.len() && has_extension(files[#[trigger] list[k]].path, extensions)
}

/// Some row of the list has a path that holds the text.
pub open spec fn any_holds(files: Seq<FileView>, list: Seq<int>, part: Seq<char>) -> bool {
    exists|k: int| 0 <= k < list.len() && path_holds(files[#[trigger] list[k]].path, part)
}

/// Some row of the list lies under the directory.
pub open spec fn any_under(files: Seq<FileView>, list: Seq<int>, dir: Seq<char>) -> bool {
    exists|k: int|
        0 <= k < list.len() && paths::inside_text(files[#[trigger] list[k]].path, dir)
}

/// The filters of the query, each met by at least one copy of the group.
pub open spec fn passes(files: Seq<FileView>, query: QueryView, list: Seq<int>) -> bool {
    &&& match query.kind {
        Some(kind) => match kind_list(kind) {
            Some(extensions) => any_of_kind(files, list, extensions),
            None => true,
        },
        None => true,
    }
    &&& match query.dir_contains {
        Some(dir) => text::trimmed(dir).len() > 0 ==> any_under(files, list, text::trimmed(dir)),
        None => true,
    }
    &&& match query.path_contains {
        Some(part) => any_holds(files, list, text::trimmed(part)),
        None => true,
    }
}

/// The group that `p` stands for is in the review.
pub open spec fn listed(files: Seq<FileView>, query: QueryView, p: int) -> bool {
    &&& contents::leads(files, p)
    &&& files[p].size >= query.min_size
    &&& files[p].size >= 0
    &&& contents::members(files, p).len() > 1
    &&& passes(files, query, contents::members(files, p))
}

// ---------------------------------------------------------------------------
// Order and pages
// ---------------------------------------------------------------------------

pub open spec fn group_order(files: Seq<FileView>, sort: GroupSort) -> spec_fn(int, int) -> bool {
    let size = |p: int| files[p].size as int;
    let count = |p: int| contents::members(files, p).len() as int;
    let space = |p: int| freed(files, p);
    let first = |p: int| least_path(files, contents::members(files, p));
    let tie = contents::content_order(files);
    match sort {
        GroupSort::Size => lists::by_rank(size, lists::by_rank(count, tie)),
        GroupSort::Members => lists::by_rank(count, lists::by_rank(size, tie)),
        GroupSort::Path => lists::by_text(first, tie),
        GroupSort::Recoverable => lists::by_rank(
            space,
            lists::by_rank(size, lists::by_rank(count, tie)),
        ),
    }
}

pub proof fn lemma_group_order(files: Seq<FileView>, sort: GroupSort)
    ensures
        total_ordering(group_order(files, sort)),
{
    let size = |p: int| files[p].size as int;
    let count = |p: int| contents::members(files, p).len() as int;
    let space = |p: int| freed(files, p);
    let first = |p: int| least_path(files, contents::members(files, p));
    let tie = contents::content_order(files);
    contents::lemma_content_order(files);
    lists::lemma_by_rank(count, tie);
    lists::lemma_by_rank(size, tie);
    lists::lemma_by_rank(size, lists::by_rank(count, tie));
    lists::lemma_by_rank(count, lists::by_rank(size, tie));
    lists::lemma_by_rank(space, lists::by_rank(size, lists::by_rank(count, tie)));
    lists::lemma_by_text(first, tie);
}

/// The review: every listed group, in order.
pub open spec fn listing(files: Seq<FileView>, query: QueryView) -> Seq<int> {
    lists::positions(files.len(), |p: int| listed(files, query, p)).sort_by(
        group_order(files, query.sort),
    )
}

/// The groups of the review that the query's page shows.
pub open spec fn page_of(files: Seq<FileView>, query: QueryView) -> Seq<int> {
    let all = listing(files, query);
    let from = settings::clamped(query.offset as int, 0, all.len() as int);
    let to = settings::clamped(
        from + settings::clamped(query.limit as int, 1, 200),
        0,
        all.len() as int,
    );
    all.subrange(from, to)
}

/// Copies of a group as shown: newest first, then by path.
pub open spec fn member_order(files: Seq<FileView>) -> spec_fn(int, int) -> bool {
    lists::by_rank(
        |p: int| files[p].modified as int,
        lists::by_text(|p: int| files[p].path, lists::by_position()),
    )
}

pub proof fn lemma_member_order(files: Seq<FileView>)
    ensures
        total_ordering(member_order(files)),
{
    lists::lemma_by_position();
    lists::lemma_by_text(|p: int| files[p].path, lists::by_position());
    lists::lemma_by_rank(
        |p: int| files[p].modified as int,
        lists::by_text(|p: int| files[p].path, lists::by_position()),
    );
}

pub open spec fn shown_members(files: Seq<FileView>, lead: int) -> Seq<int> {
    contents::members(files, lead).sort_by(member_order(files))
}

pub open spec fn earliest(files: Seq<FileView>, list: Seq<int>) -> i64
    decreases list.len(),
{
    if list.len() == 0 {
        0
    } else if list.len() == 1 || files[list.last()].modified < earliest(files, list.drop_last()) {
        files[list.last()].modified
    } else {
        earliest(files, list.drop_last())
    }
}

pub open spec fn latest(files: Seq<FileView>, list: Seq<int>) -> i64
    decreases list.len(),
{
    if list.len() == 0 {
        0
    } else if list.len() == 1 || files[list.last()].modified > latest(files, list.drop_last()) {
        files[list.last()].modified
    } else {
        latest(files, list.drop_last())
    }
}

/// Score of the `k`-th row among the rows of the list.
pub open spec fn points(files: Seq<FileView>, list: Seq<int>, k: int) -> int {
    keeper::keeper_points(
        files[list[k]].path,
        files[list[k]].modified as int,
        earliest(files, list) as int,
        latest(files, list) as int,
    )
}

/// The unprotected row with the highest score among the first `n`, the first
/// of equals.
pub open spec fn suggestion(files: Seq<FileView>, list: Seq<int>, n: nat) -> Option<int>
    decreases n,
{
    if n == 0 {
        None
    } else {
        let k = n - 1;
        let before = suggestion(files, list, k as nat);
        if files[list[k]].protected {
            before
        } else {
            match before {
                None => Some(k),
                Some(best) => if points(files, list, k) > points(files, list, best) {
                    Some(k)
                } else {
                    before
                },
            }
        }
    }
}

/// Another row of the list is a name of the same physical file.
pub open spec fn linked(files: Seq<FileView>, list: Seq<int>, k: int) -> bool {
    has_identity(files[list[k]]) && exists|m: int|
        0 <= m < list.len() && m != k && same_identity(files, #[trigger] list[m], list[k])
}

/// The `k`-th copy of a group as shown.
pub open spec fn shown_file(files: Seq<FileView>, list: Seq<int>, k: int) -> GroupFileView {
    let file = files[list[k]];
    GroupFileView {
        id: file.id,
        path: file.path,
        protected: file.protected,
        approved: file.approved,
        modified: file.modified,
        hardlinked: linked(files, list, k),
        suggested: suggestion(files, list, list.len()) == Some(k),
    }
}

/// The group that `lead` stands for, as shown.
pub open spec fn shown_group(files: Seq<FileView>, lead: int) -> GroupView {
    let list = shown_members(files, lead);
    GroupView {
        hash: files[lead].hash,
        size: files[lead].size,
        recoverable: told(freed(files, lead)),
        files: Seq::new(list.len(), |k: int| shown_file(files, list, k)),
    }
}

/// Every group on the page, as shown.
pub open spec fn shown_page(files: Seq<FileView>, query: QueryView) -> Seq<GroupView> {
    page_of(files, query).map_values(|lead: int| shown_group(files, lead))
}

// ---------------------------------------------------------------------------
// Facts of one group
// ---------------------------------------------------------------------------

pub open spec fn in_table(files: Seq<FileView>, list: Seq<usize>) -> bool {
    forall|k: int| 0 <= k < list.len() ==> (#[trigger] list[k]) < files.len()
}

fn count_physical(files: &Vec<FileRow>, list: &Vec<usize>) -> (n: usize)
    requires
        in_table(model::file_rows(files@), list@),
    ensures
        n == physical(model::file_rows(files@), lists::ints(list@)),
        n <= list@.len(),
{
    let ghost views = model::file_rows(files@);
    let ghost whole = lists::ints(list@);
    let mut n: usize = 0;
    for i in 0..list.len()
        invariant
            views == model::file_rows(files@),
            whole == lists::ints(list@),
            in_table(views, list@),
            n == physical(views, whole.take(i as int)),
            n <= i,
    {
        let p = list[i];
        let dev: i64 = files[p].dev;
        let inode: i64 = files[p].inode;
        let ghost front = whole.take(i as int);
        proof {
            assert(views[p as int] == files@[p as int]@);
            assert(whole.take(i + 1).drop_last() =~= front);
            assert(whole.take(i + 1).last() == p);
        }
        let mut seen = false;
        if dev != 0 || inode != 0 {
            for k in 0..i
                invariant
                    views == model::file_rows(files@),
                    whole == lists::ints(list@),
                    in_table(views, list@),
                    i < list@.len(),
                    p == list@[i as int],
                    front == whole.take(i as int),
                    dev == views[p as int].dev,
                    inode == views[p as int].inode,
                    seen == (exists|m: int| 0 <= m < k && same_identity(views, #[trigger] front[m], p as int)),
            {
                let q = list[k];
                proof {
                    assert(views[q as int] == files@[q as int]@);
                    assert(front[k as int] == q);
                }
                if files[q].dev == dev && files[q].inode == inode {
                    proof {
                        assert(same_identity(views, front[k as int], p as int));
                    }
                    seen = true;
                }
            }
        }
        if !seen {
            n = n + 1;
        }
    }
    proof {
        assert(whole.take(whole.len() as int) =~= whole);
    }
    n
}

fn smallest_path(files: &Vec<FileRow>, list: &Vec<usize>) -> (path: Vec<char>)
    requires
        in_table(model::file_rows(files@), list@),
        list@.len() > 0,
    ensures
        path@ == least_path(model::file_rows(files@), lists::ints(list@)),
{
    let ghost views = model::file_rows(files@);
    let ghost whole = lists::ints(list@);
    let mut path = chars_of(files[list[0]].path.as_str());
    proof {
        assert(views[whole[0]] == files@[whole[0]]@);
        assert(whole.take(1)[0] == whole[0]);
    }
    for i in 1..list.len()
        invariant
            views == model::file_rows(files@),
            whole == lists::ints(list@),
            in_table(views, list@),
            path@ == least_path(views, whole.take(i as int)),
    {
        let p = list[i];
        proof {
            assert(views[p as int] == files@[p as int]@);
            assert(whole.take(i + 1).drop_last() =~= whole.take(i as int));
            assert(whole.take(i + 1).last() == p);
        }
        let own = chars_of(files[p].path.as_str());
        if !chars_le(path.as_slice(), own.as_slice()) {
            path = own;
        }
    }
    proof {
        assert(whole.take(whole.len() as int) =~= whole);
    }
    path
}

fn matches_kind(path: &[char], extensions: &Vec<&'static str>) -> (yes: bool)
    ensures
        yes == has_extension(path@, str_texts(extensions@)),
{
    let low = lower_chars(path);
    let ghost list = str_texts(extensions@);
    for e in 0..extensions.len()
        invariant
            low@ == text::lower(path@),
            list == str_texts(extensions@),
            forall|k: int|
                0 <= k < e ==> !text::ends_with(low@, seq!['.'] + #[trigger] list[k]),
    {
        let mut suffix: Vec<char> = vec!['.'];
        let mut tail = chars_of(extensions[e]);
        suffix.append(&mut tail);
        proof {
            assert(list[e as int] == extensions@[e as int]@);
            assert(suffix@ =~= seq!['.'] + list[e as int]);
        }
        if has_suffix(low.as_slice(), suffix.as_slice()) {
            return true;
        }
    }
    false
}

fn any_matches_kind(files: &Vec<FileRow>, list: &Vec<usize>, extensions: &Vec<&'static str>) -> (yes:
    bool)
    requires
        in_table(model::file_rows(files@), list@),
    ensures
        yes == any_of_kind(model::file_rows(files@), lists::ints(list@), str_texts(extensions@)),
{
    let ghost views = model::file_rows(files@);
    let ghost whole = lists::ints(list@);
    for i in 0..list.len()
        invariant
            views == model::file_rows(files@),
            whole == lists::ints(list@),
            in_table(views, list@),
            forall|k: int|
                0 <= k < i ==> !has_extension(
                    views[#[trigger] whole[k]].path,
                    str_texts(extensions@),
                ),
    {
        let p = list[i];
        proof {
            assert(whole[i as int] == p);
            assert(views[p as int] == files@[p as int]@);
        }
        let path = chars_of(files[p].path.as_str());
        if matches_kind(path.as_slice(), extensions) {
            return true;
        }
    }
    false
}

fn any_path_holds(files: &Vec<FileRow>, list: &Vec<usize>, part: &str) -> (yes: bool)
    requires
        in_table(model::file_rows(files@), list@),
    ensures
        yes == any_holds(model::file_rows(files@), lists::ints(list@), part@),
{
    let ghost views = model::file_rows(files@);
    let ghost whole = lists::ints(list@);
    let pattern = holding_pattern(part);
    for i in 0..list.len()
        invariant
            views == model::file_rows(files@),
            whole == lists::ints(list@),
            in_table(views, list@),
            pattern@ == like::holding(part@),
            forall|k: int| 0 <= k < i ==> !path_holds(views[#[trigger] whole[k]].path, part@),
    {
        let p = list[i];
        let path = chars_of(files[p].path.as_str());
        proof {
            assert(whole[i as int] == p);
            assert(views[p as int] == files@[p as int]@);
            like::lemma_holding_matches_part(part@, path@);
        }
        if like_match(pattern.as_slice(), path.as_slice()) {
            return true;
        }
    }
    false
}

fn any_path_under(files: &Vec<FileRow>, list: &Vec<usize>, dir: &str) -> (yes: bool)
    requires
        in_table(model::file_rows(files@), list@),
    ensures
        yes == any_under(model::file_rows(files@), lists::ints(list@), dir@),
{
    let ghost views = model::file_rows(files@);
    let ghost whole = lists::ints(list@);
    for i in 0..list.len()
        invariant
            views == model::file_rows(files@),
            whole == lists::ints(list@),
            in_table(views, list@),
            forall|k: int|
                0 <= k < i ==> !paths::inside_text(views[#[trigger] whole[k]].path, dir@),
    {
        let p = list[i];
        proof {
            assert(whole[i as int] == p);
            assert(views[p as int] == files@[p as int]@);
        }
        if lies_inside(files[p].path.as_str(), dir) {
            return true;
        }
    }
    false
}

fn group_passes(files: &Vec<FileRow>, query: &GroupQuery, list: &Vec<usize>) -> (yes: bool)
    requires
        in_table(model::file_rows(files@), list@),
    ensures
        yes == passes(model::file_rows(files@), query@, lists::ints(list@)),
{
    match query.kind {
        Some(kind) => match kind_extensions(kind) {
            Some(extensions) => {
                if !any_matches_kind(files, list, &extensions) {
                    return false;
                }
            },
            None => {},
        },
        None => {},
    }
    match query.dir_contains {
        Some(dir) => {
            let wanted = trim_text(dir);
            let letters = chars_of(wanted.as_str());
            if letters.len() > 0 && !any_path_under(files, list, wanted.as_str()) {
                return false;
            }
        },
        None => {},
    }
    match query.path_contains {
        Some(part) => {
            let wanted = trim_text(part);
            any_path_holds(files, list, wanted.as_str())
        },
        None => true,
    }
}

// ---------------------------------------------------------------------------
// The review
// ---------------------------------------------------------------------------

/// What the order of the review reads of one group.
struct GroupFacts {
    count: usize,
    physical: usize,
    first: Vec<char>,
}

spec fn facts_of(files: Seq<FileView>, lead: int, facts: GroupFacts) -> bool {
    &&& facts.count == contents::members(files, lead).len()
    &&& facts.physical == physical(files, contents::members(files, lead))
    &&& facts.physical >= 1
    &&& facts.first@ == least_path(files, contents::members(files, lead))
}

fn group_facts(files: &Vec<FileRow>, table: &Vec<Vec<usize>>) -> (facts: Vec<GroupFacts>)
    requires
        contents::is_group_table(model::file_rows(files@), table@),
    ensures
        facts@.len() == files@.len(),
        forall|p: int|
            0 <= p < files@.len() && contents::leads(model::file_rows(files@), p) ==> facts_of(
                model::file_rows(files@),
                p,
                #[trigger] facts@[p],
            ),
{
    let ghost views = model::file_rows(files@);
    let mut facts: Vec<GroupFacts> = Vec::new();
    for p in 0..files.len()
        invariant
            views == model::file_rows(files@),
            contents::is_group_table(views, table@),
            facts@.len() == p,
            forall|q: int|
                0 <= q < p && contents::leads(views, q) ==> facts_of(
                    views,
                    q,
                    #[trigger] facts@[q],
                ),
    {
        let run = &table[p];
        proof {
            lemma_run_in_table(views, table@, p as int);
        }
        if run.len() == 0 {
            facts.push(GroupFacts { count: 0, physical: 0, first: Vec::new() });
        } else {
            let physical = count_physical(files, run);
            let first = smallest_path(files, run);
            proof {
                lemma_physical_range(views, lists::ints(run@));
            }
            facts.push(GroupFacts { count: run.len(), physical, first });
        }
    }
    facts
}

pub(crate) proof fn lemma_run_in_table(files: Seq<FileView>, table: Seq<Vec<usize>>, p: int)
    requires
        contents::is_group_table(files, table),
        0 <= p < files.len(),
    ensures
        in_table(files, table[p]@),
        contents::leads(files, p) <==> table[p]@.len() > 0,
        contents::leads(files, p) ==> lists::ints(table[p]@) == contents::members(files, p),
{
    let run = table[p]@;
    assert(lists::ints(run).len() == run.len());
    if contents::leads(files, p) {
        contents::lemma_members(files, p);
        assert forall|k: int| 0 <= k < run.len() implies (#[trigger] run[k]) < files.len() by {
            assert(lists::ints(run)[k] == contents::members(files, p)[k]);
        }
    }
}

/// The positions of the listed groups, in the order of the review.
pub(crate) fn list_groups(files: &Vec<FileRow>, table: &Vec<Vec<usize>>, query: &GroupQuery) -> (list: Vec<
    usize,
>)
    requires
        contents::is_group_table(model::file_rows(files@), table@),
    ensures
        lists::ints(list@) == listing(model::file_rows(files@), query@),
{
    let ghost views = model::file_rows(files@);
    let ghost keep = |p: int| listed(views, query@, p);
    let facts = group_facts(files, table);
    let mut picked: Vec<usize> = Vec::new();
    for p in 0..files.len()
        invariant
            views == model::file_rows(files@),
            contents::is_group_table(views, table@),
            keep == (|p: int| listed(views, query@, p)),
            lists::ints(picked@) == lists::positions(p as nat, keep),
            forall|k: int|
                0 <= k < picked@.len() ==> (#[trigger] picked@[k]) < p && contents::leads(
                    views,
                    picked@[k] as int,
                ),
    {
        let ghost before = picked@;
        proof {
            lemma_run_in_table(views, table@, p as int);
            assert(views[p as int] == files@[p as int]@);
        }
        if table[p].len() > 1 && files[p].size >= query.min_size && files[p].size >= 0
            && group_passes(files, query, &table[p]) {
            picked.push(p);
            proof {
                assert(lists::ints(picked@) =~= lists::ints(before).push(p as int));
            }
        }
    }
    let sort = query.sort;
    let ghost order = group_order(views, sort);
    proof {
        lemma_group_order(views, sort);
    }
    let le = |a: usize, b: usize| -> (r: bool)
        requires
            a < files@.len(),
            b < files@.len(),
            facts@.len() == files@.len(),
            facts_of(model::file_rows(files@), a as int, facts@[a as int]),
            facts_of(model::file_rows(files@), b as int, facts@[b as int]),
        ensures
            r == group_order(model::file_rows(files@), sort)(a as int, b as int),
        {
            group_before(files, &facts, sort, a, b)
        };
    sort_positions(&picked, le, Ghost(order))
}

fn content_before(files: &Vec<FileRow>, a: usize, b: usize) -> (before: bool)
    requires
        a < files@.len(),
        b < files@.len(),
    ensures
        before == contents::content_order(model::file_rows(files@))(a as int, b as int),
{
    proof {
        assert(model::file_rows(files@)[a as int] == files@[a as int]@);
        assert(model::file_rows(files@)[b as int] == files@[b as int]@);
    }
    let left = chars_of(files[a].hash.as_str());
    let right = chars_of(files[b].hash.as_str());
    if !same_chars(left.as_slice(), right.as_slice()) {
        chars_le(left.as_slice(), right.as_slice())
    } else if files[a].size != files[b].size {
        files[a].size < files[b].size
    } else {
        a <= b
    }
}

fn group_before(files: &Vec<FileRow>, facts: &Vec<GroupFacts>, sort: GroupSort, a: usize, b: usize) -> (
before: bool)
    requires
        a < files@.len(),
        b < files@.len(),
        facts@.len() == files@.len(),
        facts_of(model::file_rows(files@), a as int, facts@[a as int]),
        facts_of(model::file_rows(files@), b as int, facts@[b as int]),
    ensures
        before == group_order(model::file_rows(files@), sort)(a as int, b as int),
{
    let ghost views = model::file_rows(files@);
    proof {
        assert(views[a as int] == files@[a as int]@);
        assert(views[b as int] == files@[b as int]@);
    }
    let size_a: i64 = files[a].size;
    let size_b: i64 = files[b].size;
    let count_a: usize = facts[a].count;
    let count_b: usize = facts[b].count;
    match sort {
        GroupSort::Size => {
            if size_a != size_b {
                size_a > size_b
            } else if count_a != count_b {
                count_a > count_b
            } else {
                content_before(files, a, b)
            }
        },
        GroupSort::Members => {
            if count_a != count_b {
                count_a > count_b
            } else if size_a != size_b {
                size_a > size_b
            } else {
                content_before(files, a, b)
            }
        },
        GroupSort::Path => {
            if !same_chars(facts[a].first.as_slice(), facts[b].first.as_slice()) {
                chars_le(facts[a].first.as_slice(), facts[b].first.as_slice())
            } else {
                content_before(files, a, b)
            }
        },
        GroupSort::Recoverable => {
            let free_a: i128 = space_of(size_a, facts[a].physical);
            let free_b: i128 = space_of(size_b, facts[b].physical);
            if free_a != free_b {
                free_a > free_b
            } else if size_a != size_b {
                size_a > size_b
            } else if count_a != count_b {
                count_a > count_b
            } else {
                content_before(files, a, b)
            }
        },
    }
}

fn space_of(size: i64, physical: usize) -> (space: i128)
    requires
        physical >= 1,
    ensures
        space == size * (physical - 1),
{
    let others: i128 = physical as i128 - 1;
    proof {
        assert(-0x8000_0000_0000_0000_0000_0000_0000_0000 <= size * others
            <= 0x7fff_ffff_ffff_ffff_ffff_ffff_ffff_ffff) by (nonlinear_arith)
            requires
                -0x8000_0000_0000_0000 <= size <= 0x7fff_ffff_ffff_ffff,
                0 <= others <= 0xffff_ffff_ffff_ffff,
        ;
    }
    size as i128 * others
}

pub(crate) fn sort_members(files: &Vec<FileRow>, run: &Vec<usize>) -> (list: Vec<usize>)
    requires
        in_table(model::file_rows(files@), run@),
    ensures
        lists::ints(list@) == lists::ints(run@).sort_by(member_order(model::file_rows(files@))),
        in_table(model::file_rows(files@), list@),
{
    let ghost views = model::file_rows(files@);
    proof {
        lemma_member_order(views);
    }
    let le = |a: usize, b: usize| -> (r: bool)
        requires
            a < files@.len(),
            b < files@.len(),
        ensures
            r == member_order(model::file_rows(files@))(a as int, b as int),
        {
            proof {
                assert(model::file_rows(files@)[a as int] == files@[a as int]@);
                assert(model::file_rows(files@)[b as int] == files@[b as int]@);
            }
            if files[a].modified != files[b].modified {
                files[a].modified > files[b].modified
            } else {
                let left = chars_of(files[a].path.as_str());
                let right = chars_of(files[b].path.as_str());
                if !same_chars(left.as_slice(), right.as_slice()) {
                    chars_le(left.as_slice(), right.as_slice())
                } else {
                    a <= b
                }
            }
        };
    let list = sort_positions(run, le, Ghost(member_order(views)));
    proof {
        let whole = lists::ints(run@);
        lists::lemma_sort_by_members(whole, member_order(views));
        assert forall|k: int| 0 <= k < list@.len() implies (#[trigger] list@[k]) < views.len() by {
            let p = lists::ints(list@)[k];
            assert(lists::ints(list@).contains(p));
            assert(whole.contains(p));
            let m = choose|m: int| 0 <= m < whole.len() && whole[m] == p;
            assert(run@[m] == p);
        }
    }
    list
}

/// Earliest and latest modification among the rows.
pub(crate) fn time_span(files: &Vec<FileRow>, list: &Vec<usize>) -> (span: (i64, i64))
    requires
        in_table(model::file_rows(files@), list@),
    ensures
        span.0 == earliest(model::file_rows(files@), lists::ints(list@)),
        span.1 == latest(model::file_rows(files@), lists::ints(list@)),
{
    let ghost views = model::file_rows(files@);
    let ghost whole = lists::ints(list@);
    let mut low: i64 = 0;
    let mut high: i64 = 0;
    for i in 0..list.len()
        invariant
            views == model::file_rows(files@),
            whole == lists::ints(list@),
            in_table(views, list@),
            low == earliest(views, whole.take(i as int)),
            high == latest(views, whole.take(i as int)),
    {
        let p = list[i];
        let modified: i64 = files[p].modified;
        proof {
            assert(views[p as int] == files@[p as int]@);
            assert(whole.take(i + 1).drop_last() =~= whole.take(i as int));
            assert(whole.take(i + 1).last() == p);
        }
        if i == 0 || modified < low {
            low = modified;
        }
        if i == 0 || modified > high {
            high = modified;
        }
    }
    proof {
        assert(whole.take(whole.len() as int) =~= whole);
    }
    (low, high)
}

fn suggest(files: &Vec<FileRow>, list: &Vec<usize>) -> (best: Option<usize>)
    requires
        in_table(model::file_rows(files@), list@),
    ensures
        model::position(best) == suggestion(
            model::file_rows(files@),
            lists::ints(list@),
            list@.len(),
        ),
{
    let ghost views = model::file_rows(files@);
    let ghost whole = lists::ints(list@);
    let (low, high) = time_span(files, list);
    let mut best: Option<usize> = None;
    let mut best_points: i128 = 0;
    for k in 0..list.len()
        invariant
            views == model::file_rows(files@),
            whole == lists::ints(list@),
            in_table(views, list@),
            low == earliest(views, whole),
            high == latest(views, whole),
            model::position(best) == suggestion(views, whole, k as nat),
            best is Some ==> best->0 < k && best_points == points(views, whole, best->0 as int),
    {
        let p = list[k];
        proof {
            assert(views[p as int] == files@[p as int]@);
            assert(whole[k as int] == p);
        }
        if !files[p].protected {
            let own = score(files[p].path.as_str(), files[p].modified, low, high);
            let better = match best {
                None => true,
                Some(_) => own > best_points,
            };
            if better {
                best = Some(k);
                best_points = own;
            }
        }
    }
    best
}

fn is_linked(files: &Vec<FileRow>, list: &Vec<usize>, k: usize) -> (yes: bool)
    requires
        in_table(model::file_rows(files@), list@),
        k < list@.len(),
    ensures
        yes == linked(model::file_rows(files@), lists::ints(list@), k as int),
{
    let ghost views = model::file_rows(files@);
    let ghost whole = lists::ints(list@);
    let p = list[k];
    let dev: i64 = files[p].dev;
    let inode: i64 = files[p].inode;
    proof {
        assert(views[p as int] == files@[p as int]@);
        assert(whole[k as int] == p);
    }
    if dev == 0 && inode == 0 {
        return false;
    }
    for m in 0..list.len()
        invariant
            views == model::file_rows(files@),
            whole == lists::ints(list@),
            in_table(views, list@),
            k < list@.len(),
            p == list@[k as int],
            dev == views[p as int].dev,
            inode == views[p as int].inode,
            has_identity(views[p as int]),
            whole[k as int] == p,
            forall|q: int|
                0 <= q < m && q != k ==> !same_identity(views, #[trigger] whole[q], p as int),
    {
        let other = list[m];
        proof {
            assert(views[other as int] == files@[other as int]@);
            assert(whole[m as int] == other);
        }
        if m != k && files[other].dev == dev && files[other].inode == inode {
            proof {
                assert(same_identity(views, whole[m as int], whole[k as int]));
            }
            return true;
        }
    }
    false
}

fn show_group(files: &Vec<FileRow>, run: &Vec<usize>, lead: usize) -> (group: Group)
    requires
        lead < files@.len(),
        in_table(model::file_rows(files@), run@),
        run@.len() > 0,
        lists::ints(run@) == contents::members(model::file_rows(files@), lead as int),
    ensures
        group@ == shown_group(model::file_rows(files@), lead as int),
{
    let ghost views = model::file_rows(files@);
    let list = sort_members(files, run);
    let ghost whole = lists::ints(list@);
    let best = suggest(files, &list);
    let mut shown: Vec<GroupFile> = Vec::new();
    for k in 0..list.len()
        invariant
            views == model::file_rows(files@),
            whole == lists::ints(list@),
            in_table(views, list@),
            model::position(best) == suggestion(views, whole, list@.len()),
            shown@.len() == k,
            forall|m: int| 0 <= m < k ==> (#[trigger] shown@[m])@ == shown_file(views, whole, m),
    {
        let p = list[k];
        proof {
            assert(views[p as int] == files@[p as int]@);
            assert(whole[k as int] == p);
        }
        let hardlinked = is_linked(files, &list, k);
        let suggested = match best {
            Some(b) => b == k,
            None => false,
        };
        shown.push(
            GroupFile {
                id: files[p].id,
                path: files[p].path.clone(),
                protected: files[p].protected,
                approved: files[p].approved,
                modified: files[p].modified,
                hardlinked,
                suggested,
            },
        );
        proof {
            assert(shown@[k as int]@ == shown_file(views, whole, k as int));
        }
    }
    let physical = count_physical(files, run);
    proof {
        lemma_physical_range(views, lists::ints(run@));
        assert(views[lead as int] == files@[lead as int]@);
        assert(group_files(shown@) =~= shown_group(views, lead as int).files);
    }
    let space = space_of(files[lead].size, physical);
    let recoverable: i64 = if space > i64::MAX as i128 {
        i64::MAX
    } else if space < i64::MIN as i128 {
        i64::MIN
    } else {
        space as i64
    };
    Group { hash: files[lead].hash.clone(), size: files[lead].size, recoverable, files: shown }
}

pub proof fn lemma_listing(files: Seq<FileView>, query: QueryView)
    ensures
        forall|p: int| #[trigger]
            listing(files, query).contains(p) <==> 0 <= p < files.len() && listed(files, query, p),
        forall|k: int|
            0 <= k < listing(files, query).len() ==> 0 <= #[trigger] listing(files, query)[k]
                < files.len() && listed(files, query, listing(files, query)[k]),
        listing(files, query).len() <= files.len(),
        listing(files, query).no_duplicates(),
{
    let keep = |p: int| listed(files, query, p);
    let list = lists::positions(files.len(), keep);
    lists::lemma_positions(files.len(), keep);
    lemma_group_order(files, query.sort);
    lists::lemma_sort_by_members(list, group_order(files, query.sort));
    let sorted = listing(files, query);
    assert(list.no_duplicates());
    list.lemma_multiset_has_no_duplicates();
    sorted.lemma_multiset_has_no_duplicates_conv();
    assert forall|k: int| 0 <= k < sorted.len() implies 0 <= #[trigger] sorted[k] < files.len()
        && listed(files, query, sorted[k]) by {
        assert(sorted.contains(sorted[k]));
        assert(list.contains(sorted[k]));
        assert(keep(sorted[k]));
    }
    assert forall|p: int| #[trigger] sorted.contains(p) <==> 0 <= p < files.len() && listed(
        files,
        query,
        p,
    ) by {
        assert(list.contains(p) <==> 0 <= p < files.len() && keep(p));
    }
}

// ---------------------------------------------------------------------------
// Laws of the review
// ---------------------------------------------------------------------------

/// The suggested copy is unprotected, no unprotected copy scores higher, and
/// every earlier one scores lower. Only where all copies are protected is
/// there no suggestion.
pub proof fn law_suggestion_is_best(files: Seq<FileView>, list: Seq<int>, n: nat)
    requires
        n <= list.len(),
    ensures
        match suggestion(files, list, n) {
            None => forall|k: int| 0 <= k < n ==> files[#[trigger] list[k]].protected,
            Some(best) => {
                &&& 0 <= best < n
                &&& !files[list[best]].protected
                &&& forall|k: int|
                    0 <= k < n && !files[#[trigger] list[k]].protected ==> points(files, list, k)
                        <= points(files, list, best)
                &&& forall|k: int|
                    0 <= k < best && !files[#[trigger] list[k]].protected ==> points(files, list, k)
                        < points(files, list, best)
            },
        },
    decreases n,
{
    if n > 0 {
        law_suggestion_is_best(files, list, (n - 1) as nat);
    }
}

/// Exactly one copy of a group is suggested, unless all are protected.
pub proof fn law_one_suggestion(files: Seq<FileView>, lead: int, k: int, m: int)
    requires
        0 <= k < shown_group(files, lead).files.len(),
        0 <= m < shown_group(files, lead).files.len(),
        shown_group(files, lead).files[k].suggested,
    ensures
        !shown_group(files, lead).files[k].protected,
        shown_group(files, lead).files[m].suggested ==> m == k,
{
    let list = shown_members(files, lead);
    law_suggestion_is_best(files, list, list.len());
}

/// A group of the review has at least two copies, and they are exactly the
/// live files of one content: equal hash and equal size.
pub proof fn law_groups_are_exact(files: Seq<FileView>, query: QueryView, lead: int, p: int)
    requires
        listing(files, query).contains(lead),
        0 <= p < files.len(),
    ensures
        0 <= lead < files.len(),
        contents::members(files, lead).len() > 1,
        contents::members(files, lead).contains(p) <==> files[p].present && files[p].hash
            == files[lead].hash && files[p].size == files[lead].size,
{
    let keep = |p: int| listed(files, query, p);
    let all = lists::positions(files.len(), keep);
    lemma_group_order(files, query.sort);
    lists::lemma_sort_by_members(all, group_order(files, query.sort));
    lists::lemma_positions(files.len(), keep);
    assert(all.contains(lead));
    assert(keep(lead));
    contents::lemma_members(files, lead);
    let list = contents::members(files, lead);
    if list.contains(p) {
        let k = choose|k: int| 0 <= k < list.len() && list[k] == p;
        assert(contents::belongs(files, lead, list[k]));
    }
    if files[p].present && files[p].hash == files[lead].hash && files[p].size == files[lead].size {
        assert(contents::belongs(files, lead, p));
    }
}

/// The query asks for duplicates of any kind and at any place.
pub open spec fn unfiltered(query: QueryView) -> bool {
    query.kind is None && query.dir_contains is None && query.path_contains is None
}

/// No duplicate is left out: two live files of equal content and sufficient
/// size stand together in one group of the review.
pub proof fn law_review_shows_every_duplicate(
    files: Seq<FileView>,
    query: QueryView,
    i: int,
    j: int,
)
    requires
        0 <= i < files.len(),
        0 <= j < files.len(),
        i != j,
        files[i].present && files[j].present,
        files[i].hash == files[j].hash,
        files[i].size == files[j].size,
        files[i].size >= query.min_size,
        files[i].size >= 0,
        unfiltered(query),
    ensures
        exists|lead: int| #[trigger]
            listing(files, query).contains(lead) && contents::members(files, lead).contains(i)
                && contents::members(files, lead).contains(j),
{
    contents::lemma_members(files, i);
    let list = contents::members(files, i);
    let lead = list[0];
    assert(contents::belongs(files, i, j));
    assert(list.contains(j));
    let a = choose|a: int| 0 <= a < list.len() && list[a] == i;
    let b = choose|b: int| 0 <= b < list.len() && list[b] == j;
    assert(list.len() > 1);
    assert(contents::belongs(files, i, list[0]));
    let keep = |p: int| listed(files, query, p);
    let all = lists::positions(files.len(), keep);
    lemma_group_order(files, query.sort);
    lists::lemma_sort_by_members(all, group_order(files, query.sort));
    lists::lemma_positions(files.len(), keep);
    assert(keep(lead));
    assert(all.contains(lead));
    assert(listing(files, query).contains(lead));
}

/// A group whose names all belong to one physical file frees nothing.
pub proof fn law_links_free_nothing(files: Seq<FileView>, lead: int)
    requires
        0 <= lead < files.len(),
        contents::leads(files, lead),
        forall|k: int|
            0 <= k < contents::members(files, lead).len() ==> has_identity(
                files[#[trigger] contents::members(files, lead)[k]],
            ) && same_identity(files, contents::members(files, lead)[k], lead),
    ensures
        freed(files, lead) == 0,
{
    let list = contents::members(files, lead);
    contents::lemma_members(files, lead);
    lemma_one_physical(files, list, lead);
    assert(files[lead].size * 0 == 0) by (nonlinear_arith);
}

proof fn lemma_one_physical(files: Seq<FileView>, list: Seq<int>, lead: int)
    requires
        list.len() > 0,
        forall|k: int|
            0 <= k < list.len() ==> has_identity(files[#[trigger] list[k]]) && same_identity(
                files,
                list[k],
                lead,
            ),
    ensures
        physical(files, list) == 1,
    decreases list.len(),
{
    let front = list.drop_last();
    if front.len() > 0 {
        assert forall|k: int| 0 <= k < front.len() implies has_identity(files[#[trigger] front[k]])
            && same_identity(files, front[k], lead) by {
            assert(front[k] == list[k]);
        }
        lemma_one_physical(files, front, lead);
        assert(front[0] == list[0]);
        assert(list.last() == list[list.len() - 1]);
        assert(same_identity(files, front[0], list.last()));
    } else {
        assert(physical(files, front) == 0);
    }
}

/// Consecutive pages show consecutive groups of the review, so walking the
/// pages from the start meets every group once.
pub proof fn law_pages_follow_the_listing(files: Seq<FileView>, query: QueryView, k: int)
    requires
        0 <= query.offset,
        0 <= k < settings::clamped(query.limit as int, 1, 200),
        query.offset + k < listing(files, query).len(),
    ensures
        k < page_of(files, query).len(),
        page_of(files, query)[k] == listing(files, query)[query.offset + k],
{
}

/// One page of the review, and how many groups the filters leave in all.
pub fn query_groups(index: &mut Index, query: &GroupQuery) -> (page: Result<GroupsPage, String>)
    requires
        old(index).wf(),
    ensures
        final(index).wf(),
        match settings::opened(old(index)@) {
            Err(error) => page is Err && page->Err_0@ == error && final(index)@ == old(index)@,
            Ok(usable) => {
                &&& final(index)@ == usable
                &&& page is Ok
                &&& page->Ok_0.total == listing(usable.files, query@).len()
                &&& group_views(page->Ok_0.groups@) == shown_page(usable.files, query@)
            },
        },
{
    match ensure_initialized(index) {
        Err(error) => return Err(error),
        Ok(_) => {},
    }
    let files = &index.files;
    let ghost views = model::file_rows(files@);
    let ghost all = listing(views, query@);
    let table = group_table(files);
    let list = list_groups(files, &table, query);
    let n = list.len();
    proof {
        lemma_listing(views, query@);
        if views.len() > 0 {
            model::lemma_file_count(views, views.len() - 1);
        }
        assert(all.len() == list@.len());
    }
    let limit: usize = if query.limit < 1 {
        1
    } else if query.limit > 200 {
        200
    } else {
        query.limit as usize
    };
    let from: usize = if query.offset < 0 {
        0
    } else if query.offset as u64 > n as u64 {
        n
    } else {
        query.offset as usize
    };
    let to: usize = if n - from < limit {
        n
    } else {
        from + limit
    };
    let ghost page = page_of(views, query@);
    proof {
        assert(page =~= all.subrange(from as int, to as int));
    }
    let mut groups: Vec<Group> = Vec::new();
    for i in from..to
        invariant
            from <= to <= n == list@.len(),
            views == model::file_rows(files@),
            all == listing(views, query@),
            page == page_of(views, query@),
            lists::ints(list@) == all,
            page == all.subrange(from as int, to as int),
            contents::is_group_table(views, table@),
            groups@.len() == i - from,
            forall|k: int|
                0 <= k < i - from ==> (#[trigger] groups@[k])@ == shown_group(views, page[k]),
    {
        let lead = list[i];
        proof {
            lemma_listing(views, query@);
            assert(all[i as int] == lead);
            assert(page[i - from] == lead);
            lemma_run_in_table(views, table@, lead as int);
        }
        let group = show_group(files, &table[lead], lead);
        groups.push(group);
    }
    proof {
        assert(group_views(groups@) =~= shown_page(views, query@));
    }
    Ok(GroupsPage { total: n as i64, groups })
}

} // verus!
