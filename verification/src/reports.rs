//! Reports over the duplicate groups: the listing, the totals, the table for
//! record keeping, and the directories that hold duplicates.
use crate::contents;
use crate::contents::group_table;
use crate::csv;
use crate::csv::csv_field;
use crate::lists;
use crate::lists::sort_positions;
use crate::model;
use crate::model::{FileRow, FileView, Index, OperationState};
use crate::outside;
use crate::paths;
use crate::paths::{parent_text, Platform};
use crate::settings;
use crate::settings::ensure_initialized;
use crate::text;
use crate::text::{
    chars_of, same_text, signed_text, slice_of, string_of, text_before, unsigned_text,
};
use vstd::prelude::*;
use vstd::relations::{sorted_by, total_ordering};

verus! {

// ---------------------------------------------------------------------------
// Rows that have copies
// ---------------------------------------------------------------------------

/// Live row that shares its content with another live row.
pub open spec fn duplicated(files: Seq<FileView>, p: int) -> bool {
    files[p].present && contents::members(files, p).len() > 1
}

/// All rows that have copies, in id order.
pub open spec fn duplicates(files: Seq<FileView>) -> Seq<int> {
    lists::positions(files.len(), |p: int| duplicated(files, p))
}

/// All members of a group have the same group.
proof fn lemma_same_group(files: Seq<FileView>, p: int, q: int)
    requires
        0 <= p < files.len(),
        0 <= q < files.len(),
        files[p].present,
        contents::belongs(files, p, q),
    ensures
        contents::members(files, q) == contents::members(files, p),
{
    lists::lemma_positions_congruent(
        files.len(),
        |k: int| contents::belongs(files, q, k),
        |k: int| contents::belongs(files, p, k),
    );
}

/// Whether each row has copies.
fn duplicate_flags(files: &Vec<FileRow>) -> (flags: Vec<bool>)
    ensures
        flags@.len() == files@.len(),
        forall|p: int|
            0 <= p < files@.len() ==> #[trigger] flags@[p] == duplicated(
                model::file_rows(files@),
                p,
            ),
{
    let ghost views = model::file_rows(files@);
    let table = group_table(files);
    let mut flags: Vec<bool> = Vec::new();
    for i in 0..files.len()
        invariant
            flags@.len() == i,
            forall|p: int| 0 <= p < i ==> !(#[trigger] flags@[p]),
    {
        flags.push(false);
    }
    proof {
        assert forall|p: int| 0 <= p < views.len() implies #[trigger] flags@[p] == (duplicated(
            views,
            p,
        ) && contents::members(views, p)[0] < 0) by {
            if views[p].present {
                contents::lemma_members(views, p);
                let group = contents::members(views, p);
                assert(0 <= group[0] < views.len());
            }
        }
    }
    for lead in 0..files.len()
        invariant
            views == model::file_rows(files@),
            views.len() == files@.len(),
            contents::is_group_table(views, table@),
            flags@.len() == views.len(),
            forall|p: int|
                0 <= p < views.len() ==> #[trigger] flags@[p] == (duplicated(views, p)
                    && contents::members(views, p)[0] < lead),
    {
        let ghost before = flags@;
        let ghost group = contents::members(views, lead as int);
        let n = table[lead].len();
        proof {
            assert(lists::ints(table@[lead as int]@).len() == n);
        }
        if n > 1 {
            proof {
                assert(contents::leads(views, lead as int));
                contents::lemma_members(views, lead as int);
                assert(lists::ints(table@[lead as int]@) == group);
            }
            for k in 0..n
                invariant
                    views.len() == files@.len(),
                    contents::is_group_table(views, table@),
                    lead < table@.len(),
                    n == table@[lead as int]@.len(),
                    group == contents::members(views, lead as int),
                    lists::ints(table@[lead as int]@) == group,
                    forall|j: int| 0 <= j < group.len() ==> 0 <= #[trigger] group[j] < views.len(),
                    flags@.len() == views.len(),
                    forall|p: int|
                        0 <= p < views.len() ==> #[trigger] flags@[p] == (before[p] || group.take(
                            k as int,
                        ).contains(p)),
            {
                let row = table[lead][k];
                let ghost old_flags = flags@;
                proof {
                    assert(group[k as int] == row);
                }
                flags.set(row, true);
                proof {
                    let now = group.take(k + 1);
                    let was = group.take(k as int);
                    assert forall|p: int| 0 <= p < views.len() implies #[trigger] flags@[p] == (
                    before[p] || now.contains(p)) by {
                        if p == row {
                            assert(now[k as int] == p);
                        } else {
                            assert(flags@[p] == old_flags[p]);
                            if was.contains(p) {
                                let j = choose|j: int| 0 <= j < was.len() && was[j] == p;
                                assert(now[j] == p);
                            }
                            if now.contains(p) {
                                let j = choose|j: int| 0 <= j < now.len() && now[j] == p;
                                assert(was[j] == p);
                            }
                        }
                    }
                }
            }
            proof {
                assert(group.take(n as int) =~= group);
            }
        }
        proof {
            assert forall|p: int| 0 <= p < views.len() implies #[trigger] flags@[p] == (duplicated(
                views,
                p,
            ) && contents::members(views, p)[0] < lead + 1) by {
                if views[p].present {
                    contents::lemma_members(views, p);
                    let first = contents::members(views, p)[0];
                    if first == lead {
                        assert(contents::leads(views, lead as int));
                        assert(lists::ints(table@[lead as int]@) == group);
                    }
                    if n > 1 && group.contains(p) {
                        let j = choose|j: int| 0 <= j < group.len() && group[j] == p;
                        assert(contents::belongs(views, lead as int, group[j]));
                        lemma_same_group(views, lead as int, p);
                    }
                } else if n > 1 && group.contains(p) {
                    let j = choose|j: int| 0 <= j < group.len() && group[j] == p;
                    assert(contents::belongs(views, lead as int, group[j]));
                }
            }
        }
    }
    proof {
        assert forall|p: int| 0 <= p < views.len() implies #[trigger] flags@[p] == duplicated(
            views,
            p,
        ) by {
            if views[p].present {
                contents::lemma_members(views, p);
                let group = contents::members(views, p);
                assert(0 <= group[0] < views.len());
            }
        }
    }
    flags
}

/// All rows that have copies.
fn duplicate_rows(files: &Vec<FileRow>) -> (list: Vec<usize>)
    ensures
        lists::ints(list@) == duplicates(model::file_rows(files@)),
        forall|k: int| 0 <= k < list@.len() ==> (#[trigger] list@[k]) < files@.len(),
{
    let ghost views = model::file_rows(files@);
    let ghost keep = |p: int| duplicated(views, p);
    let flags = duplicate_flags(files);
    let mut list: Vec<usize> = Vec::new();
    proof {
        assert(lists::ints(list@) =~= Seq::<int>::empty());
    }
    for i in 0..files.len()
        invariant
            views == model::file_rows(files@),
            keep == (|p: int| duplicated(views, p)),
            flags@.len() == files@.len(),
            forall|p: int|
                0 <= p < files@.len() ==> #[trigger] flags@[p] == duplicated(views, p),
            lists::ints(list@) == lists::positions(i as nat, keep),
            forall|k: int| 0 <= k < list@.len() ==> (#[trigger] list@[k]) < i,
    {
        let ghost before = list@;
        if flags[i] {
            list.push(i);
            proof {
                assert(lists::ints(list@) =~= lists::ints(before).push(i as int));
            }
        }
    }
    list
}

/// The members of a list stay below a bound when it is sorted.
proof fn lemma_sorted_below(
    list: Seq<usize>,
    out: Seq<usize>,
    order: spec_fn(int, int) -> bool,
    bound: int,
)
    requires
        total_ordering(order),
        lists::ints(out) == lists::ints(list).sort_by(order),
        forall|k: int| 0 <= k < list.len() ==> (#[trigger] list[k]) < bound,
    ensures
        forall|k: int| 0 <= k < out.len() ==> (#[trigger] out[k]) < bound,
        out.len() == list.len(),
{
    lists::lemma_sort_by_members(lists::ints(list), order);
    lists::ints(list).lemma_sort_by_ensures(order);
    vstd::seq_lib::to_multiset_len(lists::ints(list));
    vstd::seq_lib::to_multiset_len(lists::ints(out));
    assert(lists::ints(list).len() == list.len());
    assert(lists::ints(out).len() == out.len());
    assert forall|k: int| 0 <= k < out.len() implies (#[trigger] out[k]) < bound by {
        assert(lists::ints(out)[k] == out[k]);
        assert(lists::ints(out).contains(out[k] as int));
        assert(lists::ints(list).contains(out[k] as int));
        let j = choose|j: int|
            0 <= j < lists::ints(list).len() && lists::ints(list)[j] == out[k] as int;
        assert(list[j] == out[k]);
    }
}

// ---------------------------------------------------------------------------
// The table for record keeping
// ---------------------------------------------------------------------------

/// Order of the report: hash, then path.
pub open spec fn report_order(files: Seq<FileView>) -> spec_fn(int, int) -> bool {
    lists::by_text(
        |p: int| files[p].hash,
        lists::by_text(|p: int| files[p].path, lists::by_position()),
    )
}

/// The rows of the report.
pub open spec fn report_rows(files: Seq<FileView>) -> Seq<int> {
    duplicates(files).sort_by(report_order(files))
}

pub open spec fn report_header() -> Seq<char> {
    "hash,path,size,modified,approved\n"@
}

/// One line of the report.
pub open spec fn report_line(row: FileView) -> Seq<char> {
    row.hash + ","@ + csv::field_of(row.path) + ","@ + text::decimal(row.size as int) + ","@
        + text::decimal(row.modified as int) + (if row.approved {
        ",true\n"@
    } else {
        ",false\n"@
    })
}

/// The header and one line for each of some rows.
pub open spec fn report_text(files: Seq<FileView>, rows: Seq<int>) -> Seq<char>
    decreases rows.len(),
{
    if rows.len() == 0 {
        report_header()
    } else {
        report_text(files, rows.drop_last()) + report_line(files[rows.last()])
    }
}

fn append_line(out: &mut String, row: &FileRow)
    ensures
        final(out)@ == old(out)@ + report_line(row@),
{
    let path = csv_field(row.path.as_str());
    let size = signed_text(row.size);
    let modified = signed_text(row.modified);
    out.append(row.hash.as_str());
    out.append(",");
    out.append(path.as_str());
    out.append(",");
    out.append(size.as_str());
    out.append(",");
    out.append(modified.as_str());
    if row.approved {
        out.append(",true\n");
    } else {
        out.append(",false\n");
    }
    proof {
        assert(out@ =~= old(out)@ + report_line(row@));
    }
}

/// What is exported: the text, and how many rows it holds.
pub struct Report {
    pub csv: String,
    pub rows: usize,
}

/// Every member of the current duplicate groups as comma-separated records.
pub fn export_report(index: &mut Index) -> (report: Result<Report, String>)
    requires
        old(index).wf(),
    ensures
        final(index).wf(),
        match settings::opened(old(index)@) {
            Err(error) => report is Err && report->Err_0@ == error && final(index)@ == old(index)@,
            Ok(usable) => {
                &&& final(index)@ == usable
                &&& report is Ok
                &&& report->Ok_0.csv@ == report_text(usable.files, report_rows(usable.files))
                &&& report->Ok_0.rows == duplicates(usable.files).len()
            },
        },
{
    match ensure_initialized(index) {
        Err(error) => return Err(error),
        Ok(_) => {},
    }
    let files = &index.files;
    let ghost views = model::file_rows(files@);
    let ghost order = report_order(views);
    let list = duplicate_rows(files);
    proof {
        lists::lemma_by_position();
        lists::lemma_by_text(|p: int| views[p].path, lists::by_position());
        lists::lemma_by_text(
            |p: int| views[p].hash,
            lists::by_text(|p: int| views[p].path, lists::by_position()),
        );
    }
    let le = |a: usize, b: usize| -> (r: bool)
        requires
            a < files@.len(),
            b < files@.len(),
        ensures
            r == report_order(model::file_rows(files@))(a as int, b as int),
        {
            proof {
                assert(model::file_rows(files@)[a as int] == files@[a as int]@);
                assert(model::file_rows(files@)[b as int] == files@[b as int]@);
            }
            if !same_text(files[a].hash.as_str(), files[b].hash.as_str()) {
                text_before(files[a].hash.as_str(), files[b].hash.as_str())
            } else if !same_text(files[a].path.as_str(), files[b].path.as_str()) {
                text_before(files[a].path.as_str(), files[b].path.as_str())
            } else {
                a <= b
            }
        };
    let rows = sort_positions(&list, le, Ghost(order));
    let ghost sorted = report_rows(views);
    proof {
        lemma_sorted_below(list@, rows@, order, files@.len() as int);
        assert(lists::ints(rows@) == sorted);
        assert(sorted.len() == rows@.len());
        assert(duplicates(views).len() == list@.len());
        assert(sorted.take(0) =~= Seq::<int>::empty());
    }
    let mut csv = "hash,path,size,modified,approved\n".to_string();
    for i in 0..rows.len()
        invariant
            views == model::file_rows(files@),
            sorted == lists::ints(rows@),
            forall|k: int| 0 <= k < rows@.len() ==> (#[trigger] rows@[k]) < files@.len(),
            csv@ == report_text(views, sorted.take(i as int)),
    {
        let p = rows[i];
        proof {
            assert(sorted.take(i + 1).drop_last() =~= sorted.take(i as int));
            assert(sorted.take(i + 1).last() == p);
            assert(views[p as int] == files@[p as int]@);
        }
        append_line(&mut csv, &files[p]);
    }
    proof {
        assert(sorted.take(rows@.len() as int) =~= sorted);
    }
    Ok(Report { csv, rows: rows.len() })
}

/// The path in a line of the report reads back as it stands in the index,
/// whatever characters it holds.
pub proof fn law_report_keeps_paths(row: FileView)
    ensures
        exists|rest: Seq<char>|
            csv::read_field(#[trigger] report_tail(row, rest)) == (row.path, rest) && report_line(
                row,
            ) == row.hash + ","@ + report_tail(row, rest),
{
    let rest = ","@ + text::decimal(row.size as int) + ","@ + text::decimal(row.modified as int) + (
    if row.approved {
        ",true\n"@
    } else {
        ",false\n"@
    });
    reveal_strlit(",");
    assert(rest[0] == ',');
    csv::law_field_reads_back(row.path, rest);
    assert(report_line(row) =~= row.hash + ","@ + report_tail(row, rest));
}

/// The path field of a row, with what follows it.
pub open spec fn report_tail(row: FileView, rest: Seq<char>) -> Seq<char> {
    csv::field_of(row.path) + rest
}

// ---------------------------------------------------------------------------
// The listing
// ---------------------------------------------------------------------------

/// Order of the listed groups: larger files first.
pub open spec fn listing_order(files: Seq<FileView>) -> spec_fn(int, int) -> bool {
    lists::by_rank(
        |p: int| files[p].size as int,
        lists::by_text(|p: int| files[p].hash, lists::by_position()),
    )
}

/// One row for each group of copies, in the order of the listing.
pub open spec fn listed(files: Seq<FileView>) -> Seq<int> {
    lists::positions(
        files.len(),
        |p: int| contents::leads(files, p) && contents::members(files, p).len() > 1,
    ).sort_by(listing_order(files))
}

/// Order within a listed group: by path.
pub open spec fn path_order(files: Seq<FileView>) -> spec_fn(int, int) -> bool {
    lists::by_text(|p: int| files[p].path, lists::by_position())
}

/// The members of a listed group.
pub open spec fn listed_members(files: Seq<FileView>, p: int) -> Seq<int> {
    contents::members(files, p).sort_by(path_order(files))
}

/// The beginning of a hash.
pub open spec fn hash_head(hash: Seq<char>) -> Seq<char> {
    if hash.len() < 12 {
        hash
    } else {
        hash.take(12)
    }
}

/// The heading of a group, set off by an empty line.
pub open spec fn group_heading(number: int, count: int, size: i64, hash: Seq<char>) -> Seq<char> {
    "\nGroup "@ + text::decimal(number) + ": "@ + text::decimal(count) + " identical files, "@
        + text::decimal(size as int) + " bytes each, hash "@ + hash_head(hash)
}

/// The line of a member.
pub open spec fn member_line(row: FileView) -> Seq<char> {
    "  ["@ + text::decimal(row.id as int) + "] "@ + row.path + (if row.protected {
        " [protected]"@
    } else {
        Seq::empty()
    }) + (if row.approved {
        " [approved]"@
    } else {
        Seq::empty()
    })
}

/// The lines of some members.
pub open spec fn member_lines(files: Seq<FileView>, rows: Seq<int>) -> Seq<Seq<char>> {
    rows.map_values(|p: int| member_line(files[p]))
}

/// The lines of some groups, numbered from one.
pub open spec fn group_lines(files: Seq<FileView>, groups: Seq<int>) -> Seq<Seq<char>>
    decreases groups.len(),
{
    if groups.len() == 0 {
        Seq::empty()
    } else {
        let p = groups.last();
        group_lines(files, groups.drop_last()).push(
            group_heading(
                groups.len() as int,
                contents::members(files, p).len() as int,
                files[p].size,
                files[p].hash,
            ),
        ) + member_lines(files, listed_members(files, p))
    }
}

/// All lines of the listing.
pub open spec fn listing_lines(files: Seq<FileView>) -> Seq<Seq<char>> {
    if listed(files).len() == 0 {
        seq!["No exact duplicate groups found."@]
    } else {
        group_lines(files, listed(files))
    }
}

fn heading(number: usize, count: usize, size: i64, hash: &str) -> (line: String)
    ensures
        line@ == group_heading(number as int, count as int, size, hash@),
{
    let chars = chars_of(hash);
    let end: usize = if chars.len() < 12 {
        chars.len()
    } else {
        12
    };
    let head = slice_of(chars.as_slice(), 0, end);
    let short = string_of(head.as_slice());
    let number_text = unsigned_text(number as u64);
    let count_text = unsigned_text(count as u64);
    let size_text = signed_text(size);
    let mut line = "\nGroup ".to_string();
    line.append(number_text.as_str());
    line.append(": ");
    line.append(count_text.as_str());
    line.append(" identical files, ");
    line.append(size_text.as_str());
    line.append(" bytes each, hash ");
    line.append(short.as_str());
    proof {
        assert(head@ =~= hash_head(hash@));
    }
    line
}

fn member_text(row: &FileRow) -> (line: String)
    ensures
        line@ == member_line(row@),
{
    let id = signed_text(row.id);
    let mut line = "  [".to_string();
    line.append(id.as_str());
    line.append("] ");
    line.append(row.path.as_str());
    if row.protected {
        line.append(" [protected]");
    }
    if row.approved {
        line.append(" [approved]");
    }
    proof {
        assert(line@ =~= member_line(row@));
    }
    line
}

fn sort_by_path(files: &Vec<FileRow>, run: &Vec<usize>) -> (list: Vec<usize>)
    requires
        forall|k: int| 0 <= k < run@.len() ==> (#[trigger] run@[k]) < files@.len(),
    ensures
        lists::ints(list@) == lists::ints(run@).sort_by(path_order(model::file_rows(files@))),
        forall|k: int| 0 <= k < list@.len() ==> (#[trigger] list@[k]) < files@.len(),
{
    let ghost views = model::file_rows(files@);
    let ghost order = path_order(views);
    proof {
        lists::lemma_by_position();
        lists::lemma_by_text(|p: int| views[p].path, lists::by_position());
    }
    let le = |a: usize, b: usize| -> (r: bool)
        requires
            a < files@.len(),
            b < files@.len(),
        ensures
            r == path_order(model::file_rows(files@))(a as int, b as int),
        {
            proof {
                assert(model::file_rows(files@)[a as int] == files@[a as int]@);
                assert(model::file_rows(files@)[b as int] == files@[b as int]@);
            }
            if !same_text(files[a].path.as_str(), files[b].path.as_str()) {
                text_before(files[a].path.as_str(), files[b].path.as_str())
            } else {
                a <= b
            }
        };
    let list = sort_positions(run, le, Ghost(order));
    proof {
        lemma_sorted_below(run@, list@, order, files@.len() as int);
    }
    list
}

fn append_member_lines(lines: &mut Vec<String>, files: &Vec<FileRow>, rows: &Vec<usize>)
    requires
        forall|k: int| 0 <= k < rows@.len() ==> (#[trigger] rows@[k]) < files@.len(),
    ensures
        outside::texts(final(lines)@) == outside::texts(old(lines)@) + member_lines(
            model::file_rows(files@),
            lists::ints(rows@),
        ),
{
    let ghost views = model::file_rows(files@);
    let ghost start = outside::texts(lines@);
    let ghost added = member_lines(views, lists::ints(rows@));
    proof {
        assert(start + added.take(0) =~= start);
    }
    for i in 0..rows.len()
        invariant
            views == model::file_rows(files@),
            added == member_lines(views, lists::ints(rows@)),
            forall|k: int| 0 <= k < rows@.len() ==> (#[trigger] rows@[k]) < files@.len(),
            outside::texts(lines@) == start + added.take(i as int),
    {
        let p = rows[i];
        let line = member_text(&files[p]);
        let ghost before = lines@;
        lines.push(line);
        proof {
            assert(lists::ints(rows@)[i as int] == p);
            assert(views[p as int] == files@[p as int]@);
            assert(added[i as int] == line@);
            assert(outside::texts(lines@) =~= outside::texts(before).push(line@));
            assert(start + added.take(i + 1) =~= (start + added.take(i as int)).push(line@));
        }
    }
    proof {
        assert(added.take(rows@.len() as int) =~= added);
    }
}

/// The leading rows of the groups of copies.
fn copied_leaders(files: &Vec<FileRow>, table: &Vec<Vec<usize>>) -> (list: Vec<usize>)
    requires
        contents::is_group_table(model::file_rows(files@), table@),
    ensures
        lists::ints(list@) == lists::positions(
            files@.len(),
            |p: int|
                contents::leads(model::file_rows(files@), p) && contents::members(
                    model::file_rows(files@),
                    p,
                ).len() > 1,
        ),
        forall|k: int| 0 <= k < list@.len() ==> (#[trigger] list@[k]) < files@.len(),
{
    let ghost views = model::file_rows(files@);
    let ghost keep = |p: int| contents::leads(views, p) && contents::members(views, p).len() > 1;
    let mut list: Vec<usize> = Vec::new();
    proof {
        assert(lists::ints(list@) =~= Seq::<int>::empty());
    }
    for i in 0..files.len()
        invariant
            views == model::file_rows(files@),
            views.len() == files@.len(),
            contents::is_group_table(views, table@),
            keep == (|p: int| contents::leads(views, p) && contents::members(views, p).len() > 1),
            lists::ints(list@) == lists::positions(i as nat, keep),
            forall|k: int| 0 <= k < list@.len() ==> (#[trigger] list@[k]) < i,
    {
        let ghost before = list@;
        let n = table[i].len();
        proof {
            assert(lists::ints(table@[i as int]@).len() == n);
        }
        if n > 1 {
            list.push(i);
            proof {
                assert(lists::ints(list@) =~= lists::ints(before).push(i as int));
            }
        }
    }
    list
}

fn sort_leaders(files: &Vec<FileRow>, list: &Vec<usize>) -> (out: Vec<usize>)
    requires
        forall|k: int| 0 <= k < list@.len() ==> (#[trigger] list@[k]) < files@.len(),
    ensures
        lists::ints(out@) == lists::ints(list@).sort_by(listing_order(model::file_rows(files@))),
        forall|k: int| 0 <= k < out@.len() ==> (#[trigger] out@[k]) < files@.len(),
{
    let ghost views = model::file_rows(files@);
    let ghost order = listing_order(views);
    proof {
        lists::lemma_by_position();
        lists::lemma_by_text(|p: int| views[p].hash, lists::by_position());
        lists::lemma_by_rank(
            |p: int| views[p].size as int,
            lists::by_text(|p: int| views[p].hash, lists::by_position()),
        );
    }
    let le = |a: usize, b: usize| -> (r: bool)
        requires
            a < files@.len(),
            b < files@.len(),
        ensures
            r == listing_order(model::file_rows(files@))(a as int, b as int),
        {
            proof {
                assert(model::file_rows(files@)[a as int] == files@[a as int]@);
                assert(model::file_rows(files@)[b as int] == files@[b as int]@);
            }
            if files[a].size != files[b].size {
                files[a].size > files[b].size
            } else if !same_text(files[a].hash.as_str(), files[b].hash.as_str()) {
                text_before(files[a].hash.as_str(), files[b].hash.as_str())
            } else {
                a <= b
            }
        };
    let out = sort_positions(list, le, Ghost(order));
    proof {
        lemma_sorted_below(list@, out@, order, files@.len() as int);
    }
    out
}

/// The listing of all duplicate groups, line by line.
pub fn groups(index: &mut Index) -> (lines: Result<Vec<String>, String>)
    requires
        old(index).wf(),
    ensures
        final(index).wf(),
        match settings::opened(old(index)@) {
            Err(error) => lines is Err && lines->Err_0@ == error && final(index)@ == old(index)@,
            Ok(usable) => {
                &&& final(index)@ == usable
                &&& lines is Ok
                &&& outside::texts(lines->Ok_0@) == listing_lines(usable.files)
            },
        },
{
    match ensure_initialized(index) {
        Err(error) => return Err(error),
        Ok(_) => {},
    }
    let files = &index.files;
    let ghost views = model::file_rows(files@);
    let table = group_table(files);
    let leaders = copied_leaders(files, &table);
    let order = sort_leaders(files, &leaders);
    let ghost all = listed(views);
    let mut lines: Vec<String> = Vec::new();
    proof {
        assert(lists::ints(order@) == all);
        assert(all.len() == order@.len());
        assert(outside::texts(lines@) =~= group_lines(views, all.take(0)));
        let keep = |p: int|
            contents::leads(views, p) && contents::members(views, p).len() > 1;
        lists::lemma_positions(views.len(), keep);
        lists::lemma_by_position();
        lists::lemma_by_text(|p: int| views[p].hash, lists::by_position());
        lists::lemma_by_rank(
            |p: int| views[p].size as int,
            lists::by_text(|p: int| views[p].hash, lists::by_position()),
        );
        lists::lemma_sort_by_members(
            lists::positions(views.len(), keep),
            listing_order(views),
        );
        assert forall|k: int| 0 <= k < order@.len() implies contents::leads(
            views,
            (#[trigger] order@[k]) as int,
        ) by {
            assert(all[k] == order@[k]);
            assert(all.contains(all[k]));
        }
    }
    for i in 0..order.len()
        invariant
            views == model::file_rows(files@),
            views.len() == files@.len(),
            contents::is_group_table(views, table@),
            all == lists::ints(order@),
            forall|k: int|
                0 <= k < order@.len() ==> (#[trigger] order@[k]) < files@.len() && contents::leads(
                    views,
                    order@[k] as int,
                ),
            outside::texts(lines@) == group_lines(views, all.take(i as int)),
    {
        let p = order[i];
        let run = &table[p];
        let n = run.len();
        let ghost group = contents::members(views, p as int);
        proof {
            assert(lists::ints(table@[p as int]@) == group);
            assert(lists::ints(run@).len() == n);
            contents::lemma_members(views, p as int);
            assert forall|k: int| 0 <= k < run@.len() implies (#[trigger] run@[k]) < files@.len() by {
                assert(lists::ints(run@)[k] == run@[k]);
                assert(0 <= group[k] < views.len());
            }
            assert(views[p as int] == files@[p as int]@);
            assert(all.take(i + 1).drop_last() =~= all.take(i as int));
            assert(all.take(i + 1).last() == p);
        }
        let line = heading(i + 1, n, files[p].size, files[p].hash.as_str());
        let ghost before = lines@;
        lines.push(line);
        proof {
            assert(outside::texts(lines@) =~= outside::texts(before).push(line@));
        }
        let rows = sort_by_path(files, run);
        append_member_lines(&mut lines, files, &rows);
    }
    proof {
        assert(all.take(order@.len() as int) =~= all);
    }
    if order.len() == 0 {
        lines.push("No exact duplicate groups found.".to_string());
        proof {
            assert(outside::texts(lines@) =~= seq!["No exact duplicate groups found."@]);
        }
    }
    Ok(lines)
}

// ---------------------------------------------------------------------------
// Totals
// ---------------------------------------------------------------------------

/// How many live rows the index has.
pub open spec fn live_count(files: Seq<FileView>) -> nat {
    lists::positions(files.len(), |p: int| files[p].present).len()
}

/// How many live rows are copies beyond the first of their content.
pub open spec fn surplus_count(files: Seq<FileView>) -> nat {
    lists::positions(files.len(), |p: int| files[p].present && !contents::leads(files, p)).len()
}

/// How many files lie in the recycle bin.
pub open spec fn bin_count(operations: Seq<model::OperationView>) -> nat {
    lists::positions(
        operations.len(),
        |k: int| operations[k].state == OperationState::Trashed,
    ).len()
}

pub open spec fn status_text(files: nat, surplus: nat, recycled: nat) -> Seq<char> {
    "Indexed files: "@ + text::decimal(files as int) + "\nDuplicate copies: "@ + text::decimal(
        surplus as int,
    ) + "\nIn recycle bin: "@ + text::decimal(recycled as int)
}

/// The totals of the index in three lines.
pub fn status(index: &mut Index) -> (lines: Result<String, String>)
    requires
        old(index).wf(),
    ensures
        final(index).wf(),
        match settings::opened(old(index)@) {
            Err(error) => lines is Err && lines->Err_0@ == error && final(index)@ == old(index)@,
            Ok(usable) => {
                &&& final(index)@ == usable
                &&& lines is Ok
                &&& lines->Ok_0@ == status_text(
                    live_count(usable.files),
                    surplus_count(usable.files),
                    bin_count(usable.operations),
                )
            },
        },
{
    match ensure_initialized(index) {
        Err(error) => return Err(error),
        Ok(_) => {},
    }
    let files = &index.files;
    let ghost views = model::file_rows(files@);
    let table = group_table(files);
    let mut live: usize = 0;
    let mut surplus: usize = 0;
    let ghost is_live = |p: int| views[p].present;
    let ghost is_surplus = |p: int| views[p].present && !contents::leads(views, p);
    for i in 0..files.len()
        invariant
            views == model::file_rows(files@),
            views.len() == files@.len(),
            contents::is_group_table(views, table@),
            is_live == (|p: int| views[p].present),
            is_surplus == (|p: int| views[p].present && !contents::leads(views, p)),
            live == lists::positions(i as nat, is_live).len(),
            surplus == lists::positions(i as nat, is_surplus).len(),
            live <= i,
            surplus <= i,
    {
        let n = table[i].len();
        proof {
            assert(views[i as int] == files@[i as int]@);
            assert(lists::ints(table@[i as int]@).len() == n);
            if contents::leads(views, i as int) {
                contents::lemma_members(views, i as int);
            }
        }
        if files[i].present {
            live = live + 1;
            if n == 0 {
                surplus = surplus + 1;
            }
        }
    }
    let operations = &index.operations;
    let ghost rows = model::operation_rows(operations@);
    let ghost in_bin = |k: int| rows[k].state == OperationState::Trashed;
    let mut recycled: usize = 0;
    for i in 0..operations.len()
        invariant
            rows == model::operation_rows(operations@),
            in_bin == (|k: int| rows[k].state == OperationState::Trashed),
            recycled == lists::positions(i as nat, in_bin).len(),
            recycled <= i,
    {
        proof {
            assert(rows[i as int] == operations@[i as int]@);
        }
        if operations[i].state == OperationState::Trashed {
            recycled = recycled + 1;
        }
    }
    let live_text = unsigned_text(live as u64);
    let surplus_text = unsigned_text(surplus as u64);
    let recycled_text = unsigned_text(recycled as u64);
    let mut lines = "Indexed files: ".to_string();
    lines.append(live_text.as_str());
    lines.append("\nDuplicate copies: ");
    lines.append(surplus_text.as_str());
    lines.append("\nIn recycle bin: ");
    lines.append(recycled_text.as_str());
    Ok(lines)
}

/// Every content keeps one row that is not surplus: the live rows are the
/// surplus copies and one leading row for each content.
pub proof fn law_surplus_leaves_one_row_each(files: Seq<FileView>)
    ensures
        live_count(files) == surplus_count(files) + contents::leaders(files).len(),
{
    lemma_live_rows_split(files, files.len());
}

proof fn lemma_live_rows_split(files: Seq<FileView>, n: nat)
    requires
        n <= files.len(),
    ensures
        lists::positions(n, |p: int| files[p].present).len() == lists::positions(
            n,
            |p: int| files[p].present && !contents::leads(files, p),
        ).len() + lists::positions(n, |p: int| contents::leads(files, p)).len(),
    decreases n,
{
    if n > 0 {
        lemma_live_rows_split(files, (n - 1) as nat);
    }
}

// ---------------------------------------------------------------------------
// Directories with duplicates
// ---------------------------------------------------------------------------

/// A directory and how many files with copies lie directly in it.
pub struct DirCount {
    pub dir: String,
    pub count: i64,
}

pub open spec fn dir_views(dirs: Seq<DirCount>) -> Seq<(Seq<char>, int)> {
    dirs.map_values(|dir: DirCount| (dir.dir@, dir.count as int))
}

/// The directories of some rows, one for each row that names one.
pub open spec fn parents(files: Seq<FileView>, rows: Seq<int>) -> Seq<Seq<char>>
    decreases rows.len(),
{
    if rows.len() == 0 {
        Seq::empty()
    } else {
        let front = parents(files, rows.drop_last());
        match paths::parent_of(Platform::Windows, files[rows.last()].path) {
            Some(dir) => front.push(dir),
            None => front,
        }
    }
}

pub open spec fn is_dir(list: Seq<Seq<char>>, dir: Seq<char>, j: int) -> bool {
    list[j] == dir
}

/// Where a directory occurs in a list of directories.
pub open spec fn occurrences(list: Seq<Seq<char>>, dir: Seq<char>) -> Seq<int> {
    lists::positions(list.len(), |j: int| is_dir(list, dir, j))
}

/// Some entry is about the directory.
pub open spec fn has_dir(out: Seq<(Seq<char>, int)>, dir: Seq<char>) -> bool {
    exists|k: int| 0 <= k < out.len() && (#[trigger] out[k]).0 == dir
}

/// Busier directories first, equally busy ones by name.
pub open spec fn busier(a: (Seq<char>, int), b: (Seq<char>, int)) -> bool {
    a.1 > b.1 || (a.1 == b.1 && a.0 != b.0 && text::text_le(a.0, b.0))
}

/// `out` holds each directory of `list` once, with the number of its
/// occurrences, the busiest first.
pub open spec fn is_tally(list: Seq<Seq<char>>, out: Seq<(Seq<char>, int)>) -> bool {
    &&& forall|k: int|
        0 <= k < out.len() ==> (#[trigger] out[k]).1 == occurrences(list, out[k].0).len()
            && out[k].1 > 0
    &&& forall|j: int| 0 <= j < list.len() ==> has_dir(out, #[trigger] list[j])
    &&& forall|a: int, b: int|
        0 <= a < b < out.len() ==> busier(#[trigger] out[a], #[trigger] out[b])
}

/// The directories of all files that have copies.
fn parent_list(files: &Vec<FileRow>) -> (list: Vec<String>)
    ensures
        outside::texts(list@) == parents(
            model::file_rows(files@),
            duplicates(model::file_rows(files@)),
        ),
{
    let ghost views = model::file_rows(files@);
    let rows = duplicate_rows(files);
    let ghost all = duplicates(views);
    let mut list: Vec<String> = Vec::new();
    proof {
        assert(all.take(0) =~= Seq::<int>::empty());
        assert(outside::texts(list@) =~= Seq::<Seq<char>>::empty());
        assert(all.len() == rows@.len());
    }
    for i in 0..rows.len()
        invariant
            views == model::file_rows(files@),
            all == lists::ints(rows@),
            forall|k: int| 0 <= k < rows@.len() ==> (#[trigger] rows@[k]) < files@.len(),
            outside::texts(list@) == parents(views, all.take(i as int)),
    {
        let p = rows[i];
        let ghost before = list@;
        proof {
            assert(all.take(i + 1).drop_last() =~= all.take(i as int));
            assert(all.take(i + 1).last() == p);
            assert(views[p as int] == files@[p as int]@);
        }
        match parent_text(files[p].path.as_str()) {
            Some(dir) => {
                list.push(dir);
                proof {
                    assert(outside::texts(list@) =~= outside::texts(before).push(dir@));
                }
            },
            None => {},
        }
    }
    proof {
        assert(all.take(rows@.len() as int) =~= all);
    }
    list
}

/// Order of equal directories next to each other.
spec fn name_order(list: Seq<Seq<char>>) -> spec_fn(int, int) -> bool {
    lists::by_text(|j: int| list[j], lists::by_position())
}

fn sort_names(list: &Vec<String>) -> (sorted: Vec<usize>)
    ensures
        lists::ints(sorted@) == lists::positions(list@.len(), |j: int| true).sort_by(
            name_order(outside::texts(list@)),
        ),
{
    let ghost views = outside::texts(list@);
    let ghost order = name_order(views);
    let ghost keep = |j: int| true;
    let mut all: Vec<usize> = Vec::new();
    proof {
        assert(lists::ints(all@) =~= Seq::<int>::empty());
        lists::lemma_by_position();
        lists::lemma_by_text(|j: int| views[j], lists::by_position());
    }
    for i in 0..list.len()
        invariant
            keep == (|j: int| true),
            lists::ints(all@) == lists::positions(i as nat, keep),
            forall|k: int| 0 <= k < all@.len() ==> (#[trigger] all@[k]) < i,
    {
        let ghost before = all@;
        all.push(i);
        proof {
            assert(keep(i as int));
            assert(lists::ints(all@) =~= lists::ints(before).push(i as int));
        }
    }
    let le = |a: usize, b: usize| -> (r: bool)
        requires
            a < list@.len(),
            b < list@.len(),
        ensures
            r == name_order(outside::texts(list@))(a as int, b as int),
        {
            proof {
                assert(outside::texts(list@)[a as int] == list@[a as int]@);
                assert(outside::texts(list@)[b as int] == list@[b as int]@);
            }
            if !same_text(list[a].as_str(), list[b].as_str()) {
                text_before(list[a].as_str(), list[b].as_str())
            } else {
                a <= b
            }
        };
    sort_positions(&all, le, Ghost(order))
}

/// What the sorted positions are.
proof fn lemma_sorted_names(list: Seq<Seq<char>>, sorted: Seq<int>)
    requires
        sorted == lists::positions(list.len(), |j: int| true).sort_by(name_order(list)),
    ensures
        forall|j: int| #[trigger] sorted.contains(j) <==> 0 <= j < list.len(),
        sorted_by(sorted, name_order(list)),
        sorted.no_duplicates(),
        total_ordering(name_order(list)),
{
    let keep = |j: int| true;
    let all = lists::positions(list.len(), keep);
    lists::lemma_positions(list.len(), keep);
    lists::lemma_by_position();
    lists::lemma_by_text(|j: int| list[j], lists::by_position());
    lists::lemma_sort_by_members(all, name_order(list));
    all.lemma_sort_by_ensures(name_order(list));
    assert(all.no_duplicates());
    all.lemma_multiset_has_no_duplicates();
    sorted.lemma_multiset_has_no_duplicates_conv();
}

/// A maximal run of one directory holds all its occurrences.
proof fn lemma_run_is_directory(list: Seq<Seq<char>>, sorted: Seq<int>, from: int, to: int)
    requires
        sorted == lists::positions(list.len(), |j: int| true).sort_by(name_order(list)),
        0 <= from < to <= sorted.len(),
        forall|k: int| from <= k < to ==> list[#[trigger] sorted[k]] == list[sorted[from]],
        from > 0 ==> list[sorted[from - 1]] != list[sorted[from]],
        to < sorted.len() ==> list[sorted[to]] != list[sorted[from]],
    ensures
        occurrences(list, list[sorted[from]]) == sorted.subrange(from, to),
{
    lemma_sorted_names(list, sorted);
    text::lemma_text_order();
    let le = name_order(list);
    let dir = list[sorted[from]];
    let run = sorted.subrange(from, to);
    let found = occurrences(list, dir);
    let keep = |j: int| is_dir(list, dir, j);
    lists::lemma_positions(list.len(), keep);
    assert(lists::ascending(run)) by {
        assert forall|i: int, j: int| 0 <= i < j < run.len() implies run[i] < run[j] by {
            assert(le(sorted[from + i], sorted[from + j]));
            assert(list[sorted[from + i]] == dir);
            assert(list[sorted[from + j]] == dir);
            assert(sorted[from + i] != sorted[from + j]);
        }
    }
    assert forall|p: int| #[trigger] run.contains(p) <==> found.contains(p) by {
        if run.contains(p) {
            let k = choose|k: int| 0 <= k < run.len() && run[k] == p;
            assert(sorted[from + k] == p);
            assert(list[sorted[from + k]] == dir);
            assert(sorted.contains(p));
            assert(keep(p));
        }
        if found.contains(p) {
            assert(0 <= p < list.len() && keep(p));
            assert(sorted.contains(p));
            let c = choose|c: int| 0 <= c < sorted.len() && sorted[c] == p;
            if c < from {
                if c < from - 1 {
                    assert(le(sorted[c], sorted[from - 1]));
                }
                assert(le(sorted[from - 1], sorted[from]));
            }
            if c >= to {
                if c > to {
                    assert(le(sorted[to], sorted[c]));
                }
                assert(le(sorted[from], sorted[to]));
            }
            assert(run[c - from] == p);
        }
    }
    lists::lemma_ascending_unique(run, found);
}

/// Each directory of `sorted.take(from)` once, with its occurrences, by name.
spec fn is_count_list(
    list: Seq<Seq<char>>,
    sorted: Seq<int>,
    from: int,
    out: Seq<(Seq<char>, int)>,
) -> bool {
    &&& forall|k: int|
        0 <= k < out.len() ==> (#[trigger] out[k]).1 == occurrences(list, out[k].0).len()
            && out[k].1 > 0
    &&& forall|c: int| 0 <= c < from ==> has_dir(out, list[#[trigger] sorted[c]])
    &&& from > 0 ==> out.len() > 0 && out.last().0 == list[sorted[from - 1]]
    &&& from == 0 ==> out.len() == 0
    &&& forall|a: int, b: int|
        0 <= a < b < out.len() ==> (#[trigger] out[a]).0 != (#[trigger] out[b]).0 && text::text_le(
            out[a].0,
            out[b].0,
        )
}

/// Count each directory of a list. The second result is the order in which
/// the list was walked.
fn count_dirs(list: &Vec<String>) -> (result: (Vec<DirCount>, Ghost<Seq<int>>))
    requires
        list@.len() <= i64::MAX,
    ensures
        is_count_list(
            outside::texts(list@),
            result.1@,
            result.1@.len() as int,
            dir_views(result.0@),
        ),
        forall|j: int| #[trigger] result.1@.contains(j) <==> 0 <= j < list@.len(),
{
    let ghost views = outside::texts(list@);
    let sorted = sort_names(list);
    let ghost order = lists::ints(sorted@);
    let n = sorted.len();
    let mut counts: Vec<DirCount> = Vec::new();
    proof {
        lemma_sorted_names(views, order);
        assert(order.len() == n);
        assert forall|k: int| 0 <= k < n implies (#[trigger] sorted@[k]) < list@.len() by {
            assert(order[k] == sorted@[k]);
            assert(order.contains(order[k]));
        }
    }
    let mut from: usize = 0;
    while from < n
        invariant
            views == outside::texts(list@),
            views.len() == list@.len(),
            list@.len() <= i64::MAX,
            n == sorted@.len(),
            order == lists::ints(sorted@),
            order == lists::positions(views.len(), |j: int| true).sort_by(name_order(views)),
            order.no_duplicates(),
            forall|j: int| #[trigger] order.contains(j) <==> 0 <= j < views.len(),
            forall|k: int| 0 <= k < n ==> (#[trigger] sorted@[k]) < list@.len(),
            from <= n,
            0 < from < n ==> views[order[from - 1]] != views[order[from as int]],
            is_count_list(views, order, from as int, dir_views(counts@)),
        decreases n - from,
    {
        let lead = sorted[from];
        let mut to: usize = from + 1;
        let mut open = true;
        while open && to < n
            invariant
                views == outside::texts(list@),
                n == sorted@.len(),
                order == lists::ints(sorted@),
                forall|k: int| 0 <= k < n ==> (#[trigger] sorted@[k]) < list@.len(),
                from < to <= n,
                lead == sorted@[from as int],
                forall|k: int|
                    from <= k < to ==> views[#[trigger] order[k]] == views[order[from as int]],
                !open ==> to < n && views[order[to as int]] != views[order[from as int]],
            decreases n - to + (if open {
                1int
            } else {
                0
            }),
        {
            let next = sorted[to];
            proof {
                assert(views[next as int] == list@[next as int]@);
                assert(views[lead as int] == list@[lead as int]@);
                assert(order[to as int] == next);
                assert(order[from as int] == lead);
            }
            if same_text(list[next].as_str(), list[lead].as_str()) {
                to = to + 1;
            } else {
                open = false;
            }
        }
        let ghost dir = views[lead as int];
        proof {
            assert(order[from as int] == lead);
            assert(views[lead as int] == list@[lead as int]@);
            lemma_run_is_directory(views, order, from as int, to as int);
            let keep = |j: int| is_dir(views, dir, j);
            lists::lemma_positions(views.len(), keep);
            assert(occurrences(views, dir).len() == to - from);
            if to < n {
                assert(views[order[to - 1]] == views[order[from as int]]);
            }
        }
        let ghost before = dir_views(counts@);
        counts.push(DirCount { dir: list[lead].clone(), count: (to - from) as i64 });
        proof {
            let now = dir_views(counts@);
            assert(now =~= before.push((dir, (to - from) as int)));
            lemma_counted_run(views, order, from as int, to as int, before, now);
        }
        from = to;
    }
    (counts, Ghost(order))
}

proof fn lemma_counted_run(
    list: Seq<Seq<char>>,
    sorted: Seq<int>,
    from: int,
    to: int,
    before: Seq<(Seq<char>, int)>,
    now: Seq<(Seq<char>, int)>,
)
    requires
        sorted == lists::positions(list.len(), |j: int| true).sort_by(name_order(list)),
        0 <= from < to <= sorted.len(),
        is_count_list(list, sorted, from, before),
        now == before.push((list[sorted[from]], to - from)),
        occurrences(list, list[sorted[from]]).len() == to - from,
        forall|k: int| from <= k < to ==> list[#[trigger] sorted[k]] == list[sorted[from]],
        from > 0 ==> list[sorted[from - 1]] != list[sorted[from]],
    ensures
        is_count_list(list, sorted, to, now),
{
    lemma_sorted_names(list, sorted);
    text::lemma_text_order();
    let le = name_order(list);
    let last = before.len() as int;
    let dir = list[sorted[from]];
    assert(now[last].0 == dir);
    assert forall|c: int| 0 <= c < to implies has_dir(now, list[#[trigger] sorted[c]]) by {
        if c < from {
            assert(has_dir(before, list[sorted[c]]));
            let k = choose|k: int|
                0 <= k < before.len() && (#[trigger] before[k]).0 == list[sorted[c]];
            assert(now[k] == before[k]);
        } else {
            assert(now[last].0 == list[sorted[c]]);
        }
    }
    assert(list[sorted[to - 1]] == dir);
    if from > 0 {
        assert(le(sorted[from - 1], sorted[from]));
        assert(text::text_le(before.last().0, dir));
    }
    assert forall|a: int, b: int| 0 <= a < b < now.len() implies (#[trigger] now[a]).0 != (
    #[trigger] now[b]).0 && text::text_le(now[a].0, now[b].0) by {
        assert(now[a] == before[a]);
        if b < last {
            assert(now[b] == before[b]);
        } else if a < last - 1 {
            assert(before[a].0 != before[last - 1].0);
            assert(text::text_le(before[a].0, before[last - 1].0));
        }
    }
    assert forall|k: int| 0 <= k < now.len() implies (#[trigger] now[k]).1 == occurrences(
        list,
        now[k].0,
    ).len() && now[k].1 > 0 by {
        if k < last {
            assert(now[k] == before[k]);
        }
    }
}

/// Order of the counted directories.
spec fn busy_order(counts: Seq<(Seq<char>, int)>) -> spec_fn(int, int) -> bool {
    lists::by_rank(
        |k: int| counts[k].1,
        lists::by_text(|k: int| counts[k].0, lists::by_position()),
    )
}

fn sort_counts(counts: &Vec<DirCount>) -> (sorted: Vec<usize>)
    ensures
        lists::ints(sorted@) == lists::positions(counts@.len(), |j: int| true).sort_by(
            busy_order(dir_views(counts@)),
        ),
        total_ordering(busy_order(dir_views(counts@))),
{
    let ghost views = dir_views(counts@);
    let ghost order = busy_order(views);
    let ghost keep = |j: int| true;
    let mut all: Vec<usize> = Vec::new();
    proof {
        assert(lists::ints(all@) =~= Seq::<int>::empty());
        lists::lemma_by_position();
        lists::lemma_by_text(|k: int| views[k].0, lists::by_position());
        lists::lemma_by_rank(
            |k: int| views[k].1,
            lists::by_text(|k: int| views[k].0, lists::by_position()),
        );
    }
    for i in 0..counts.len()
        invariant
            keep == (|j: int| true),
            lists::ints(all@) == lists::positions(i as nat, keep),
            forall|k: int| 0 <= k < all@.len() ==> (#[trigger] all@[k]) < i,
    {
        let ghost before = all@;
        all.push(i);
        proof {
            assert(keep(i as int));
            assert(lists::ints(all@) =~= lists::ints(before).push(i as int));
        }
    }
    let le = |a: usize, b: usize| -> (r: bool)
        requires
            a < counts@.len(),
            b < counts@.len(),
        ensures
            r == busy_order(dir_views(counts@))(a as int, b as int),
        {
            if counts[a].count != counts[b].count {
                counts[a].count > counts[b].count
            } else if !same_text(counts[a].dir.as_str(), counts[b].dir.as_str()) {
                text_before(counts[a].dir.as_str(), counts[b].dir.as_str())
            } else {
                a <= b
            }
        };
    sort_positions(&all, le, Ghost(order))
}

/// Put the counts in order.
proof fn lemma_ordered_counts(
    list: Seq<Seq<char>>,
    found: Seq<int>,
    counts: Seq<(Seq<char>, int)>,
    sorted: Seq<int>,
    out: Seq<(Seq<char>, int)>,
)
    requires
        is_count_list(list, found, found.len() as int, counts),
        forall|j: int| #[trigger] found.contains(j) <==> 0 <= j < list.len(),
        total_ordering(busy_order(counts)),
        sorted == lists::positions(counts.len(), |j: int| true).sort_by(busy_order(counts)),
        out.len() == sorted.len(),
        forall|k: int| 0 <= k < out.len() ==> #[trigger] out[k] == counts[sorted[k]],
    ensures
        is_tally(list, out),
{
    let keep = |j: int| true;
    let all = lists::positions(counts.len(), keep);
    let order = busy_order(counts);
    lists::lemma_positions(counts.len(), keep);
    lists::lemma_sort_by_members(all, order);
    all.lemma_sort_by_ensures(order);
    assert(all.no_duplicates());
    all.lemma_multiset_has_no_duplicates();
    sorted.lemma_multiset_has_no_duplicates_conv();
    assert forall|k: int| 0 <= k < out.len() implies 0 <= #[trigger] sorted[k] < counts.len() by {
        assert(sorted.contains(sorted[k]));
        assert(all.contains(sorted[k]));
    }
    assert forall|k: int| 0 <= k < out.len() implies (#[trigger] out[k]).1 == occurrences(
        list,
        out[k].0,
    ).len() && out[k].1 > 0 by {
        assert(0 <= sorted[k] < counts.len());
        assert(counts[sorted[k]].1 > 0);
    }
    assert forall|j: int| 0 <= j < list.len() implies has_dir(out, #[trigger] list[j]) by {
        assert(found.contains(j));
        let c = choose|c: int| 0 <= c < found.len() && found[c] == j;
        assert(has_dir(counts, list[found[c]]));
        let m = choose|m: int|
            0 <= m < counts.len() && (#[trigger] counts[m]).0 == list[found[c]];
        assert(keep(m));
        assert(all.contains(m));
        assert(sorted.contains(m));
        let k = choose|k: int| 0 <= k < sorted.len() && sorted[k] == m;
        assert(out[k].0 == list[j]);
    }
    assert forall|a: int, b: int| 0 <= a < b < out.len() implies busier(
        #[trigger] out[a],
        #[trigger] out[b],
    ) by {
        assert(order(sorted[a], sorted[b]));
        assert(sorted[a] != sorted[b]);
        assert(0 <= sorted[a] < counts.len() && 0 <= sorted[b] < counts.len());
        if sorted[a] < sorted[b] {
            assert(counts[sorted[a]].0 != counts[sorted[b]].0);
        } else {
            assert(counts[sorted[b]].0 != counts[sorted[a]].0);
        }
    }
}

/// The directories that hold files with copies, the busiest first.
pub fn group_dirs(index: &mut Index) -> (dirs: Result<Vec<DirCount>, String>)
    requires
        old(index).wf(),
    ensures
        final(index).wf(),
        match settings::opened(old(index)@) {
            Err(error) => dirs is Err && dirs->Err_0@ == error && final(index)@ == old(index)@,
            Ok(usable) => {
                &&& final(index)@ == usable
                &&& dirs is Ok
                &&& is_tally(
                    parents(usable.files, duplicates(usable.files)),
                    dir_views(dirs->Ok_0@),
                )
            },
        },
{
    match ensure_initialized(index) {
        Err(error) => return Err(error),
        Ok(_) => {},
    }
    let files = &index.files;
    let ghost views = model::file_rows(files@);
    let list = parent_list(files);
    let ghost names = outside::texts(list@);
    proof {
        lemma_parent_count(views);
        assert(names.len() == list@.len());
        if views.len() > 0 {
            model::lemma_file_count(views, views.len() - 1);
        }
    }
    let (counts, Ghost(found)) = count_dirs(&list);
    let sorted = sort_counts(&counts);
    let ghost tallied = dir_views(counts@);
    let ghost order = lists::ints(sorted@);
    proof {
        lemma_sorted_below_all(counts@.len(), order, busy_order(tallied));
    }
    let mut dirs: Vec<DirCount> = Vec::new();
    for i in 0..sorted.len()
        invariant
            tallied == dir_views(counts@),
            order == lists::ints(sorted@),
            forall|k: int| 0 <= k < order.len() ==> 0 <= #[trigger] order[k] < counts@.len(),
            dirs@.len() == i,
            forall|k: int| 0 <= k < i ==> dir_views(dirs@)[k] == tallied[#[trigger] order[k]],
    {
        let ghost before = dir_views(dirs@);
        let at = sorted[i];
        proof {
            assert(order[i as int] == at);
        }
        dirs.push(DirCount { dir: counts[at].dir.clone(), count: counts[at].count });
        proof {
            assert(dir_views(dirs@) =~= before.push(tallied[at as int]));
        }
    }
    proof {
        assert forall|k: int| 0 <= k < dir_views(dirs@).len() implies #[trigger] dir_views(dirs@)[k]
            == tallied[order[k]] by {
            assert(0 <= order[k]);
        }
        lemma_ordered_counts(names, found, tallied, order, dir_views(dirs@));
    }
    Ok(dirs)
}

proof fn lemma_sorted_below_all(n: nat, sorted: Seq<int>, order: spec_fn(int, int) -> bool)
    requires
        total_ordering(order),
        sorted == lists::positions(n, |j: int| true).sort_by(order),
    ensures
        forall|k: int| 0 <= k < sorted.len() ==> 0 <= #[trigger] sorted[k] < n,
{
    let keep = |j: int| true;
    let all = lists::positions(n, keep);
    lists::lemma_positions(n, keep);
    lists::lemma_sort_by_members(all, order);
    assert forall|k: int| 0 <= k < sorted.len() implies 0 <= #[trigger] sorted[k] < n by {
        assert(sorted.contains(sorted[k]));
        assert(all.contains(sorted[k]));
    }
}

proof fn lemma_parent_count(files: Seq<FileView>)
    ensures
        parents(files, duplicates(files)).len() <= files.len(),
{
    lists::lemma_positions(files.len(), |p: int| duplicated(files, p));
    lemma_parents_no_longer(files, duplicates(files));
}

proof fn lemma_parents_no_longer(files: Seq<FileView>, rows: Seq<int>)
    ensures
        parents(files, rows).len() <= rows.len(),
    decreases rows.len(),
{
    if rows.len() > 0 {
        lemma_parents_no_longer(files, rows.drop_last());
    }
}

} // verus!
