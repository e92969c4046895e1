//! The sentences that tell the user how an action went.
use crate::batch::BulkKind;
use crate::directories::DirKeepOutcome;
use crate::merge::DirMergeOutcome;
use crate::outside;
use crate::review::BatchOutcome;
use crate::scan::ScanSummary;
use crate::text;
use crate::text::unsigned_text;
use vstd::prelude::*;

verus! {

/// Texts written one behind the other with a separator between them.
pub open spec fn listed(list: Seq<Seq<char>>, separator: Seq<char>) -> Seq<char>
    decreases list.len(),
{
    if list.len() == 0 {
        Seq::empty()
    } else if list.len() == 1 {
        list[0]
    } else {
        listed(list.drop_last(), separator) + separator + list.last()
    }
}

/// The first texts of a list.
pub open spec fn first_texts(list: Seq<Seq<char>>, most: nat) -> Seq<Seq<char>> {
    if list.len() < most {
        list
    } else {
        list.take(most as int)
    }
}

/// Write the first texts of a list behind one another.
pub fn list_first(list: &[String], separator: &str, most: usize) -> (out: String)
    ensures
        out@ == listed(first_texts(outside::texts(list@), most as nat), separator@),
{
    let ghost views = outside::texts(list@);
    let n: usize = if list.len() < most {
        list.len()
    } else {
        most
    };
    let mut out = String::new();
    proof {
        assert(views.len() == list@.len());
        assert(first_texts(views, most as nat) =~= views.take(n as int));
        assert(views.take(0) =~= Seq::<Seq<char>>::empty());
        assert(out@ =~= Seq::<char>::empty());
    }
    for i in 0..n
        invariant
            views == outside::texts(list@),
            n <= list@.len(),
            out@ == listed(views.take(i as int), separator@),
    {
        proof {
            assert(views.take(i + 1).drop_last() =~= views.take(i as int));
            assert(views.take(i + 1).last() == list@[i as int]@);
        }
        if i > 0 {
            out.append(separator);
        }
        out.append(list[i].as_str());
        proof {
            if i == 0 {
                assert(out@ =~= list@[0]@);
            }
        }
    }
    out
}

pub open spec fn all_listed(list: Seq<String>) -> Seq<char> {
    listed(outside::texts(list), "；"@)
}

fn list_all(list: &[String]) -> (out: String)
    ensures
        out@ == all_listed(list@),
{
    proof {
        let views = outside::texts(list@);
        assert(views.take(views.len() as int) =~= views);
    }
    list_first(list, "；", list.len())
}

/// `verb` with both counts and every failure.
pub open spec fn full_report(verb: Seq<char>, unit: Seq<char>, outcome: BatchOutcome) -> Seq<char> {
    verb + " "@ + text::decimal(outcome.succeeded as int) + unit + text::decimal(
        outcome.failures@.len() as int,
    ) + " 个失败："@ + all_listed(outcome.failures@)
}

fn report(verb: &str, unit: &str, outcome: &BatchOutcome) -> (message: String)
    ensures
        message@ == full_report(verb@, unit@, *outcome),
{
    let succeeded = unsigned_text(outcome.succeeded as u64);
    let failed = unsigned_text(outcome.failures.len() as u64);
    let list = list_all(outcome.failures.as_slice());
    let mut message = verb.to_string();
    message.append(" ");
    message.append(succeeded.as_str());
    message.append(unit);
    message.append(failed.as_str());
    message.append(" 个失败：");
    message.append(list.as_str());
    message
}

fn counted(head: &str, n: u64, tail: &str) -> (message: String)
    ensures
        message@ == head@ + text::decimal(n as int) + tail@,
{
    let number = unsigned_text(n);
    let mut message = head.to_string();
    message.append(number.as_str());
    message.append(tail);
    message
}

/// How recycling approved files went.
pub fn trash_approved_message(outcome: &BatchOutcome) -> (message: String)
    ensures
        message@ == full_report("已移动"@, " 个，"@, *outcome),
{
    report("已移动", " 个，", outcome)
}

/// How deleting approved files went.
pub fn delete_direct_batch_message(outcome: &BatchOutcome) -> (message: String)
    ensures
        message@ == full_report("已删除"@, " 个，"@, *outcome),
{
    report("已删除", " 个，", outcome)
}

/// How replacing approved files by links went.
pub fn hardlink_approved_message(outcome: &BatchOutcome) -> (message: String)
    ensures
        message@ == full_report("已转为硬链接"@, " 个，"@, *outcome),
{
    report("已转为硬链接", " 个，", outcome)
}

/// How an action on chosen files went; failures are named only where there
/// are some.
pub fn format_batch_outcome(verb: &str, outcome: &BatchOutcome) -> (message: String)
    ensures
        message@ == (if outcome.failures@.len() == 0 {
            verb@ + " "@ + text::decimal(outcome.succeeded as int) + " 个文件。"@
        } else {
            full_report(verb@, " 个，"@, *outcome)
        }),
{
    if outcome.failures.len() == 0 {
        let mut head = verb.to_string();
        head.append(" ");
        counted(head.as_str(), outcome.succeeded as u64, " 个文件。")
    } else {
        report(verb, " 个，", outcome)
    }
}

/// How bringing back the files of one action went.
pub fn restore_batch_message(outcome: &BatchOutcome) -> (message: String)
    ensures
        message@ == (if outcome.failures@.len() == 0 {
            "已恢复整批 "@ + text::decimal(outcome.succeeded as int) + " 个文件至原位置。"@
        } else {
            full_report("已恢复"@, " 个，"@, *outcome)
        }),
{
    if outcome.failures.len() == 0 {
        counted("已恢复整批 ", outcome.succeeded as u64, " 个文件至原位置。")
    } else {
        report("已恢复", " 个，", outcome)
    }
}

/// How marking copies went.
pub fn approve_filtered_message(outcome: &BatchOutcome) -> (message: String)
    ensures
        message@ == (if outcome.failures@.len() == 0 {
            "已标记 "@ + text::decimal(outcome.succeeded as int) + " 个副本待处理。"@
        } else {
            full_report("已标记"@, " 个副本，"@, *outcome)
        }),
{
    if outcome.failures.len() == 0 {
        counted("已标记 ", outcome.succeeded as u64, " 个副本待处理。")
    } else {
        report("已标记", " 个副本，", outcome)
    }
}

/// The failures of an action, where there are some.
pub open spec fn failure_note(failures: Seq<String>) -> Seq<char> {
    if failures.len() == 0 {
        Seq::empty()
    } else {
        " 失败 "@ + text::decimal(failures.len() as int) + " 个："@ + all_listed(failures)
    }
}

fn append_failures(message: &mut String, failures: &[String])
    ensures
        final(message)@ == old(message)@ + failure_note(failures@),
{
    if failures.len() == 0 {
        proof {
            assert(message@ + Seq::<char>::empty() =~= message@);
        }
    } else {
        let note = counted(" 失败 ", failures.len() as u64, " 个：");
        let list = list_all(failures);
        message.append(note.as_str());
        message.append(list.as_str());
        proof {
            assert(message@ =~= old(message)@ + failure_note(failures@));
        }
    }
}

/// How recycling below a directory went.
pub fn recycle_dir_message(outcome: &DirKeepOutcome) -> (message: String)
    ensures
        message@ == "已移入回收站 "@ + text::decimal(outcome.recycled as int) + " 个，"@
            + text::decimal(outcome.moved as int) + " 张移入保留目录。"@ + failure_note(
            outcome.failures@,
        ),
{
    let recycled = counted("已移入回收站 ", outcome.recycled as u64, " 个，");
    let mut message = counted(recycled.as_str(), outcome.moved as u64, " 张移入保留目录。");
    append_failures(&mut message, outcome.failures.as_slice());
    message
}

/// The emptied directories, where there are some.
pub open spec fn cleaned_note(cleaned: nat) -> Seq<char> {
    if cleaned == 0 {
        Seq::empty()
    } else {
        " 已删除清空的空目录 "@ + text::decimal(cleaned as int) + " 个。"@
    }
}

/// How merging directories went.
pub fn merge_dir_message(outcome: &DirMergeOutcome) -> (message: String)
    ensures
        message@ == "已移入回收站 "@ + text::decimal(outcome.recycled as int) + " 个，"@
            + text::decimal(outcome.moved as int) + " 张移动到目标目录，"@ + text::decimal(
            outcome.kept as int,
        ) + " 张原地保留。"@ + cleaned_note(outcome.cleaned_dirs@.len()) + failure_note(
            outcome.failures@,
        ),
{
    let recycled = counted("已移入回收站 ", outcome.recycled as u64, " 个，");
    let moved = counted(recycled.as_str(), outcome.moved as u64, " 张移动到目标目录，");
    let mut message = counted(moved.as_str(), outcome.kept as u64, " 张原地保留。");
    let ghost kept = message@;
    if outcome.cleaned_dirs.len() > 0 {
        let note = counted(" 已删除清空的空目录 ", outcome.cleaned_dirs.len() as u64, " 个。");
        message.append(note.as_str());
    }
    proof {
        assert(message@ =~= kept + cleaned_note(outcome.cleaned_dirs@.len()));
    }
    append_failures(&mut message, outcome.failures.as_slice());
    message
}

/// How many rows were exported, and where to.
pub fn export_message(rows: usize, path: &str) -> (message: String)
    ensures
        message@ == "已导出 "@ + text::decimal(rows as int) + " 条重复记录到 "@ + path@,
{
    let mut message = counted("已导出 ", rows as u64, " 条重复记录到 ");
    message.append(path);
    message
}

/// How many files emptying the bin deleted.
pub fn trash_empty_message(count: usize) -> (message: String)
    ensures
        message@ == "已清空回收站，永久删除 "@ + text::decimal(count as int) + " 个文件。"@,
{
    counted("已清空回收站，永久删除 ", count as u64, " 个文件。")
}

/// How many files were deleted because their time was over.
pub fn trash_prune_message(count: usize) -> (message: String)
    ensures
        message@ == "已清理 "@ + text::decimal(count as int) + " 个过期回收文件。"@,
{
    counted("已清理 ", count as u64, " 个过期回收文件。")
}

/// A sentence about a number, where it is not zero.
pub open spec fn optional_note(head: Seq<char>, n: int, tail: Seq<char>) -> Seq<char> {
    if n > 0 {
        head + text::decimal(n) + tail
    } else {
        Seq::empty()
    }
}

fn append_note(message: &mut String, head: &str, n: u64, tail: &str)
    ensures
        final(message)@ == old(message)@ + optional_note(head@, n as int, tail@),
{
    if n > 0 {
        let note = counted(head, n, tail);
        message.append(note.as_str());
    } else {
        proof {
            assert(message@ + Seq::<char>::empty() =~= message@);
        }
    }
}

/// What a finished scan reports.
pub open spec fn scan_report(summary: ScanSummary) -> Seq<char> {
    "扫描完成，索引已更新。"@ + optional_note(
        " 本次重建了 "@,
        summary.fingerprint_rebuild as int,
        " 张照片的指纹（指纹格式升级后的一次性处理）。"@,
    ) + optional_note(" 已清理 "@, summary.pruned as int, " 个超期回收文件。"@) + optional_note(
        " 已清理 "@,
        summary.index_pruned as int,
        " 条 90 天未更新的缺席索引记录。"@,
    ) + optional_note(" 跳过 "@, summary.failed_roots@.len() as int, " 个无效扫描目录。"@)
        + optional_note(
        " "@,
        summary.errors as int,
        " 个条目处理失败，可在历史进度或日志中查看。"@,
    )
}

pub fn scan_message(summary: &ScanSummary) -> (message: String)
    ensures
        message@ == scan_report(*summary),
{
    let mut message = "扫描完成，索引已更新。".to_string();
    append_note(
        &mut message,
        " 本次重建了 ",
        summary.fingerprint_rebuild,
        " 张照片的指纹（指纹格式升级后的一次性处理）。",
    );
    append_note(&mut message, " 已清理 ", summary.pruned, " 个超期回收文件。");
    append_note(
        &mut message,
        " 已清理 ",
        summary.index_pruned,
        " 条 90 天未更新的缺席索引记录。",
    );
    append_note(
        &mut message,
        " 跳过 ",
        summary.failed_roots.len() as u64,
        " 个无效扫描目录。",
    );
    append_note(
        &mut message,
        " ",
        summary.errors,
        " 个条目处理失败，可在历史进度或日志中查看。",
    );
    message
}

/// What the command line prints of a finished scan.
pub open spec fn scan_lines_of(summary: ScanSummary) -> Seq<Seq<char>> {
    let first = "Scanned: "@ + text::decimal(summary.new as int) + " new, "@ + text::decimal(
        summary.unchanged as int,
    ) + " unchanged, "@ + text::decimal(summary.updated as int) + " updated, "@ + text::decimal(
        summary.skipped as int,
    ) + " skipped, "@ + text::decimal(summary.errors as int) + " errors, "@ + text::decimal(
        summary.missing as int,
    ) + " missing, "@ + text::decimal(summary.pruned as int) + " expired recycled, "@
        + text::decimal(summary.index_pruned as int) + " stale index rows."@;
    if summary.failed_roots@.len() == 0 {
        seq![first]
    } else {
        seq![
            first,
            "Skipped missing roots: "@ + listed(outside::texts(summary.failed_roots@), ", "@),
        ]
    }
}

pub fn scan_lines(summary: &ScanSummary) -> (lines: Vec<String>)
    ensures
        outside::texts(lines@) == scan_lines_of(*summary),
{
    let new = counted("Scanned: ", summary.new, " new, ");
    let unchanged = counted(new.as_str(), summary.unchanged, " unchanged, ");
    let updated = counted(unchanged.as_str(), summary.updated, " updated, ");
    let skipped = counted(updated.as_str(), summary.skipped, " skipped, ");
    let errors = counted(skipped.as_str(), summary.errors, " errors, ");
    let missing = counted(errors.as_str(), summary.missing, " missing, ");
    let pruned = counted(missing.as_str(), summary.pruned, " expired recycled, ");
    let first = counted(pruned.as_str(), summary.index_pruned, " stale index rows.");
    let mut lines: Vec<String> = Vec::new();
    lines.push(first);
    let ghost views = outside::texts(summary.failed_roots@);
    if summary.failed_roots.len() > 0 {
        let roots = list_first(
            summary.failed_roots.as_slice(),
            ", ",
            summary.failed_roots.len(),
        );
        let mut second = "Skipped missing roots: ".to_string();
        second.append(roots.as_str());
        lines.push(second);
        proof {
            assert(views.take(views.len() as int) =~= views);
            assert(outside::texts(lines@) =~= scan_lines_of(*summary));
        }
    } else {
        proof {
            assert(outside::texts(lines@) =~= scan_lines_of(*summary));
        }
    }
    lines
}

/// What the command line prints ahead of a scan that has photos to
/// fingerprint anew.
pub fn rebuild_line(images: u64) -> (line: Option<String>)
    ensures
        match line {
            None => images == 0,
            Some(text) => images > 0 && text@ == "Re-fingerprinting "@ + text::decimal(
                images as int,
            ) + " image(s) this scan (fingerprint format changed or rows missing)."@,
        },
{
    if images == 0 {
        None
    } else {
        Some(
            counted(
                "Re-fingerprinting ",
                images,
                " image(s) this scan (fingerprint format changed or rows missing).",
            ),
        )
    }
}

/// What a bulk action does, in words.
pub open spec fn bulk_verb(kind: BulkKind) -> Seq<char> {
    match kind {
        BulkKind::Trash => "移入回收站"@,
        BulkKind::Hardlink => "硬链接替换"@,
        BulkKind::Delete => "永久删除"@,
    }
}

/// What a finished bulk action reports: the counts, and of the failures the
/// first three.
pub open spec fn bulk_report(kind: BulkKind, outcome: BatchOutcome) -> Seq<char> {
    "批量"@ + bulk_verb(kind) + "完成：成功 "@ + text::decimal(outcome.succeeded as int)
        + " 个，失败 "@ + text::decimal(outcome.failures@.len() as int) + " 个。"@ + (
    if outcome.failures@.len() == 0 {
        Seq::empty()
    } else {
        " 失败原因："@ + listed(first_texts(outside::texts(outcome.failures@), 3), "；"@)
    }) + (if outcome.failures@.len() > 3 {
        " 等 "@ + text::decimal(outcome.failures@.len() as int) + " 条"@
    } else {
        Seq::empty()
    })
}

pub fn bulk_summary(kind: BulkKind, outcome: &BatchOutcome) -> (message: String)
    ensures
        message@ == bulk_report(kind, *outcome),
{
    let verb = match kind {
        BulkKind::Trash => "移入回收站",
        BulkKind::Hardlink => "硬链接替换",
        BulkKind::Delete => "永久删除",
    };
    let failed = outcome.failures.len();
    let succeeded_text = unsigned_text(outcome.succeeded as u64);
    let failed_text = unsigned_text(failed as u64);
    let mut message = "批量".to_string();
    message.append(verb);
    message.append("完成：成功 ");
    message.append(succeeded_text.as_str());
    message.append(" 个，失败 ");
    message.append(failed_text.as_str());
    message.append(" 个。");
    if failed > 0 {
        let reasons = list_first(outcome.failures.as_slice(), "；", 3);
        message.append(" 失败原因：");
        message.append(reasons.as_str());
        if failed > 3 {
            message.append(" 等 ");
            message.append(failed_text.as_str());
            message.append(" 条");
        }
    }
    proof {
        assert(message@ =~= bulk_report(kind, *outcome));
    }
    message
}

} // verus!
