//! Project settings: the schema version gate, the feature switches and the
//! stored lists.
use crate::model::{Index, IndexView};
use crate::outside::{json_from_list, list_from_json};
use crate::text::{joined, parse_text, same_text, signed_text};
use crate::{model, outside, text};
use vstd::prelude::*;

verus! {

broadcast use vstd::std_specs::hash::group_hash_axioms;

/// Latest schema version that the project understands. Older indexes are
/// upgraded step by step; newer ones are refused.
pub const SCHEMA_VERSION: i64 = 8;

/// The upgrade step to this version drops all photo fingerprints.
pub const PHOTO_REBUILD_VERSION: i64 = 5;

// ---------------------------------------------------------------------------
// Reading and writing one setting
// ---------------------------------------------------------------------------

impl IndexView {
    pub open spec fn setting(self, key: Seq<char>) -> Option<Seq<char>> {
        if self.settings.contains_key(key) {
            Some(self.settings[key])
        } else {
            None
        }
    }

    pub open spec fn with_setting(self, key: Seq<char>, value: Seq<char>) -> IndexView {
        IndexView { settings: self.settings.insert(key, value), ..self }
    }
}

fn find_setting(rows: &Vec<(String, String)>, key: &str) -> (found: Option<usize>)
    ensures
        match found {
            Some(i) => i < rows@.len() && rows@[i as int].0@ == key@,
            None => forall|i: int| !#[trigger] model::keyed_at(model::setting_rows(rows@), key@, i),
        },
{
    let ghost views = model::setting_rows(rows@);
    for i in 0..rows.len()
        invariant
            views == model::setting_rows(rows@),
            forall|k: int| 0 <= k < i ==> (#[trigger] views[k]).0 != key@,
    {
        proof {
            assert(views[i as int].0 == rows@[i as int].0@);
        }
        if same_text(rows[i].0.as_str(), key) {
            return Some(i);
        }
    }
    None
}

/// The stored value of a setting.
pub fn setting_value(index: &Index, key: &str) -> (value: Option<String>)
    requires
        index.wf(),
    ensures
        model::text_option(value) == index@.setting(key@),
{
    match find_setting(&index.settings, key) {
        Some(i) => {
            proof {
                let rows = model::setting_rows(index.settings@);
                assert(rows[i as int].0 == key@);
                model::lemma_table_row(rows, i as int);
            }
            Some(index.settings[i].1.clone())
        },
        None => None,
    }
}

/// Store a setting, replacing an earlier value.
pub fn set_setting(index: &mut Index, key: &str, value: &str)
    requires
        old(index).wf(),
    ensures
        final(index).wf(),
        final(index)@ == old(index)@.with_setting(key@, value@),
{
    let ghost before = model::setting_rows(index.settings@);
    match find_setting(&index.settings, key) {
        Some(i) => {
            proof {
                assert(before[i as int].0 == key@);
                model::lemma_table_replace(before, i as int, value@);
            }
            index.settings[i].1 = value.to_string();
            proof {
                assert(model::setting_rows(index.settings@) =~= before.update(
                    i as int,
                    (key@, value@),
                ));
            }
        },
        None => {
            proof {
                model::lemma_table_append(before, key@, value@);
            }
            index.settings.push((key.to_string(), value.to_string()));
            proof {
                assert(model::setting_rows(index.settings@) =~= before.push((key@, value@)));
            }
        },
    }
    proof {
        model::lemma_wf_carries(old(index)@, index@);
    }
}

/// What a setting that must exist answers when it does not.
pub open spec fn not_initialized() -> Seq<char> {
    "database is not initialized; run init first"@
}

pub fn required_setting(index: &Index, key: &str) -> (value: Result<String, String>)
    requires
        index.wf(),
    ensures
        match index@.setting(key@) {
            Some(stored) => value is Ok && value->Ok_0@ == stored,
            None => value is Err && value->Err_0@ == not_initialized(),
        },
{
    match setting_value(index, key) {
        Some(value) => Ok(value),
        None => Err("database is not initialized; run init first".to_string()),
    }
}

/// A switch: on exactly when its stored text is `1`.
pub open spec fn flag_of(index: IndexView, key: Seq<char>, default: bool) -> bool {
    match index.setting(key) {
        Some(value) => value == "1"@,
        None => default,
    }
}

pub fn setting_flag(index: &Index, key: &str, default: bool) -> (on: bool)
    requires
        index.wf(),
    ensures
        on == flag_of(index@, key@, default),
{
    match setting_value(index, key) {
        Some(value) => same_text(value.as_str(), "1"),
        None => default,
    }
}

pub open spec fn switch_text(on: bool) -> Seq<char> {
    if on {
        "1"@
    } else {
        "0"@
    }
}

// ---------------------------------------------------------------------------
// Schema version
// ---------------------------------------------------------------------------

/// The schema version of an index that can be used, or why it cannot.
pub open spec fn usable_version(index: IndexView) -> Result<i64, Seq<char>> {
    match index.setting("schema_version"@) {
        None => Err(not_initialized()),
        Some(value) => match text::parsed_i64(value) {
            None => Err("invalid schema version: "@ + value),
            Some(version) => if version > SCHEMA_VERSION {
                Err("unsupported schema version: "@ + text::decimal(version as int))
            } else {
                Ok(version)
            },
        },
    }
}

/// The index after all upgrade steps from `version` on.
pub open spec fn upgraded(index: IndexView, version: i64) -> IndexView {
    if version >= SCHEMA_VERSION {
        index
    } else {
        let photos = if version < PHOTO_REBUILD_VERSION {
            Map::empty()
        } else {
            index.photos
        };
        (IndexView { photos, ..index }).with_setting(
            "schema_version"@,
            text::decimal(SCHEMA_VERSION as int),
        )
    }
}

/// The upgrade steps, each named by the version that it reaches.
pub open spec fn upgrade_steps(version: i64) -> Seq<int> {
    let first = if version < 1 { 2int } else { version + 1 };
    if first > SCHEMA_VERSION {
        Seq::empty()
    } else {
        Seq::new((SCHEMA_VERSION - first + 1) as nat, |i: int| first + i)
    }
}

/// What every use of an index starts with: it is refused, or upgraded.
pub open spec fn opened(index: IndexView) -> Result<IndexView, Seq<char>> {
    match usable_version(index) {
        Err(error) => Err(error),
        Ok(version) => Ok(upgraded(index, version)),
    }
}

/// Check that the index can be used and bring it to the current schema.
/// Returns the upgrade steps that were taken, each named by its target.
pub fn ensure_initialized(index: &mut Index) -> (steps: Result<Vec<i64>, String>)
    requires
        old(index).wf(),
    ensures
        final(index).wf(),
        match usable_version(old(index)@) {
            Err(error) => steps is Err && steps->Err_0@ == error && *final(index) == *old(index),
            Ok(version) => {
                &&& steps is Ok
                &&& steps->Ok_0@.map_values(|t: i64| t as int) == upgrade_steps(version)
                &&& final(index)@ == upgraded(old(index)@, version)
            },
        },
{
    let stored = match required_setting(index, "schema_version") {
        Err(error) => return Err(error),
        Ok(stored) => stored,
    };
    let version: i64 = match parse_text(stored.as_str()) {
        None => return Err(joined("invalid schema version: ", stored.as_str())),
        Some(version) => version,
    };
    if version > SCHEMA_VERSION {
        let shown = signed_text(version);
        return Err(joined("unsupported schema version: ", shown.as_str()));
    }
    let mut steps: Vec<i64> = Vec::new();
    let mut target: i64 = 2;
    let ghost first = if version < 1 { 2int } else { version + 1 };
    while target <= SCHEMA_VERSION
        invariant
            2 <= target <= SCHEMA_VERSION + 1,
            version <= SCHEMA_VERSION,
            first == (if version < 1 { 2int } else { version + 1 }),
            target <= first ==> steps@.len() == 0,
            target > first ==> steps@.len() == target - first,
            forall|k: int| 0 <= k < steps@.len() ==> steps@[k] == first + k,
        decreases SCHEMA_VERSION + 1 - target,
    {
        if version < target {
            steps.push(target);
        }
        target = target + 1;
    }
    proof {
        assert(steps@.map_values(|t: i64| t as int) =~= upgrade_steps(version));
    }
    if version < SCHEMA_VERSION {
        if version < PHOTO_REBUILD_VERSION {
            index.photos = std::collections::HashMap::new();
            proof {
                model::lemma_wf_carries(old(index)@, index@);
            }
        }
        let shown = signed_text(SCHEMA_VERSION);
        set_setting(index, "schema_version", shown.as_str());
    }
    Ok(steps)
}

/// Opening an index a second time changes nothing and takes no step.
pub proof fn law_open_is_idempotent(index: IndexView)
    requires
        opened(index) is Ok,
    ensures
        opened(opened(index)->Ok_0) == opened(index),
        usable_version(opened(index)->Ok_0) == Ok::<i64, Seq<char>>(SCHEMA_VERSION) || usable_version(
            index,
        ) == Ok::<i64, Seq<char>>(SCHEMA_VERSION),
        upgrade_steps(SCHEMA_VERSION) == Seq::<int>::empty(),
{
    let version = usable_version(index)->Ok_0;
    if version < SCHEMA_VERSION {
        let next = upgraded(index, version);
        assert(text::digits(8) == seq!['8']);
        assert(next.setting("schema_version"@) == Some(seq!['8']));
        assert(seq!['8'].drop_last() =~= Seq::<char>::empty());
        assert(text::digits_value(seq!['8'].drop_last()) == 0);
        assert(text::digits_value(seq!['8']) == 8);
        assert(text::parsed_i64(seq!['8']) == Some(8i64));
    }
}

/// Upgrading leaves every indexed file and every operation in place.
pub proof fn law_open_preserves_rows(index: IndexView)
    requires
        opened(index) is Ok,
    ensures
        opened(index)->Ok_0.files == index.files,
        opened(index)->Ok_0.operations == index.operations,
        opened(index)->Ok_0.documents == index.documents,
        opened(index)->Ok_0.verdicts == index.verdicts,
        index.wf() ==> opened(index)->Ok_0.wf(),
{
}

/// Create a project, or open an existing one, and set its recycle bin.
/// `existing` says whether the store already held a settings table.
pub fn init(index: &mut Index, existing: bool, trash: &str) -> (result: Result<Vec<i64>, String>)
    requires
        old(index).wf(),
    ensures
        final(index).wf(),
        existing ==> match usable_version(old(index)@) {
            Err(error) => result is Err && result->Err_0@ == error && *final(index) == *old(index),
            Ok(version) => {
                &&& result is Ok
                &&& result->Ok_0@.map_values(|t: i64| t as int) == upgrade_steps(version)
                &&& final(index)@ == upgraded(old(index)@, version).with_setting(
                    "trash_path"@,
                    trash@,
                )
            },
        },
        !existing ==> {
            &&& result is Ok
            &&& result->Ok_0@.len() == 0
            &&& final(index)@ == old(index)@.with_setting(
                "schema_version"@,
                text::decimal(SCHEMA_VERSION as int),
            ).with_setting("trash_path"@, trash@)
        },
{
    let steps = if existing {
        match ensure_initialized(index) {
            Err(error) => return Err(error),
            Ok(steps) => steps,
        }
    } else {
        let shown = signed_text(SCHEMA_VERSION);
        set_setting(index, "schema_version", shown.as_str());
        Vec::new()
    };
    set_setting(index, "trash_path", trash);
    Ok(steps)
}

// ---------------------------------------------------------------------------
// Switches and numbers
// ---------------------------------------------------------------------------

/// What storing `value` under `key` makes of an index, once it is usable.
pub open spec fn stored(
    before: IndexView,
    after: IndexView,
    result: Result<(), Seq<char>>,
    key: Seq<char>,
    value: Seq<char>,
) -> bool {
    match opened(before) {
        Err(error) => result == Err::<(), Seq<char>>(error) && after == before,
        Ok(usable) => result == Ok::<(), Seq<char>>(()) && after == usable.with_setting(key, value),
    }
}

fn set_switch(index: &mut Index, key: &str, on: bool) -> (result: Result<(), String>)
    requires
        old(index).wf(),
    ensures
        final(index).wf(),
        stored(old(index)@, final(index)@, outside::message_of(result), key@, switch_text(on)),
{
    match ensure_initialized(index) {
        Err(error) => return Err(error),
        Ok(_) => {},
    }
    if on {
        set_setting(index, key, "1");
    } else {
        set_setting(index, key, "0");
    }
    Ok(())
}

/// Switch the file listing by the NTFS change journal on or off.
pub fn set_usn_scan(index: &mut Index, enabled: bool) -> (result: Result<(), String>)
    requires
        old(index).wf(),
    ensures
        final(index).wf(),
        stored(old(index)@, final(index)@, outside::message_of(result), "usn_scan"@, switch_text(enabled)),
{
    set_switch(index, "usn_scan", enabled)
}

/// Remember whether directories are watched for changes.
pub fn set_watch_scan(index: &mut Index, enabled: bool) -> (result: Result<(), String>)
    requires
        old(index).wf(),
    ensures
        final(index).wf(),
        stored(old(index)@, final(index)@, outside::message_of(result), "watch_scan"@, switch_text(enabled)),
{
    set_switch(index, "watch_scan", enabled)
}

/// Switch the byte comparison before every removal on or off.
pub fn set_strict_verify(index: &mut Index, enabled: bool) -> (result: Result<(), String>)
    requires
        old(index).wf(),
    ensures
        final(index).wf(),
        stored(
            old(index)@,
            final(index)@,
            outside::message_of(result),
            "strict_verify"@,
            switch_text(enabled),
        ),
{
    set_switch(index, "strict_verify", enabled)
}

/// `n` moved into the range from `low` to `high`.
pub open spec fn clamped(n: int, low: int, high: int) -> int {
    if n < low {
        low
    } else if n > high {
        high
    } else {
        n
    }
}

/// Largest frequency-hash distance at which two photos count as similar.
/// Stored between 4 and 20; returns what was stored.
pub fn set_similar_threshold(index: &mut Index, max_distance: i64) -> (result: Result<i64, String>)
    requires
        old(index).wf(),
    ensures
        final(index).wf(),
        match opened(old(index)@) {
            Err(error) => result is Err && result->Err_0@ == error && final(index)@ == old(index)@,
            Ok(usable) => {
                &&& result is Ok
                &&& result->Ok_0 == clamped(max_distance as int, 4, 20)
                &&& final(index)@ == usable.with_setting(
                    "similar_phash_max"@,
                    text::decimal(clamped(max_distance as int, 4, 20)),
                )
            },
        },
{
    let kept: i64 = if max_distance < 4 {
        4
    } else if max_distance > 20 {
        20
    } else {
        max_distance
    };
    match ensure_initialized(index) {
        Err(error) => return Err(error),
        Ok(_) => {},
    }
    let shown = signed_text(kept);
    set_setting(index, "similar_phash_max", shown.as_str());
    Ok(kept)
}

/// A number setting, with `default` where nothing readable is stored.
pub open spec fn number_of(index: IndexView, key: Seq<char>, default: i64) -> i64 {
    match index.setting(key) {
        Some(value) => match text::parsed_i64(value) {
            Some(n) => n,
            None => default,
        },
        None => default,
    }
}

pub fn setting_number(index: &Index, key: &str, default: i64) -> (n: i64)
    requires
        index.wf(),
    ensures
        n == number_of(index@, key@, default),
{
    match setting_value(index, key) {
        Some(value) => match parse_text(value.as_str()) {
            Some(n) => n,
            None => default,
        },
        None => default,
    }
}

/// Days that recycled files are kept; a stored value that is no day count
/// reads as the default of thirty, and zero keeps them for ever.
pub open spec fn retention_of(index: IndexView) -> i64 {
    let days = number_of(index, "trash_retention_days"@, 30);
    if days >= 0 {
        days
    } else {
        30
    }
}

pub fn trash_retention_days(index: &Index) -> (days: i64)
    requires
        index.wf(),
    ensures
        days == retention_of(index@),
        days >= 0,
{
    let days = setting_number(index, "trash_retention_days", 30);
    if days >= 0 {
        days
    } else {
        30
    }
}

/// Store how many days recycled files are kept, from none to ten years.
/// Returns the sentence that confirms it.
pub fn set_trash_retention(index: &mut Index, days: i64) -> (result: Result<String, String>)
    requires
        old(index).wf(),
    ensures
        final(index).wf(),
        0 <= days <= 3650 ==> {
            &&& final(index)@ == old(index)@.with_setting(
                "trash_retention_days"@,
                text::decimal(days as int),
            )
            &&& result is Ok
            &&& result->Ok_0@ == (if days == 0 {
                "已关闭回收站自动清理。"@
            } else {
                "回收站文件将保留 "@ + text::decimal(days as int)
                    + " 天，超期后在下一次扫描时自动清理。"@
            })
        },
        !(0 <= days <= 3650) ==> {
            &&& *final(index) == *old(index)
            &&& result is Err
            &&& result->Err_0@ == "保留天数需在 0 到 3650 之间（0 表示不自动清理）"@
        },
{
    if days < 0 || days > 3650 {
        return Err("保留天数需在 0 到 3650 之间（0 表示不自动清理）".to_string());
    }
    let shown = signed_text(days);
    set_setting(index, "trash_retention_days", shown.as_str());
    if days == 0 {
        Ok("已关闭回收站自动清理。".to_string())
    } else {
        let head = joined("回收站文件将保留 ", shown.as_str());
        Ok(joined(head.as_str(), " 天，超期后在下一次扫描时自动清理。"))
    }
}

/// Remember whether a scan runs at start-up; returns the confirmation.
pub fn set_auto_scan(index: &mut Index, enabled: bool) -> (message: String)
    requires
        old(index).wf(),
    ensures
        final(index).wf(),
        final(index)@ == old(index)@.with_setting("auto_scan_on_start"@, switch_text(enabled)),
        message@ == (if enabled {
            "已开启：启动时将自动进行增量扫描。"@
        } else {
            "已关闭启动自动扫描。"@
        }),
{
    if enabled {
        set_setting(index, "auto_scan_on_start", "1");
        "已开启：启动时将自动进行增量扫描。".to_string()
    } else {
        set_setting(index, "auto_scan_on_start", "0");
        "已关闭启动自动扫描。".to_string()
    }
}

// ---------------------------------------------------------------------------
// Lists
// ---------------------------------------------------------------------------

/// The list stored under `key`; an absent setting is the empty list.
pub open spec fn list_of(index: IndexView, key: Seq<char>) -> Result<Seq<Seq<char>>, Seq<char>> {
    match index.setting(key) {
        Some(value) => outside::json_list(value),
        None => Ok(Seq::empty()),
    }
}

pub fn setting_list(index: &Index, key: &str) -> (list: Result<Vec<String>, String>)
    requires
        index.wf(),
    ensures
        match list {
            Ok(values) => list_of(index@, key@) == Ok::<Seq<Seq<char>>, Seq<char>>(
                outside::texts(values@),
            ),
            Err(error) => list_of(index@, key@) == Err::<Seq<Seq<char>>, Seq<char>>(error@),
        },
{
    match setting_value(index, key) {
        Some(value) => list_from_json(value.as_str()),
        None => {
            let empty: Vec<String> = Vec::new();
            proof {
                assert(outside::texts(empty@) =~= Seq::<Seq<char>>::empty());
            }
            Ok(empty)
        },
    }
}

/// Store a list of texts under `key`; reading it back gives the same list.
pub fn save_setting_list(index: &mut Index, key: &str, values: &[String]) -> (result: Result<
    (),
    String,
>)
    requires
        old(index).wf(),
    ensures
        final(index).wf(),
        result is Ok,
        final(index)@ == old(index)@.with_setting(
            key@,
            outside::json_text(outside::texts(values@)),
        ),
        list_of(final(index)@, key@) == Ok::<Seq<Seq<char>>, Seq<char>>(outside::texts(values@)),
{
    match json_from_list(values) {
        Ok(value) => {
            set_setting(index, key, value.as_str());
            Ok(())
        },
        Err(error) => Err(error),
    }
}

} // verus!
