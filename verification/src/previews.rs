//! Previews of pictures: how they are rendered, under which name they are
//! cached, and how the cache is kept small.
use crate::hashing;
use crate::hashing::hex_text;
use crate::lists;
use crate::lists::sort_positions;
use crate::outside;
use crate::outside::{base64_encoded, digest_of, read_dimensions, read_layout, scale_to_png};
use crate::paths::{file_name, Platform};
use crate::photos;
use crate::text;
use crate::text::{chars_of, slice_of, string_of, unsigned_text};
use vstd::prelude::*;
use vstd::relations::total_ordering;

verus! {

/// The cache may grow to this size.
pub const THUMBNAIL_CACHE_MAX_BYTES: u64 = 524_288_000;

/// Side of the square that a tile fits in.
pub const THUMBNAIL_SIDE: u32 = 560;

/// Side of the square that a full preview fits in.
pub const PREVIEW_SIDE: u32 = 1_400;

/// Pictures that may be decoded at the same time. A decoded picture is held
/// in memory whole, so a page full of tiles must not decode all of them at
/// once.
pub const MAX_CONCURRENT_DECODES: usize = 3;

// ---------------------------------------------------------------------------
// Cache names
// ---------------------------------------------------------------------------

/// What a cache name is derived from.
pub open spec fn key_text(path: Seq<char>, modified: u64, size: u64) -> Seq<char> {
    path + "|"@ + text::decimal(modified as int) + "|"@ + text::decimal(size as int)
}

/// Twenty digits that stand for one state of one file.
pub open spec fn cache_key(path: Seq<char>, modified: u64, size: u64) -> Seq<char> {
    hashing::content_hash(vstd::utf8::encode_utf8(key_text(path, modified, size))).take(20)
}

/// The cache key of a file. Modification time and size are zero where they
/// cannot be read.
pub fn thumbnail_cache_key(path: &str, modified: u64, size: u64) -> (key: String)
    ensures
        key@ == cache_key(path@, modified, size),
        key@.len() == 20,
{
    let modified_text = unsigned_text(modified);
    let size_text = unsigned_text(size);
    let mut source = path.to_string();
    source.append("|");
    source.append(modified_text.as_str());
    source.append("|");
    source.append(size_text.as_str());
    let digest = digest_of(source.as_str().as_bytes());
    let digits = hex_text(digest.as_slice());
    let chars = chars_of(digits.as_str());
    proof {
        hashing::lemma_hex_length(digest@);
    }
    let head = slice_of(chars.as_slice(), 0, 20);
    proof {
        assert(head@ =~= digits@.take(20));
    }
    string_of(head.as_slice())
}

/// The name of a cached preview.
pub fn cached_name(prefix: &str, path: &str, modified: u64, size: u64) -> (name: String)
    ensures
        name@ == prefix@ + "-"@ + cache_key(path@, modified, size) + ".png"@,
{
    let key = thumbnail_cache_key(path, modified, size);
    let mut name = prefix.to_string();
    name.append("-");
    name.append(key.as_str());
    name.append(".png");
    name
}

// ---------------------------------------------------------------------------
// Rendering
// ---------------------------------------------------------------------------

/// A picture in the form in which a page embeds it.
pub open spec fn embedded(png: Seq<u8>) -> Seq<char> {
    "data:image/png;base64,"@ + outside::base64_text(png)
}

pub fn data_url(png: &[u8]) -> (url: String)
    ensures
        url@ == embedded(png@),
{
    let body = base64_encoded(png);
    let mut url = "data:image/png;base64,".to_string();
    url.append(body.as_str());
    url
}

/// What a request for a preview comes to.
pub struct Rendering {
    /// The embedded picture; None where the file holds none.
    pub url: Option<String>,
    /// A fresh picture to put into the cache.
    pub store: Option<Vec<u8>>,
}

pub open spec fn bytes_option(bytes: Option<Vec<u8>>) -> Option<Seq<u8>> {
    match bytes {
        Some(list) => Some(list@),
        None => None,
    }
}

/// The answer to a request, given the cached picture and a fresh one: the
/// cached one where there is one, else the fresh one, which is also stored.
pub open spec fn rendered(cached: Option<Seq<u8>>, fresh: Option<Seq<u8>>) -> (
    Option<Seq<char>>,
    Option<Seq<u8>>,
) {
    match cached {
        Some(png) => (Some(embedded(png)), None),
        None => match fresh {
            Some(png) => (Some(embedded(png)), Some(png)),
            None => (None, None),
        },
    }
}

/// The picture of this name and content is of a size that can be scaled.
pub open spec fn can_scale(name: Seq<char>, content: Seq<u8>, side: u32) -> bool {
    match outside::image_size(name, content) {
        Some((width, height)) => outside::scales_to(
            width,
            height,
            outside::image_layout(name, content),
            side,
        ),
        None => true,
    }
}

fn size_scales(size: Option<(u32, u32)>, layout: Option<(u8, u8)>, side: u32) -> (yes: bool)
    requires
        0 < side <= 4_096,
    ensures
        yes == match size {
            Some((width, height)) => outside::scales_to(width, height, layout, side),
            None => true,
        },
{
    let (width, height) = match size {
        Some(size) => size,
        None => return true,
    };
    let (longer, shorter): (u64, u64) = if width > height {
        (width as u64, height as u64)
    } else {
        (height as u64, width as u64)
    };
    let most: u64 = match layout {
        Some((bytes, channels)) => if bytes as u64 == 2 * channels as u64 {
            0x1_0000
        } else {
            0x100_0000
        },
        None => 0x100_0000,
    };
    let slack: u64 = longer / 0x40_0000 + 4;
    let long: u64 = longer / (side as u64) + slack;
    let wide: u64 = 3 * longer / (2 * side as u64) + slack;
    let short: u64 = if shorter < wide {
        shorter
    } else {
        wide
    };
    proof {
        assert(longer / (side as u64) <= longer) by (nonlinear_arith)
            requires
                side > 0,
                longer >= 0,
        ;
        assert(long * short <= 0x1_0000_0800 * 0xffff_ffff) by (nonlinear_arith)
            requires
                0 <= long <= 0x1_0000_0800,
                0 <= short <= 0xffff_ffff,
        ;
    }
    long as u128 * short as u128 <= most as u128
}

/// The picture that a file's content gives, where its size can be scaled.
pub open spec fn fresh_png(
    platform: Platform,
    path: Seq<char>,
    content: Option<Seq<u8>>,
    side: u32,
) -> Option<Seq<u8>> {
    match content {
        None => None,
        Some(bytes) => if can_scale(photos::name_in(platform, path), bytes, side) {
            outside::image_png(photos::name_in(platform, path), bytes, side)
        } else {
            None
        },
    }
}

/// Answer a request with the cached picture or a fresh one.
pub fn answer(cached: &Option<Vec<u8>>, fresh: Option<Vec<u8>>) -> (rendering: Rendering)
    ensures
        (crate::model::text_option(rendering.url), bytes_option(rendering.store)) == rendered(
            bytes_option(*cached),
            bytes_option(fresh),
        ),
{
    match cached {
        Some(png) => Rendering { url: Some(data_url(png.as_slice())), store: None },
        None => match fresh {
            Some(png) => {
                let url = data_url(png.as_slice());
                Rendering { url: Some(url), store: Some(png) }
            },
            None => Rendering { url: None, store: None },
        },
    }
}

/// Render a picture: turned upright, scaled, and as PNG. The content is only
/// decoded where nothing is cached. A picture of which too many points would
/// become one has no preview.
fn render_image(
    platform: Platform,
    path: &str,
    cached: &Option<Vec<u8>>,
    content: &Option<Vec<u8>>,
    side: u32,
) -> (rendering: Rendering)
    requires
        0 < side <= 4_096,
    ensures
        (crate::model::text_option(rendering.url), bytes_option(rendering.store)) == rendered(
            bytes_option(*cached),
            fresh_png(platform, path@, bytes_option(*content), side),
        ),
{
    match cached {
        Some(_) => return answer(cached, None),
        None => {},
    }
    match content {
        None => answer(cached, None),
        Some(bytes) => {
            let name = match file_name(platform, path) {
                Some(name) => name,
                None => {
                    let none = String::new();
                    proof {
                        assert(none@ =~= Seq::<char>::empty());
                    }
                    none
                },
            };
            let size = read_dimensions(name.as_str(), bytes.as_slice());
            let layout = read_layout(name.as_str(), bytes.as_slice());
            if !size_scales(size, layout, side) {
                return answer(cached, None);
            }
            let fresh = scale_to_png(name.as_str(), bytes.as_slice(), side);
            answer(cached, fresh)
        },
    }
}

/// Render a tile.
pub fn image_thumbnail(
    platform: Platform,
    path: &str,
    cached: &Option<Vec<u8>>,
    content: &Option<Vec<u8>>,
) -> (rendering: Rendering)
    ensures
        (crate::model::text_option(rendering.url), bytes_option(rendering.store)) == rendered(
            bytes_option(*cached),
            fresh_png(platform, path@, bytes_option(*content), THUMBNAIL_SIDE),
        ),
{
    render_image(platform, path, cached, content, THUMBNAIL_SIDE)
}

/// Render a full preview.
pub fn image_preview(
    platform: Platform,
    path: &str,
    cached: &Option<Vec<u8>>,
    content: &Option<Vec<u8>>,
) -> (rendering: Rendering)
    ensures
        (crate::model::text_option(rendering.url), bytes_option(rendering.store)) == rendered(
            bytes_option(*cached),
            fresh_png(platform, path@, bytes_option(*content), PREVIEW_SIDE),
        ),
{
    render_image(platform, path, cached, content, PREVIEW_SIDE)
}

/// What was stored for a request answers the next one with the same picture.
pub proof fn law_cache_gives_the_same_answer(fresh: Option<Seq<u8>>, later: Option<Seq<u8>>)
    requires
        fresh is Some,
    ensures
        rendered(rendered(None, fresh).1, later).0 == rendered(None, fresh).0,
        rendered(rendered(None, fresh).1, later).1 is None,
{
}

// ---------------------------------------------------------------------------
// Decode slots
// ---------------------------------------------------------------------------

/// The free decode slots.
pub struct DecodeSlots {
    pub free: usize,
}

impl DecodeSlots {
    pub open spec fn wf(self) -> bool {
        self.free <= MAX_CONCURRENT_DECODES
    }

    pub fn new() -> (slots: DecodeSlots)
        ensures
            slots.wf(),
            slots.free == MAX_CONCURRENT_DECODES,
    {
        DecodeSlots { free: MAX_CONCURRENT_DECODES }
    }

    /// Take a slot if one is free.
    pub fn acquire_decode_permit(&mut self) -> (taken: bool)
        requires
            old(self).wf(),
        ensures
            final(self).wf(),
            taken == (old(self).free > 0),
            final(self).free == old(self).free - (if taken {
                1int
            } else {
                0
            }),
    {
        if self.free == 0 {
            false
        } else {
            self.free = self.free - 1;
            true
        }
    }

    /// Give a slot back.
    pub fn release(&mut self)
        requires
            old(self).wf(),
            old(self).free < MAX_CONCURRENT_DECODES,
        ensures
            final(self).wf(),
            final(self).free == old(self).free + 1,
    {
        self.free = self.free + 1;
    }
}

// ---------------------------------------------------------------------------
// Eviction
// ---------------------------------------------------------------------------

/// A file in the cache.
pub struct CacheEntry {
    pub path: String,
    /// Modification time in nanoseconds since the epoch.
    pub modified: i128,
    pub size: u64,
}

/// Bytes of some files together.
pub open spec fn total_size(entries: Seq<CacheEntry>) -> int
    decreases entries.len(),
{
    if entries.len() == 0 {
        0
    } else {
        total_size(entries.drop_last()) + entries.last().size
    }
}

/// What the cache holds.
#[derive(Clone, Copy, Debug, PartialEq, Eq)]
pub struct ThumbnailCacheStats {
    pub files: u64,
    pub bytes: u64,
}

/// Count the files of the cache and their bytes.
pub fn thumbnail_cache_stats(entries: &Vec<CacheEntry>) -> (stats: ThumbnailCacheStats)
    requires
        total_size(entries@) <= u64::MAX,
    ensures
        stats.files == entries@.len(),
        stats.bytes == total_size(entries@),
{
    ThumbnailCacheStats { files: entries.len() as u64, bytes: sum_sizes(entries) }
}

fn sum_sizes(entries: &Vec<CacheEntry>) -> (total: u64)
    requires
        total_size(entries@) <= u64::MAX,
    ensures
        total == total_size(entries@),
{
    let mut total: u64 = 0;
    proof {
        assert(entries@.take(0) =~= Seq::<CacheEntry>::empty());
    }
    for i in 0..entries.len()
        invariant
            total_size(entries@) <= u64::MAX,
            total == total_size(entries@.take(i as int)),
    {
        proof {
            assert(entries@.take(i + 1).drop_last() =~= entries@.take(i as int));
            lemma_total_prefix(entries@, i + 1);
        }
        total = total + entries[i].size;
    }
    proof {
        assert(entries@.take(entries@.len() as int) =~= entries@);
    }
    total
}

/// Oldest first; of the same moment, as they were found.
pub open spec fn oldest_first(entries: Seq<CacheEntry>) -> spec_fn(int, int) -> bool {
    lists::by_rank(|k: int| -(entries[k].modified as int), lists::by_position())
}

/// The order in which the files go.
pub open spec fn eviction_order(entries: Seq<CacheEntry>) -> Seq<int> {
    lists::positions(entries.len(), |k: int| true).sort_by(oldest_first(entries))
}

/// Bytes of the files that stand at some places of the order.
pub open spec fn queued_size(entries: Seq<CacheEntry>, order: Seq<int>) -> int
    decreases order.len(),
{
    if order.len() == 0 {
        0
    } else {
        queued_size(entries, order.drop_last()) + entries[order.last()].size
    }
}

/// A cache directory on its way down to its limit.
pub struct Eviction {
    pub entries: Vec<CacheEntry>,
    pub order: Vec<usize>,
    pub at: usize,
    pub total: u64,
    pub limit: u64,
    pub removed: usize,
    pub freed: u64,
    /// Bytes of files that could not be removed.
    pub stuck: u64,
}

impl Eviction {
    /// Every file goes at most once, oldest first, each byte is either freed,
    /// stuck, or still in the queue, and no file was handed out that did not
    /// have to go.
    pub open spec fn wf(self) -> bool {
        &&& lists::ints(self.order@) == eviction_order(self.entries@)
        &&& self.order@.len() == self.entries@.len()
        &&& forall|k: int|
            0 <= k < self.order@.len() ==> (#[trigger] self.order@[k]) < self.entries@.len()
        &&& self.at <= self.order@.len()
        &&& self.removed <= self.at
        &&& self.total == queued_size(self.entries@, eviction_order(self.entries@))
        &&& self.freed + self.stuck == queued_size(
            self.entries@,
            eviction_order(self.entries@).take(self.at as int),
        )
        &&& self.removed == self.at ==> self.stuck == 0
        &&& self.at > 0 ==> self.total - self.freed + self.entries@[eviction_order(
            self.entries@,
        )[self.at - 1]].size > self.limit
    }

    /// Nothing more is to be removed.
    pub open spec fn settled(self) -> bool {
        self.total - self.freed <= self.limit || self.at == self.order@.len()
    }

    /// The next file to remove.
    pub fn next_victim(&self) -> (path: Option<String>)
        requires
            self.wf(),
        ensures
            match path {
                None => self.settled(),
                Some(p) => !self.settled() && p@ == self.entries@[eviction_order(
                    self.entries@,
                )[self.at as int]].path@,
            },
    {
        proof {
            lemma_queue_prefix(self.entries@, eviction_order(self.entries@), self.at as int);
        }
        if self.total - self.freed <= self.limit || self.at == self.order.len() {
            return None;
        }
        let row = self.order[self.at];
        proof {
            assert(lists::ints(self.order@)[self.at as int] == row);
        }
        Some(self.entries[row].path.clone())
    }

    /// Note whether the file could be removed.
    pub fn note(&mut self, gone: bool)
        requires
            old(self).wf(),
            !old(self).settled(),
        ensures
            final(self).wf(),
            final(self).entries@ == old(self).entries@,
            final(self).order@ == old(self).order@,
            final(self).total == old(self).total,
            final(self).limit == old(self).limit,
            final(self).at == old(self).at + 1,
            final(self).removed == old(self).removed + (if gone {
                1int
            } else {
                0
            }),
            final(self).freed == old(self).freed + (if gone {
                old(self).entries@[eviction_order(old(self).entries@)[old(self).at as int]].size as int
            } else {
                0
            }),
            final(self).stuck == old(self).stuck + (if gone {
                0
            } else {
                old(self).entries@[eviction_order(old(self).entries@)[old(self).at as int]].size as int
            }),
    {
        let n = self.order.len();
        let row = self.order[self.at];
        let size: u64 = self.entries[row].size;
        proof {
            let order = eviction_order(self.entries@);
            assert(lists::ints(self.order@)[self.at as int] == row);
            assert(order.len() == n);
            assert(order.take(self.at + 1).drop_last() =~= order.take(self.at as int));
            assert(order.take(self.at + 1).last() == row);
            lemma_queue_prefix(self.entries@, order, self.at + 1);
        }
        self.at = self.at + 1;
        if gone {
            self.removed = self.removed + 1;
            self.freed = self.freed + size;
        } else {
            self.stuck = self.stuck + size;
        }
    }

    /// How many files were removed, and how many bytes that freed.
    pub fn result(&self) -> (result: (usize, u64))
        ensures
            result == (self.removed, self.freed),
    {
        (self.removed, self.freed)
    }
}

proof fn lemma_queue_prefix(entries: Seq<CacheEntry>, order: Seq<int>, k: int)
    requires
        0 <= k <= order.len(),
    ensures
        0 <= queued_size(entries, order.take(k)) <= queued_size(entries, order),
    decreases order.len(),
{
    if k == order.len() {
        assert(order.take(k) =~= order);
        if k > 0 {
            lemma_queue_prefix(entries, order.drop_last(), k - 1);
            assert(order.drop_last().take(k - 1) =~= order.drop_last());
        }
    } else {
        lemma_queue_prefix(entries, order.drop_last(), k);
        assert(order.drop_last().take(k) =~= order.take(k));
    }
}

fn sort_entries(entries: &Vec<CacheEntry>) -> (order: Vec<usize>)
    ensures
        lists::ints(order@) == eviction_order(entries@),
        order@.len() == entries@.len(),
        forall|k: int| 0 <= k < order@.len() ==> (#[trigger] order@[k]) < entries@.len(),
{
    let ghost keep = |k: int| true;
    let ghost by_age = oldest_first(entries@);
    let mut all: Vec<usize> = Vec::new();
    proof {
        assert(lists::ints(all@) =~= Seq::<int>::empty());
        lists::lemma_by_position();
        lists::lemma_by_rank(|k: int| -(entries@[k].modified as int), lists::by_position());
    }
    for i in 0..entries.len()
        invariant
            keep == (|k: int| true),
            lists::ints(all@) == lists::positions(i as nat, keep),
            all@.len() == i,
            forall|k: int| 0 <= k < all@.len() ==> (#[trigger] all@[k]) < i,
    {
        let ghost before = all@;
        all.push(i);
        proof {
            assert(keep(i as int));
            assert(lists::ints(all@) =~= lists::ints(before).push(i as int));
        }
    }
    let le = |a: usize, b: usize| -> (r: bool)
        requires
            a < entries@.len(),
            b < entries@.len(),
        ensures
            r == oldest_first(entries@)(a as int, b as int),
        {
            if entries[a].modified != entries[b].modified {
                entries[a].modified < entries[b].modified
            } else {
                a <= b
            }
        };
    let order = sort_positions(&all, le, Ghost(by_age));
    proof {
        let from = lists::ints(all@);
        let to = lists::ints(order@);
        lists::lemma_sort_by_members(from, by_age);
        from.lemma_sort_by_ensures(by_age);
        vstd::seq_lib::to_multiset_len(from);
        vstd::seq_lib::to_multiset_len(to);
        assert(from.len() == all@.len() && to.len() == order@.len());
        assert forall|k: int| 0 <= k < order@.len() implies (#[trigger] order@[k])
            < entries@.len() by {
            assert(to[k] == order@[k]);
            assert(to.contains(to[k]));
            let j = choose|j: int| 0 <= j < from.len() && from[j] == to[k];
            assert(all@[j] < entries@.len());
        }
    }
    order
}

/// The order holds the same bytes as the directory.
proof fn lemma_queue_is_total(entries: Seq<CacheEntry>)
    requires
        total_ordering(oldest_first(entries)),
    ensures
        queued_size(entries, eviction_order(entries)) == total_size(entries),
{
    let keep = |k: int| true;
    let all = lists::positions(entries.len(), keep);
    all.lemma_sort_by_ensures(oldest_first(entries));
    lemma_queue_by_members(entries, all, eviction_order(entries));
    lemma_queue_in_order(entries, entries.len());
    assert(entries.take(entries.len() as int) =~= entries);
}

proof fn lemma_queue_in_order(entries: Seq<CacheEntry>, n: nat)
    requires
        n <= entries.len(),
    ensures
        queued_size(entries, lists::positions(n, |k: int| true)) == total_size(
            entries.take(n as int),
        ),
    decreases n,
{
    if n > 0 {
        let keep = |k: int| true;
        let before = lists::positions((n - 1) as nat, keep);
        lemma_queue_in_order(entries, (n - 1) as nat);
        assert(keep(n - 1));
        assert(lists::positions(n, keep) == before.push(n - 1));
        assert(before.push(n - 1).drop_last() =~= before);
        assert(entries.take(n as int).drop_last() =~= entries.take(n - 1));
    }
}

proof fn lemma_queue_without(entries: Seq<CacheEntry>, order: Seq<int>, k: int)
    requires
        0 <= k < order.len(),
    ensures
        queued_size(entries, order) == queued_size(entries, order.remove(k))
            + entries[order[k]].size,
    decreases order.len(),
{
    if k == order.len() - 1 {
        assert(order.remove(k) =~= order.drop_last());
    } else {
        lemma_queue_without(entries, order.drop_last(), k);
        assert(order.remove(k).drop_last() =~= order.drop_last().remove(k));
        assert(order.remove(k).last() == order.last());
    }
}

proof fn lemma_queue_by_members(entries: Seq<CacheEntry>, a: Seq<int>, b: Seq<int>)
    requires
        a.to_multiset() == b.to_multiset(),
    ensures
        queued_size(entries, a) == queued_size(entries, b),
    decreases a.len(),
{
    broadcast use vstd::seq_lib::group_to_multiset_ensures;

    vstd::seq_lib::to_multiset_len(a);
    vstd::seq_lib::to_multiset_len(b);
    if a.len() > 0 {
        let x = a.last();
        assert(a.contains(x));
        assert(a.to_multiset().count(x) > 0);
        assert(b.to_multiset().count(x) > 0);
        assert(b.contains(x));
        let k = choose|k: int| 0 <= k < b.len() && b[k] == x;
        lemma_queue_without(entries, b, k);
        assert(a =~= a.drop_last().push(x));
        assert(a.drop_last().to_multiset() =~= a.to_multiset().remove(x));
        assert(b.remove(k).to_multiset() =~= b.to_multiset().remove(x));
        lemma_queue_by_members(entries, a.drop_last(), b.remove(k));
    }
}

/// Plan the eviction that brings a cache directory down to `max_bytes`, least
/// recently modified files first.
pub fn evict_lru_files(entries: Vec<CacheEntry>, max_bytes: u64) -> (eviction: Eviction)
    requires
        total_size(entries@) <= u64::MAX,
    ensures
        eviction.wf(),
        eviction.entries@ == entries@,
        eviction.total == total_size(entries@),
        eviction.limit == max_bytes,
        eviction.at == 0,
        eviction.removed == 0,
        eviction.freed == 0,
        eviction.stuck == 0,
{
    let order = sort_entries(&entries);
    let total = sum_sizes(&entries);
    proof {
        lists::lemma_by_position();
        lists::lemma_by_rank(|k: int| -(entries@[k].modified as int), lists::by_position());
        lemma_queue_is_total(entries@);
        assert(eviction_order(entries@).take(0) =~= Seq::<int>::empty());
    }
    Eviction { entries, order, at: 0, total, limit: max_bytes, removed: 0, freed: 0, stuck: 0 }
}

proof fn lemma_total_prefix(entries: Seq<CacheEntry>, k: int)
    requires
        0 <= k <= entries.len(),
    ensures
        0 <= total_size(entries.take(k)) <= total_size(entries),
    decreases entries.len(),
{
    if k == entries.len() {
        assert(entries.take(k) =~= entries);
        if k > 0 {
            lemma_total_prefix(entries.drop_last(), k - 1);
            assert(entries.drop_last().take(k - 1) =~= entries.drop_last());
        }
    } else {
        lemma_total_prefix(entries.drop_last(), k);
        assert(entries.drop_last().take(k) =~= entries.take(k));
    }
}

/// Once an eviction is settled, the directory is at or below its limit,
/// unless files could not be removed; then it holds no more than the limit
/// and those files.
pub proof fn law_eviction_meets_the_limit(eviction: Eviction)
    requires
        eviction.wf(),
        eviction.settled(),
    ensures
        eviction.total - eviction.freed <= eviction.limit || eviction.total - eviction.freed
            == eviction.stuck,
        eviction.stuck == 0 ==> eviction.total - eviction.freed <= eviction.limit,
{
    let order = eviction_order(eviction.entries@);
    assert(order.len() == eviction.order@.len());
    if eviction.at == eviction.order@.len() {
        assert(order.take(order.len() as int) =~= order);
    }
}

/// Where every removal succeeds, the files that go are the oldest ones, and no
/// more of them than needed: what is left then fits, and would not fit if
/// fewer had gone. What an eviction reports are their number and their bytes.
pub proof fn law_eviction_takes_as_few_as_it_can(eviction: Eviction, fewer: int)
    requires
        eviction.wf(),
        eviction.settled(),
        eviction.removed == eviction.at,
        0 <= fewer < eviction.removed,
    ensures
        ({
            let entries = eviction.entries@;
            let order = eviction_order(entries);
            &&& eviction.freed == queued_size(entries, order.take(eviction.removed as int))
            &&& total_size(entries) - eviction.freed <= eviction.limit
            &&& total_size(entries) - queued_size(entries, order.take(fewer)) > eviction.limit
        }),
{
    let entries = eviction.entries@;
    let order = eviction_order(entries);
    let at = eviction.at as int;
    law_eviction_meets_the_limit(eviction);
    lists::lemma_by_position();
    lists::lemma_by_rank(|k: int| -(entries[k].modified as int), lists::by_position());
    lemma_queue_is_total(entries);
    assert(order.len() == eviction.order@.len());
    assert(order.take(at).drop_last() =~= order.take(at - 1));
    assert(order.take(at).last() == order[at - 1]);
    lemma_queue_prefix(entries, order.take(at - 1), fewer);
    assert(order.take(at - 1).take(fewer) =~= order.take(fewer));
}

/// A cache that fits is left alone.
pub proof fn law_nothing_goes_where_all_fits(eviction: Eviction)
    requires
        eviction.wf(),
        total_size(eviction.entries@) <= eviction.limit,
        eviction.at == 0,
    ensures
        eviction.settled(),
        eviction.removed == 0,
        eviction.freed == 0,
{
    let entries = eviction.entries@;
    lists::lemma_by_position();
    lists::lemma_by_rank(|k: int| -(entries[k].modified as int), lists::by_position());
    lemma_queue_is_total(entries);
    assert(eviction_order(entries).take(0) =~= Seq::<int>::empty());
}

/// The files go in the order of their age: none is handed out before an older
/// one.
pub proof fn law_oldest_files_go_first(eviction: Eviction, a: int, b: int)
    requires
        eviction.wf(),
        0 <= a < b < eviction.order@.len(),
    ensures
        eviction.entries@[eviction_order(eviction.entries@)[a]].modified
            <= eviction.entries@[eviction_order(eviction.entries@)[b]].modified,
{
    let entries = eviction.entries@;
    let order = eviction_order(entries);
    let all = lists::positions(entries.len(), |k: int| true);
    lists::lemma_by_position();
    lists::lemma_by_rank(|k: int| -(entries[k].modified as int), lists::by_position());
    all.lemma_sort_by_ensures(oldest_first(entries));
    assert(order.len() == eviction.order@.len());
    assert(oldest_first(entries)(order[a], order[b]));
}

} // verus!
