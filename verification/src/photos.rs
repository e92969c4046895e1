//! Photos: fingerprints, and the comparison of pixels that settles whether
//! two pictures are the same.
use crate::outside;
use crate::outside::{
    decode_fine, decode_rgba, names_image, read_dimensions, read_layout, scale_to_luma,
};
use crate::paths;
use crate::paths::{file_name, is_image_path, Platform};
use crate::text::joined;
use vstd::prelude::*;
use vstd::relations::{sorted_by, total_ordering};

verus! {

// ---------------------------------------------------------------------------
// Fingerprints
// ---------------------------------------------------------------------------

/// Bits written one behind the other, the first one highest.
pub open spec fn packed(bits: Seq<bool>) -> u64
    decreases bits.len(),
{
    if bits.len() == 0 {
        0
    } else {
        (packed(bits.drop_last()) << 1u64) | (if bits.last() {
            1u64
        } else {
            0u64
        })
    }
}

/// Each bit of a fingerprint answers one of its questions: of at most
/// sixty-four bits, the one at distance `k` from the end stands at place `k`.
pub proof fn law_packed_keeps_every_bit(bits: Seq<bool>, k: int)
    requires
        0 <= k < bits.len() <= 64,
    ensures
        ((packed(bits) >> (k as u64)) & 1 == 1) == bits[bits.len() - 1 - k],
    decreases bits.len(),
{
    let front = packed(bits.drop_last());
    let low: u64 = if bits.last() {
        1u64
    } else {
        0u64
    };
    if k == 0 {
        assert(((((front << 1u64) | low) >> 0u64) & 1 == 1) == (low == 1)) by (bit_vector)
            requires
                low <= 1,
        ;
    } else {
        let at = k as u64;
        let before = (k - 1) as u64;
        law_packed_keeps_every_bit(bits.drop_last(), k - 1);
        assert((((front << 1u64) | low) >> at) & 1 == (front >> before) & 1) by (bit_vector)
            requires
                low <= 1,
                0 < at < 64,
                before == at - 1,
        ;
        assert(bits.drop_last()[bits.drop_last().len() - 1 - (k - 1)] == bits[bits.len() - 1 - k]);
    }
}

fn pack_bit(hash: u64, bit: bool) -> (next: u64)
    ensures
        next == (hash << 1u64) | (if bit {
            1u64
        } else {
            0u64
        }),
{
    if bit {
        (hash << 1u64) | 1
    } else {
        (hash << 1u64) | 0
    }
}

/// The gradient of a grid of nine by eight grey levels: one bit for each pair
/// of neighbours in a row, set where the left one is brighter.
pub open spec fn gradient(grid: Seq<u8>) -> Seq<bool> {
    Seq::new(64, |i: int| grid[9 * (i / 8) + i % 8] > grid[9 * (i / 8) + i % 8 + 1])
}

/// Fingerprint of a grid by its gradient.
pub fn gradient_hash(grid: &[u8]) -> (hash: u64)
    requires
        grid@.len() == 72,
    ensures
        hash == packed(gradient(grid@)),
{
    let mut hash: u64 = 0;
    let ghost bits = gradient(grid@);
    proof {
        assert(bits.take(0) =~= Seq::<bool>::empty());
    }
    for i in 0..64usize
        invariant
            grid@.len() == 72,
            bits == gradient(grid@),
            hash == packed(bits.take(i as int)),
    {
        let at: usize = 9 * (i / 8) + i % 8;
        let bit = grid[at] > grid[at + 1];
        proof {
            assert(bits[i as int] == bit);
            assert(bits.take(i + 1).drop_last() =~= bits.take(i as int));
            assert(bits.take(i + 1).last() == bit);
        }
        hash = pack_bit(hash, bit);
    }
    proof {
        assert(bits.take(64) =~= bits);
    }
    hash
}

pub open spec fn no_greater() -> spec_fn(i32, i32) -> bool {
    |a: i32, b: i32| a <= b
}

/// The middle one of some values in ascending order; of an even number, the
/// upper of the two in the middle.
pub open spec fn median(values: Seq<i32>) -> i32 {
    values.sort_by(no_greater())[(values.len() / 2) as int]
}

/// One bit for each coefficient of a block, set where it lies above the median
/// of all but the first. The first one carries brightness, not structure, and
/// its bit stays clear.
pub open spec fn structure(block: Seq<i32>) -> Seq<bool> {
    Seq::new(block.len(), |i: int| i > 0 && block[i] > median(block.skip(1)))
}

pub(crate) proof fn lemma_no_greater_is_total()
    ensures
        total_ordering(no_greater()),
{
}

/// The values in ascending order.
fn sorted_values(values: &[i32]) -> (out: Vec<i32>)
    ensures
        out@ == values@.sort_by(no_greater()),
{
    let mut out: Vec<i32> = Vec::new();
    proof {
        lemma_no_greater_is_total();
        assert(values@.take(0) =~= out@);
    }
    for i in 0..values.len()
        invariant
            sorted_by(out@, no_greater()),
            out@.to_multiset() == values@.take(i as int).to_multiset(),
            out@.len() == i,
    {
        broadcast use vstd::seq_lib::group_to_multiset_ensures;

        let value: i32 = values[i];
        let mut at: usize = out.len();
        while at > 0 && out[at - 1] > value
            invariant
                at <= out@.len(),
                sorted_by(out@, no_greater()),
                forall|k: int| at <= k < out@.len() ==> #[trigger] out@[k] > value,
            decreases at,
        {
            at = at - 1;
        }
        let ghost before = out@;
        out.insert(at, value);
        proof {
            assert(values@.take(i + 1) =~= values@.take(i as int).push(value));
            assert(sorted_by(out@, no_greater())) by {
                assert forall|a: int, b: int| 0 <= a < b < out@.len() implies (no_greater())(
                    #[trigger] out@[a],
                    #[trigger] out@[b],
                ) by {
                    let left = if a < at {
                        a
                    } else {
                        a - 1
                    };
                    let right = if b < at {
                        b
                    } else {
                        b - 1
                    };
                    if a != at {
                        assert(out@[a] == before[left]);
                    }
                    if b != at {
                        assert(out@[b] == before[right]);
                    }
                    if a != at && b != at {
                        assert((no_greater())(before[left], before[right]));
                    } else if b == at {
                        assert((no_greater())(before[left], before[at - 1]) || left == at - 1);
                    }
                }
            }
        }
    }
    proof {
        assert(values@.take(values@.len() as int) =~= values@);
        values@.lemma_sort_by_ensures(no_greater());
        vstd::seq_lib::lemma_sorted_unique(out@, values@.sort_by(no_greater()), no_greater());
    }
    out
}

/// Fingerprint of a block of frequency coefficients by their signs against
/// the median. A coefficient is given by an integer that stands in the same
/// order.
pub fn structure_hash(block: &[i32]) -> (hash: u64)
    requires
        1 < block@.len() <= 64,
    ensures
        hash == packed(structure(block@)),
{
    let mut rest: Vec<i32> = Vec::new();
    for i in 1..block.len()
        invariant
            1 < block@.len(),
            rest@ =~= block@.subrange(1, i as int),
    {
        rest.push(block[i]);
    }
    proof {
        assert(rest@ =~= block@.skip(1));
        lemma_no_greater_is_total();
        rest@.lemma_sort_by_ensures(no_greater());
        vstd::seq_lib::to_multiset_len(rest@);
        vstd::seq_lib::to_multiset_len(rest@.sort_by(no_greater()));
    }
    let order = sorted_values(rest.as_slice());
    let middle: i32 = order[rest.len() / 2];
    let mut hash: u64 = 0;
    let ghost bits = structure(block@);
    proof {
        assert(middle == median(block@.skip(1)));
        assert(bits.take(0) =~= Seq::<bool>::empty());
    }
    for i in 0..block.len()
        invariant
            bits == structure(block@),
            middle == median(block@.skip(1)),
            hash == packed(bits.take(i as int)),
    {
        let bit = i > 0 && block[i] > middle;
        proof {
            assert(bits[i as int] == bit);
            assert(bits.take(i + 1).drop_last() =~= bits.take(i as int));
            assert(bits.take(i + 1).last() == bit);
        }
        hash = pack_bit(hash, bit);
    }
    proof {
        assert(bits.take(block@.len() as int) =~= bits);
    }
    hash
}

/// The file name of a path; empty where it has none.
pub open spec fn name_in(platform: Platform, path: Seq<char>) -> Seq<char> {
    match paths::file_name_of(platform, path) {
        Some(name) => name,
        None => Seq::empty(),
    }
}

fn name_of(platform: Platform, path: &str) -> (name: String)
    ensures
        name@ == name_in(platform, path@),
{
    match file_name(platform, path) {
        Some(name) => name,
        None => {
            let none = String::new();
            proof {
                assert(none@ =~= Seq::<char>::empty());
            }
            none
        },
    }
}

/// Does a fingerprint of the file need its content? That is so where its name
/// is one of a picture: no other file has one.
pub fn needs_content(platform: Platform, path: &str) -> (yes: bool)
    ensures
        yes == (outside::image_named(name_in(platform, path@)) || paths::image_path(
            platform,
            path@,
        )),
{
    let name = name_of(platform, path);
    names_image(name.as_str()) || is_image_path(platform, path)
}

/// The grey levels of a picture that was scaled to some points, row by row.
pub struct GreyGrid {
    pub width: u32,
    pub height: u32,
    pub levels: Vec<u8>,
}

/// What a picture's fingerprints are made of.
pub struct PhotoGrids {
    /// Nine by eight points, for the gradient fingerprint.
    pub small: GreyGrid,
    /// Gradient fingerprint.
    pub dhash: u64,
    /// Thirty-two by thirty-two points, for the frequency fingerprint.
    pub large: GreyGrid,
}

/// The gradient fingerprint of a photo, and the grid of its frequency
/// fingerprint; None where the content is not a picture.
pub fn perceptual_grids(platform: Platform, path: &str, content: &[u8]) -> (grids: Option<
    PhotoGrids,
>)
    ensures
        grids is Some == outside::image_rgba(name_in(platform, path@), content@) is Ok,
        match grids {
            Some(found) => {
                &&& outside::image_named(name_in(platform, path@))
                &&& found.small.width == 9
                &&& found.small.height == 8
                &&& found.small.levels@.len() == 72
                &&& found.dhash == packed(gradient(found.small.levels@))
                &&& found.large.width == 32
                &&& found.large.height == 32
                &&& found.large.levels@.len() == 1_024
            },
            None => true,
        },
{
    let name = name_of(platform, path);
    match scale_to_luma(name.as_str(), content, 9, 8) {
        None => None,
        Some((width, height, levels)) => {
            let small = GreyGrid { width, height, levels };
            match scale_to_luma(name.as_str(), content, 32, 32) {
                None => None,
                Some((width, height, levels)) => Some(
                    PhotoGrids {
                        dhash: gradient_hash(small.levels.as_slice()),
                        small,
                        large: GreyGrid { width, height, levels },
                    },
                ),
            }
        },
    }
}

// ---------------------------------------------------------------------------
// Comparing pixels
// ---------------------------------------------------------------------------

/// A decoded picture in the depth in which it was decoded: four samples a
/// pixel, row by row.
pub struct Pixels {
    pub width: u32,
    pub height: u32,
    /// Eight-bit samples count by their sixteen-bit value.
    pub samples: Vec<u16>,
    /// The bits of floating-point samples; empty for any other picture.
    pub fine: Vec<u32>,
}

#[verifier::ext_equal]
pub struct PixelsView {
    pub width: u32,
    pub height: u32,
    pub samples: Seq<u16>,
    pub fine: Seq<u32>,
}

impl View for Pixels {
    type V = PixelsView;

    open spec fn view(&self) -> PixelsView {
        PixelsView {
            width: self.width,
            height: self.height,
            samples: self.samples@,
            fine: self.fine@,
        }
    }
}

/// Both pictures have the same size and the same samples.
pub fn rgba_buffers_identical(left: &Pixels, right: &Pixels) -> (same: bool)
    ensures
        same == (left@ == right@),
{
    if left.width != right.width || left.height != right.height {
        return false;
    }
    if left.samples.len() != right.samples.len() || left.fine.len() != right.fine.len() {
        return false;
    }
    for i in 0..left.samples.len()
        invariant
            left.samples@.len() == right.samples@.len(),
            forall|k: int| 0 <= k < i ==> #[trigger] left.samples@[k] == right.samples@[k],
    {
        if left.samples[i] != right.samples[i] {
            return false;
        }
    }
    for i in 0..left.fine.len()
        invariant
            left.fine@.len() == right.fine@.len(),
            forall|k: int| 0 <= k < i ==> #[trigger] left.fine@[k] == right.fine@[k],
    {
        if left.fine[i] != right.fine[i] {
            return false;
        }
    }
    proof {
        assert(left.samples@ =~= right.samples@);
        assert(left.fine@ =~= right.fine@);
    }
    true
}

/// A file that should hold a picture.
pub enum Photo {
    Unopened(String),
    Undecodable(String),
    Decoded(Pixels),
}

pub enum PhotoView {
    Unopened(Seq<char>),
    Undecodable(Seq<char>),
    Decoded(PixelsView),
}

impl View for Photo {
    type V = PhotoView;

    open spec fn view(&self) -> PhotoView {
        match *self {
            Photo::Unopened(error) => PhotoView::Unopened(error@),
            Photo::Undecodable(error) => PhotoView::Undecodable(error@),
            Photo::Decoded(pixels) => PhotoView::Decoded(pixels@),
        }
    }
}

pub open spec fn about(verb: Seq<char>, path: Seq<char>, error: Seq<char>) -> Seq<char> {
    verb + path + ": "@ + error
}

/// The picture of a file, or the message that says why there is none.
pub open spec fn picture(path: Seq<char>, photo: PhotoView) -> Result<PixelsView, Seq<char>> {
    match photo {
        PhotoView::Unopened(error) => Err(about("cannot open "@, path, error)),
        PhotoView::Undecodable(error) => Err(about("cannot decode "@, path, error)),
        PhotoView::Decoded(pixels) => Ok(pixels),
    }
}

/// Whether two files hold the same picture. The message of the first file
/// that holds none goes ahead of the second's.
pub open spec fn compared(
    first: Seq<char>,
    left: PhotoView,
    second: Seq<char>,
    right: PhotoView,
) -> Result<bool, Seq<char>> {
    match picture(first, left) {
        Err(error) => Err(error),
        Ok(one) => match picture(second, right) {
            Err(error) => Err(error),
            Ok(other) => Ok(one == other),
        },
    }
}

fn message(verb: &str, path: &str, error: &str) -> (out: String)
    ensures
        out@ == about(verb@, path@, error@),
{
    let head = joined(verb, path);
    let colon = joined(head.as_str(), ": ");
    joined(colon.as_str(), error)
}

fn pixels_of<'a>(path: &str, photo: &'a Photo) -> (pixels: Result<&'a Pixels, String>)
    ensures
        match picture(path@, photo@) {
            Ok(p) => pixels is Ok && pixels->Ok_0@ == p,
            Err(error) => pixels is Err && pixels->Err_0@ == error,
        },
{
    match photo {
        Photo::Unopened(error) => Err(message("cannot open ", path, error.as_str())),
        Photo::Undecodable(error) => Err(message("cannot decode ", path, error.as_str())),
        Photo::Decoded(pixels) => Ok(pixels),
    }
}

/// Compare two pictures pixel by pixel.
pub fn compare_photos(first: &str, left: &Photo, second: &str, right: &Photo) -> (same: Result<
    bool,
    String,
>)
    ensures
        outside::message_of(same) == compared(first@, left@, second@, right@),
{
    match pixels_of(first, left) {
        Err(error) => Err(error),
        Ok(one) => match pixels_of(second, right) {
            Err(error) => Err(error),
            Ok(other) => Ok(rgba_buffers_identical(one, other)),
        },
    }
}

/// A file's content, or the message that says why it could not be read.
pub open spec fn content_of(content: Result<Vec<u8>, String>) -> Result<Seq<u8>, Seq<char>> {
    match content {
        Ok(bytes) => Ok(bytes@),
        Err(error) => Err(error@),
    }
}

/// The picture that a file's content holds.
pub open spec fn photo_in(
    platform: Platform,
    path: Seq<char>,
    content: Result<Seq<u8>, Seq<char>>,
) -> PhotoView {
    match content {
        Err(error) => PhotoView::Unopened(error),
        Ok(bytes) => match outside::image_rgba(name_in(platform, path), bytes) {
            Err(error) => PhotoView::Undecodable(error),
            Ok(pixels) => match fine_in(name_in(platform, path), bytes) {
                Err(error) => PhotoView::Undecodable(error),
                Ok(fine) => PhotoView::Decoded(
                    PixelsView { width: pixels.0, height: pixels.1, samples: pixels.2, fine },
                ),
            },
        },
    }
}

/// The samples of a pixel of this layout are floating-point numbers: those
/// alone take four bytes each.
pub open spec fn has_fine_samples(layout: Option<(u8, u8)>) -> bool {
    match layout {
        Some((bytes, channels)) => bytes == 4 * channels,
        None => false,
    }
}

/// The bits of a picture's floating-point samples, where it has such.
pub open spec fn fine_in(name: Seq<char>, content: Seq<u8>) -> Result<Seq<u32>, Seq<char>> {
    if has_fine_samples(outside::image_layout(name, content)) {
        outside::image_fine(name, content)
    } else {
        Ok(Seq::empty())
    }
}

fn read_fine(name: &str, content: &[u8]) -> (fine: Result<Vec<u32>, String>)
    ensures
        match fine_in(name@, content@) {
            Ok(bits) => fine is Ok && fine->Ok_0@ == bits,
            Err(error) => fine is Err && fine->Err_0@ == error,
        },
{
    match read_layout(name, content) {
        Some((bytes, channels)) => {
            if bytes as u32 == 4 * channels as u32 {
                return decode_fine(name, content);
            }
        },
        None => {},
    }
    let none: Vec<u32> = Vec::new();
    proof {
        assert(none@ =~= Seq::<u32>::empty());
    }
    Ok(none)
}

fn decode_photo(platform: Platform, path: &str, content: &Result<Vec<u8>, String>) -> (photo: Photo)
    ensures
        photo@ == photo_in(platform, path@, content_of(*content)),
{
    match content {
        Err(error) => Photo::Unopened(error.clone()),
        Ok(bytes) => {
            let name = name_of(platform, path);
            match decode_rgba(name.as_str(), bytes.as_slice()) {
                Err(error) => Photo::Undecodable(error),
                Ok(pixels) => match read_fine(name.as_str(), bytes.as_slice()) {
                    Err(error) => Photo::Undecodable(error),
                    Ok(fine) => Photo::Decoded(
                        Pixels { width: pixels.0, height: pixels.1, samples: pixels.2, fine },
                    ),
                },
            }
        },
    }
}

/// Decode both files and compare every pixel. Equal fingerprints only make
/// candidates: shots of one burst and recompressed copies can share them.
pub fn photos_pixel_identical(
    platform: Platform,
    first: &str,
    first_content: &Result<Vec<u8>, String>,
    second: &str,
    second_content: &Result<Vec<u8>, String>,
) -> (same: Result<bool, String>)
    ensures
        outside::message_of(same) == compared(
            first@,
            photo_in(platform, first@, content_of(*first_content)),
            second@,
            photo_in(platform, second@, content_of(*second_content)),
        ),
{
    let left = decode_photo(platform, first, first_content);
    match pixels_of(first, &left) {
        Err(error) => Err(error),
        Ok(_) => {
            let right = decode_photo(platform, second, second_content);
            compare_photos(first, &left, second, &right)
        },
    }
}

/// The dimensions in a file's header.
pub open spec fn dimensions_in(
    platform: Platform,
    path: Seq<char>,
    content: Result<Seq<u8>, Seq<char>>,
) -> Option<(u32, u32)> {
    match content {
        Err(_) => None,
        Ok(bytes) => outside::image_size(name_in(platform, path), bytes),
    }
}

/// Read the dimensions without decoding the picture.
pub fn photo_dimensions(platform: Platform, path: &str, content: &Result<Vec<u8>, String>) -> (size:
    Option<(u32, u32)>)
    ensures
        size == dimensions_in(platform, path@, content_of(*content)),
{
    match content {
        Err(_) => None,
        Ok(bytes) => {
            let name = name_of(platform, path);
            read_dimensions(name.as_str(), bytes.as_slice())
        },
    }
}

/// Two known sizes that differ.
pub open spec fn sizes_differ(left: Option<(u32, u32)>, right: Option<(u32, u32)>) -> bool {
    left is Some && right is Some && left != right
}

fn differ(left: Option<(u32, u32)>, right: Option<(u32, u32)>) -> (yes: bool)
    ensures
        yes == sizes_differ(left, right),
{
    match (left, right) {
        (Some(a), Some(b)) => a.0 != b.0 || a.1 != b.1,
        _ => false,
    }
}

/// The verdict on a pair: different sizes settle it, and files that cannot be
/// decoded are never confirmed identical.
pub open spec fn confirmed(
    left: Option<(u32, u32)>,
    right: Option<(u32, u32)>,
    comparison: Result<bool, Seq<char>>,
) -> bool {
    !sizes_differ(left, right) && comparison == Ok::<bool, Seq<char>>(true)
}

/// What was read of the two files of a pair.
pub struct PairContents {
    pub platform: Platform,
    pub first: Result<Seq<u8>, Seq<char>>,
    pub second: Result<Seq<u8>, Seq<char>>,
}

/// The verdict on a pair of which these contents were read.
pub open spec fn pair_identical(
    first: Seq<char>,
    second: Seq<char>,
    contents: PairContents,
) -> bool {
    confirmed(
        dimensions_in(contents.platform, first, contents.first),
        dimensions_in(contents.platform, second, contents.second),
        compared(
            first,
            photo_in(contents.platform, first, contents.first),
            second,
            photo_in(contents.platform, second, contents.second),
        ),
    )
}

/// Verify one pair of photos.
pub fn verify_pair_pixels(
    platform: Platform,
    first: &str,
    first_content: &Result<Vec<u8>, String>,
    second: &str,
    second_content: &Result<Vec<u8>, String>,
) -> (identical: bool)
    ensures
        identical == pair_identical(
            first@,
            second@,
            (PairContents {
                platform,
                first: content_of(*first_content),
                second: content_of(*second_content),
            }),
        ),
{
    let left = photo_dimensions(platform, first, first_content);
    let right = photo_dimensions(platform, second, second_content);
    if differ(left, right) {
        return false;
    }
    match photos_pixel_identical(platform, first, first_content, second, second_content) {
        Ok(same) => same,
        Err(_) => false,
    }
}

/// Every sample is compared: two pictures of which one sample differs are not
/// the same, and neither is a pair of different size.
pub proof fn law_every_sample_counts(
    a: Seq<char>,
    b: Seq<char>,
    one: PixelsView,
    two: PixelsView,
    k: int,
)
    requires
        one.width != two.width || one.height != two.height || one.samples[k] != two.samples[k]
            || one.fine[k] != two.fine[k],
    ensures
        compared(a, PhotoView::Decoded(one), b, PhotoView::Decoded(two)) == Ok::<
            bool,
            Seq<char>,
        >(false),
{
}

/// Comparing pictures does not depend on their order, a picture is the same as
/// itself, and two pictures that are the same as a third are the same.
pub proof fn law_pixel_identity_is_an_equivalence(
    a: Seq<char>,
    b: Seq<char>,
    c: Seq<char>,
    one: PixelsView,
    two: PixelsView,
    three: PixelsView,
)
    ensures
        compared(a, PhotoView::Decoded(one), a, PhotoView::Decoded(one)) == Ok::<
            bool,
            Seq<char>,
        >(true),
        compared(a, PhotoView::Decoded(one), b, PhotoView::Decoded(two)) == compared(
            b,
            PhotoView::Decoded(two),
            a,
            PhotoView::Decoded(one),
        ),
        compared(a, PhotoView::Decoded(one), b, PhotoView::Decoded(two)) == Ok::<
            bool,
            Seq<char>,
        >(true) && compared(b, PhotoView::Decoded(two), c, PhotoView::Decoded(three)) == Ok::<
            bool,
            Seq<char>,
        >(true) ==> compared(a, PhotoView::Decoded(one), c, PhotoView::Decoded(three)) == Ok::<
            bool,
            Seq<char>,
        >(true),
{
}

// ---------------------------------------------------------------------------
// Verifying many pairs
// ---------------------------------------------------------------------------

/// One verification outcome for a candidate pair.
#[derive(Debug, Clone)]
pub struct PairVerdict {
    pub first: String,
    pub second: String,
    pub identical: bool,
}

pub open spec fn pair_views(pairs: Seq<(String, String)>) -> Seq<(Seq<char>, Seq<char>)> {
    pairs.map_values(|pair: (String, String)| (pair.0@, pair.1@))
}

/// A pair that was handed out and verified.
pub struct PairCheck {
    /// Its place among the pairs.
    pub at: usize,
    pub first: String,
    pub second: String,
    pub identical: bool,
    /// What the verdict rests on.
    pub contents: Ghost<PairContents>,
}

impl PairCheck {
    /// The verdict is that of the contents.
    pub open spec fn wf(self) -> bool {
        self.identical == pair_identical(self.first@, self.second@, self.contents@)
    }
}

/// Verify a pair that was handed out, by what its files hold.
pub fn check_pair(
    platform: Platform,
    pair: (usize, String, String),
    first_content: &Result<Vec<u8>, String>,
    second_content: &Result<Vec<u8>, String>,
) -> (check: PairCheck)
    ensures
        check.wf(),
        check.at == pair.0,
        check.first@ == pair.1@,
        check.second@ == pair.2@,
        check.contents@ == (PairContents {
            platform,
            first: content_of(*first_content),
            second: content_of(*second_content),
        }),
{
    let (at, first, second) = pair;
    let identical = verify_pair_pixels(
        platform,
        first.as_str(),
        first_content,
        second.as_str(),
        second_content,
    );
    let ghost contents = PairContents {
        platform,
        first: content_of(*first_content),
        second: content_of(*second_content),
    };
    PairCheck { at, first, second, identical, contents: Ghost(contents) }
}

/// How many of some pairs got this answer.
pub open spec fn answered(answers: Seq<Option<bool>>, answer: bool) -> int
    decreases answers.len(),
{
    if answers.len() == 0 {
        0
    } else {
        answered(answers.drop_last(), answer) + (if answers.last() == Some(answer) {
            1int
        } else {
            0
        })
    }
}

proof fn lemma_answered_update(answers: Seq<Option<bool>>, at: int, given: bool, answer: bool)
    requires
        0 <= at < answers.len(),
        answers[at] is None,
    ensures
        answered(answers.update(at, Some(given)), answer) == answered(answers, answer) + (if given
            == answer {
            1int
        } else {
            0
        }),
    decreases answers.len(),
{
    let after = answers.update(at, Some(given));
    if at == answers.len() - 1 {
        assert(after.drop_last() =~= answers.drop_last());
    } else {
        lemma_answered_update(answers.drop_last(), at, given, answer);
        assert(after.drop_last() =~= answers.drop_last().update(at, Some(given)));
    }
}

proof fn lemma_answered_range(answers: Seq<Option<bool>>, answer: bool)
    ensures
        0 <= answered(answers, answer),
        answered(answers, true) + answered(answers, false) <= answers.len(),
        (forall|k: int| 0 <= k < answers.len() ==> (#[trigger] answers[k]) is Some) ==> answered(
            answers,
            true,
        ) + answered(answers, false) == answers.len(),
        (exists|k: int| 0 <= k < answers.len() && (#[trigger] answers[k]) is None) ==> answered(
            answers,
            true,
        ) + answered(answers, false) < answers.len(),
        (forall|k: int| 0 <= k < answers.len() ==> (#[trigger] answers[k]) is None) ==> answered(
            answers,
            answer,
        ) == 0,
    decreases answers.len(),
{
    if answers.len() > 0 {
        let front = answers.drop_last();
        lemma_answered_range(front, answer);
        assert(answers[answers.len() - 1] == answers.last());
        if forall|k: int| 0 <= k < answers.len() ==> (#[trigger] answers[k]) is Some {
            assert forall|k: int| 0 <= k < front.len() implies (#[trigger] front[k]) is Some by {
                assert(answers[k] is Some);
            }
            assert(answers[answers.len() - 1] is Some);
            let last = answers.last()->0;
            assert(answers.last() == Some(last));
        }
        if forall|k: int| 0 <= k < answers.len() ==> (#[trigger] answers[k]) is None {
            assert forall|k: int| 0 <= k < front.len() implies (#[trigger] front[k]) is None by {
                assert(answers[k] is None);
            }
        }
        if exists|k: int| 0 <= k < answers.len() && (#[trigger] answers[k]) is None {
            let k = choose|k: int| 0 <= k < answers.len() && (#[trigger] answers[k]) is None;
            if k < front.len() {
                assert(front[k] is None);
            }
        }
    }
}

/// Candidate pairs on their way through the workers. Each is handed out once,
/// in order, and answered once.
pub struct PairRun {
    pub pairs: Vec<(String, String)>,
    pub next: usize,
    /// For each pair its verdict, once that is in.
    pub answers: Vec<Option<bool>>,
    /// For each answered pair what its verdict rests on.
    pub contents: Ghost<Seq<PairContents>>,
    pub same: usize,
    pub different: usize,
}

impl PairRun {
    /// Only pairs that were handed out are answered, each by the verdict on
    /// its own contents, and the totals count the answers of each kind.
    pub open spec fn wf(self) -> bool {
        &&& self.answers@.len() == self.pairs@.len()
        &&& self.next <= self.pairs@.len()
        &&& forall|k: int|
            self.next <= k < self.answers@.len() ==> (#[trigger] self.answers@[k]) is None
        &&& self.contents@.len() == self.pairs@.len()
        &&& forall|k: int|
            0 <= k < self.answers@.len() ==> match #[trigger] self.answers@[k] {
                Some(answer) => answer == self.verdict_at(k),
                None => true,
            }
        &&& self.same == answered(self.answers@, true)
        &&& self.different == answered(self.answers@, false)
    }

    /// The verdict on the pair at `k`, by the contents that were read of it.
    pub open spec fn verdict_at(self, k: int) -> bool {
        pair_identical(
            pair_views(self.pairs@)[k].0,
            pair_views(self.pairs@)[k].1,
            self.contents@[k],
        )
    }

    /// Hand out the next pair with its place, unless none is left or the run
    /// is to stop.
    pub fn take_pair(&mut self, stop: bool) -> (pair: Option<(usize, String, String)>)
        requires
            old(self).wf(),
        ensures
            final(self).wf(),
            final(self).pairs@ == old(self).pairs@,
            final(self).answers@ == old(self).answers@,
            final(self).contents@ == old(self).contents@,
            final(self).same == old(self).same,
            final(self).different == old(self).different,
            match pair {
                None => (stop || old(self).next == old(self).pairs@.len()) && final(self).next
                    == old(self).next,
                Some(taken) => !stop && old(self).next < old(self).pairs@.len() && final(self).next
                    == old(self).next + 1 && taken.0 == old(self).next && (taken.1@, taken.2@)
                    == pair_views(old(self).pairs@)[old(self).next as int],
            },
    {
        if stop || self.next >= self.pairs.len() {
            return None;
        }
        let at = self.next;
        let first = self.pairs[at].0.clone();
        let second = self.pairs[at].1.clone();
        self.next = self.next + 1;
        Some((at, first, second))
    }

    /// Take in the verdict on a pair that was handed out, and give it the form
    /// in which it is published.
    pub fn settle(&mut self, check: PairCheck) -> (verdict: PairVerdict)
        requires
            old(self).wf(),
            check.wf(),
            check.at < old(self).next,
            old(self).answers@[check.at as int] is None,
            (check.first@, check.second@) == pair_views(old(self).pairs@)[check.at as int],
        ensures
            final(self).wf(),
            final(self).pairs@ == old(self).pairs@,
            final(self).next == old(self).next,
            final(self).answers@ == old(self).answers@.update(
                check.at as int,
                Some(check.identical),
            ),
            final(self).contents@ == old(self).contents@.update(
                check.at as int,
                check.contents@,
            ),
            final(self).same == old(self).same + (if check.identical {
                1int
            } else {
                0
            }),
            final(self).different == old(self).different + (if check.identical {
                0int
            } else {
                1
            }),
            (verdict.first@, verdict.second@) == pair_views(old(self).pairs@)[check.at as int],
            verdict.identical == pair_identical(verdict.first@, verdict.second@, check.contents@),
    {
        let at = check.at;
        let identical = check.identical;
        let n = self.answers.len();
        proof {
            assert(self.answers@.len() == n);
            lemma_answered_update(self.answers@, at as int, identical, true);
            lemma_answered_update(self.answers@, at as int, identical, false);
            assert(self.answers@[at as int] is None);
            lemma_answered_range(self.answers@, true);
            lemma_answered_range(self.answers@, false);
        }
        if identical {
            self.same = self.same + 1;
        } else {
            self.different = self.different + 1;
        }
        self.answers.set(at, Some(identical));
        proof {
            self.contents@ = self.contents@.update(at as int, check.contents@);
        }
        PairVerdict { first: check.first, second: check.second, identical }
    }

    /// How many identical and how many different pairs were counted.
    pub fn totals(&self) -> (totals: (usize, usize))
        ensures
            totals == (self.same, self.different),
    {
        (self.same, self.different)
    }

    /// How many workers share the pairs: one to six, as the machine allows,
    /// and no more than there are pairs.
    pub fn workers(&self, parallelism: Option<usize>) -> (count: usize)
        ensures
            count == worker_count(parallelism, self.pairs@.len()),
            1 <= count <= 6,
    {
        let wanted: usize = match parallelism {
            Some(n) => n,
            None => 4,
        };
        let bounded: usize = if wanted < 1 {
            1
        } else if wanted > 6 {
            6
        } else {
            wanted
        };
        let pairs: usize = if self.pairs.len() > 1 {
            self.pairs.len()
        } else {
            1
        };
        if bounded < pairs {
            bounded
        } else {
            pairs
        }
    }
}

pub open spec fn worker_count(parallelism: Option<usize>, pairs: nat) -> int {
    let wanted = match parallelism {
        Some(n) => n as int,
        None => 4,
    };
    let bounded = if wanted < 1 {
        1
    } else if wanted > 6 {
        6
    } else {
        wanted
    };
    let most = if pairs > 1 {
        pairs as int
    } else {
        1
    };
    if bounded < most {
        bounded
    } else {
        most
    }
}

/// Nothing was read of a pair yet.
pub open spec fn unread() -> PairContents {
    PairContents { platform: Platform::Posix, first: Err(Seq::empty()), second: Err(Seq::empty()) }
}

/// Start the verification of candidate pairs.
pub fn verify_photo_pairs(pairs: Vec<(String, String)>) -> (run: PairRun)
    ensures
        run.wf(),
        run.pairs@ == pairs@,
        run.next == 0,
        run.same == 0,
        run.different == 0,
        forall|k: int| 0 <= k < run.answers@.len() ==> (#[trigger] run.answers@[k]) is None,
{
    let mut answers: Vec<Option<bool>> = Vec::new();
    for i in 0..pairs.len()
        invariant
            answers@.len() == i,
            forall|k: int| 0 <= k < i ==> (#[trigger] answers@[k]) is None,
    {
        answers.push(None);
    }
    proof {
        lemma_answered_range(answers@, true);
        lemma_answered_range(answers@, false);
    }
    let ghost contents = Seq::new(pairs@.len(), |k: int| unread());
    PairRun { pairs, next: 0, answers, contents: Ghost(contents), same: 0, different: 0 }
}

/// At every moment of a run the totals are the numbers of pairs that were
/// found the same and found different, each by the verdict on what was read
/// of its two files, and no pair counts twice. Once every
/// pair was handed out and answered, the totals account for all pairs; while
/// nothing was handed out, they are zero.
pub proof fn law_totals_count_the_answers(run: PairRun)
    requires
        run.wf(),
    ensures
        run.same == answered(run.answers@, true),
        run.different == answered(run.answers@, false),
        forall|k: int|
            0 <= k < run.answers@.len() && (#[trigger] run.answers@[k]) is Some
                ==> run.answers@[k] == Some(run.verdict_at(k)),
        run.same + run.different <= run.next,
        (run.next == run.pairs@.len() && forall|k: int|
            0 <= k < run.next ==> (#[trigger] run.answers@[k]) is Some) ==> run.same
            + run.different == run.pairs@.len(),
        run.next == 0 ==> run.same == 0 && run.different == 0,
{
    let taken = run.answers@.take(run.next as int);
    lemma_answered_range(run.answers@, true);
    lemma_answered_range(run.answers@, false);
    lemma_answered_range(taken, true);
    lemma_answered_front(run.answers@, run.next as int, true);
    lemma_answered_front(run.answers@, run.next as int, false);
}

proof fn lemma_answered_front(answers: Seq<Option<bool>>, n: int, answer: bool)
    requires
        0 <= n <= answers.len(),
        forall|k: int| n <= k < answers.len() ==> (#[trigger] answers[k]) is None,
    ensures
        answered(answers, answer) == answered(answers.take(n), answer),
    decreases answers.len(),
{
    if n < answers.len() {
        let front = answers.drop_last();
        assert(answers[answers.len() - 1] is None);
        assert forall|k: int| n <= k < front.len() implies (#[trigger] front[k]) is None by {
            assert(answers[k] is None);
        }
        lemma_answered_front(front, n, answer);
        assert(front.take(n) =~= answers.take(n));
    } else {
        assert(answers.take(n) =~= answers);
    }
}

} // verus!
