//! Calls into other crates and the standard library whose results the library
//! believes: each item says what is claimed of the call.
use vstd::prelude::*;

verus! {

/// A list of strings read as texts.
pub open spec fn texts(values: Seq<String>) -> Seq<Seq<char>> {
    values.map_values(|value: String| value@)
}

/// A result whose error is a message, read as texts.
pub open spec fn message_of<T>(result: Result<T, String>) -> Result<T, Seq<char>> {
    match result {
        Ok(value) => Ok(value),
        Err(error) => Err(error@),
    }
}

/// What `serde_json::from_str` makes of a text when asked for a list of
/// strings: the list, or its error message.
pub uninterp spec fn json_list(text: Seq<char>) -> Result<Seq<Seq<char>>, Seq<char>>;

/// What `serde_json::to_string` writes for a list of strings.
pub uninterp spec fn json_text(values: Seq<Seq<char>>) -> Seq<char>;

/// `serde_json::to_string` on a list of strings always succeeds, and
/// `serde_json::from_str` reads the same list back from the text.
#[verifier::external_body]
pub(crate) fn json_from_list(values: &[String]) -> (written: Result<String, String>)
    ensures
        written is Ok,
        written->Ok_0@ == json_text(texts(values@)),
        json_list(written->Ok_0@) is Ok,
        json_list(written->Ok_0@)->Ok_0 == texts(values@),
{
    serde_json::to_string(values).map_err(|error| error.to_string())
}

/// `serde_json::from_str` for a list of strings: the result is a function of
/// the text.
#[verifier::external_body]
pub(crate) fn list_from_json(text: &str) -> (values: Result<Vec<String>, String>)
    ensures
        match values {
            Ok(list) => json_list(text@) is Ok && json_list(text@)->Ok_0 == texts(list@),
            Err(error) => json_list(text@) is Err && json_list(text@)->Err_0 == error@,
        },
{
    serde_json::from_str::<Vec<String>>(text).map_err(|error| error.to_string())
}

/// What `serde_json::from_str` makes of a text when asked for one string: the
/// string, or its error message.
pub uninterp spec fn json_string(text: Seq<char>) -> Result<Seq<char>, Seq<char>>;

/// What `serde_json::to_string` writes for one string.
pub uninterp spec fn json_quoted(value: Seq<char>) -> Seq<char>;

/// `serde_json::to_string` on a string always succeeds, and
/// `serde_json::from_str` reads the same string back from the text.
#[verifier::external_body]
pub(crate) fn json_from_string(value: &str) -> (written: Result<String, String>)
    ensures
        written is Ok,
        written->Ok_0@ == json_quoted(value@),
        json_string(written->Ok_0@) is Ok,
        json_string(written->Ok_0@)->Ok_0 == value@,
{
    serde_json::to_string(value).map_err(|error| error.to_string())
}

/// `serde_json::from_str` for one string: the result is a function of the
/// text.
#[verifier::external_body]
pub(crate) fn string_from_json(text: &str) -> (value: Result<String, String>)
    ensures
        match value {
            Ok(read) => json_string(text@) is Ok && json_string(text@)->Ok_0 == read@,
            Err(error) => json_string(text@) is Err && json_string(text@)->Err_0 == error@,
        },
{
    serde_json::from_str::<String>(text).map_err(|error| error.to_string())
}

/// What `str::to_lowercase` makes of a text.
pub uninterp spec fn lowercase(text: Seq<char>) -> Seq<char>;

/// `str::to_lowercase`: the result is a function of the text.
#[verifier::external_body]
pub(crate) fn lowercased(value: &str) -> (folded: String)
    ensures
        folded@ == lowercase(value@),
{
    value.to_lowercase()
}

/// The incremental BLAKE3 state, from the `blake3` crate.
#[verifier::external_type_specification]
#[verifier::external_body]
pub struct ExHasher(blake3::Hasher);

/// The bytes that an incremental BLAKE3 state has taken in.
pub uninterp spec fn absorbed(state: blake3::Hasher) -> Seq<u8>;

/// The BLAKE3 digest of a byte sequence, as `blake3::hash` computes it.
pub uninterp spec fn blake3_digest(bytes: Seq<u8>) -> Seq<u8>;

/// `blake3::Hasher::new` starts with no input.
#[verifier::external_body]
pub(crate) fn new_hasher() -> (state: blake3::Hasher)
    ensures
        absorbed(state) == Seq::<u8>::empty(),
{
    blake3::Hasher::new()
}

/// `blake3::Hasher::update` takes the bytes in behind the earlier ones.
#[verifier::external_body]
pub(crate) fn absorb(state: &mut blake3::Hasher, bytes: &[u8])
    ensures
        absorbed(*final(state)) == absorbed(*old(state)) + bytes@,
{
    state.update(bytes);
}

/// `blake3::Hasher::finalize` gives the digest of everything taken in, the
/// same as hashing it in one piece.
#[verifier::external_body]
pub(crate) fn squeeze(state: &blake3::Hasher) -> (digest: [u8; 32])
    ensures
        digest@ == blake3_digest(absorbed(*state)),
{
    *state.finalize().as_bytes()
}

/// `blake3::hash` gives the digest of the bytes.
#[verifier::external_body]
pub(crate) fn digest_of(bytes: &[u8]) -> (digest: [u8; 32])
    ensures
        digest@ == blake3_digest(bytes@),
{
    *blake3::hash(bytes).as_bytes()
}

/// The first text of the EXIF field `DateTimeOriginal` of the primary image,
/// as the `exif` crate reads it from a file's content.
pub uninterp spec fn exif_original_time(content: Seq<u8>) -> Option<Seq<u8>>;

/// `exif::Reader::read_from_container` and `Exif::get_field`: the first ASCII
/// value of `DateTimeOriginal`, a function of the file's content. None where
/// the content has no readable EXIF data, no such field, or one of another
/// type.
#[verifier::external_body]
pub(crate) fn read_original_time(content: &[u8]) -> (raw: Option<Vec<u8>>)
    ensures
        match raw {
            Some(bytes) => exif_original_time(content@) == Some(bytes@),
            None => exif_original_time(content@) is None,
        },
{
    let exif = exif::Reader::new().read_from_container(&mut std::io::Cursor::new(content)).ok()?;
    match &exif.get_field(exif::Tag::DateTimeOriginal, exif::In::PRIMARY)?.value {
        exif::Value::Ascii(parts) => parts.first().cloned(),
        _ => None,
    }
}

/// What `String::from_utf8_lossy` makes of bytes.
pub uninterp spec fn lossy_text(bytes: Seq<u8>) -> Seq<char>;

/// `String::from_utf8_lossy`: the text is a function of the bytes.
#[verifier::external_body]
pub(crate) fn text_from_bytes(bytes: &[u8]) -> (decoded: String)
    ensures
        decoded@ == lossy_text(bytes@),
{
    String::from_utf8_lossy(bytes).into_owned()
}

/// Whether the `image` crate knows a format by the extension of this name.
pub uninterp spec fn image_named(name: Seq<char>) -> bool;

/// `image::ImageFormat::from_path`: whether there is a format is a function of
/// the file's name.
#[verifier::external_body]
pub(crate) fn names_image(name: &str) -> (yes: bool)
    ensures
        yes == image_named(name@),
{
    image::ImageFormat::from_path(name).is_ok()
}

/// What the `image` crate decodes from a file of this name and content: width,
/// height and sixteen-bit RGBA samples; or its error message.
pub uninterp spec fn image_rgba(name: Seq<char>, content: Seq<u8>) -> Result<
    (u32, u32, Seq<u16>),
    Seq<char>,
>;

/// `image::ImageFormat::from_path` and `image::ImageReader::decode`, then
/// `DynamicImage::to_rgba16`: the samples are a function of the file's name,
/// whose extension picks the format, and its content. There are four samples
/// to a pixel.
#[verifier::external_body]
pub(crate) fn decode_rgba(name: &str, content: &[u8]) -> (decoded: Result<
    (u32, u32, Vec<u16>),
    String,
>)
    ensures
        match decoded {
            Ok(pixels) => image_rgba(name@, content@) is Ok && image_rgba(name@, content@)->Ok_0
                == (pixels.0, pixels.1, pixels.2@) && pixels.2@.len() == 4 * (pixels.0
                * pixels.1),
            Err(error) => image_rgba(name@, content@) is Err && image_rgba(name@, content@)->Err_0
                == error@,
        },
{
    let format = image::ImageFormat::from_path(name).map_err(|error| error.to_string())?;
    let reader = image::ImageReader::with_format(std::io::Cursor::new(content), format);
    let samples = reader.decode().map_err(|error| error.to_string())?.to_rgba16();
    Ok((samples.width(), samples.height(), samples.into_raw()))
}

/// The bits of the floating-point RGBA samples that the `image` crate decodes
/// from a file of this name and content; or its error message.
pub uninterp spec fn image_fine(name: Seq<char>, content: Seq<u8>) -> Result<Seq<u32>, Seq<char>>;

/// `image::ImageFormat::from_path` and `image::ImageReader::decode`, then
/// `DynamicImage::to_rgba32f`: the bits of the samples are a function of the
/// file's name and its content. Samples that were decoded as floating-point
/// numbers come out as they are.
#[verifier::external_body]
pub(crate) fn decode_fine(name: &str, content: &[u8]) -> (decoded: Result<Vec<u32>, String>)
    ensures
        match decoded {
            Ok(bits) => image_fine(name@, content@) is Ok && image_fine(name@, content@)->Ok_0
                == bits@,
            Err(error) => image_fine(name@, content@) is Err && image_fine(name@, content@)->Err_0
                == error@,
        },
{
    let format = image::ImageFormat::from_path(name).map_err(|error| error.to_string())?;
    let reader = image::ImageReader::with_format(std::io::Cursor::new(content), format);
    let samples = reader.decode().map_err(|error| error.to_string())?.to_rgba32f().into_raw();
    Ok(samples.into_iter().map(|sample| sample.to_bits()).collect())
}

/// What the `image` crate reads as the layout of a pixel in a file of this
/// name and content: its bytes and its channels.
pub uninterp spec fn image_layout(name: Seq<char>, content: Seq<u8>) -> Option<(u8, u8)>;

/// `image::ImageFormat::from_path`, `image::ImageReader::into_decoder` and
/// `ImageDecoder::color_type`, of which `ColorType::bytes_per_pixel` and
/// `ColorType::channel_count` are a function of the file's name and content.
#[verifier::external_body]
pub(crate) fn read_layout(name: &str, content: &[u8]) -> (layout: Option<(u8, u8)>)
    ensures
        layout == image_layout(name@, content@),
{
    let format = image::ImageFormat::from_path(name).ok()?;
    let reader = image::ImageReader::with_format(std::io::Cursor::new(content), format);
    let color = image::ImageDecoder::color_type(&reader.into_decoder().ok()?);
    Some((color.bytes_per_pixel(), color.channel_count()))
}

/// What the `image` crate reads as the dimensions of a file of this name and
/// content.
pub uninterp spec fn image_size(name: Seq<char>, content: Seq<u8>) -> Option<(u32, u32)>;

/// `image::ImageFormat::from_path` and `image::ImageReader::into_dimensions`:
/// width and height from the header, a function of the file's name and
/// content.
#[verifier::external_body]
pub(crate) fn read_dimensions(name: &str, content: &[u8]) -> (size: Option<(u32, u32)>)
    ensures
        size == image_size(name@, content@),
{
    let format = image::ImageFormat::from_path(name).ok()?;
    let reader = image::ImageReader::with_format(std::io::Cursor::new(content), format);
    reader.into_dimensions().ok()
}

/// `image::ImageReader::decode`, `DynamicImage::resize_exact` with the
/// triangle filter and `DynamicImage::to_luma8`: one grey level for each of
/// the `width` by `height` points, where the content can be decoded, which
/// takes a name with a format. What the levels are is left unsaid: for
/// coloured pictures they are sums of floating-point products, which some
/// machines round once and others twice.
#[verifier::external_body]
pub(crate) fn scale_to_luma(name: &str, content: &[u8], width: u32, height: u32) -> (grid: Option<
    (u32, u32, Vec<u8>),
>)
    requires
        0 < width <= 4_096,
        0 < height <= 4_096,
    ensures
        grid is Some == image_rgba(name@, content@) is Ok,
        grid is Some ==> image_named(name@),
        grid is Some ==> grid->Some_0.0 == width && grid->Some_0.1 == height
            && grid->Some_0.2@.len() == width * height,
{
    let format = image::ImageFormat::from_path(name).ok()?;
    let reader = image::ImageReader::with_format(std::io::Cursor::new(content), format);
    let picture = reader.decode().ok()?;
    let filter = image::imageops::FilterType::Triangle;
    let luma = picture.resize_exact(width, height, filter).to_luma8();
    Some((luma.width(), luma.height(), luma.into_raw()))
}

/// What `char::is_alphanumeric` says of a character.
pub uninterp spec fn alphanumeric(c: char) -> bool;

/// `char::is_alphanumeric`: the answer is a function of the character.
#[verifier::external_body]
pub(crate) fn is_word_char(c: char) -> (yes: bool)
    ensures
        yes == alphanumeric(c),
{
    c.is_alphanumeric()
}

/// The PNG that the `image` crate makes of a file of this name and content,
/// turned upright and scaled to fit a square of `side` points.
pub uninterp spec fn image_png(name: Seq<char>, content: Seq<u8>, side: u32) -> Option<Seq<u8>>;

/// The samples of a pixel of this layout have sixteen bits.
pub open spec fn has_wide_samples(layout: Option<(u8, u8)>) -> bool {
    match layout {
        Some((bytes, channels)) => bytes == 2 * channels,
        None => false,
    }
}

/// A picture of this size and layout can be scaled to fit a square of `side`
/// points. Scaling adds up the samples of the points that become one point in
/// thirty-two bits: of sixteen-bit samples there may be `0x1_0000`, of eight-bit
/// ones `0x100_0000`; floating-point samples are added up as such. The points lie in a block whose length is that of the
/// longer side divided by `side`. Since the shorter side may be rounded down
/// by a third, the block may be half as much again wide, but no wider than the
/// picture. Rounding adds some points, more of them the longer the picture is.
pub open spec fn scales_to(width: u32, height: u32, layout: Option<(u8, u8)>, side: u32) -> bool {
    let longer = if width > height {
        width as int
    } else {
        height as int
    };
    let shorter = if width > height {
        height as int
    } else {
        width as int
    };
    let slack = longer / 0x40_0000 + 4;
    let wide = 3 * longer / (2 * side) + slack;
    (longer / (side as int) + slack) * (if shorter < wide {
        shorter
    } else {
        wide
    }) <= if has_wide_samples(layout) {
        0x1_0000int
    } else {
        0x100_0000int
    }
}

/// `image::ImageReader::into_decoder`, `ImageDecoder::orientation`,
/// `DynamicImage::from_decoder`, `DynamicImage::apply_orientation`,
/// `DynamicImage::thumbnail` and `DynamicImage::write_to` as PNG: the bytes
/// are a function of the file's name, its content and the side. None where
/// the content cannot be decoded or the result cannot be encoded. Size and
/// layout in the header must be such that `thumbnail` can add the samples up
/// without an overflow.
#[verifier::external_body]
pub(crate) fn scale_to_png(name: &str, content: &[u8], side: u32) -> (png: Option<Vec<u8>>)
    requires
        0 < side <= 4_096,
        image_size(name@, content@) is Some ==> scales_to(
            image_size(name@, content@)->Some_0.0,
            image_size(name@, content@)->Some_0.1,
            image_layout(name@, content@),
            side,
        ),
    ensures
        match png {
            Some(bytes) => image_png(name@, content@, side) == Some(bytes@),
            None => image_png(name@, content@, side) is None,
        },
{
    let format = image::ImageFormat::from_path(name).ok()?;
    let reader = image::ImageReader::with_format(std::io::Cursor::new(content), format);
    let mut decoder = reader.into_decoder().ok()?;
    let upright = image::metadata::Orientation::NoTransforms;
    let orientation = image::ImageDecoder::orientation(&mut decoder).unwrap_or(upright);
    let mut picture = image::DynamicImage::from_decoder(decoder).ok()?;
    picture.apply_orientation(orientation);
    let mut output = std::io::Cursor::new(Vec::new());
    picture.thumbnail(side, side).write_to(&mut output, image::ImageFormat::Png).ok()?;
    Some(output.into_inner())
}

/// What the standard alphabet of the `base64` crate writes for bytes.
pub uninterp spec fn base64_text(bytes: Seq<u8>) -> Seq<char>;

/// `base64::Engine::encode` with the standard engine: the text is a function
/// of the bytes.
#[verifier::external_body]
pub(crate) fn base64_encoded(bytes: &[u8]) -> (encoded: String)
    ensures
        encoded@ == base64_text(bytes@),
{
    base64::Engine::encode(&base64::engine::general_purpose::STANDARD, bytes)
}

/// What `String::from_utf16_lossy` makes of sixteen-bit units.
pub uninterp spec fn utf16_text(units: Seq<u16>) -> Seq<char>;

/// `String::from_utf16_lossy`: the text is a function of the units.
#[verifier::external_body]
pub(crate) fn text_from_utf16(units: &[u16]) -> (decoded: String)
    ensures
        decoded@ == utf16_text(units@),
{
    String::from_utf16_lossy(units)
}

} // verus!
