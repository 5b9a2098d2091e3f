//! What a clipboard capture becomes: its content hash, the preview of a
//! text, the identifier of a new history item, and the stored PNG files and
//! thumbnail URL of an image.
use vstd::prelude::*;
use vstd::utf8::encode_utf8;
use crate::history::{ClipboardHistoryImage, ClipboardHistoryItem, ClipboardHistoryItemKind};
use crate::hooks::hex_digit;
use crate::text::{
    chars_of, decimal, decimal_int, extend_chars, extend_str, is_ws, is_ws_char, join, push_decimal,
    push_decimal_i64, slice_chars, string_from, string_of, trim, trim_chars, views,
};

verus! {

broadcast use vstd::seq_lib::group_seq_properties;

/// A preview shows at most this many characters before `...`.
pub const PREVIEW_LIMIT: usize = 140;

/// An item identifier keeps this many characters of the content hash.
pub const ITEM_ID_HASH_CHARS: usize = 12;

/// Image file names keep this many characters of the content hash.
pub const IMAGE_FILE_HASH_CHARS: usize = 24;

/// An image whose PNG is larger than this is not kept.
pub const MAX_IMAGE_PNG_BYTES: usize = 10 * 1024 * 1024;

// ---------------------------------------------------------------------------
// Content hashes
// ---------------------------------------------------------------------------

/// The SHA-256 digest of `bytes`.
pub uninterp spec fn sha256_digest(bytes: Seq<u8>) -> Seq<u8>;

/// `sha2::Sha256::digest`: the SHA-256 digest of `bytes`, 32 bytes long.
#[verifier::external_body]
fn sha256(bytes: &[u8]) -> (r: Vec<u8>)
    ensures
        r@ == sha256_digest(bytes@),
        r@.len() == 32,
{
    <sha2::Sha256 as sha2::Digest>::digest(bytes).to_vec()
}

/// The two lowercase hexadecimal digits of a byte.
pub open spec fn hex_byte(b: u8) -> Seq<char> {
    seq![hex_digit((b / 16) as int), hex_digit((b % 16) as int)]
}

/// `bytes` in lowercase hexadecimal, two digits per byte.
pub open spec fn hex_lower(bytes: Seq<u8>) -> Seq<char>
    decreases bytes.len(),
{
    if bytes.len() == 0 {
        Seq::empty()
    } else {
        hex_lower(bytes.drop_last()) + hex_byte(bytes.last())
    }
}

fn hex_digit_char(d: u8) -> (r: char)
    requires
        d < 16,
    ensures
        r == hex_digit(d as int),
{
    if d < 10 {
        (d + 48) as char
    } else {
        (d - 10 + 97) as char
    }
}

/// `bytes` in lowercase hexadecimal, as `format!("{byte:02x}")` writes each.
pub fn hex_encode(bytes: &[u8]) -> (r: String)
    ensures
        r@ == hex_lower(bytes@),
{
    let mut out: Vec<char> = Vec::new();
    let mut i: usize = 0;
    while i < bytes.len()
        invariant
            i <= bytes.len(),
            out@ == hex_lower(bytes@.take(i as int)),
        decreases bytes.len() - i,
    {
        let b = bytes[i];
        let ghost before = out@;
        out.push(hex_digit_char(b / 16));
        out.push(hex_digit_char(b % 16));
        assert(bytes@.take(i + 1).drop_last() =~= bytes@.take(i as int));
        assert(out@ =~= before + hex_byte(b));
        i += 1;
    }
    assert(bytes@.take(bytes.len() as int) =~= bytes@);
    string_of(&out)
}

/// The content hash of `bytes`: their SHA-256 digest in lowercase hex.
pub fn hash_bytes(bytes: &[u8]) -> (r: String)
    ensures
        r@ == hex_lower(sha256_digest(bytes@)),
{
    let digest = sha256(bytes);
    hex_encode(&digest)
}

fn extend_bytes(out: &mut Vec<u8>, b: &[u8])
    ensures
        final(out)@ == old(out)@ + b@,
{
    let ghost start = out@;
    let mut i: usize = 0;
    while i < b.len()
        invariant
            i <= b.len(),
            out@ == start + b@.take(i as int),
        decreases b.len() - i,
    {
        out.push(b[i]);
        assert(start + b@.take(i as int) + seq![b@[i as int]] =~= start + b@.take(i + 1));
        i += 1;
    }
    assert(b@.take(b.len() as int) =~= b@);
}

/// What the hash of a text covers: `text:` and the text, in UTF-8.
pub open spec fn text_hash_input(text: Seq<char>) -> Seq<u8> {
    encode_utf8("text:"@) + encode_utf8(text)
}

/// `n` in `count` bytes, least significant first.
pub open spec fn le_bytes(n: nat, count: nat) -> Seq<u8>
    decreases count,
{
    if count == 0 {
        Seq::empty()
    } else {
        seq![(n % 256) as u8] + le_bytes(n / 256, (count - 1) as nat)
    }
}

/// The bytes of a `usize`.
pub open spec fn usize_bytes() -> nat {
    (usize::BITS / 8) as nat
}

/// What the hash of an image covers: its width and height as `usize`
/// (`to_le_bytes`), then its RGBA bytes.
pub open spec fn image_hash_input(width: usize, height: usize, rgba: Seq<u8>) -> Seq<u8> {
    le_bytes(width as nat, usize_bytes()) + le_bytes(height as nat, usize_bytes()) + rgba
}

/// Appends `n.to_le_bytes()`.
fn push_usize_le(out: &mut Vec<u8>, n: usize)
    ensures
        final(out)@ == old(out)@ + le_bytes(n as nat, usize_bytes()),
{
    let count: u32 = usize::BITS / 8;
    let ghost start = out@;
    let mut v: usize = n;
    let mut k: u32 = 0;
    while k < count
        invariant
            k <= count,
            count == usize::BITS / 8,
            start + le_bytes(n as nat, count as nat) == out@ + le_bytes(v as nat, (count - k) as nat),
        decreases count - k,
    {
        let ghost before = out@;
        let ghost rest = le_bytes((v / 256) as nat, (count - k - 1) as nat);
        out.push((v % 256) as u8);
        assert(le_bytes(v as nat, (count - k) as nat) == seq![(v % 256) as u8] + rest);
        assert(before + (seq![(v % 256) as u8] + rest) =~= out@ + rest);
        v = v / 256;
        k += 1;
    }
    assert(out@ + Seq::<u8>::empty() =~= out@);
}

// ---------------------------------------------------------------------------
// Previews and identifiers
// ---------------------------------------------------------------------------

/// The words of `s`: its runs of non-whitespace (`str::split_whitespace`).
pub open spec fn words(s: Seq<char>) -> Seq<Seq<char>>
    decreases s.len(),
{
    if s.len() == 0 {
        Seq::empty()
    } else {
        let w = words(s.drop_last());
        let c = s.last();
        if is_ws(c) {
            w
        } else if s.len() >= 2 && !is_ws(s[s.len() - 2]) && w.len() > 0 {
            w.drop_last().push(w.last().push(c))
        } else {
            w.push(seq![c])
        }
    }
}

/// `s` with its whitespace runs collapsed to single spaces and trimmed.
pub open spec fn collapse_whitespace(s: Seq<char>) -> Seq<char> {
    join(words(s), " "@)
}

/// The preview of a text: its collapsed form, cut to the preview limit with
/// `...` after it when longer.
pub open spec fn text_preview(text: Seq<char>) -> Seq<char> {
    let c = collapse_whitespace(text);
    if c.len() <= PREVIEW_LIMIT {
        c
    } else {
        c.take(PREVIEW_LIMIT as int) + "..."@
    }
}

/// The first `n` characters of `s` (all of them when it is shorter).
pub open spec fn leading_chars(s: Seq<char>, n: nat) -> Seq<char> {
    if s.len() <= n {
        s
    } else {
        s.take(n as int)
    }
}

fn words_exec(s: &[char]) -> (r: Vec<Vec<char>>)
    ensures
        views(r@) == words(s@),
{
    let mut out: Vec<Vec<char>> = Vec::new();
    let mut i: usize = 0;
    while i < s.len()
        invariant
            i <= s.len(),
            views(out@) == words(s@.take(i as int)),
            i > 0 && !is_ws(s@[i - 1]) ==> out.len() > 0,
        decreases s.len() - i,
    {
        let c = s[i];
        let ghost prefix = s@.take(i + 1);
        assert(prefix.drop_last() =~= s@.take(i as int));
        assert(prefix.last() == c);
        let ghost w = views(out@);
        if is_ws_char(c) {
        } else if i > 0 && !is_ws_char(s[i - 1]) && out.len() > 0 {
            assert(prefix[prefix.len() - 2] == s@[i - 1]);
            let mut last = out.pop().unwrap();
            last.push(c);
            out.push(last);
            assert(views(out@) =~= w.drop_last().push(w.last().push(c)));
        } else {
            if i > 0 {
                assert(prefix[prefix.len() - 2] == s@[i - 1]);
            }
            let mut word: Vec<char> = Vec::new();
            word.push(c);
            let ghost before = views(out@);
            out.push(word);
            assert(views(out@) =~= before.push(seq![c]));
        }
        i += 1;
    }
    assert(s@.take(s.len() as int) =~= s@);
    out
}

fn join_words(parts: &Vec<Vec<char>>) -> (r: Vec<char>)
    ensures
        r@ == join(views(parts@), " "@),
{
    proof {
        reveal_strlit(" ");
    }
    let mut out: Vec<char> = Vec::new();
    let mut k: usize = 0;
    while k < parts.len()
        invariant
            k <= parts.len(),
            out@ == join(views(parts@).take(k as int), " "@),
        decreases parts.len() - k,
    {
        let ghost done = views(parts@).take(k as int);
        let ghost x = parts@[k as int]@;
        let ghost before = out@;
        assert(views(parts@).take(k + 1) =~= done.push(x));
        if k > 0 {
            out.push(' ');
            extend_chars(&mut out, &parts[k]);
            proof {
                reveal_strlit(" ");
                crate::text::lemma_join_push(done, " "@, x);
                assert(out@ =~= before + " "@ + x);
            }
        } else {
            extend_chars(&mut out, &parts[k]);
            assert(done.push(x) =~= seq![x]);
            assert(out@ =~= x);
        }
        k += 1;
    }
    assert(views(parts@).take(parts.len() as int) =~= views(parts@));
    out
}

/// The preview of a text (see `text_preview`).
pub fn preview_text(text: &str) -> (r: String)
    ensures
        r@ == text_preview(text@),
{
    let c = chars_of(text);
    let w = words_exec(&c);
    let collapsed = join_words(&w);
    if collapsed.len() <= PREVIEW_LIMIT {
        return string_of(&collapsed);
    }
    let mut preview = slice_chars(&collapsed, 0, PREVIEW_LIMIT);
    extend_str(&mut preview, "...");
    string_of(&preview)
}

/// The identifier of an item captured at `timestamp`: the time, `-`, and
/// the start of the content hash.
pub open spec fn item_id(timestamp: i64, hash: Seq<char>) -> Seq<char> {
    decimal_int(timestamp as int) + "-"@ + leading_chars(hash, ITEM_ID_HASH_CHARS as nat)
}

fn leading_exec(s: &[char], n: usize) -> (r: Vec<char>)
    ensures
        r@ == leading_chars(s@, n as nat),
{
    if s.len() <= n {
        slice_chars(s, 0, s.len())
    } else {
        slice_chars(s, 0, n)
    }
}

/// The identifier of a new item (see `item_id`).
pub fn create_item_id(timestamp: i64, hash: &str) -> (r: String)
    ensures
        r@ == item_id(timestamp, hash@),
{
    let h = chars_of(hash);
    let short = leading_exec(&h, ITEM_ID_HASH_CHARS);
    let mut out: Vec<char> = Vec::new();
    push_decimal_i64(&mut out, timestamp);
    extend_str(&mut out, "-");
    extend_chars(&mut out, &short);
    string_of(&out)
}


// ---------------------------------------------------------------------------
// Captures
// ---------------------------------------------------------------------------

/// What was read from the clipboard.
#[derive(Debug)]
pub enum ClipboardCapture {
    /// A text that is not blank, with its hash and preview.
    Text { hash: String, text: String, preview: String },
    /// An image of `width` × `height` RGBA pixels, with its hash.
    Image { hash: String, width: usize, height: usize, rgba: Vec<u8> },
}

impl ClipboardCapture {
    pub open spec fn hash_view(&self) -> Seq<char> {
        match self {
            ClipboardCapture::Text { hash, .. } => hash@,
            ClipboardCapture::Image { hash, .. } => hash@,
        }
    }

    /// The content hash of the capture.
    pub fn hash(&self) -> (r: &str)
        ensures
            r@ == self.hash_view(),
    {
        match self {
            ClipboardCapture::Text { hash, .. } => hash.as_str(),
            ClipboardCapture::Image { hash, .. } => hash.as_str(),
        }
    }
}

/// The capture of a clipboard text: none when it is blank.
pub fn text_capture(text: String) -> (r: Option<ClipboardCapture>)
    ensures
        trim(text@).len() == 0 ==> r is None,
        trim(text@).len() != 0 ==> (r matches Some(ClipboardCapture::Text { hash, text: t, preview })
            && hash@ == hex_lower(sha256_digest(text_hash_input(text@))) && t@ == text@ && preview@
            == text_preview(text@)),
{
    let chars = chars_of(text.as_str());
    let trimmed = trim_chars(&chars);
    if trimmed.len() == 0 {
        return None;
    }
    let mut input: Vec<u8> = Vec::new();
    extend_bytes(&mut input, "text:".as_bytes());
    extend_bytes(&mut input, text.as_str().as_bytes());
    let hash = hash_bytes(&input);
    let preview = preview_text(text.as_str());
    Some(ClipboardCapture::Text { hash, text, preview })
}

/// The capture of a clipboard image of `width` × `height` RGBA pixels.
pub fn image_capture(width: usize, height: usize, rgba: Vec<u8>) -> (r: ClipboardCapture)
    ensures
        r matches ClipboardCapture::Image { hash, width: w, height: h, rgba: bytes } && hash@ == hex_lower(
            sha256_digest(image_hash_input(width, height, rgba@)),
        ) && w == width && h == height && bytes@ == rgba@,
{
    let mut input: Vec<u8> = Vec::new();
    push_usize_le(&mut input, width);
    push_usize_le(&mut input, height);
    extend_bytes(&mut input, rgba.as_slice());
    let hash = hash_bytes(&input);
    ClipboardCapture::Image { hash, width, height, rgba }
}

/// A new text item captured at `now`.
pub fn text_history_item(now: i64, hash: String, text: String, preview: String) -> (r: ClipboardHistoryItem)
    ensures
        r.id@ == item_id(now, hash@),
        r.kind == ClipboardHistoryItemKind::Text,
        r.hash == hash,
        r.created_at == now,
        r.copied_at == now,
        !r.favorite,
        r.preview == preview,
        r.text == Some(text),
        r.image is None,
{
    let id = create_item_id(now, hash.as_str());
    ClipboardHistoryItem {
        id,
        kind: ClipboardHistoryItemKind::Text,
        hash,
        created_at: now,
        copied_at: now,
        favorite: false,
        preview,
        text: Some(text),
        image: None,
    }
}

fn push_decimal_usize(out: &mut Vec<char>, n: usize)
    ensures
        final(out)@ == old(out)@ + decimal(n as nat),
{
    assert(n <= u64::MAX) by {
        assert(usize::MAX <= u64::MAX);
    }
    push_decimal(out, n as u64);
}

/// The preview of an image item: `<width> x <height> image`.
pub open spec fn image_preview(width: usize, height: usize) -> Seq<char> {
    decimal(width as nat) + " x "@ + decimal(height as nat) + " image"@
}

/// A new image item captured at `now`, with its stored files.
pub fn image_history_item(now: i64, hash: String, image: ClipboardHistoryImage) -> (r: ClipboardHistoryItem)
    ensures
        r.id@ == item_id(now, hash@),
        r.kind == ClipboardHistoryItemKind::Image,
        r.hash == hash,
        r.created_at == now,
        r.copied_at == now,
        !r.favorite,
        r.preview@ == image_preview(image.width, image.height),
        r.text is None,
        r.image == Some(image),
{
    let id = create_item_id(now, hash.as_str());
    let mut preview: Vec<char> = Vec::new();
    push_decimal_usize(&mut preview, image.width);
    extend_str(&mut preview, " x ");
    push_decimal_usize(&mut preview, image.height);
    extend_str(&mut preview, " image");
    ClipboardHistoryItem {
        id,
        kind: ClipboardHistoryItemKind::Image,
        hash,
        created_at: now,
        copied_at: now,
        favorite: false,
        preview: string_of(&preview),
        text: None,
        image: Some(image),
    }
}

/// The new history item of a capture taken at `now`: a text capture becomes
/// a text item; an image capture becomes an image item with its stored
/// files `image`, and nothing without them.
pub fn history_item_for_capture(capture: ClipboardCapture, now: i64, image: Option<ClipboardHistoryImage>) -> (r: Option<ClipboardHistoryItem>)
    ensures
        match capture {
            ClipboardCapture::Text { hash, text, preview } => r matches Some(item) && item.id@ == item_id(now, hash@)
                && item.kind == ClipboardHistoryItemKind::Text && item.hash == hash && item.created_at == now
                && item.copied_at == now && !item.favorite && item.preview == preview && item.text == Some(text)
                && item.image is None,
            ClipboardCapture::Image { hash, .. } => match image {
                Some(img) => r matches Some(item) && item.id@ == item_id(now, hash@) && item.kind
                    == ClipboardHistoryItemKind::Image && item.hash == hash && item.created_at == now
                    && item.copied_at == now && !item.favorite && item.preview@ == image_preview(img.width, img.height)
                    && item.text is None && item.image == Some(img),
                None => r is None,
            },
        },
{
    match capture {
        ClipboardCapture::Text { hash, text, preview } => Some(text_history_item(now, hash, text, preview)),
        ClipboardCapture::Image { hash, .. } => match image {
            Some(img) => Some(image_history_item(now, hash, img)),
            None => None,
        },
    }
}

// ---------------------------------------------------------------------------
// Stored images
// ---------------------------------------------------------------------------

/// The PNG file that the `image` crate writes for an RGBA image of
/// `width` × `height` pixels.
pub uninterp spec fn png_encoding(width: u32, height: u32, rgba: Seq<u8>) -> Seq<u8>;

/// Builds the image with `image::RgbaImage::from_raw` and writes it with
/// `DynamicImage::write_to` as `ImageFormat::Png` into memory. The bytes
/// written are named `png_encoding`. The `png` encoder refuses an image with
/// zero width or height (`Writer::init`) and, with the buffer's length right
/// and an in-memory writer, fails on nothing else; the text of its error is
/// not stated.
#[verifier::external_body]
fn write_png(width: u32, height: u32, rgba: Vec<u8>) -> (r: Result<Vec<u8>, String>)
    requires
        rgba.len() == 4 * (width * height),
    ensures
        r is Ok <==> (width > 0 && height > 0),
        r is Ok ==> r->Ok_0@ == png_encoding(width, height, rgba@),
{
    let image = image::RgbaImage::from_raw(width, height, rgba).expect("the buffer holds the image");
    let mut out = std::io::Cursor::new(Vec::new());
    image::DynamicImage::ImageRgba8(image).write_to(&mut out, image::ImageFormat::Png).map_err(|error| error.to_string())?;
    Ok(out.into_inner())
}

/// The PNG encoding of an RGBA image of `width` × `height` pixels, or, for
/// an image with no pixels, the error message
/// `Failed to encode clipboard image: ...`.
pub fn encode_png(width: u32, height: u32, rgba: Vec<u8>) -> (r: Result<Vec<u8>, String>)
    requires
        rgba.len() == 4 * (width * height),
    ensures
        r is Ok <==> (width > 0 && height > 0),
        r is Ok ==> r->Ok_0@ == png_encoding(width, height, rgba@),
        r is Err ==> r->Err_0@.len() >= "Failed to encode clipboard image: "@.len()
            && r->Err_0@.take("Failed to encode clipboard image: "@.len() as int) == "Failed to encode clipboard image: "@,
{
    match write_png(width, height, rgba) {
        Ok(bytes) => Ok(bytes),
        Err(error) => {
            let mut message: Vec<char> = Vec::new();
            extend_str(&mut message, "Failed to encode clipboard image: ");
            let detail = chars_of(error.as_str());
            let ghost prefix = message@;
            extend_chars(&mut message, &detail);
            assert(message@.take(prefix.len() as int) =~= prefix);
            Err(string_of(&message))
        },
    }
}

/// Why an image capture is not stored.
#[derive(Debug)]
pub enum ClipboardImageError {
    /// The RGBA bytes are fewer than the size says.
    InvalidData,
    /// The PNG encoder failed, with its message.
    EncodeFailed(String),
    /// The PNG is larger than `MAX_IMAGE_PNG_BYTES`.
    TooLarge,
}

impl ClipboardImageError {
    /// The message shown to the user.
    pub fn message(&self) -> (r: String)
        ensures
            match self {
                ClipboardImageError::InvalidData => r@ == "Clipboard image data is invalid."@,
                ClipboardImageError::EncodeFailed(m) => r@ == m@,
                ClipboardImageError::TooLarge => r@ == "Clipboard image is larger than the history limit."@,
            },
    {
        match self {
            ClipboardImageError::InvalidData => string_from("Clipboard image data is invalid."),
            ClipboardImageError::EncodeFailed(m) => string_from(m.as_str()),
            ClipboardImageError::TooLarge => string_from("Clipboard image is larger than the history limit."),
        }
    }
}

/// The RGBA bytes an image of `width` × `height` pixels needs, where the
/// size is first cut to `u32` as the `image` crate takes it.
pub open spec fn rgba_len_needed(width: usize, height: usize) -> int {
    4 * ((width as u32) * (height as u32))
}

/// Keeps a PNG within the history's size limit.
pub fn limit_png_size(png: Vec<u8>) -> (r: Result<Vec<u8>, ClipboardImageError>)
    ensures
        png.len() <= MAX_IMAGE_PNG_BYTES ==> (r matches Ok(bytes) && bytes == png),
        png.len() > MAX_IMAGE_PNG_BYTES ==> r matches Err(ClipboardImageError::TooLarge),
{
    if png.len() > MAX_IMAGE_PNG_BYTES {
        Err(ClipboardImageError::TooLarge)
    } else {
        Ok(png)
    }
}

/// The PNG kept for a clipboard image: refused when the bytes are fewer than
/// the size needs (or the size overflows) and when the PNG is over the
/// limit. Bytes beyond what the size needs make the `image` crate panic, so
/// they are left out.
pub fn clipboard_image_png(width: usize, height: usize, rgba: Vec<u8>) -> (r: Result<Vec<u8>, ClipboardImageError>)
    requires
        rgba_len_needed(width, height) <= usize::MAX ==> rgba.len() <= rgba_len_needed(width, height),
    ensures
        r matches Err(ClipboardImageError::InvalidData) <==> (rgba_len_needed(width, height) > usize::MAX
            || rgba.len() < rgba_len_needed(width, height)),
        r matches Err(ClipboardImageError::EncodeFailed(_)) <==> (rgba.len() == rgba_len_needed(width, height)
            && (width as u32 == 0 || height as u32 == 0)),
        r matches Err(ClipboardImageError::TooLarge) <==> (rgba.len() == rgba_len_needed(width, height)
            && width as u32 > 0 && height as u32 > 0
            && png_encoding(width as u32, height as u32, rgba@).len() > MAX_IMAGE_PNG_BYTES),
        r is Ok <==> (rgba.len() == rgba_len_needed(width, height) && width as u32 > 0 && height as u32 > 0
            && png_encoding(width as u32, height as u32, rgba@).len() <= MAX_IMAGE_PNG_BYTES),
        r matches Ok(bytes) ==> bytes@ == png_encoding(width as u32, height as u32, rgba@),
{
    let w: u32 = #[verifier::truncate] (width as u32);
    let h: u32 = #[verifier::truncate] (height as u32);
    assert((w as u128) * (h as u128) <= 0xffff_ffff_ffff_ffffu128) by (nonlinear_arith)
        requires
            w <= 0xffff_ffffu32,
            h <= 0xffff_ffffu32,
    ;
    let needed: u128 = 4u128 * ((w as u128) * (h as u128));
    if needed > (usize::MAX as u128) || (rgba.len() as u128) < needed {
        return Err(ClipboardImageError::InvalidData);
    }
    match encode_png(w, h, rgba) {
        Ok(png) => limit_png_size(png),
        Err(message) => Err(ClipboardImageError::EncodeFailed(message)),
    }
}

/// The file names of an image's PNG and thumbnail: the start of the content
/// hash, then `.png` and `-thumb.png`.
pub fn image_file_names(hash: &str) -> (r: (String, String))
    ensures
        r.0@ == leading_chars(hash@, IMAGE_FILE_HASH_CHARS as nat) + ".png"@,
        r.1@ == leading_chars(hash@, IMAGE_FILE_HASH_CHARS as nat) + "-thumb.png"@,
{
    let h = chars_of(hash);
    let safe = leading_exec(&h, IMAGE_FILE_HASH_CHARS);
    let mut original = safe.clone();
    extend_str(&mut original, ".png");
    let mut thumbnail = safe;
    extend_str(&mut thumbnail, "-thumb.png");
    (string_of(&original), string_of(&thumbnail))
}

/// The character of the standard base64 alphabet for a six-bit value.
pub open spec fn base64_digit(v: int) -> char {
    if v < 26 {
        (65 + v) as char
    } else if v < 52 {
        (97 + v - 26) as char
    } else if v < 62 {
        (48 + v - 52) as char
    } else if v == 62 {
        '+'
    } else {
        '/'
    }
}

/// The standard base64 encoding (RFC 4648 alphabet, with `=` padding) of
/// `bytes`: four characters for each group of three bytes.
pub open spec fn base64_standard(bytes: Seq<u8>) -> Seq<char>
    decreases bytes.len(),
{
    if bytes.len() == 0 {
        Seq::empty()
    } else if bytes.len() == 1 {
        let a = bytes[0] as int;
        seq![base64_digit(a / 4), base64_digit((a % 4) * 16), '=', '=']
    } else if bytes.len() == 2 {
        let a = bytes[0] as int;
        let b = bytes[1] as int;
        seq![base64_digit(a / 4), base64_digit((a % 4) * 16 + b / 16), base64_digit((b % 16) * 4), '=']
    } else {
        let a = bytes[0] as int;
        let b = bytes[1] as int;
        let c = bytes[2] as int;
        seq![
            base64_digit(a / 4),
            base64_digit((a % 4) * 16 + b / 16),
            base64_digit((b % 16) * 4 + c / 64),
            base64_digit(c % 64),
        ] + base64_standard(bytes.skip(3))
    }
}

/// `base64::engine::general_purpose::STANDARD.encode`: the standard base64
/// text of `bytes`, with padding, as `base64_standard` spells it out.
#[verifier::external_body]
fn base64_encode(bytes: &[u8]) -> (r: String)
    ensures
        r@ == base64_standard(bytes@),
{
    <base64::engine::GeneralPurpose as base64::Engine>::encode(&base64::engine::general_purpose::STANDARD, bytes)
}

/// The data URL of a PNG given in base64.
pub fn png_data_url(encoded: &str) -> (r: String)
    ensures
        r@ == "data:image/png;base64,"@ + encoded@,
{
    let mut out: Vec<char> = Vec::new();
    extend_str(&mut out, "data:image/png;base64,");
    extend_str(&mut out, encoded);
    string_of(&out)
}

/// The data URL of a thumbnail PNG.
pub fn thumbnail_data_url(png: &[u8]) -> (r: String)
    ensures
        r@ == "data:image/png;base64,"@ + base64_standard(png@),
{
    let encoded = base64_encode(png);
    png_data_url(encoded.as_str())
}

/// The stored form of an image item: its size, the size of its PNG, the
/// paths of the PNG and the thumbnail, and the thumbnail as a data URL.
pub fn stored_image(
    width: usize,
    height: usize,
    png_len: usize,
    original_path: String,
    thumbnail_path: String,
    thumbnail_png: &[u8],
) -> (r: ClipboardHistoryImage)
    requires
        png_len <= u64::MAX,
    ensures
        r.width == width,
        r.height == height,
        r.byte_size == png_len,
        r.original_path == original_path,
        r.thumbnail_path == thumbnail_path,
        r.thumbnail_data_url matches Some(url) && url@ == "data:image/png;base64,"@ + base64_standard(thumbnail_png@),
{
    ClipboardHistoryImage {
        width,
        height,
        byte_size: png_len as u64,
        original_path,
        thumbnail_path,
        thumbnail_data_url: Some(thumbnail_data_url(thumbnail_png)),
    }
}

} // verus!
