//! The envelope: a header that says what is hidden in an image, at which bit
//! depth it is found, and how long it is.
//!
//! The header is the marker text `Morkmessage Hider` in ASCII, one byte for
//! the kind of secret, and the length of the payload as eight bytes, most
//! significant first. A hidden file has, behind the header, the length of
//! its name in the same form and then the name, before its contents.
use vstd::prelude::*;
use vstd::string::StringSliceAdditionalSpecFns;
use vstd::utf8::{decode_utf8, encode_utf8, encode_utf8_decode_utf8, encode_utf8_valid_utf8, valid_utf8};
use crate::bits::{bit8, byte_at, byte_bit, bytes_bits, lemma_byte_from_bits, window8};
use crate::error::SecretError;
use crate::image::image_coder::{
    capacity, carried_bits, carried_bytes, lemma_capacity_bits, lemma_write_then_read,
    lemma_capacity_monotonic, lemma_written_low_bits, slot_count, written_pixels, ImageCoder,
};
use crate::image::{channel, Image, ImageView};

verus! {

/// The length of the marker text.
pub const MARKER_LENGTH: usize = 17;

/// The length of the header: the marker, the kind, and the payload length.
pub const HEADER_LENGTH: usize = 26;

/// The marker text `Morkmessage Hider`, in ASCII.
pub open spec fn marker() -> Seq<u8> {
    seq![
        0x4Du8, 0x6Fu8, 0x72u8, 0x6Bu8, 0x6Du8, 0x65u8, 0x73u8, 0x73u8, 0x61u8, 0x67u8, 0x65u8, 0x20u8,
        0x48u8, 0x69u8, 0x64u8, 0x65u8, 0x72u8,
    ]
}

/// What kind of secret an image holds.
#[derive(Clone, Copy, Debug, PartialEq, Eq, Structural)]
pub enum SecretType {
    /// A text.
    String,
    /// A file with its name.
    File,
    /// Nothing that this library can recognise.
    NoSecret,
}

impl SecretType {
    /// The byte that stands for this kind in a header.
    pub open spec fn tag(self) -> u8 {
        match self {
            SecretType::String => 0,
            SecretType::File => 1,
            SecretType::NoSecret => 2,
        }
    }

    /// The kind that a header byte stands for.
    pub open spec fn of_tag(tag: u8) -> SecretType {
        if tag == 0 {
            SecretType::String
        } else if tag == 1 {
            SecretType::File
        } else {
            SecretType::NoSecret
        }
    }

    /// The byte that stands for this kind in a header.
    pub fn to_u8(self) -> (out: u8)
        ensures
            out == self.tag(),
    {
        match self {
            SecretType::String => 0,
            SecretType::File => 1,
            SecretType::NoSecret => 2,
        }
    }
}

impl From<u8> for SecretType {
    fn from(a: u8) -> (out: SecretType) {
        match a {
            0 => SecretType::String,
            1 => SecretType::File,
            _ => SecretType::NoSecret,
        }
    }
}

impl vstd::std_specs::convert::FromSpecImpl<u8> for SecretType {
    open spec fn obeys_from_spec() -> bool {
        true
    }

    open spec fn from_spec(a: u8) -> SecretType {
        SecretType::of_tag(a)
    }
}

/// What `get_secret_info` finds in an image.
#[derive(Clone, Copy, Debug)]
pub struct SecretInfo {
    /// The bit depth at which the secret is hidden, or 0 where there is none.
    pub num_bits: usize,
    /// The kind of secret.
    pub secret_type: SecretType,
    /// The length of the payload in bytes.
    pub secret_size: u64,
}

/// The eight bytes of `v`, most significant first.
pub open spec fn be_bytes(v: u64) -> Seq<u8> {
    seq![
        (v >> 56) as u8,
        ((v >> 48) & 0xFF) as u8,
        ((v >> 40) & 0xFF) as u8,
        ((v >> 32) & 0xFF) as u8,
        ((v >> 24) & 0xFF) as u8,
        ((v >> 16) & 0xFF) as u8,
        ((v >> 8) & 0xFF) as u8,
        (v & 0xFF) as u8,
    ]
}

/// The number whose eight bytes, most significant first, are `s[0]` to `s[7]`.
pub open spec fn be_value(s: Seq<u8>) -> u64 {
    (s[0] as u64) << 56 | (s[1] as u64) << 48 | (s[2] as u64) << 40 | (s[3] as u64) << 32 | (s[4] as u64)
        << 24 | (s[5] as u64) << 16 | (s[6] as u64) << 8 | (s[7] as u64)
}

/// The header for a secret of the given kind and payload length.
pub open spec fn header_bytes(secret_type: SecretType, size: u64) -> Seq<u8> {
    marker() + seq![secret_type.tag()] + be_bytes(size)
}

/// What a text is hidden as: the header, then the text.
pub open spec fn string_envelope(text: Seq<u8>) -> Seq<u8> {
    header_bytes(SecretType::String, text.len() as u64) + text
}

/// What a file is hidden as: the header, the length of its name, its name, its contents.
pub open spec fn file_envelope(name: Seq<u8>, content: Seq<u8>) -> Seq<u8> {
    header_bytes(SecretType::File, content.len() as u64) + be_bytes(name.len() as u64) + name + content
}

/// The first `n` bytes that an image carries at a bit depth (the alpha
/// channel is not used), with zeros where the image carries fewer.
pub open spec fn region(pixels: Seq<u32>, depth: nat, n: nat) -> Seq<u8> {
    Seq::new(
        n,
        |i: int|
            if i < capacity(pixels.len(), depth, false) {
                carried_bytes(pixels, depth, false)[i]
            } else {
                0u8
            },
    )
}

/// Whether the image carries the marker at a bit depth.
#[verifier::opaque]
pub open spec fn has_marker(pixels: Seq<u32>, depth: nat) -> bool {
    region(pixels, depth, HEADER_LENGTH as nat).take(MARKER_LENGTH as int) == marker()
}

/// The smallest bit depth from 1 to 4 at which the image carries the marker, or 0.
pub open spec fn found_depth(pixels: Seq<u32>) -> nat {
    if has_marker(pixels, 1) {
        1
    } else if has_marker(pixels, 2) {
        2
    } else if has_marker(pixels, 3) {
        3
    } else if has_marker(pixels, 4) {
        4
    } else {
        0
    }
}

/// What the image says of its secret: where the marker is found, the kind
/// and the length that follow it; where it is not, no secret at depth 0.
pub open spec fn secret_info(pixels: Seq<u32>) -> SecretInfo {
    let depth = found_depth(pixels);
    if depth == 0 {
        SecretInfo { num_bits: 0, secret_type: SecretType::NoSecret, secret_size: 0 }
    } else {
        let header = region(pixels, depth, HEADER_LENGTH as nat);
        SecretInfo {
            num_bits: depth as usize,
            secret_type: SecretType::of_tag(header[MARKER_LENGTH as int]),
            secret_size: be_value(header.subrange(MARKER_LENGTH + 1, HEADER_LENGTH as int)),
        }
    }
}

/// The smallest bit depth from 1 to 4 at which `len` bytes fit in an image
/// of `pixel_count` pixels, or 0 where they fit at none.
pub open spec fn min_depth(pixel_count: nat, len: nat) -> nat {
    if len <= capacity(pixel_count, 1, false) {
        1
    } else if len <= capacity(pixel_count, 2, false) {
        2
    } else if len <= capacity(pixel_count, 3, false) {
        3
    } else if len <= capacity(pixel_count, 4, false) {
        4
    } else {
        0
    }
}

/// The image after `data` is hidden in it at the smallest depth that fits.
pub open spec fn encoded(before: ImageView, data: Seq<u8>) -> ImageView {
    ImageView {
        pixels: written_pixels(
            before.pixels,
            min_depth(before.pixels.len(), data.len()),
            false,
            bytes_bits(data),
        ),
        ..before
    }
}

/// The eight bytes of `v`, most significant first, appended to `out`.
fn push_be(out: &mut Vec<u8>, v: u64)
    ensures
        final(out)@ == old(out)@ + be_bytes(v),
{
    out.push((v >> 56) as u8);
    out.push(((v >> 48) & 0xFF) as u8);
    out.push(((v >> 40) & 0xFF) as u8);
    out.push(((v >> 32) & 0xFF) as u8);
    out.push(((v >> 24) & 0xFF) as u8);
    out.push(((v >> 16) & 0xFF) as u8);
    out.push(((v >> 8) & 0xFF) as u8);
    out.push((v & 0xFF) as u8);
    assert(out@ =~= old(out)@ + be_bytes(v));
}

/// The number that the eight bytes from `at` on spell, most significant first.
fn read_be(bytes: &[u8], at: usize) -> (v: u64)
    requires
        at + 8 <= bytes@.len(),
    ensures
        v == be_value(bytes@.subrange(at as int, at + 8)),
{
    (bytes[at] as u64) << 56 | (bytes[at + 1] as u64) << 48 | (bytes[at + 2] as u64) << 40 | (bytes[at
        + 3] as u64) << 32 | (bytes[at + 4] as u64) << 24 | (bytes[at + 5] as u64) << 16 | (bytes[at
        + 6] as u64) << 8 | (bytes[at + 7] as u64)
}

/// The marker text, as bytes.
fn marker_bytes() -> (out: [u8; 17])
    ensures
        out@ == marker(),
{
    let out: [u8; 17] = [
        0x4D, 0x6F, 0x72, 0x6B, 0x6D, 0x65, 0x73, 0x73, 0x61, 0x67, 0x65, 0x20, 0x48, 0x69, 0x64, 0x65,
        0x72,
    ];
    assert(out@ =~= marker());
    out
}

/// The header for a secret of the given kind and payload length.
pub fn generate_header(secret_type: SecretType, bytes: usize) -> (header: Vec<u8>)
    ensures
        header@ == header_bytes(secret_type, bytes as u64),
        header@.len() == HEADER_LENGTH,
{
    let text = marker_bytes();
    let mut header: Vec<u8> = Vec::new();
    let mut i: usize = 0;
    while i < MARKER_LENGTH
        invariant
            i <= MARKER_LENGTH,
            text@ == marker(),
            header@ == marker().take(i as int),
        decreases MARKER_LENGTH - i,
    {
        header.push(text[i]);
        i += 1;
        assert(header@ =~= marker().take(i as int));
    }
    assert(marker().take(MARKER_LENGTH as int) =~= marker());
    header.push(secret_type.to_u8());
    push_be(&mut header, bytes as u64);
    header
}

/// Whether `bytes` begins with the marker text.
fn starts_with_marker(bytes: &[u8]) -> (found: bool)
    requires
        bytes@.len() >= MARKER_LENGTH,
    ensures
        found == (bytes@.take(MARKER_LENGTH as int) == marker()),
{
    let text = marker_bytes();
    let mut i: usize = 0;
    while i < MARKER_LENGTH
        invariant
            i <= MARKER_LENGTH <= bytes@.len(),
            text@ == marker(),
            forall|k: int| 0 <= k < i ==> bytes@[k] == marker()[k],
        decreases MARKER_LENGTH - i,
    {
        if bytes[i] != text[i] {
            assert(bytes@.take(MARKER_LENGTH as int)[i as int] != marker()[i as int]);
            return false;
        }
        i += 1;
    }
    assert(bytes@.take(MARKER_LENGTH as int) =~= marker());
    true
}

/// The bytes of `src` from `from` up to `to`.
fn copy_range(src: &[u8], from: usize, to: usize) -> (out: Vec<u8>)
    requires
        from <= to <= src@.len(),
    ensures
        out@ == src@.subrange(from as int, to as int),
{
    let mut out: Vec<u8> = Vec::new();
    let mut i: usize = from;
    while i < to
        invariant
            from <= i <= to <= src@.len(),
            out@ == src@.subrange(from as int, i as int),
        decreases to - i,
    {
        out.push(src[i]);
        i += 1;
        assert(out@ =~= src@.subrange(from as int, i as int));
    }
    out
}

/// `String::from_utf8` of std: the text that `bytes` spell in UTF-8, and
/// nothing where they are not valid UTF-8.
#[verifier::external_body]
fn string_from_utf8(bytes: Vec<u8>) -> (out: Option<String>)
    ensures
        out is Some <==> valid_utf8(bytes@),
        out matches Some(s) ==> s@ == decode_utf8(bytes@),
{
    String::from_utf8(bytes).ok()
}

/// Reads the first `len` bytes that the image carries at a bit depth into a
/// buffer of zeros.
fn read_region(img: &mut Image, num_bits: usize, len: usize) -> (out: Vec<u8>)
    requires
        old(img).wf(),
        1 <= num_bits <= 4,
    ensures
        *final(img) == *old(img),
        out@ == region(old(img)@.pixels, num_bits as nat, len as nat),
{
    let mut coder = ImageCoder::create();
    let _ = coder.num_bits(num_bits);
    let mut data: Vec<u8> = vec![0u8; len];
    let _ = coder.read(img, data.as_mut_slice());
    proof {
        lemma_capacity_bits(img@.pixels, num_bits as nat, false);
        assert(data@ =~= region(img@.pixels, num_bits as nat, len as nat));
    }
    data
}

/// Looks for a secret: tries the bit depths from 1 to 4 in turn and stops at
/// the first at which the image carries the marker. The image stays as it is.
pub fn get_secret_info(img: &mut Image) -> (info: SecretInfo)
    requires
        old(img).wf(),
    ensures
        *final(img) == *old(img),
        info == secret_info(old(img)@.pixels),
{
    let mut num_bits: usize = 1;
    while num_bits <= 4
        invariant
            1 <= num_bits <= 5,
            *img == *old(img),
            img.wf(),
            forall|d: nat| 1 <= d < num_bits ==> !has_marker(old(img)@.pixels, d),
        decreases 5 - num_bits,
    {
        let header = read_region(img, num_bits, HEADER_LENGTH);
        let found = starts_with_marker(header.as_slice());
        proof {
            reveal(has_marker);
            assert(found == has_marker(old(img)@.pixels, num_bits as nat));
        }
        if found {
            let secret_type = SecretType::from(header[MARKER_LENGTH]);
            let secret_size = read_be(header.as_slice(), MARKER_LENGTH + 1);
            proof {
                lemma_found_depth(old(img)@.pixels, num_bits as nat);
            }
            return SecretInfo { num_bits, secret_type, secret_size };
        }
        num_bits += 1;
    }
    proof {
        lemma_found_depth(old(img)@.pixels, 0);
    }
    SecretInfo { num_bits: 0, secret_type: SecretType::NoSecret, secret_size: 0 }
}

/// The depth that is found is the first at which the marker stands, and 0
/// where it stands at none.
proof fn lemma_found_depth(pixels: Seq<u32>, depth: nat)
    requires
        depth <= 4,
        depth != 0 ==> has_marker(pixels, depth),
        forall|d: nat| 1 <= d < (if depth == 0 { 5nat } else { depth }) ==> !has_marker(pixels, d),
    ensures
        found_depth(pixels) == depth,
{
    assert(1 < (if depth == 0 { 5nat } else { depth }) ==> !has_marker(pixels, 1));
    assert(2 < (if depth == 0 { 5nat } else { depth }) ==> !has_marker(pixels, 2));
    assert(3 < (if depth == 0 { 5nat } else { depth }) ==> !has_marker(pixels, 3));
    assert(4 < (if depth == 0 { 5nat } else { depth }) ==> !has_marker(pixels, 4));
}

/// Hides `data` at the smallest bit depth from 1 to 4 at which it fits.
/// Where it fits at none, the image stays as it is.
pub fn encode_data(img: &mut Image, data: &[u8]) -> (out: Result<(), SecretError>)
    requires
        old(img).wf(),
    ensures
        final(img).wf(),
        min_depth(old(img)@.pixels.len(), data@.len()) == 0 ==> out == Err::<(), SecretError>(
            SecretError::InsufficientCapacity,
        ) && *final(img) == *old(img),
        min_depth(old(img)@.pixels.len(), data@.len()) != 0 ==> out is Ok && final(img)@ == encoded(
            old(img)@,
            data@,
        ),
{
    let mut coder = ImageCoder::create();
    let mut num_bits: usize = 1;
    while num_bits <= 4
        invariant
            1 <= num_bits <= 5,
            *img == *old(img),
            img.wf(),
            !coder.uses_alpha(),
            forall|d: nat| 1 <= d < num_bits ==> data@.len() > capacity(old(img)@.pixels.len(), d, false),
        decreases 5 - num_bits,
    {
        let _ = coder.num_bits(num_bits);
        if coder.get_capacity(img) >= data.len() {
            return match coder.write(img, data) {
                Ok(_) => Ok(()),
                Err(e) => Err(e),
            };
        }
        num_bits += 1;
    }
    Err(SecretError::InsufficientCapacity)
}

/// Hides a text: its envelope is the header for a text and the text's bytes.
pub fn encode_string(img: &mut Image, str: &str) -> (out: Result<(), SecretError>)
    requires
        old(img).wf(),
    ensures
        final(img).wf(),
        min_depth(old(img)@.pixels.len(), string_envelope(str.spec_bytes()).len()) == 0 ==> out == Err::<
            (),
            SecretError,
        >(SecretError::InsufficientCapacity) && *final(img) == *old(img),
        min_depth(old(img)@.pixels.len(), string_envelope(str.spec_bytes()).len()) != 0 ==> out is Ok
            && final(img)@ == encoded(old(img)@, string_envelope(str.spec_bytes())),
{
    let text = str.as_bytes();
    if text.len() > usize::MAX - HEADER_LENGTH {
        proof {
            lemma_capacity_small(img@.pixels);
        }
        return Err(SecretError::InsufficientCapacity);
    }
    let mut data = generate_header(SecretType::String, text.len());
    data.extend_from_slice(text);
    assert(data@ =~= string_envelope(str.spec_bytes()));
    encode_data(img, data.as_slice())
}

/// Hides a file: its envelope is the header for a file, the length of the
/// file's name, the name, and the contents.
pub fn encode_file(img: &mut Image, filename: &str, contents: &[u8]) -> (out: Result<(), SecretError>)
    requires
        old(img).wf(),
    ensures
        final(img).wf(),
        min_depth(old(img)@.pixels.len(), file_envelope(filename.spec_bytes(), contents@).len()) == 0
            ==> out == Err::<(), SecretError>(SecretError::InsufficientCapacity) && *final(img) == *old(
            img,
        ),
        min_depth(old(img)@.pixels.len(), file_envelope(filename.spec_bytes(), contents@).len()) != 0
            ==> out is Ok && final(img)@ == encoded(
            old(img)@,
            file_envelope(filename.spec_bytes(), contents@),
        ),
{
    let name = filename.as_bytes();
    let limit: usize = usize::MAX - HEADER_LENGTH - 8;
    if name.len() > limit || contents.len() > limit - name.len() {
        proof {
            lemma_capacity_small(img@.pixels);
        }
        return Err(SecretError::InsufficientCapacity);
    }
    let mut data = generate_header(SecretType::File, contents.len());
    push_be(&mut data, name.len() as u64);
    data.extend_from_slice(name);
    data.extend_from_slice(contents);
    assert(data@ =~= file_envelope(filename.spec_bytes(), contents@));
    encode_data(img, data.as_slice())
}

/// No image carries as many bytes as a `usize` can count, less the room for the headers.
proof fn lemma_capacity_small(pixels: Seq<u32>)
    requires
        pixels.len() <= crate::image::max_pixels(),
    ensures
        forall|d: nat| 1 <= d <= 4 ==> #[trigger] capacity(pixels.len(), d, false) <= usize::MAX / 8,
{
    assert forall|d: nat| 1 <= d <= 4 implies #[trigger] capacity(pixels.len(), d, false) <= usize::MAX
        / 8 by {
        lemma_capacity_bits(pixels, d, false);
    }
}

/// The text hidden at bit depth `num_bits`, which is `len` bytes long: the
/// bytes that follow the header, read as UTF-8. The image stays as it is.
pub fn decode_string(img: &mut Image, len: usize, num_bits: usize) -> (out: Result<String, SecretError>)
    requires
        old(img).wf(),
        HEADER_LENGTH + len <= usize::MAX,
    ensures
        *final(img) == *old(img),
        !(1 <= num_bits <= 4) ==> (out matches Err(e) && e == SecretError::InvalidBitDepth),
        1 <= num_bits <= 4 && !valid_utf8(hidden_text(old(img)@.pixels, num_bits as nat, len as nat))
            ==> (out matches Err(e) && e == SecretError::PayloadDecodeError),
        1 <= num_bits <= 4 && valid_utf8(hidden_text(old(img)@.pixels, num_bits as nat, len as nat))
            ==> (out matches Ok(s) && s@ == decode_utf8(
            hidden_text(old(img)@.pixels, num_bits as nat, len as nat),
        )),
{
    if num_bits < 1 || num_bits > 4 {
        return Err(SecretError::InvalidBitDepth);
    }
    let data = read_region(img, num_bits, HEADER_LENGTH + len);
    let payload = copy_range(data.as_slice(), HEADER_LENGTH, HEADER_LENGTH + len);
    match string_from_utf8(payload) {
        Some(s) => Ok(s),
        None => Err(SecretError::PayloadDecodeError),
    }
}

/// The `len` bytes that follow the header at a bit depth.
pub open spec fn hidden_text(pixels: Seq<u32>, depth: nat, len: nat) -> Seq<u8> {
    region(pixels, depth, HEADER_LENGTH as nat + len).subrange(
        HEADER_LENGTH as int,
        HEADER_LENGTH as int + len,
    )
}

/// The length of the hidden file's name, as the image states it behind the header.
pub open spec fn hidden_name_len(pixels: Seq<u32>, depth: nat) -> u64 {
    be_value(region(pixels, depth, HEADER_LENGTH as nat + 8).subrange(HEADER_LENGTH as int, HEADER_LENGTH + 8))
}

/// The hidden file's name, as bytes, for contents of `len` bytes.
pub open spec fn hidden_name(pixels: Seq<u32>, depth: nat, len: nat) -> Seq<u8> {
    region(pixels, depth, HEADER_LENGTH as nat + 8 + hidden_name_len(pixels, depth) as nat + len).subrange(
        HEADER_LENGTH + 8,
        HEADER_LENGTH + 8 + hidden_name_len(pixels, depth),
    )
}

/// The hidden file's contents, `len` bytes long.
pub open spec fn hidden_content(pixels: Seq<u32>, depth: nat, len: nat) -> Seq<u8> {
    region(pixels, depth, HEADER_LENGTH as nat + 8 + hidden_name_len(pixels, depth) as nat + len).subrange(
        HEADER_LENGTH + 8 + hidden_name_len(pixels, depth),
        HEADER_LENGTH + 8 + hidden_name_len(pixels, depth) + len,
    )
}

/// The file hidden at bit depth `num_bits`: fills `buf`, which has the
/// length of the contents, and returns the file's name. Where the name and
/// the contents are longer together than a buffer can be, or the name is no
/// UTF-8, `buf` stays as it is. The image stays as it is.
pub fn decode_file(img: &mut Image, buf: &mut [u8], num_bits: usize) -> (out: Result<
    String,
    SecretError,
>)
    requires
        old(img).wf(),
    ensures
        *final(img) == *old(img),
        final(buf)@.len() == old(buf)@.len(),
        !(1 <= num_bits <= 4) ==> final(buf)@ == old(buf)@ && (out matches Err(e) && e == SecretError::InvalidBitDepth),
        1 <= num_bits <= 4 && (HEADER_LENGTH + 8 + hidden_name_len(old(img)@.pixels, num_bits as nat)
            + old(buf)@.len() > usize::MAX || !valid_utf8(
            hidden_name(old(img)@.pixels, num_bits as nat, old(buf)@.len()),
        )) ==> final(buf)@ == old(buf)@ && (out matches Err(e) && e == SecretError::PayloadDecodeError),
        1 <= num_bits <= 4 && HEADER_LENGTH + 8 + hidden_name_len(old(img)@.pixels, num_bits as nat)
            + old(buf)@.len() <= usize::MAX && valid_utf8(
            hidden_name(old(img)@.pixels, num_bits as nat, old(buf)@.len()),
        ) ==> final(buf)@ == hidden_content(old(img)@.pixels, num_bits as nat, old(buf)@.len())
            && (out matches Ok(s) && s@ == decode_utf8(
            hidden_name(old(img)@.pixels, num_bits as nat, old(buf)@.len()),
        )),
{
    if num_bits < 1 || num_bits > 4 {
        return Err(SecretError::InvalidBitDepth);
    }
    let front = read_region(img, num_bits, HEADER_LENGTH + 8);
    let name_len: u64 = read_be(front.as_slice(), HEADER_LENGTH);
    let fixed: usize = HEADER_LENGTH + 8;
    if buf.len() > usize::MAX - fixed || name_len > (usize::MAX - fixed - buf.len()) as u64 {
        return Err(SecretError::PayloadDecodeError);
    }
    let f_len: usize = name_len as usize;
    let data = read_region(img, num_bits, fixed + f_len + buf.len());
    let name = copy_range(data.as_slice(), fixed, fixed + f_len);
    match string_from_utf8(name) {
        Some(s) => {
            let mut i: usize = 0;
            let count: usize = buf.len();
            while i < count
                invariant
                    i <= count == buf@.len(),
                    buf@.len() == old(buf)@.len(),
                    data@.len() == fixed + f_len + count,
                    fixed + f_len + count <= usize::MAX,
                    forall|k: int| 0 <= k < i ==> buf@[k] == data@[fixed + f_len + k],
                decreases count - i,
            {
                buf[i] = data[fixed + f_len + i];
                i += 1;
            }
            assert(buf@ =~= hidden_content(old(img)@.pixels, num_bits as nat, old(buf)@.len()));
            Ok(s)
        },
        None => Err(SecretError::PayloadDecodeError),
    }
}

/// The number of bytes that the image carries at a bit depth. The image stays as it is.
pub fn get_img_capacity(img: &mut Image, num_bits: usize) -> (out: Result<usize, SecretError>)
    requires
        old(img).wf(),
    ensures
        *final(img) == *old(img),
        1 <= num_bits <= 4 ==> out == Ok::<usize, SecretError>(
            capacity(old(img)@.pixels.len(), num_bits as nat, false) as usize,
        ),
        !(1 <= num_bits <= 4) ==> out == Err::<usize, SecretError>(SecretError::InvalidBitDepth),
{
    let mut coder = ImageCoder::create();
    match coder.num_bits(num_bits) {
        Ok(()) => Ok(coder.get_capacity(img)),
        Err(e) => Err(e),
    }
}

proof fn lemma_be_bits(v: u64)
    by (bit_vector)
    ensures
        (((v >> 56) as u8) as u64) << 56 | ((((v >> 48) & 0xFF) as u8) as u64) << 48 | ((((v >> 40) & 0xFF) as u8) as u64)
            << 40 | ((((v >> 32) & 0xFF) as u8) as u64) << 32 | ((((v >> 24) & 0xFF) as u8) as u64) << 24 | ((((v
            >> 16) & 0xFF) as u8) as u64) << 16 | ((((v >> 8) & 0xFF) as u8) as u64) << 8 | (((v & 0xFF) as u8) as u64)
            == v,
{
}

/// Eight bytes spell the number that they were made from.
pub proof fn lemma_be_round_trip(v: u64)
    ensures
        be_value(be_bytes(v)) == v,
{
    lemma_be_bits(v);
}

proof fn lemma_marker_bits()
    by (bit_vector)
    ensures
        !bit8(0x4Du8, 0),
        bit8(0x4Du8, 1),
        !bit8(0x4Du8, 3),
        bit8(0x4Du8, 7),
        bit8(0x6Fu8, 7),
        !bit8(0x72u8, 7),
        !bit8(0x00u8, 1),
{
}

/// What is read at the depth of writing begins with what was written.
pub proof fn lemma_region_of_encoded(pixels: Seq<u32>, data: Seq<u8>, n: nat)
    requires
        min_depth(pixels.len(), data.len()) != 0,
        n <= data.len(),
    ensures
        region(
            written_pixels(pixels, min_depth(pixels.len(), data.len()), false, bytes_bits(data)),
            min_depth(pixels.len(), data.len()),
            n,
        ) == data.take(n as int),
{
    let depth = min_depth(pixels.len(), data.len());
    let after = written_pixels(pixels, depth, false, bytes_bits(data));
    lemma_write_then_read(pixels, depth, false, data);
    let carried = carried_bytes(after, depth, false);
    assert forall|i: int| 0 <= i < n implies region(after, depth, n)[i] == data[i] by {
        assert(carried.take(data.len() as int)[i] == data[i]);
    }
    assert(region(after, depth, n) =~= data.take(n as int));
}

/// An image written at one bit depth with data that begins as the marker
/// does carries no marker at any smaller depth.
proof fn lemma_no_marker_below(pixels: Seq<u32>, data: Seq<u8>, depth: nat, low: nat)
    requires
        1 <= low < depth <= 4,
        4 <= data.len() <= capacity(pixels.len(), depth, false),
        data[0] == 0x4Du8,
        data[1] == 0x6Fu8,
        data[2] == 0x72u8,
    ensures
        !has_marker(written_pixels(pixels, depth, false, bytes_bits(data)), low),
{
    reveal(has_marker);
    let bits = bytes_bits(data);
    let after = written_pixels(pixels, depth, false, bits);
    let got = region(after, low, HEADER_LENGTH as nat);
    lemma_marker_bits();
    lemma_capacity_bits(after, low, false);
    lemma_capacity_bits(pixels, depth, false);
    assert(marker()[0] == 0x4Du8);
    if capacity(after.len(), low, false) == 0 {
        assert(got.take(MARKER_LENGTH as int)[0] == 0u8);
    } else {
        let stream = carried_bits(after, low, false);
        let first = byte_at(stream, 0);
        lemma_byte_from_bits(window8(stream, 0));
        assert(got.take(MARKER_LENGTH as int)[0] == first);
        // one bit of the first byte that differs from the marker's
        if depth == 2 {
            lemma_written_low_bits(pixels, depth, false, bits, 0, low, 0);
            assert(stream[0] == bits[1]);
            assert(byte_bit(first, 0) == window8(stream, 0)[0]);
            assert(bits[1] == byte_bit(data[0], 1));
        } else if depth == 3 && low == 1 {
            lemma_written_low_bits(pixels, depth, false, bits, 7, low, 0);
            assert(stream[7] == bits[23]);
            assert(byte_bit(first, 7) == window8(stream, 0)[7]);
            assert(bits[23] == byte_bit(data[2], 7));
        } else if depth == 3 {
            lemma_written_low_bits(pixels, depth, false, bits, 0, low, 0);
            assert(stream[0] == bits[1]);
            assert(byte_bit(first, 0) == window8(stream, 0)[0]);
            assert(bits[1] == byte_bit(data[0], 1));
        } else if low == 1 {
            lemma_written_low_bits(pixels, depth, false, bits, 3, low, 0);
            assert(stream[3] == bits[15]);
            assert(byte_bit(first, 3) == window8(stream, 0)[3]);
            assert(bits[15] == byte_bit(data[1], 7));
        } else if low == 2 {
            lemma_written_low_bits(pixels, depth, false, bits, 0, low, 1);
            assert(stream[1] == bits[3]);
            assert(byte_bit(first, 1) == window8(stream, 0)[1]);
            assert(bits[3] == byte_bit(data[0], 3));
        } else {
            lemma_written_low_bits(pixels, depth, false, bits, 0, low, 0);
            assert(stream[0] == bits[1]);
            assert(byte_bit(first, 0) == window8(stream, 0)[0]);
            assert(bits[1] == byte_bit(data[0], 1));
        }
        assert(first != 0x4Du8);
    }
}

/// The parts of a payload that begins with a header.
proof fn lemma_header_parts(secret_type: SecretType, size: u64, rest: Seq<u8>)
    ensures
        header_bytes(secret_type, size).len() == HEADER_LENGTH,
        (header_bytes(secret_type, size) + rest).len() == HEADER_LENGTH + rest.len(),
        (header_bytes(secret_type, size) + rest).take(HEADER_LENGTH as int) == header_bytes(
            secret_type,
            size,
        ),
        (header_bytes(secret_type, size) + rest)[0] == 0x4Du8,
        (header_bytes(secret_type, size) + rest)[1] == 0x6Fu8,
        (header_bytes(secret_type, size) + rest)[2] == 0x72u8,
        header_bytes(secret_type, size).take(MARKER_LENGTH as int) == marker(),
        header_bytes(secret_type, size)[MARKER_LENGTH as int] == secret_type.tag(),
        header_bytes(secret_type, size).subrange(MARKER_LENGTH + 1, HEADER_LENGTH as int) == be_bytes(
            size,
        ),
{
    let header = header_bytes(secret_type, size);
    assert(marker().len() == MARKER_LENGTH);
    assert(be_bytes(size).len() == 8);
    assert((header + rest).take(HEADER_LENGTH as int) =~= header);
    assert(header.take(MARKER_LENGTH as int) =~= marker());
    assert(header.subrange(MARKER_LENGTH + 1, HEADER_LENGTH as int) =~= be_bytes(size));
    assert(marker()[0] == 0x4Du8 && marker()[1] == 0x6Fu8 && marker()[2] == 0x72u8);
}

/// Where the header stands at a depth and no marker at a smaller one, the
/// header's depth, kind and length are what is found.
proof fn lemma_info_of_header(pixels: Seq<u32>, depth: nat, secret_type: SecretType, size: u64)
    requires
        1 <= depth <= 4,
        region(pixels, depth, HEADER_LENGTH as nat) == header_bytes(secret_type, size),
        forall|d: nat| 1 <= d < depth ==> !has_marker(pixels, d),
    ensures
        secret_info(pixels) == (SecretInfo { num_bits: depth as usize, secret_type, secret_size: size }),
{
    lemma_header_parts(secret_type, size, Seq::<u8>::empty());
    lemma_be_round_trip(size);
    assert(has_marker(pixels, depth)) by {
        reveal(has_marker);
    }
    lemma_found_depth(pixels, depth);
}

/// After a payload with a header is hidden, the header is found again:
/// the depth is the smallest at which the whole fits, and kind and length
/// are those of the header.
pub proof fn lemma_envelope_is_found(before: ImageView, secret_type: SecretType, size: u64, rest: Seq<u8>)
    requires
        min_depth(before.pixels.len(), (header_bytes(secret_type, size) + rest).len()) != 0,
    ensures
        secret_info(encoded(before, header_bytes(secret_type, size) + rest).pixels) == (SecretInfo {
            num_bits: min_depth(
                before.pixels.len(),
                (header_bytes(secret_type, size) + rest).len(),
            ) as usize,
            secret_type,
            secret_size: size,
        }),
{
    let data = header_bytes(secret_type, size) + rest;
    let depth = min_depth(before.pixels.len(), data.len());
    let after = encoded(before, data).pixels;
    lemma_header_parts(secret_type, size, rest);
    lemma_region_of_encoded(before.pixels, data, HEADER_LENGTH as nat);
    assert forall|d: nat| 1 <= d < depth implies !has_marker(after, d) by {
        lemma_no_marker_below(before.pixels, data, depth, d);
    }
    lemma_info_of_header(after, depth, secret_type, size);
}

/// A text that is hidden is found and read again: `encode_string`, then
/// `get_secret_info`, then `decode_string` with what was found.
pub proof fn lemma_string_round_trip(before: ImageView, text: Seq<char>)
    requires
        encode_utf8(text).len() <= u64::MAX,
        min_depth(before.pixels.len(), string_envelope(encode_utf8(text)).len()) != 0,
    ensures
        secret_info(encoded(before, string_envelope(encode_utf8(text))).pixels) == (SecretInfo {
            num_bits: min_depth(before.pixels.len(), string_envelope(encode_utf8(text)).len()) as usize,
            secret_type: SecretType::String,
            secret_size: encode_utf8(text).len() as u64,
        }),
        valid_utf8(
            hidden_text(
                encoded(before, string_envelope(encode_utf8(text))).pixels,
                min_depth(before.pixels.len(), string_envelope(encode_utf8(text)).len()),
                encode_utf8(text).len(),
            ),
        ),
        decode_utf8(
            hidden_text(
                encoded(before, string_envelope(encode_utf8(text))).pixels,
                min_depth(before.pixels.len(), string_envelope(encode_utf8(text)).len()),
                encode_utf8(text).len(),
            ),
        ) == text,
{
    let bytes = encode_utf8(text);
    lemma_envelope_is_found(before, SecretType::String, bytes.len() as u64, bytes);
    lemma_hidden_text(before.pixels, bytes);
    encode_utf8_valid_utf8(text);
    encode_utf8_decode_utf8(text);
}

/// The text that is found behind the header is the text that was hidden.
proof fn lemma_hidden_text(pixels: Seq<u32>, text: Seq<u8>)
    requires
        min_depth(pixels.len(), string_envelope(text).len()) != 0,
    ensures
        hidden_text(
            written_pixels(
                pixels,
                min_depth(pixels.len(), string_envelope(text).len()),
                false,
                bytes_bits(string_envelope(text)),
            ),
            min_depth(pixels.len(), string_envelope(text).len()),
            text.len(),
        ) == text,
{
    let data = string_envelope(text);
    let depth = min_depth(pixels.len(), data.len());
    let after = written_pixels(pixels, depth, false, bytes_bits(data));
    lemma_header_parts(SecretType::String, text.len() as u64, text);
    lemma_region_of_encoded(pixels, data, data.len());
    assert(data.take(data.len() as int) =~= data);
    assert(data.subrange(HEADER_LENGTH as int, HEADER_LENGTH + text.len()) =~= text);
}

/// A file that is hidden is found and read again: `encode_file`, then
/// `get_secret_info`, then `decode_file` with a buffer of the length found.
pub proof fn lemma_file_round_trip(before: ImageView, name: Seq<char>, content: Seq<u8>)
    requires
        encode_utf8(name).len() <= u64::MAX,
        content.len() <= u64::MAX,
        min_depth(before.pixels.len(), file_envelope(encode_utf8(name), content).len()) != 0,
    ensures
        secret_info(encoded(before, file_envelope(encode_utf8(name), content)).pixels) == (SecretInfo {
            num_bits: min_depth(
                before.pixels.len(),
                file_envelope(encode_utf8(name), content).len(),
            ) as usize,
            secret_type: SecretType::File,
            secret_size: content.len() as u64,
        }),
        hidden_name_len(
            encoded(before, file_envelope(encode_utf8(name), content)).pixels,
            min_depth(before.pixels.len(), file_envelope(encode_utf8(name), content).len()),
        ) == encode_utf8(name).len(),
        hidden_content(
            encoded(before, file_envelope(encode_utf8(name), content)).pixels,
            min_depth(before.pixels.len(), file_envelope(encode_utf8(name), content).len()),
            content.len(),
        ) == content,
        valid_utf8(
            hidden_name(
                encoded(before, file_envelope(encode_utf8(name), content)).pixels,
                min_depth(before.pixels.len(), file_envelope(encode_utf8(name), content).len()),
                content.len(),
            ),
        ),
        decode_utf8(
            hidden_name(
                encoded(before, file_envelope(encode_utf8(name), content)).pixels,
                min_depth(before.pixels.len(), file_envelope(encode_utf8(name), content).len()),
                content.len(),
            ),
        ) == name,
{
    let bytes = encode_utf8(name);
    let rest = be_bytes(bytes.len() as u64) + bytes + content;
    lemma_file_envelope_split(bytes, content);
    lemma_envelope_is_found(before, SecretType::File, content.len() as u64, rest);
    lemma_hidden_file(before.pixels, bytes, content);
    encode_utf8_valid_utf8(name);
    encode_utf8_decode_utf8(name);
}

/// A file's envelope is a header and what follows it.
proof fn lemma_file_envelope_split(name: Seq<u8>, content: Seq<u8>)
    ensures
        file_envelope(name, content) == header_bytes(SecretType::File, content.len() as u64) + (be_bytes(
            name.len() as u64,
        ) + name + content),
{
    let header = header_bytes(SecretType::File, content.len() as u64);
    let length = be_bytes(name.len() as u64);
    assert(((header + length) + name) + content =~= header + ((length + name) + content));
}

/// The name and the contents that are found behind the header are those
/// that were hidden.
proof fn lemma_hidden_file(pixels: Seq<u32>, name: Seq<u8>, content: Seq<u8>)
    requires
        name.len() <= u64::MAX,
        min_depth(pixels.len(), file_envelope(name, content).len()) != 0,
    ensures
        hidden_name_len(
            written_pixels(
                pixels,
                min_depth(pixels.len(), file_envelope(name, content).len()),
                false,
                bytes_bits(file_envelope(name, content)),
            ),
            min_depth(pixels.len(), file_envelope(name, content).len()),
        ) == name.len(),
        hidden_name(
            written_pixels(
                pixels,
                min_depth(pixels.len(), file_envelope(name, content).len()),
                false,
                bytes_bits(file_envelope(name, content)),
            ),
            min_depth(pixels.len(), file_envelope(name, content).len()),
            content.len(),
        ) == name,
        hidden_content(
            written_pixels(
                pixels,
                min_depth(pixels.len(), file_envelope(name, content).len()),
                false,
                bytes_bits(file_envelope(name, content)),
            ),
            min_depth(pixels.len(), file_envelope(name, content).len()),
            content.len(),
        ) == content,
{
    let data = file_envelope(name, content);
    let depth = min_depth(pixels.len(), data.len());
    let after = written_pixels(pixels, depth, false, bytes_bits(data));
    let fixed = HEADER_LENGTH + 8;
    lemma_header_parts(SecretType::File, content.len() as u64, Seq::<u8>::empty());
    assert(be_bytes(name.len() as u64).len() == 8);
    assert(data.len() == fixed + name.len() + content.len());
    lemma_region_of_encoded(pixels, data, fixed as nat);
    lemma_region_of_encoded(pixels, data, data.len());
    assert(data.take(data.len() as int) =~= data);
    assert(data.take(fixed).subrange(HEADER_LENGTH as int, fixed) =~= be_bytes(name.len() as u64));
    lemma_be_round_trip(name.len() as u64);
    assert(hidden_name_len(after, depth) == name.len());
    assert(data.subrange(fixed, fixed + name.len()) =~= name);
    assert(data.subrange(fixed + name.len(), fixed + name.len() + content.len()) =~= content);
}

/// The depth chosen for a payload is the smallest at which it fits: it fits
/// at some depth exactly when it fits at depth 4, it fits at the depth
/// chosen, and it fits at no smaller one.
pub proof fn lemma_min_depth_is_smallest(pixel_count: nat, len: nat)
    ensures
        min_depth(pixel_count, len) != 0 <==> len <= capacity(pixel_count, 4, false),
        min_depth(pixel_count, len) != 0 ==> 1 <= min_depth(pixel_count, len) <= 4 && len <= capacity(
            pixel_count,
            min_depth(pixel_count, len),
            false,
        ),
        forall|d: nat|
            1 <= d <= 4 && len <= #[trigger] capacity(pixel_count, d, false) ==> 1 <= min_depth(
                pixel_count,
                len,
            ) <= d,
{
    lemma_capacity_monotonic(pixel_count, 1, false);
    lemma_capacity_monotonic(pixel_count, 2, false);
    lemma_capacity_monotonic(pixel_count, 3, false);
}

proof fn lemma_zero_pixel()
    by (bit_vector)
    ensures
        (0u32 & 0xFF) as u8 == 0u8,
        ((0u32 >> 8) & 0xFF) as u8 == 0u8,
        ((0u32 >> 16) & 0xFF) as u8 == 0u8,
        (0u32 >> 24) as u8 == 0u8,
        !bit8(0u8, 5),
        !bit8(0u8, 6),
        !bit8(0u8, 7),
{
}

/// An image whose channels are all zero carries no marker at any depth.
proof fn lemma_blank_has_no_marker(count: nat, depth: nat)
    requires
        1 <= depth <= 4,
    ensures
        !has_marker(Seq::new(count, |i: int| 0u32), depth),
{
    reveal(has_marker);
    let pixels = Seq::new(count, |i: int| 0u32);
    let got = region(pixels, depth, HEADER_LENGTH as nat);
    lemma_marker_bits();
    lemma_zero_pixel();
    lemma_capacity_bits(pixels, depth, false);
    assert(marker()[0] == 0x4Du8);
    if capacity(pixels.len(), depth, false) == 0 {
        assert(got.take(MARKER_LENGTH as int)[0] == 0u8);
    } else {
        let stream = carried_bits(pixels, depth, false);
        let first = byte_at(stream, 0);
        lemma_byte_from_bits(window8(stream, 0));
        assert(got.take(MARKER_LENGTH as int)[0] == first);
        assert(byte_bit(first, 1) == window8(stream, 0)[1]);
        assert(count >= 1);
        assert(pixels[0] == 0u32);
        assert(forall|c: int| 0 <= c < 4 ==> channel(0u32, c) == 0u8);
        if depth == 1 {
            assert(1int / 1 == 1 && 1int % 1 == 0);
            assert(stream[1] == byte_bit(channel(pixels[0], 1), 7));
        } else if depth == 2 {
            assert(1int / 2 == 0 && 1int % 2 == 1);
            assert(stream[1] == byte_bit(channel(pixels[0], 0), 7));
        } else if depth == 3 {
            assert(1int / 3 == 0 && 1int % 3 == 1);
            assert(stream[1] == byte_bit(channel(pixels[0], 0), 6));
        } else {
            assert(1int / 4 == 0 && 1int % 4 == 1);
            assert(stream[1] == byte_bit(channel(pixels[0], 0), 5));
        }
        assert(first != 0x4Du8);
    }
}

/// An image whose channels are all zero holds no secret: `get_secret_info`
/// reports none, at depth 0.
pub proof fn lemma_blank_image_has_no_secret(count: nat)
    ensures
        secret_info(Seq::new(count, |i: int| 0u32)) == (SecretInfo {
            num_bits: 0,
            secret_type: SecretType::NoSecret,
            secret_size: 0,
        }),
{
    lemma_blank_has_no_marker(count, 1);
    lemma_blank_has_no_marker(count, 2);
    lemma_blank_has_no_marker(count, 3);
    lemma_blank_has_no_marker(count, 4);
}

} // verus!
