//! The EXIF orientation of an image file, read from its bytes.
use vstd::prelude::*;

verus! {

/// The mark before the TIFF block of a JPEG: "Exif" and two zero bytes.
pub open spec fn exif_mark() -> Seq<u8> {
    seq![69u8, 120, 105, 102, 0, 0]
}

/// Whether `d` holds `p` from place `at` on.
pub open spec fn bytes_at(d: Seq<u8>, at: int, p: Seq<u8>) -> bool {
    0 <= at && at + p.len() <= d.len() && d.subrange(at, at + p.len()) == p
}

/// The big-endian 16-bit number at `i`.
pub open spec fn be16(d: Seq<u8>, i: int) -> int {
    d[i] * 256 + d[i + 1]
}

/// The big-endian 32-bit number at `i`.
pub open spec fn be32(d: Seq<u8>, i: int) -> int {
    be16(d, i) * 65536 + be16(d, i + 2)
}

/// The little-endian 16-bit number at `i`.
pub open spec fn le16(d: Seq<u8>, i: int) -> int {
    d[i + 1] * 256 + d[i]
}

/// The little-endian 32-bit number at `i`.
pub open spec fn le32(d: Seq<u8>, i: int) -> int {
    le16(d, i + 2) * 65536 + le16(d, i)
}

/// The TIFF block of the first "Exif" segment of a JPEG, among the segments
/// from `i` on. Fill bytes and markers without a length are passed over; the
/// search ends at the end of the image and at the start of its data, and at
/// whatever is not a whole segment.
pub open spec fn jpeg_block(d: Seq<u8>, i: int) -> Option<Seq<u8>>
    decreases d.len() - i,
{
    if i < 0 || i + 1 >= d.len() || d[i] != 0xFF {
        None
    } else {
        let marker = d[i + 1];
        if marker == 0xFF {
            jpeg_block(d, i + 1)
        } else if marker == 0x01 || 0xD0 <= marker <= 0xD8 {
            jpeg_block(d, i + 2)
        } else if marker == 0xD9 || marker == 0xDA || i + 3 >= d.len() {
            None
        } else {
            let len = be16(d, i + 2);
            if len < 2 || i + 2 + len > d.len() {
                None
            } else if marker == 0xE1 && len >= 8 && bytes_at(d, i + 4, exif_mark()) {
                Some(d.subrange(i + 10, i + 2 + len))
            } else {
                jpeg_block(d, i + 2 + len)
            }
        }
    }
}

/// The body of the first `eXIf` chunk of a PNG, among the chunks from `i` on
/// and before the one that ends the image.
pub open spec fn png_block(d: Seq<u8>, i: int) -> Option<Seq<u8>>
    decreases d.len() + 4 - i,
{
    if i < 0 || i + 8 > d.len() || i + 8 + be32(d, i) > d.len() || be32(d, i) < 0 {
        None
    } else if d.subrange(i + 4, i + 8) == seq![101u8, 88, 73, 102] {
        Some(d.subrange(i + 8, i + 8 + be32(d, i)))
    } else if d.subrange(i + 4, i + 8) == seq![73u8, 69, 78, 68] {
        None
    } else {
        png_block(d, i + 12 + be32(d, i))
    }
}

/// The body of the first `EXIF` chunk of a WebP, among the chunks from `i` on,
/// without the mark that some writers keep at its front. A chunk of odd length
/// is followed by one byte of padding.
pub open spec fn webp_block(d: Seq<u8>, i: int) -> Option<Seq<u8>>
    decreases d.len() + 1 - i,
{
    if i < 0 || i + 8 > d.len() || i + 8 + le32(d, i + 4) > d.len() || le32(d, i + 4) < 0 {
        None
    } else if d.subrange(i, i + 4) == seq![69u8, 88, 73, 70] {
        let body = d.subrange(i + 8, i + 8 + le32(d, i + 4));
        if bytes_at(body, 0, exif_mark()) {
            Some(body.skip(6))
        } else {
            Some(body)
        }
    } else {
        webp_block(d, i + 8 + le32(d, i + 4) + le32(d, i + 4) % 2)
    }
}

/// The 16-bit number at `i`, in either byte order.
pub open spec fn num16(d: Seq<u8>, little: bool, i: int) -> int {
    if little {
        le16(d, i)
    } else {
        be16(d, i)
    }
}

/// The 32-bit number at `i`, in either byte order.
pub open spec fn num32(d: Seq<u8>, little: bool, i: int) -> int {
    if little {
        le32(d, i)
    } else {
        be32(d, i)
    }
}

/// An orientation, where the number is one.
pub open spec fn as_orientation(value: int) -> Option<u8> {
    if 1 <= value <= 8 {
        Some(value as u8)
    } else {
        None
    }
}

/// The value of the first orientation entry (tag 0x0112) of the directory at
/// `ifd`, among its entries from `k` up to `n`. It is a SHORT or a LONG; all
/// entries up to it must lie within the block.
pub open spec fn entry_orientation(t: Seq<u8>, little: bool, ifd: int, k: int, n: int) -> Option<u8>
    decreases n - k,
{
    let entry = ifd + 2 + k * 12;
    if k >= n || entry + 2 > t.len() {
        None
    } else if num16(t, little, entry) != 0x0112 {
        entry_orientation(t, little, ifd, k + 1, n)
    } else if entry + 4 > t.len() {
        None
    } else if num16(t, little, entry + 2) == 3 && entry + 10 <= t.len() {
        as_orientation(num16(t, little, entry + 8))
    } else if num16(t, little, entry + 2) == 4 && entry + 12 <= t.len() {
        as_orientation(num32(t, little, entry + 8))
    } else {
        None
    }
}

/// Whether a TIFF block is little-endian, or that it is no TIFF block.
pub open spec fn byte_order(t: Seq<u8>) -> Option<bool> {
    if bytes_at(t, 0, seq![73u8, 73, 42, 0]) {
        Some(true)
    } else if bytes_at(t, 0, seq![77u8, 77, 0, 42]) {
        Some(false)
    } else {
        None
    }
}

/// The orientation in the first directory of a TIFF block.
pub open spec fn block_orientation(t: Seq<u8>) -> Option<u8> {
    match byte_order(t) {
        None => None,
        Some(little) => if t.len() < 8 || num32(t, little, 4) + 2 > t.len() {
            None
        } else {
            let ifd = num32(t, little, 4);
            entry_orientation(t, little, ifd, 0, num16(t, little, ifd))
        },
    }
}

/// The orientation in a block that may be missing.
pub open spec fn orientation_in(block: Option<Seq<u8>>) -> Option<u8> {
    match block {
        None => None,
        Some(t) => block_orientation(t),
    }
}

/// The eight bytes that a PNG begins with.
pub open spec fn png_signature() -> Seq<u8> {
    seq![0x89u8, 80, 78, 71, 13, 10, 26, 10]
}

/// The orientation that an image file states: the one of its EXIF block where
/// it is a JPEG, a PNG or a WebP, and of the file itself where it is none of
/// these.
pub open spec fn orientation_of(d: Seq<u8>) -> Option<u8> {
    if bytes_at(d, 0, seq![0xFFu8, 0xD8]) {
        orientation_in(jpeg_block(d, 2))
    } else if bytes_at(d, 0, png_signature()) {
        orientation_in(png_block(d, 8))
    } else if bytes_at(d, 0, seq![82u8, 73, 70, 70]) && bytes_at(d, 8, seq![87u8, 69, 66, 80]) {
        orientation_in(webp_block(d, 12))
    } else {
        block_orientation(d)
    }
}

/// What a slice that may be missing holds.
pub open spec fn contents(r: Option<&[u8]>) -> Option<Seq<u8>> {
    match r {
        None => None,
        Some(s) => Some(s@),
    }
}

/// Whether `d` holds `p` from place `at` on.
fn is_at(d: &[u8], at: usize, p: &[u8]) -> (r: bool)
    ensures
        r == bytes_at(d@, at as int, p@),
{
    let n: usize = d.len();
    if at > n || n - at < p.len() {
        return false;
    }
    let mut i: usize = 0;
    while i < p.len()
        invariant
            n == d@.len(),
            at + p@.len() <= n,
            0 <= i <= p@.len(),
            forall|j: int| 0 <= j < i ==> d@[at + j] == p@[j],
        decreases p@.len() - i,
    {
        if d[at + i] != p[i] {
            assert(d@.subrange(at as int, at + p@.len())[i as int] != p@[i as int]);
            return false;
        }
        i = i + 1;
    }
    assert(d@.subrange(at as int, at + p@.len()) =~= p@);
    true
}

/// The 16-bit number at `i`, in either byte order.
fn read16(d: &[u8], little: bool, i: usize) -> (r: u16)
    requires
        i + 2 <= d@.len(),
    ensures
        r == num16(d@, little, i as int),
{
    let n: usize = d.len();
    let a: u16 = d[i] as u16;
    let b: u16 = d[i + 1] as u16;
    if little {
        b * 256 + a
    } else {
        a * 256 + b
    }
}

/// The 32-bit number at `i`, in either byte order.
fn read32(d: &[u8], little: bool, i: usize) -> (r: u32)
    requires
        i + 4 <= d@.len(),
    ensures
        r == num32(d@, little, i as int),
{
    let n: usize = d.len();
    let a: u32 = read16(d, little, i) as u32;
    let b: u32 = read16(d, little, i + 2) as u32;
    if little {
        b * 65536 + a
    } else {
        a * 65536 + b
    }
}

/// The TIFF block of the first APP1 "Exif" segment before the image data.
pub fn jpeg_exif(data: &[u8]) -> (r: Option<&[u8]>)
    ensures
        contents(r) == jpeg_block(data@, 2),
{
    let n: usize = data.len();
    let mut i: usize = 2;
    loop
        invariant
            n == data@.len(),
            2 <= i,
            i > n ==> i == 2,
            jpeg_block(data@, i as int) == jpeg_block(data@, 2),
        decreases n + 2 - i,
    {
        if i >= n || n - i < 2 || data[i] != 0xFF {
            return None;
        }
        let marker: u8 = data[i + 1];
        if marker == 0xFF {
            i = i + 1;
        } else if marker == 0x01 || (0xD0 <= marker && marker <= 0xD8) {
            i = i + 2;
        } else if marker == 0xD9 || marker == 0xDA || n - i < 4 {
            return None;
        } else {
            let len: usize = read16(data, false, i + 2) as usize;
            if len < 2 || n - (i + 2) < len {
                return None;
            }
            if marker == 0xE1 && len >= 8 && is_at(data, i + 4, &[69u8, 120, 105, 102, 0, 0]) {
                return Some(&data[i + 10..i + 2 + len]);
            }
            i = i + 2 + len;
        }
    }
}

/// The payload of the PNG eXIf chunk.
pub fn png_exif(data: &[u8]) -> (r: Option<&[u8]>)
    ensures
        contents(r) == png_block(data@, 8),
{
    let n: usize = data.len();
    let mut i: usize = 8;
    loop
        invariant
            n == data@.len(),
            8 <= i,
            i > n ==> i <= 8 || i <= n + 4,
            png_block(data@, i as int) == png_block(data@, 8),
        decreases n + 12 - i,
    {
        if i > n || n - i < 8 {
            return None;
        }
        let len: u32 = read32(data, false, i);
        if ((n - i - 8) as u64) < len as u64 {
            return None;
        }
        let len: usize = len as usize;
        if is_kind(data, i + 4, &[101u8, 88, 73, 102]) {
            return Some(&data[i + 8..i + 8 + len]);
        }
        if is_kind(data, i + 4, &[73u8, 69, 78, 68]) {
            return None;
        }
        if n - i - 8 - len < 4 {
            // Nothing fits behind this chunk.
            proof {
                assert(png_block(data@, i + 12 + len) is None);
            }
            return None;
        }
        i = i + 12 + len;
    }
}

/// Whether the four bytes at `i` are the given ones.
fn is_kind(data: &[u8], i: usize, kind: &[u8; 4]) -> (r: bool)
    requires
        i + 4 <= data@.len(),
    ensures
        r == (data@.subrange(i as int, i + 4) == kind@),
{
    let n: usize = data.len();
    let r: bool = data[i] == kind[0] && data[i + 1] == kind[1] && data[i + 2] == kind[2] && data[i
        + 3] == kind[3];
    proof {
        let part = data@.subrange(i as int, i + 4);
        assert(part[0] == data@[i as int] && part[1] == data@[i + 1] && part[2] == data@[i + 2]
            && part[3] == data@[i + 3]);
        if r {
            assert(part =~= kind@);
        }
    }
    r
}

/// The payload of the WebP EXIF chunk (some writers keep the JPEG prefix).
pub fn webp_exif(data: &[u8]) -> (r: Option<&[u8]>)
    ensures
        contents(r) == webp_block(data@, 12),
{
    let n: usize = data.len();
    let mut i: usize = 12;
    loop
        invariant
            n == data@.len(),
            12 <= i,
            webp_block(data@, i as int) == webp_block(data@, 12),
        decreases n + 13 - i,
    {
        if i > n || n - i < 8 {
            return None;
        }
        let len: u32 = read32(data, true, i + 4);
        if ((n - i - 8) as u64) < len as u64 {
            return None;
        }
        let len: usize = len as usize;
        if is_kind(data, i, &[69u8, 88, 73, 70]) {
            let body = &data[i + 8..i + 8 + len];
            if is_at(body, 0, &[69u8, 120, 105, 102, 0, 0]) {
                assert(body@.skip(6) =~= body@.subrange(6, body@.len() as int));
                return Some(&body[6..len]);
            }
            return Some(body);
        }
        if n - i - 8 - len < 1 {
            // Nothing fits behind this chunk.
            proof {
                assert(webp_block(data@, i + 8 + len + len % 2) is None);
            }
            return None;
        }
        i = i + 8 + len + len % 2;
    }
}

/// The orientation that a number states.
fn to_orientation(value: u32) -> (r: Option<u8>)
    ensures
        r == as_orientation(value as int),
{
    if 1 <= value && value <= 8 {
        Some(value as u8)
    } else {
        None
    }
}

/// Orientation tag (0x0112) of IFD0 in a TIFF structure, either byte order.
pub fn tiff_orientation(t: &[u8]) -> (r: Option<u8>)
    ensures
        r == block_orientation(t@),
{
    let len: usize = t.len();
    let little: bool = if is_at(t, 0, &[73u8, 73, 42, 0]) {
        true
    } else if is_at(t, 0, &[77u8, 77, 0, 42]) {
        false
    } else {
        return None;
    };
    if len < 8 {
        return None;
    }
    let ifd: u32 = read32(t, little, 4);
    if ((len - 2) as u64) < ifd as u64 {
        return None;
    }
    let ifd: usize = ifd as usize;
    let n: u16 = read16(t, little, ifd);
    let mut k: u16 = 0;
    let mut entry: usize = ifd + 2;
    while k < n
        invariant
            len == t@.len(),
            k <= n,
            entry == ifd + 2 + k * 12,
            entry <= len,
            entry_orientation(t@, little, ifd as int, k as int, n as int) == block_orientation(t@),
        decreases n - k,
    {
        if len - entry < 2 {
            return None;
        }
        if read16(t, little, entry) == 0x0112 {
            if len - entry < 4 {
                return None;
            }
            let kind: u16 = read16(t, little, entry + 2);
            if kind == 3 && len - entry >= 10 {
                return to_orientation(read16(t, little, entry + 8) as u32);
            }
            if kind == 4 && len - entry >= 12 {
                return to_orientation(read32(t, little, entry + 8));
            }
            return None;
        }
        if len - entry < 12 {
            // The next entry would begin beyond the block.
            proof {
                assert(entry_orientation(t@, little, ifd as int, k + 1, n as int) is None);
            }
            return None;
        }
        entry = entry + 12;
        k = k + 1;
    }
    None
}

/// EXIF Orientation (1..=8) of a JPEG, PNG, WebP or TIFF file, or None when
/// there is none or it cannot be read.
pub fn exif_orientation(data: &[u8]) -> (r: Option<u8>)
    ensures
        r == orientation_of(data@),
        r is Some ==> 1 <= r->0 <= 8,
{
    proof {
        law_orientation_in_range(data@);
    }
    let block = if is_at(data, 0, &[0xFFu8, 0xD8]) {
        jpeg_exif(data)
    } else if is_at(data, 0, &[0x89u8, 80, 78, 71, 13, 10, 26, 10]) {
        png_exif(data)
    } else if is_at(data, 0, &[82u8, 73, 70, 70]) && is_at(data, 8, &[87u8, 69, 66, 80]) {
        webp_exif(data)
    } else {
        Some(data)
    };
    match block {
        None => None,
        Some(t) => tiff_orientation(t),
    }
}

proof fn lemma_entry_in_range(t: Seq<u8>, little: bool, ifd: int, k: int, n: int)
    ensures
        entry_orientation(t, little, ifd, k, n) matches Some(o) ==> 1 <= o <= 8,
    decreases n - k,
{
    let entry = ifd + 2 + k * 12;
    if k < n && entry + 2 <= t.len() && num16(t, little, entry) != 0x0112 {
        lemma_entry_in_range(t, little, ifd, k + 1, n);
    }
}

/// What a file states is one of the eight orientations that EXIF knows.
pub proof fn law_orientation_in_range(d: Seq<u8>)
    ensures
        orientation_of(d) matches Some(o) ==> 1 <= o <= 8,
{
    assert forall|t: Seq<u8>| #[trigger] block_orientation(t) is Some implies 1
        <= block_orientation(t)->0 <= 8 by {
        if let Some(little) = byte_order(t) {
            let ifd = num32(t, little, 4);
            lemma_entry_in_range(t, little, ifd, 0, num16(t, little, ifd));
        }
    }
}

/// Two bytes in either order, the high one first unless `little`.
pub open spec fn pair(little: bool, high: u8, low: u8) -> Seq<u8> {
    if little {
        seq![low, high]
    } else {
        seq![high, low]
    }
}

/// Four bytes of a number below 256, in either order.
pub open spec fn quad(little: bool, low: u8) -> Seq<u8> {
    if little {
        seq![low, 0u8, 0u8, 0u8]
    } else {
        seq![0u8, 0u8, 0u8, low]
    }
}

/// A TIFF block whose directory holds an orientation and nothing else.
pub open spec fn oriented_block(little: bool, o: u8) -> Seq<u8> {
    (if little {
        seq![73u8, 73, 42, 0]
    } else {
        seq![77u8, 77, 0, 42]
    }) + quad(little, 8) + pair(little, 0, 1) + pair(little, 1, 0x12) + pair(little, 0, 3) + quad(
        little,
        1,
    ) + pair(little, 0, o) + pair(little, 0, 0) + quad(little, 0)
}

/// An orientation written into a TIFF block, in either byte order, is the one
/// that is read back.
pub proof fn law_block_round_trip(little: bool, o: u8)
    requires
        1 <= o <= 8,
    ensures
        block_orientation(oriented_block(little, o)) == Some(o),
{
    let t = oriented_block(little, o);
    assert(t.len() == 26);
    assert(t.subrange(0, 4) =~= if little {
        seq![73u8, 73, 42, 0]
    } else {
        seq![77u8, 77, 0, 42]
    });
    assert(seq![73u8, 73, 42, 0][0] != seq![77u8, 77, 0, 42][0]);
    assert(byte_order(t) == Some(little));
    assert(num32(t, little, 4) == 8);
    assert(num16(t, little, 8) == 1);
    assert(num16(t, little, 10) == 0x0112);
    assert(num16(t, little, 12) == 3);
    assert(num16(t, little, 18) == o);
}

/// A JPEG that begins with an "Exif" segment: the start marker, the segment
/// with the given block, and the rest of the file.
pub open spec fn jpeg_with(block: Seq<u8>, rest: Seq<u8>) -> Seq<u8> {
    seq![0xFFu8, 0xD8, 0xFF, 0xE1, ((block.len() + 8) / 256) as u8, ((block.len() + 8) % 256) as u8]
        + exif_mark() + block + rest
}

/// An "Exif" segment put right behind the start of a JPEG decides the
/// orientation, whatever follows.
pub proof fn law_jpeg_round_trip(block: Seq<u8>, rest: Seq<u8>)
    requires
        block.len() <= 0xFFF7,
    ensures
        orientation_of(jpeg_with(block, rest)) == block_orientation(block),
{
    let d = jpeg_with(block, rest);
    assert(d.subrange(0, 2) =~= seq![0xFFu8, 0xD8]);
    assert(d[2] == 0xFF && d[3] == 0xE1);
    assert(be16(d, 4) == block.len() + 8);
    assert(d.subrange(6, 12) =~= exif_mark());
    assert(d.subrange(12, (12 + block.len()) as int) =~= block);
    assert(jpeg_block(d, 2) == Some(block));
}

/// The byte of `n` that counts `256^k`.
pub open spec fn byte(n: nat, k: nat) -> u8 {
    if k == 0 {
        (n % 256) as u8
    } else if k == 1 {
        (n / 256 % 256) as u8
    } else if k == 2 {
        (n / 65536 % 256) as u8
    } else {
        (n / 16777216 % 256) as u8
    }
}

/// A PNG whose first chunk is an `eXIf` chunk: the signature, the chunk with
/// the given block, and the rest of the file.
pub open spec fn png_with(block: Seq<u8>, rest: Seq<u8>) -> Seq<u8> {
    let n = block.len();
    png_signature() + seq![byte(n, 3), byte(n, 2), byte(n, 1), byte(n, 0), 101u8, 88, 73, 102]
        + block + rest
}

/// An `eXIf` chunk put right behind the signature of a PNG decides the
/// orientation, whatever follows.
pub proof fn law_png_round_trip(block: Seq<u8>, rest: Seq<u8>)
    requires
        block.len() <= u32::MAX,
    ensures
        orientation_of(png_with(block, rest)) == block_orientation(block),
{
    let d = png_with(block, rest);
    let n = block.len();
    lemma_png_kind(block, rest);
    lemma_bytes(n);
    let (a, b, c, e) = (byte(n, 3), byte(n, 2), byte(n, 1), byte(n, 0));
    assert(d[8] == a && d[9] == b && d[10] == c && d[11] == e);
    assert(be32(d, 8) == n);
    assert(d.subrange(12, 16) =~= seq![101u8, 88, 73, 102]);
    assert(d.subrange(16, (16 + n) as int) =~= block);
    assert(png_block(d, 8) == Some(block));
}

/// What a PNG with an `eXIf` chunk right behind its signature is taken for.
proof fn lemma_png_kind(block: Seq<u8>, rest: Seq<u8>)
    ensures
        orientation_of(png_with(block, rest)) == orientation_in(
            png_block(png_with(block, rest), 8),
        ),
{
    let d = png_with(block, rest);
    assert(d[0] == 0x89);
    assert(!bytes_at(d, 0, seq![0xFFu8, 0xD8])) by {
        assert(d.subrange(0, 2)[0] == 0x89);
    }
    assert(d.subrange(0, 8) =~= png_signature());
}

/// A WebP whose first chunk is an `EXIF` chunk: the header with the size of
/// the file, the chunk with the given body, and the rest of the file.
pub open spec fn webp_with(size: u32, body: Seq<u8>, rest: Seq<u8>) -> Seq<u8> {
    let n = body.len();
    let m = size as nat;
    seq![82u8, 73, 70, 70, byte(m, 0), byte(m, 1), byte(m, 2), byte(m, 3), 87, 69, 66, 80]
        + seq![69u8, 88, 73, 70, byte(n, 0), byte(n, 1), byte(n, 2), byte(n, 3)] + body + rest
}

/// An `EXIF` chunk put right behind the header of a WebP decides the
/// orientation, whatever follows, and whether or not the mark of a JPEG stands
/// before its block.
pub proof fn law_webp_round_trip(size: u32, block: Seq<u8>, rest: Seq<u8>)
    requires
        block.len() + 6 <= u32::MAX,
    ensures
        !bytes_at(block, 0, exif_mark()) ==> orientation_of(webp_with(size, block, rest))
            == block_orientation(block),
        orientation_of(webp_with(size, exif_mark() + block, rest)) == block_orientation(block),
{
    lemma_webp_body(size, block, rest);
    let marked = exif_mark() + block;
    lemma_webp_body(size, marked, rest);
    assert(marked.subrange(0, 6) =~= exif_mark());
    assert(marked.skip(6) =~= block);
}

/// A number below `2^32` is made of its four bytes.
proof fn lemma_bytes(n: nat)
    requires
        n <= u32::MAX,
    ensures
        byte(n, 0) as nat + 256 * byte(n, 1) as nat + 65536 * byte(n, 2) as nat + 16777216 * byte(
            n,
            3,
        ) as nat == n,
{
}

/// What a WebP with an `EXIF` chunk right behind its header is taken for.
proof fn lemma_webp_kind(size: u32, body: Seq<u8>, rest: Seq<u8>)
    ensures
        orientation_of(webp_with(size, body, rest)) == orientation_in(
            webp_block(webp_with(size, body, rest), 12),
        ),
{
    let d = webp_with(size, body, rest);
    assert(d[0] == 82);
    assert(!bytes_at(d, 0, seq![0xFFu8, 0xD8])) by {
        assert(d.subrange(0, 2)[0] == 82);
    }
    assert(!bytes_at(d, 0, png_signature())) by {
        assert(d.subrange(0, 8)[0] == 82);
    }
    assert(d.subrange(0, 4) =~= seq![82u8, 73, 70, 70]);
    assert(d.subrange(8, 12) =~= seq![87u8, 69, 66, 80]);
}

/// The body of an `EXIF` chunk right behind the header of a WebP.
proof fn lemma_webp_body(size: u32, body: Seq<u8>, rest: Seq<u8>)
    requires
        body.len() <= u32::MAX,
    ensures
        orientation_of(webp_with(size, body, rest)) == if bytes_at(body, 0, exif_mark()) {
            block_orientation(body.skip(6))
        } else {
            block_orientation(body)
        },
{
    let d = webp_with(size, body, rest);
    let n = body.len();
    lemma_webp_kind(size, body, rest);
    lemma_bytes(n);
    let (a, b, c, e) = (byte(n, 0), byte(n, 1), byte(n, 2), byte(n, 3));
    assert(d.subrange(12, 16) =~= seq![69u8, 88, 73, 70]);
    assert(d[16] == a && d[17] == b && d[18] == c && d[19] == e);
    assert(le32(d, 16) == n);
    assert(d.subrange(20, (20 + n) as int) =~= body);
    assert(webp_block(d, 12) == if bytes_at(body, 0, exif_mark()) {
        Some(body.skip(6))
    } else {
        Some(body)
    });
}

} // verus!
