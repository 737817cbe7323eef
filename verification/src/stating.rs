//! Where an image file states its orientation, whatever else it holds.
use crate::exif;
use vstd::prelude::*;

verus! {

/// The number of two bytes at `i`, the low one first where `little`.
pub open spec fn word(t: Seq<u8>, little: bool, i: int) -> int {
    if little {
        t[i] + 256 * t[i + 1]
    } else {
        256 * t[i] + t[i + 1]
    }
}

/// The number of four bytes at `i`, the lowest first where `little`.
pub open spec fn long(t: Seq<u8>, little: bool, i: int) -> int {
    if little {
        t[i] + 256 * t[i + 1] + 65536 * t[i + 2] + 16777216 * t[i + 3]
    } else {
        16777216 * t[i] + 65536 * t[i + 1] + 256 * t[i + 2] + t[i + 3]
    }
}

/// Whether a TIFF block, in that byte order, has a first directory of `n`
/// entries at `at`, and all of it lies inside the block.
pub open spec fn has_directory(t: Seq<u8>, little: bool, at: int, n: int) -> bool {
    &&& t.len() >= 8
    &&& if little {
        t[0] == 73 && t[1] == 73 && t[2] == 42 && t[3] == 0
    } else {
        t[0] == 77 && t[1] == 77 && t[2] == 0 && t[3] == 42
    }
    &&& long(t, little, 4) == at
    &&& 0 <= n && at + 2 + 12 * n <= t.len()
    &&& word(t, little, at) == n
}

/// The orientation of a TIFF block is that of the first entry of its directory
/// with the tag 0x0112, wherever among the others that stands: a number from one
/// to eight, of two bytes or of four. A block without such an entry states none.
pub proof fn law_orientation_entry_is_found(t: Seq<u8>, little: bool, at: int, n: int, k: int)
    requires
        has_directory(t, little, at, n),
        0 <= k <= n,
        forall|j: int| 0 <= j < k ==> #[trigger] word(t, little, at + 2 + 12 * j) != 0x0112,
        k < n ==> word(t, little, at + 2 + 12 * k) == 0x0112,
    ensures
        ({
            let entry = at + 2 + 12 * k;
            let value = if word(t, little, entry + 2) == 3 {
                word(t, little, entry + 8)
            } else if word(t, little, entry + 2) == 4 {
                long(t, little, entry + 8)
            } else {
                0
            };
            let found = exif::block_orientation(t);
            if k < n && 1 <= value <= 8 {
                found == Some(value as u8)
            } else {
                found is None
            }
        }),
{
    if little {
        assert(t.subrange(0, 4) =~= seq![73u8, 73, 42, 0]);
    } else {
        assert(t.subrange(0, 4) =~= seq![77u8, 77, 0, 42]);
        assert(t.subrange(0, 4)[0] == 77 && seq![73u8, 73, 42, 0][0] == 73);
    }
    assert(exif::byte_order(t) == Some(little));
    assert(exif::num32(t, little, 4) == at && exif::num16(t, little, at) == n);
    lemma_entries(t, little, at, n, 0, k);
}

proof fn lemma_entries(t: Seq<u8>, little: bool, at: int, n: int, from: int, k: int)
    requires
        0 <= at,
        0 <= from <= k <= n,
        at + 2 + 12 * n <= t.len(),
        forall|j: int| from <= j < k ==> #[trigger] word(t, little, at + 2 + 12 * j) != 0x0112,
    ensures
        exif::entry_orientation(t, little, at, from, n) == exif::entry_orientation(
            t,
            little,
            at,
            k,
            n,
        ),
    decreases k - from,
{
    if from < k {
        assert(word(t, little, at + 2 + 12 * from) != 0x0112);
        assert(at + 2 + from * 12 == at + 2 + 12 * from);
        lemma_entries(t, little, at, n, from + 1, k);
    }
}

/// A segment of a JPEG: its marker, its length, and its body.
pub open spec fn segment(marker: u8, body: Seq<u8>) -> Seq<u8> {
    seq![0xFFu8, marker, ((body.len() + 2) / 256) as u8, ((body.len() + 2) % 256) as u8] + body
}

/// What comes before the "Exif" segment of a JPEG does not matter: a segment of
/// any other kind, put right behind the start, leaves the orientation as it is.
pub proof fn law_other_segments_are_passed_over(marker: u8, body: Seq<u8>, rest: Seq<u8>)
    requires
        body.len() <= 0xFFFD,
        marker != 0xFF && marker != 0x01 && !(0xD0 <= marker <= 0xDA),
        marker == 0xE1 ==> body.len() < 6 || body.take(6) != seq![69u8, 120, 105, 102, 0, 0],
    ensures
        exif::orientation_of(seq![0xFFu8, 0xD8] + segment(marker, body) + rest)
            == exif::orientation_of(seq![0xFFu8, 0xD8] + rest),
{
    let start = seq![0xFFu8, 0xD8];
    let seg = segment(marker, body);
    let (a, b) = (start + seg + rest, start + rest);
    assert(a.subrange(0, 2) =~= start && b.subrange(0, 2) =~= start);
    assert(a[2] == 0xFF && a[3] == marker);
    let len = (body.len() + 2) as int;
    assert(exif::be16(a, 4) == len);
    assert(a =~= (start + seg) + rest);
    if marker == 0xE1 && len >= 8 {
        assert(a.subrange(6, 12) =~= body.take(6));
    }
    lemma_jpeg_shift(start + seg, start, rest, 0);
    assert((start + seg).len() == 2 + 2 + len);
}

proof fn lemma_jpeg_shift(a: Seq<u8>, b: Seq<u8>, x: Seq<u8>, j: int)
    requires
        0 <= j,
    ensures
        exif::jpeg_block(a + x, a.len() + j) == exif::jpeg_block(b + x, b.len() + j),
    decreases x.len() - j,
{
    let (p, q) = (a + x, b + x);
    let (m, n) = (a.len() + j, b.len() + j);
    if j + 1 < x.len() {
        assert(p[m] == x[j] && q[n] == x[j] && p[m + 1] == x[j + 1] && q[n + 1] == x[j + 1]);
        if x[j] == 0xFF {
            let marker = x[j + 1];
            if marker == 0xFF {
                lemma_jpeg_shift(a, b, x, j + 1);
            } else if marker == 0x01 || 0xD0 <= marker <= 0xD8 {
                lemma_jpeg_shift(a, b, x, j + 2);
            } else if j + 3 < x.len() {
                let len = exif::be16(x, j + 2);
                assert(p[m + 2] == x[j + 2] && p[m + 3] == x[j + 3]);
                assert(q[n + 2] == x[j + 2] && q[n + 3] == x[j + 3]);
                if len >= 2 && j + 2 + len <= x.len() {
                    lemma_jpeg_shift(a, b, x, j + 2 + len);
                    assert(p.subrange(m + 4, m + 2 + len) =~= q.subrange(n + 4, n + 2 + len));
                    if len >= 8 {
                        assert(p.subrange(m + 4, m + 10) =~= q.subrange(n + 4, n + 10));
                        assert(p.subrange(m + 10, m + 2 + len) =~= q.subrange(n + 10, n + 2 + len));
                    }
                }
            }
        }
    }
}

/// A chunk of a PNG: the length of its body, its kind, its body and its check
/// sum.
pub open spec fn chunk(kind: Seq<u8>, body: Seq<u8>, sum: Seq<u8>) -> Seq<u8> {
    let n = body.len();
    seq![
        (n / 16777216 % 256) as u8,
        (n / 65536 % 256) as u8,
        (n / 256 % 256) as u8,
        (n % 256) as u8,
    ] + kind + body + sum
}

/// What comes before the `eXIf` chunk of a PNG does not matter: a chunk of any
/// other kind, but for the one that ends the image, leaves the orientation as it
/// is.
pub proof fn law_other_chunks_are_passed_over(
    kind: Seq<u8>,
    body: Seq<u8>,
    sum: Seq<u8>,
    rest: Seq<u8>,
)
    requires
        kind.len() == 4 && sum.len() == 4 && body.len() < 0x1_0000_0000,
        kind != seq![101u8, 88, 73, 102],
        kind != seq![73u8, 69, 78, 68],
    ensures
        exif::orientation_of(exif::png_signature() + chunk(kind, body, sum) + rest)
            == exif::orientation_of(exif::png_signature() + rest),
{
    let start = exif::png_signature();
    let c = chunk(kind, body, sum);
    let (a, b) = (start + c + rest, start + rest);
    let n = body.len() as int;
    assert(a.subrange(0, 8) =~= start && b.subrange(0, 8) =~= start);
    assert(a[0] == 0x89 && b[0] == 0x89);
    assert(a.subrange(0, 2)[0] == 0x89 && b.subrange(0, 2)[0] == 0x89);
    assert(seq![0xFFu8, 0xD8][0] == 0xFF);
    assert(a[8] == c[0] && a[9] == c[1] && a[10] == c[2] && a[11] == c[3]);
    assert(exif::be32(a, 8) == n);
    assert(a.subrange(12, 16) =~= kind);
    assert(a =~= (start + c) + rest);
    assert((start + c).len() == 20 + n);
    lemma_png_shift(start + c, start, rest, 0);
}

proof fn lemma_png_shift(a: Seq<u8>, b: Seq<u8>, x: Seq<u8>, j: int)
    requires
        0 <= j,
    ensures
        exif::png_block(a + x, a.len() + j) == exif::png_block(b + x, b.len() + j),
    decreases x.len() + 4 - j,
{
    let (p, q) = (a + x, b + x);
    let (m, n) = (a.len() + j, b.len() + j);
    if j + 8 <= x.len() {
        assert(p[m] == x[j] && p[m + 1] == x[j + 1] && p[m + 2] == x[j + 2] && p[m + 3] == x[j + 3]);
        assert(q[n] == x[j] && q[n + 1] == x[j + 1] && q[n + 2] == x[j + 2] && q[n + 3] == x[j + 3]);
        let len = exif::be32(x, j);
        assert(exif::be32(p, m) == len && exif::be32(q, n) == len);
        assert(p.subrange(m + 4, m + 8) =~= q.subrange(n + 4, n + 8));
        if 0 <= len && j + 8 + len <= x.len() {
            assert(p.subrange(m + 8, m + 8 + len) =~= q.subrange(n + 8, n + 8 + len));
            lemma_png_shift(a, b, x, j + 12 + len);
        }
    }
}

/// A chunk of a WebP: its kind, the length of its body, its body, and a byte of
/// padding behind a body of odd length.
pub open spec fn riff(kind: Seq<u8>, body: Seq<u8>) -> Seq<u8> {
    let n = body.len();
    kind + seq![
        (n % 256) as u8,
        (n / 256 % 256) as u8,
        (n / 65536 % 256) as u8,
        (n / 16777216 % 256) as u8,
    ] + body + if n % 2 == 1 {
        seq![0u8]
    } else {
        seq![]
    }
}

/// What comes before the `EXIF` chunk of a WebP does not matter: a chunk of any
/// other kind leaves the orientation as it is.
pub proof fn law_other_riff_chunks_are_passed_over(
    size: Seq<u8>,
    kind: Seq<u8>,
    body: Seq<u8>,
    rest: Seq<u8>,
)
    requires
        size.len() == 4 && kind.len() == 4 && body.len() < 0x1_0000_0000,
        kind != seq![69u8, 88, 73, 70],
    ensures
        ({
            let start = seq![82u8, 73, 70, 70] + size + seq![87u8, 69, 66, 80];
            exif::orientation_of(start + riff(kind, body) + rest) == exif::orientation_of(
                start + rest,
            )
        }),
{
    let start = seq![82u8, 73, 70, 70] + size + seq![87u8, 69, 66, 80];
    let c = riff(kind, body);
    let (a, b) = (start + c + rest, start + rest);
    let n = body.len() as int;
    assert(start.take(4) =~= seq![82u8, 73, 70, 70] && start.skip(8) =~= seq![87u8, 69, 66, 80]);
    assert(a.take(12) =~= start && b.take(12) =~= start);
    lemma_webp_start(a, start);
    lemma_webp_start(b, start);
    assert(a[16] == c[4] && a[17] == c[5] && a[18] == c[6] && a[19] == c[7]);
    assert(exif::le32(a, 16) == n);
    assert(a.subrange(12, 16) =~= kind);
    assert(a =~= (start + c) + rest);
    assert((start + c).len() == 20 + n + n % 2);
    lemma_webp_shift(start + c, start, rest, 0);
}

proof fn lemma_webp_start(a: Seq<u8>, start: Seq<u8>)
    requires
        a.len() >= 12,
        start.len() == 12,
        a.take(12) == start,
        start.take(4) == seq![82u8, 73, 70, 70],
        start.skip(8) == seq![87u8, 69, 66, 80],
    ensures
        exif::orientation_of(a) == exif::orientation_in(exif::webp_block(a, 12)),
{
    assert(a.subrange(0, 4) =~= start.take(4));
    assert(a.subrange(8, 12) =~= start.skip(8));
    assert(a[0] == a.take(12)[0] && start[0] == start.take(4)[0] && a[0] == 82);
    assert(a.subrange(0, 2)[0] == 82 && seq![0xFFu8, 0xD8][0] == 0xFF);
    assert(exif::png_signature()[0] == 0x89);
    if a.len() >= 8 {
        assert(a.subrange(0, 8)[0] == 82);
    }
}

proof fn lemma_webp_shift(a: Seq<u8>, b: Seq<u8>, x: Seq<u8>, j: int)
    requires
        0 <= j,
    ensures
        exif::webp_block(a + x, a.len() + j) == exif::webp_block(b + x, b.len() + j),
    decreases x.len() + 1 - j,
{
    let (p, q) = (a + x, b + x);
    let (m, n) = (a.len() + j, b.len() + j);
    if j + 8 <= x.len() {
        assert(p[m + 4] == x[j + 4] && p[m + 5] == x[j + 5] && p[m + 6] == x[j + 6]);
        assert(q[n + 4] == x[j + 4] && q[n + 5] == x[j + 5] && q[n + 6] == x[j + 6]);
        assert(p[m + 7] == x[j + 7] && q[n + 7] == x[j + 7]);
        let len = exif::le32(x, j + 4);
        assert(exif::le32(p, m + 4) == len && exif::le32(q, n + 4) == len);
        assert(p.subrange(m, m + 4) =~= q.subrange(n, n + 4));
        if 0 <= len && j + 8 + len <= x.len() {
            assert(p.subrange(m + 8, m + 8 + len) =~= q.subrange(n + 8, n + 8 + len));
            lemma_webp_shift(a, b, x, j + 8 + len + len % 2);
        }
    }
}

} // verus!
