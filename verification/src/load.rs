//! Parsing of the big-endian, length-prefixed binary tensor files that hold
//! the pixel vectors and their labels.
//!
//! The functions here work on a byte buffer that has already been read from
//! disk; the file I/O itself stays outside the library.

use vstd::prelude::*;

verus! {

/// Why a byte buffer was refused as a dataset.
#[derive(Clone, Copy, Debug, PartialEq, Eq, Structural)]
pub enum LoadError {
    /// The buffer is shorter than its declared item count, or a label lies
    /// outside the class range.
    IndexOutOfRange,
}

/// The four bytes starting at `i`, read as one big-endian integer.
pub open spec fn be_u32(s: Seq<u8>, i: int) -> int {
    s[i] * 0x100_0000 + s[i + 1] * 0x1_0000 + s[i + 2] * 0x100 + s[i + 3]
}

/// Big-endian read of four bytes at offset `i`; also returns the offset just
/// past them.
pub fn read_big_endian(buf: &Vec<u8>, i: usize) -> (r: (u32, usize))
    requires
        i + 4 <= buf@.len(),
    ensures
        r.0 as int == be_u32(buf@, i as int),
        r.1 == i + 4,
{
    let n = buf.len();
    let v: u32 = (buf[i] as u32) * 0x100_0000 + (buf[i + 1] as u32) * 0x1_0000 + (buf[i + 2]
        as u32) * 0x100 + (buf[i + 3] as u32);
    (v, i + 4)
}

/// Number of pixels in one sample: a 28-by-28 grid.
pub const SAMPLE_PIXELS: usize = 784;

/// Number of classes a label may name.
pub const NUM_CLASSES: u8 = 10;

/// Byte offset where the label bytes begin: a four-byte magic field and a
/// four-byte item count come first.
pub const LABEL_DATA_OFFSET: usize = 8;

/// Byte offset where the pixel bytes begin: magic, item count, and the two
/// grid dimensions come first, four bytes each.
pub const IMAGE_DATA_OFFSET: usize = 16;

/// The `k`-th label byte of a label file.
pub open spec fn label_at(s: Seq<u8>, k: int) -> u8 {
    s[LABEL_DATA_OFFSET + k]
}

/// The `j`-th pixel of the `k`-th sample of an image file.
pub open spec fn pixel_at(s: Seq<u8>, k: int, j: int) -> u8 {
    s[IMAGE_DATA_OFFSET + k * SAMPLE_PIXELS + j]
}

/// A label file is complete: full header, as many label bytes as the header
/// declares, every label inside the class range.
pub open spec fn labels_parseable(s: Seq<u8>) -> bool {
    &&& s.len() >= LABEL_DATA_OFFSET
    &&& LABEL_DATA_OFFSET + be_u32(s, 4) <= s.len()
    &&& forall|k: int| 0 <= k < be_u32(s, 4) ==> label_at(s, k) < NUM_CLASSES
}

/// An image file is complete: full header and one whole pixel grid for each
/// sample the header declares.
pub open spec fn dataset_parseable(s: Seq<u8>) -> bool {
    &&& s.len() >= IMAGE_DATA_OFFSET
    &&& IMAGE_DATA_OFFSET + be_u32(s, 4) * SAMPLE_PIXELS <= s.len()
}

/// Decode a label file: one byte per label, preceded by a magic field and a
/// big-endian item count.  Refused when the buffer is shorter than its
/// declared count or a label lies outside the class range.
pub fn load_label(buf: &Vec<u8>) -> (r: Result<Vec<u8>, LoadError>)
    ensures
        (match r {
            Ok(v) => {
                &&& labels_parseable(buf@)
                &&& v@.len() == be_u32(buf@, 4)
                &&& forall|k: int| 0 <= k < v@.len() ==> v@[k] == label_at(buf@, k)
            },
            Err(e) => e == LoadError::IndexOutOfRange && !labels_parseable(buf@),
        }),
{
    let n = buf.len();
    if n < LABEL_DATA_OFFSET {
        return Err(LoadError::IndexOutOfRange);
    }
    let (count, _next) = read_big_endian(buf, 4);
    let count = count as usize;
    if n - LABEL_DATA_OFFSET < count {
        return Err(LoadError::IndexOutOfRange);
    }
    let mut labels: Vec<u8> = Vec::new();
    let mut k: usize = 0;
    while k < count
        invariant
            n == buf@.len(),
            count == be_u32(buf@, 4),
            LABEL_DATA_OFFSET + count <= n,
            k <= count,
            labels@.len() == k,
            forall|j: int|
                0 <= j < k ==> labels@[j] == label_at(buf@, j) && labels@[j] < NUM_CLASSES,
        decreases count - k,
    {
        let b = buf[LABEL_DATA_OFFSET + k];
        if b >= NUM_CLASSES {
            proof {
                assert(label_at(buf@, k as int) == b);
                assert(!labels_parseable(buf@)) by {
                    if labels_parseable(buf@) {
                        assert(label_at(buf@, k as int) < NUM_CLASSES);
                    }
                }
            }
            return Err(LoadError::IndexOutOfRange);
        }
        labels.push(b);
        k = k + 1;
    }
    proof {
        assert forall|j: int| 0 <= j < be_u32(buf@, 4) implies label_at(buf@, j) < NUM_CLASSES by {
            assert(labels@[j] == label_at(buf@, j) && labels@[j] < NUM_CLASSES);
        }
    }
    Ok(labels)
}

/// Decode an image file: a magic field, a big-endian sample count, the two
/// grid dimensions, then one whole pixel grid per sample.  Refused when the
/// buffer is shorter than its declared count.
pub fn load_dataset(buf: &Vec<u8>) -> (r: Result<Vec<Vec<u8>>, LoadError>)
    ensures
        (match r {
            Ok(v) => {
                &&& dataset_parseable(buf@)
                &&& v@.len() == be_u32(buf@, 4)
                &&& forall|k: int| 0 <= k < v@.len() ==> v@[k]@.len() == SAMPLE_PIXELS
                &&& forall|k: int, j: int|
                    0 <= k < v@.len() && 0 <= j < SAMPLE_PIXELS ==> v@[k]@[j] == pixel_at(
                        buf@,
                        k,
                        j,
                    )
            },
            Err(e) => e == LoadError::IndexOutOfRange && !dataset_parseable(buf@),
        }),
{
    let n = buf.len();
    if n < IMAGE_DATA_OFFSET {
        return Err(LoadError::IndexOutOfRange);
    }
    let (count, _next) = read_big_endian(buf, 4);
    let count = count as usize;
    let mut imgs: Vec<Vec<u8>> = Vec::new();
    let mut i: usize = IMAGE_DATA_OFFSET;
    let mut k: usize = 0;
    while k < count
        invariant
            n == buf@.len(),
            count == be_u32(buf@, 4),
            n >= IMAGE_DATA_OFFSET,
            k <= count,
            i == IMAGE_DATA_OFFSET + k * SAMPLE_PIXELS,
            i <= n,
            imgs@.len() == k,
            forall|kk: int| 0 <= kk < k ==> imgs@[kk]@.len() == SAMPLE_PIXELS,
            forall|kk: int, j: int|
                0 <= kk < k && 0 <= j < SAMPLE_PIXELS ==> imgs@[kk]@[j] == pixel_at(buf@, kk, j),
        decreases count - k,
    {
        if n - i < SAMPLE_PIXELS {
            proof {
                assert(n < IMAGE_DATA_OFFSET + (k + 1) * SAMPLE_PIXELS);
                assert(!dataset_parseable(buf@));
            }
            return Err(LoadError::IndexOutOfRange);
        }
        let mut temp: Vec<u8> = Vec::new();
        let mut j: usize = 0;
        while j < SAMPLE_PIXELS
            invariant
                n == buf@.len(),
                i == IMAGE_DATA_OFFSET + k * SAMPLE_PIXELS,
                i + SAMPLE_PIXELS <= n,
                j <= SAMPLE_PIXELS,
                temp@.len() == j,
                forall|jj: int| 0 <= jj < j ==> temp@[jj] == pixel_at(buf@, k as int, jj),
            decreases SAMPLE_PIXELS - j,
        {
            temp.push(buf[i + j]);
            j = j + 1;
        }
        let ghost pre = imgs@;
        imgs.push(temp);
        proof {
            assert forall|kk: int, jj: int| 0 <= kk < k + 1 && 0 <= jj < SAMPLE_PIXELS implies
                imgs@[kk]@[jj] == pixel_at(buf@, kk, jj) by {
                if kk < k {
                    assert(pre[kk]@[jj] == pixel_at(buf@, kk, jj));
                }
            }
        }
        i = i + SAMPLE_PIXELS;
        k = k + 1;
    }
    Ok(imgs)
}

} // verus!
