//! Preparing data for upload to the device.
use vstd::prelude::*;

verus! {

/// The bytes that a texture upload copies into its staging buffer: `height` rows of
/// `width` texels of 4 bytes, row `y` read from `data` at `y * row_pitch`, the rows
/// placed one after the other.
pub open spec fn packed_rows(data: Seq<u8>, width: nat, height: nat, row_pitch: nat) -> Seq<u8> {
    Seq::new(height * width * 4, |i: int| data[(i / (width * 4) as int) * row_pitch + i % (width * 4) as int])
}

/// Every row that the upload reads lies inside `data`, and the packed rows fit in
/// memory.
pub open spec fn rows_readable(data_len: nat, width: nat, height: nat, row_pitch: nat) -> bool {
    &&& height * width * 4 <= usize::MAX
    &&& height > 0 ==> (height - 1) * row_pitch + width * 4 <= data_len
}

/// Packs the rows of a `width` by `height` texture of 4-byte texels, whose rows start
/// `row_pitch` bytes apart in `data`, one after the other.
pub fn pack_rows(data: &[u8], width: usize, height: usize, row_pitch: usize) -> (res: Vec<u8>)
    requires
        rows_readable(data@.len(), width as nat, height as nat, row_pitch as nat),
    ensures
        res@ == packed_rows(data@, width as nat, height as nat, row_pitch as nat),
{
    let ghost w4 = (width * 4) as int;
    let data_len = data.len();
    let mut res: Vec<u8> = Vec::new();
    if width == 0 || height == 0 {
        proof {
            assert(height * width * 4 == 0) by (nonlinear_arith)
                requires width == 0 || height == 0;
        }
        assert(res@ =~= packed_rows(data@, width as nat, height as nat, row_pitch as nat));
        return res;
    }
    proof {
        assert(width * 4 <= height * width * 4) by (nonlinear_arith)
            requires height >= 1;
    }
    let row_len = width * 4;
    let mut y: usize = 0;
    while y < height
        invariant
            0 < width,
            0 < height,
            row_len == width * 4,
            row_len as int == w4,
            height * width * 4 <= usize::MAX,
            (height - 1) * row_pitch + width * 4 <= data@.len(),
            data_len == data@.len(),
            y <= height,
            res@.len() == y * row_len,
            forall|i: int| 0 <= i < res@.len() ==> #[trigger] res@[i] == data@[(i / w4) * row_pitch + i % w4],
        decreases height - y,
    {
        proof {
            assert(y * row_pitch <= (height - 1) * row_pitch) by (nonlinear_arith)
                requires y <= height - 1;
            assert((y + 1) * row_len <= height * row_len) by (nonlinear_arith)
                requires y + 1 <= height;
            assert(height * row_len == height * width * 4) by (nonlinear_arith)
                requires row_len == width * 4;
        }
        let start = y * row_pitch;
        let mut x: usize = 0;
        let ghost before = res@;
        while x < row_len
            invariant
                0 < width,
                row_len == width * 4,
                row_len as int == w4,
                start == y * row_pitch,
                start + row_len <= data@.len(),
                data_len == data@.len(),
                before.len() == y * row_len,
                res@.len() == before.len() + x,
                x <= row_len,
                forall|i: int| 0 <= i < before.len() ==> #[trigger] res@[i] == before[i],
                forall|i: int| 0 <= i < x ==> #[trigger] res@[before.len() + i] == data@[start + i],
            decreases row_len - x,
        {
            res.push(data[start + x]);
            x = x + 1;
        }
        proof {
            assert forall|i: int| 0 <= i < res@.len() implies #[trigger] res@[i] == data@[(i / w4) * row_pitch + i % w4] by {
                if i >= before.len() {
                    let k = i - before.len();
                    assert(res@[before.len() + k] == data@[start + k]);
                    assert(i / w4 == y && i % w4 == k) by (nonlinear_arith)
                        requires i == y * w4 + k, 0 <= k < w4, w4 > 0;
                } else {
                    assert(res@[i] == before[i]);
                }
            }
            assert(res@.len() == (y + 1) * row_len) by (nonlinear_arith)
                requires res@.len() == y * row_len + row_len;
        }
        y = y + 1;
    }
    proof {
        assert(res@.len() == height * width * 4) by (nonlinear_arith)
            requires res@.len() == height * row_len, row_len == width * 4;
    }
    assert(res@ =~= packed_rows(data@, width as nat, height as nat, row_pitch as nat));
    res
}

} // verus!
