use vstd::prelude::*;

verus! {

/// Splits `num` RGBA pixels into their red, green and blue planes; the
/// alpha byte of each pixel is skipped.
pub fn realign_rgb_data(src: &[u8], num: usize) -> (r: (Vec<u8>, Vec<u8>, Vec<u8>))
    requires
        4 * num <= src@.len(),
    ensures
        r.0@.len() == num,
        r.1@.len() == num,
        r.2@.len() == num,
        forall|i: int|
            0 <= i < num ==> #[trigger] r.0@[i] == src@[4 * i] && r.1@[i] == src@[4 * i + 1] && r.2@[i]
                == src@[4 * i + 2],
{
    let mut r: Vec<u8> = Vec::new();
    let mut g: Vec<u8> = Vec::new();
    let mut b: Vec<u8> = Vec::new();
    let len = src.len();
    let mut i: usize = 0;
    while i < num
        invariant
            len == src@.len(),
            4 * num <= src@.len(),
            i <= num,
            r@.len() == i,
            g@.len() == i,
            b@.len() == i,
            forall|q: int|
                0 <= q < i ==> #[trigger] r@[q] == src@[4 * q] && g@[q] == src@[4 * q + 1] && b@[q]
                    == src@[4 * q + 2],
        decreases num - i,
    {
        r.push(src[i * 4]);
        g.push(src[i * 4 + 1]);
        b.push(src[i * 4 + 2]);
        i = i + 1;
    }
    (r, g, b)
}

} // verus!
