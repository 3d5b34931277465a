//! Pixel formats of generated images.
use vstd::prelude::*;

verus! {

/// The image with an opaque alpha channel: RGB pixels (row-major) become RGBA.
pub fn rgb_to_rgba(rgb: &[u8], pixels: usize) -> (rgba: Vec<u8>)
    requires
        3 * pixels <= rgb@.len(),
        4 * pixels <= usize::MAX,
    ensures
        rgba.len() == 4 * pixels,
        forall|i: int, c: int|
            0 <= i < pixels && 0 <= c < 3 ==> #[trigger] rgba[4 * i + c] == rgb@[3 * i + c],
        forall|i: int| 0 <= i < pixels ==> #[trigger] rgba[4 * i + 3] == 255,
{
    let len: usize = rgb.len();
    let mut rgba: Vec<u8> = Vec::with_capacity(4 * pixels);
    let mut i: usize = 0;
    while i < pixels
        invariant
            i <= pixels,
            3 * pixels <= len,
            len == rgb@.len(),
            rgba.len() == 4 * i,
            forall|j: int, c: int|
                0 <= j < i && 0 <= c < 3 ==> #[trigger] rgba[4 * j + c] == rgb@[3 * j + c],
            forall|j: int| 0 <= j < i ==> #[trigger] rgba[4 * j + 3] == 255,
        decreases pixels - i,
    {
        rgba.push(rgb[3 * i]);
        rgba.push(rgb[3 * i + 1]);
        rgba.push(rgb[3 * i + 2]);
        rgba.push(255);
        i = i + 1;
    }
    rgba
}

/// Each pixel keeps its three bytes and gains a full alpha.
pub proof fn pixels_keep_their_bytes(rgb: &[u8], pixels: usize, rgba: Vec<u8>, at: int)
    requires
        call_ensures(rgb_to_rgba, (rgb, pixels), rgba),
        0 <= at < 4 * pixels,
    ensures
        rgba.len() == 4 * pixels,
        rgba[at] == if at % 4 == 3 {
            255
        } else {
            rgb@[at / 4 * 3 + at % 4]
        },
{
    let (i, c) = (at / 4, at % 4);
    assert(at == 4 * i + c);
    if c == 3 {
        assert(rgba[4 * i + 3] == 255);
    } else {
        assert(rgba[4 * i + c] == rgb@[3 * i + c]);
    }
}

} // verus!
