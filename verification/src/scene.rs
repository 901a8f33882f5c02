use vstd::prelude::*;

verus! {

/// The display color of body `index` of the solar system scene; every other body
/// is drawn greyish.
pub open spec fn body_color(index: int) -> [u8; 4] {
    if index == 0 {
        [255u8, 255u8, 0u8, 255u8]
    } else if index == 1 {
        [165u8, 165u8, 165u8, 255u8]
    } else if index == 2 {
        [255u8, 198u8, 107u8, 255u8]
    } else if index == 3 {
        [100u8, 149u8, 237u8, 255u8]
    } else if index == 4 {
        [255u8, 69u8, 0u8, 255u8]
    } else if index == 5 {
        [210u8, 180u8, 140u8, 255u8]
    } else if index == 6 {
        [238u8, 232u8, 170u8, 255u8]
    } else if index == 7 {
        [173u8, 216u8, 230u8, 255u8]
    } else if index == 8 {
        [65u8, 105u8, 225u8, 255u8]
    } else if index == 9 {
        [224u8, 255u8, 255u8, 255u8]
    } else if index == 10 {
        [139u8, 69u8, 19u8, 255u8]
    } else {
        [200u8, 200u8, 200u8, 255u8]
    }
}

/// Every body past the eleventh is drawn in the same grey, every body is opaque, and
/// the Sun (body 0) is yellow.
pub proof fn lemma_body_colors(index: int)
    requires
        index >= 0,
    ensures
        index > 10 ==> body_color(index) == [200u8, 200u8, 200u8, 255u8],
        body_color(index)[3] == 255,
        body_color(0) == [255u8, 255u8, 0u8, 255u8],
{
}

/// The color in which body `index` is drawn: yellow for the Sun (index 0), then the
/// planets in order from Mercury, two small bodies, and grey for all others.
pub fn get_body_color(index: usize) -> (c: [u8; 4])
    ensures
        c == body_color(index as int),
        index == 0 ==> c == [255u8, 255u8, 0u8, 255u8],
        index == 1 ==> c == [165u8, 165u8, 165u8, 255u8],
        index == 2 ==> c == [255u8, 198u8, 107u8, 255u8],
        index == 3 ==> c == [100u8, 149u8, 237u8, 255u8],
        index == 4 ==> c == [255u8, 69u8, 0u8, 255u8],
        index == 5 ==> c == [210u8, 180u8, 140u8, 255u8],
        index == 6 ==> c == [238u8, 232u8, 170u8, 255u8],
        index == 7 ==> c == [173u8, 216u8, 230u8, 255u8],
        index == 8 ==> c == [65u8, 105u8, 225u8, 255u8],
        index == 9 ==> c == [224u8, 255u8, 255u8, 255u8],
        index == 10 ==> c == [139u8, 69u8, 19u8, 255u8],
        index > 10 ==> c == [200u8, 200u8, 200u8, 255u8],
        c[3] == 255,
{
    match index {
        0 => [255, 255, 0, 255],
        1 => [165, 165, 165, 255],
        2 => [255, 198, 107, 255],
        3 => [100, 149, 237, 255],
        4 => [255, 69, 0, 255],
        5 => [210, 180, 140, 255],
        6 => [238, 232, 170, 255],
        7 => [173, 216, 230, 255],
        8 => [65, 105, 225, 255],
        9 => [224, 255, 255, 255],
        10 => [139, 69, 19, 255],
        _ => [200, 200, 200, 255],
    }
}

/// The dimmer color of a trail: each of red, green and blue is halved (rounding down)
/// and the trail is opaque.
pub fn trail_color(color: [u8; 4]) -> (c: [u8; 4])
    ensures
        c[0] == color[0] / 2,
        c[1] == color[1] / 2,
        c[2] == color[2] / 2,
        c[3] == 255,
{
    [color[0] / 2, color[1] / 2, color[2] / 2, 255]
}

/// The radii in AU of the reference circles of the ecliptic grid: every 1 AU up to
/// 10 AU, then every 5 AU up to 35 AU.
pub open spec fn grid_radius(k: int) -> int {
    if k < 10 {
        k + 1
    } else {
        10 + 5 * (k - 9)
    }
}

/// The radii in AU of the circles of the ecliptic grid, innermost first.
pub fn grid_radii() -> (radii: Vec<u32>)
    ensures
        radii@.len() == 15,
        forall|k: int| 0 <= k < 15 ==> #[trigger] radii@[k] == grid_radius(k),
        radii@ == seq![1u32, 2, 3, 4, 5, 6, 7, 8, 9, 10, 15, 20, 25, 30, 35],
{
    let mut radii: Vec<u32> = Vec::new();
    let mut i: u32 = 1;
    while i <= 10
        invariant
            1 <= i <= 11,
            radii@.len() == i - 1,
            forall|k: int| 0 <= k < radii@.len() ==> #[trigger] radii@[k] == grid_radius(k),
        decreases 11 - i,
    {
        radii.push(i);
        i += 1;
    }
    let mut r: u32 = 15;
    while r <= 35
        invariant
            15 <= r <= 40,
            r % 5 == 0,
            radii@.len() == 10 + (r - 15) / 5,
            forall|k: int| 0 <= k < radii@.len() ==> #[trigger] radii@[k] == grid_radius(k),
        decreases 40 - r,
    {
        radii.push(r);
        r += 5;
    }
    assert(radii@ =~= seq![1u32, 2, 3, 4, 5, 6, 7, 8, 9, 10, 15, 20, 25, 30, 35]);
    radii
}

} // verus!
