//! Colors, the built-in palettes and the nearest-color mapper.

use crate::dither::QuantizationError;
use vstd::prelude::*;

verus! {

/// Available color palettes for dithering.
#[derive(Copy, Clone, Debug, PartialEq, Eq, Structural)]
pub enum ColorPalette {
    /// Black and white palette (2 colors)
    Monochrome,
    /// 8-color palette
    COLOR8,
    /// 16-color palette
    COLOR16,
}

impl Default for ColorPalette {
    fn default() -> (palette: Self)
        ensures
            palette == ColorPalette::Monochrome,
    {
        ColorPalette::Monochrome
    }
}

/// Represents an RGB color.
#[derive(Copy, Clone, Debug, PartialEq, Eq, Structural)]
pub struct Color {
    /// Red component (0-255)
    pub r: u8,
    /// Green component (0-255)
    pub g: u8,
    /// Blue component (0-255)
    pub b: u8,
}

impl Color {
    /// The color packed as `0xRRGGBB` in the low 24 bits of `v`.
    pub open spec fn unpack(v: u32) -> Color {
        Color {
            r: ((v / 0x10000) % 0x100) as u8,
            g: ((v / 0x100) % 0x100) as u8,
            b: (v % 0x100) as u8,
        }
    }

    /// The color whose channels are the first three samples of `v`.
    pub fn from_slice(v: &[u8]) -> (color: Color)
        requires
            v@.len() >= 3,
        ensures
            color == (Color { r: v@[0], g: v@[1], b: v@[2] }),
    {
        Color { r: v[0], g: v[1], b: v[2] }
    }

    /// Squared Euclidean distance between two colors in RGB space.
    pub open spec fn distance(self, other: Color) -> int {
        (self.r - other.r) * (self.r - other.r) + (self.g - other.g) * (self.g - other.g) + (self.b
            - other.b) * (self.b - other.b)
    }

    /// What is lost when `chosen` stands in for `self`.
    pub open spec fn error_to(self, chosen: Color) -> QuantizationError {
        QuantizationError {
            r: (self.r - chosen.r) as i16,
            g: (self.g - chosen.g) as i16,
            b: (self.b - chosen.b) as i16,
        }
    }

    fn squared_distance(&self, other: &Color) -> (d: u32)
        ensures
            d == self.distance(*other),
            d <= 195075,
    {
        let dr: i32 = self.r as i32 - other.r as i32;
        let dg: i32 = self.g as i32 - other.g as i32;
        let db: i32 = self.b as i32 - other.b as i32;
        assert(0 <= dr * dr <= 65025) by (nonlinear_arith)
            requires
                -255 <= dr <= 255,
        ;
        assert(0 <= dg * dg <= 65025) by (nonlinear_arith)
            requires
                -255 <= dg <= 255,
        ;
        assert(0 <= db * db <= 65025) by (nonlinear_arith)
            requires
                -255 <= db <= 255,
        ;
        (dr * dr + dg * dg + db * db) as u32
    }
}

impl From<u32> for Color {
    fn from(v: u32) -> (color: Color) {
        assert((v >> 16) & 0xff == (v / 0x10000) % 0x100) by (bit_vector);
        assert((v >> 8) & 0xff == (v / 0x100) % 0x100) by (bit_vector);
        assert(v & 0xff == v % 0x100) by (bit_vector);
        Color { r: ((v >> 16) & 0xFF) as u8, g: ((v >> 8) & 0xFF) as u8, b: (v & 0xFF) as u8 }
    }
}

impl vstd::std_specs::convert::FromSpecImpl<u32> for Color {
    open spec fn obeys_from_spec() -> bool {
        true
    }

    open spec fn from_spec(v: u32) -> Color {
        Color::unpack(v)
    }
}

/// 16-color palette with a diverse range of colors, packed as `0xRRGGBB`.
pub const PALETTE_16C: [u32; 16] = [
    0x000000,
    0x9d9d9d,
    0xffffff,
    0xbe2633,
    0xe06f8b,
    0x493c2b,
    0xa46422,
    0xeb8931,
    0xf7e26b,
    0x2f484e,
    0x44891a,
    0xa3ce27,
    0x1b2632,
    0x005784,
    0x31a2f2,
    0xb2dcef,
];

/// 8-color palette with primary colors, packed as `0xRRGGBB`.
pub const PALETTE_8C: [u32; 8] = [
    0x000000,
    0xcc3500,
    0x5ec809,
    0x1d286f,
    0x00c4ff,
    0x8e8e8e,
    0xffe052,
    0xffffff,
];

/// Black and white, packed as `0xRRGGBB`.
pub const PALETTE_MONOCHROME: [u32; 2] = [0x000000, 0xffffff];

/// The colors that a table of packed values holds, in the same order.
pub open spec fn unpacked(packed: Seq<u32>) -> Seq<Color> {
    Seq::new(packed.len(), |i: int| Color::unpack(packed[i]))
}

/// Unpacks a table of `0xRRGGBB` values.
pub fn unpack_all(packed: &[u32]) -> (colors: Vec<Color>)
    ensures
        colors@ == unpacked(packed@),
{
    let mut colors: Vec<Color> = Vec::new();
    let mut i: usize = 0;
    while i < packed.len()
        invariant
            i <= packed@.len(),
            colors@.len() == i,
            forall|j: int| 0 <= j < i ==> colors@[j] == Color::unpack(#[trigger] packed@[j]),
        decreases packed@.len() - i,
    {
        colors.push(Color::from(packed[i]));
        i += 1;
    }
    assert(colors@ =~= unpacked(packed@));
    colors
}

impl View for ColorPalette {
    type V = Seq<Color>;

    /// The color table that the selector stands for.
    open spec fn view(&self) -> Seq<Color> {
        match self {
            ColorPalette::Monochrome => unpacked(PALETTE_MONOCHROME@),
            ColorPalette::COLOR8 => unpacked(PALETTE_8C@),
            ColorPalette::COLOR16 => unpacked(PALETTE_16C@),
        }
    }
}

impl ColorPalette {
    /// The color table that the selector stands for.
    pub fn colors(self) -> (colors: Vec<Color>)
        ensures
            colors@ == self@,
            colors@.len() > 0,
    {
        match self {
            ColorPalette::Monochrome => unpack_all(&PALETTE_MONOCHROME),
            ColorPalette::COLOR8 => unpack_all(&PALETTE_8C),
            ColorPalette::COLOR16 => unpack_all(&PALETTE_16C),
        }
    }
}

/// The monochrome palette is black followed by white.
pub proof fn lemma_monochrome_colors()
    ensures
        ColorPalette::Monochrome@ == seq![
            Color { r: 0, g: 0, b: 0 },
            Color { r: 255, g: 255, b: 255 },
        ],
{
    assert(ColorPalette::Monochrome@ =~= seq![
        Color { r: 0, g: 0, b: 0 },
        Color { r: 255, g: 255, b: 255 },
    ]);
}

/// `i` is the position of the palette entry closest to `color`; among
/// entries at the same distance the first one counts.
pub open spec fn is_nearest(color: Color, palette: Seq<Color>, i: int) -> bool {
    &&& 0 <= i < palette.len()
    &&& forall|j: int|
        0 <= j < palette.len() ==> color.distance(palette[i]) <= color.distance(#[trigger] palette[j])
    &&& forall|j: int| 0 <= j < i ==> color.distance(palette[i]) < color.distance(#[trigger] palette[j])
}

/// Position of the palette entry that `color` maps to. Meaningful for a
/// non-empty palette, where exactly one position satisfies [`is_nearest`].
pub open spec fn nearest_index(color: Color, palette: Seq<Color>) -> int {
    choose|i: int| is_nearest(color, palette, i)
}

/// The palette entry that `color` maps to.
pub open spec fn nearest(color: Color, palette: Seq<Color>) -> Color {
    palette[nearest_index(color, palette)]
}

/// At most one position is the nearest one.
pub proof fn lemma_nearest_unique(color: Color, palette: Seq<Color>, i: int, j: int)
    requires
        is_nearest(color, palette, i),
        is_nearest(color, palette, j),
    ensures
        i == j,
{
    if i < j {
        assert(color.distance(palette[j]) < color.distance(palette[i]));
    } else if j < i {
        assert(color.distance(palette[i]) < color.distance(palette[j]));
    }
}

/// Position of the first entry that is closest to `color` among the first
/// `n` entries of the palette.
spec fn first_nearest(color: Color, palette: Seq<Color>, n: int) -> int
    decreases n,
{
    if n <= 1 {
        0
    } else {
        let best = first_nearest(color, palette, n - 1);
        if color.distance(palette[n - 1]) < color.distance(palette[best]) {
            n - 1
        } else {
            best
        }
    }
}

/// [`first_nearest`] finds the nearest entry of a prefix of the palette.
proof fn lemma_first_nearest(color: Color, palette: Seq<Color>, n: int)
    requires
        1 <= n <= palette.len(),
    ensures
        is_nearest(color, palette.take(n), first_nearest(color, palette, n)),
    decreases n,
{
    let prefix = palette.take(n);
    if n > 1 {
        lemma_first_nearest(color, palette, n - 1);
        let shorter = palette.take(n - 1);
        let best = first_nearest(color, palette, n - 1);
        let now = first_nearest(color, palette, n);
        assert forall|j: int| 0 <= j < n implies color.distance(prefix[now]) <= color.distance(
            #[trigger] prefix[j],
        ) by {
            if j < n - 1 {
                assert(shorter[j] == prefix[j]);
            }
        }
        assert forall|j: int| 0 <= j < now implies color.distance(prefix[now]) < color.distance(
            #[trigger] prefix[j],
        ) by {
            if j < n - 1 {
                assert(shorter[j] == prefix[j]);
            }
        }
    }
}

/// Every color has a nearest entry in a non-empty palette.
pub proof fn lemma_nearest_exists(color: Color, palette: Seq<Color>)
    requires
        palette.len() > 0,
    ensures
        is_nearest(color, palette, nearest_index(color, palette)),
        0 <= nearest_index(color, palette) < palette.len(),
{
    lemma_first_nearest(color, palette, palette.len() as int);
    assert(palette.take(palette.len() as int) =~= palette);
}

/// Two colors are at distance zero exactly when they are the same color.
pub proof fn lemma_distance_zero(a: Color, b: Color)
    ensures
        a.distance(b) >= 0,
        a.distance(b) == 0 <==> a == b,
{
    let dr = a.r - b.r;
    let dg = a.g - b.g;
    let db = a.b - b.b;
    assert(dr * dr >= 0 && (dr * dr == 0 <==> dr == 0)) by (nonlinear_arith);
    assert(dg * dg >= 0 && (dg * dg == 0 <==> dg == 0)) by (nonlinear_arith);
    assert(db * db >= 0 && (db * db == 0 <==> db == 0)) by (nonlinear_arith);
}

/// A color that the palette holds maps to itself, and nothing is lost:
/// the entry chosen for `palette[i]` is equal to `palette[i]`, stands at
/// position `i` or before it, and the quantization error is zero.
pub proof fn lemma_palette_entry_maps_to_itself(palette: Seq<Color>, i: int)
    requires
        0 <= i < palette.len(),
    ensures
        nearest(palette[i], palette) == palette[i],
        0 <= nearest_index(palette[i], palette) <= i,
        palette[i].error_to(nearest(palette[i], palette)) == (QuantizationError {
            r: 0,
            g: 0,
            b: 0,
        }),
{
    let color = palette[i];
    let k = nearest_index(color, palette);
    lemma_nearest_exists(color, palette);
    lemma_distance_zero(color, palette[i]);
    lemma_distance_zero(color, palette[k]);
    assert(color.distance(palette[k]) <= color.distance(palette[i]));
    if i < k {
        assert(color.distance(palette[k]) < color.distance(palette[i]));
    }
}

/// Of two entries, the later one is never chosen unless it is strictly
/// closer: among entries at the same distance the first one wins.
pub proof fn lemma_first_of_equidistant_wins(color: Color, palette: Seq<Color>, i: int, j: int)
    requires
        0 <= i < j < palette.len(),
        color.distance(palette[i]) <= color.distance(palette[j]),
    ensures
        nearest_index(color, palette) != j,
{
    lemma_nearest_exists(color, palette);
    if nearest_index(color, palette) == j {
        assert(color.distance(palette[j]) < color.distance(palette[i]));
    }
}

/// Maps a color to the closest color in the given palette.
///
/// Returns the closest palette color and the quantization error. Closeness
/// is the squared Euclidean distance in RGB space; of several entries at
/// the smallest distance the first in the palette wins.
pub fn map_to_palette<'a>(orig_color: Color, palette: &'a [Color]) -> (res: (
    &'a Color,
    QuantizationError,
))
    requires
        palette@.len() > 0,
    ensures
        is_nearest(orig_color, palette@, nearest_index(orig_color, palette@)),
        *res.0 == nearest(orig_color, palette@),
        res.1 == orig_color.error_to(*res.0),
{
    let mut best: usize = 0;
    let mut min_distance: u32 = orig_color.squared_distance(&palette[0]);
    let mut i: usize = 1;
    while i < palette.len()
        invariant
            1 <= i <= palette@.len(),
            best < i,
            min_distance == orig_color.distance(palette@[best as int]),
            forall|j: int| 0 <= j < i ==> min_distance <= orig_color.distance(#[trigger] palette@[j]),
            forall|j: int| 0 <= j < best ==> min_distance < orig_color.distance(#[trigger] palette@[j]),
        decreases palette@.len() - i,
    {
        let distance: u32 = orig_color.squared_distance(&palette[i]);
        if distance < min_distance {
            best = i;
            min_distance = distance;
        }
        i += 1;
    }
    let color = &palette[best];
    proof {
        assert(is_nearest(orig_color, palette@, best as int));
        lemma_nearest_unique(
            orig_color,
            palette@,
            best as int,
            nearest_index(orig_color, palette@),
        );
    }
    let qe = QuantizationError {
        r: orig_color.r as i16 - color.r as i16,
        g: orig_color.g as i16 - color.g as i16,
        b: orig_color.b as i16 - color.b as i16,
    };
    (color, qe)
}

} // verus!
