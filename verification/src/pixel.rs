//! The shared canvas: pixels named by position, their colours, and the
//! 33-byte message that sets one.

use crate::bytes::copy_from;
use crate::crypto::{sha3_224, sha3_224_digest, sha3_256, sha3_256_digest};
use vstd::prelude::*;

verus! {

/// Width and height of the canvas.
pub const CANVAS_SIZE: u16 = 1000;

/// Number of colours in the palette.
pub const PALETTE_SIZE: u8 = 57;

/// The colour that every pixel has before it is set: white.
pub const INITIAL_COLOR: u8 = 7;

/// Length of the message that sets a pixel.
pub const BASE_MESSAGE_SIZE: usize = 33;

/// The palette, each colour as red, green, blue and alpha.
pub const COLOR_MAP: [[u8; 4]; 57] = [
    [0x00, 0x00, 0x00, 0xff],
    [0xe5, 0x00, 0x00, 0xff],
    [0x02, 0xbe, 0x01, 0xff],
    [0x00, 0x00, 0xea, 0xff],
    [0xf8, 0xf2, 0x08, 0xff],
    [0xfd, 0x5e, 0xf8, 0xff],
    [0x00, 0xd3, 0xdd, 0xff],
    [0xff, 0xff, 0xff, 0xff],
    [0x74, 0x15, 0xcd, 0xff],
    [0xf3, 0xc9, 0x9d, 0xff],
    [0x99, 0x99, 0x99, 0xff],
    [0xe5, 0x95, 0x00, 0xff],
    [0x00, 0x83, 0xc7, 0xff],
    [0x34, 0x71, 0x15, 0xff],
    [0x43, 0x27, 0x0a, 0xff],
    [0x86, 0x5a, 0x48, 0xff],
    [0xc5, 0x00, 0x00, 0xff],
    [0xff, 0x40, 0x40, 0xff],
    [0x00, 0x9e, 0x00, 0xff],
    [0x42, 0xfe, 0x41, 0xff],
    [0x00, 0x00, 0xca, 0xff],
    [0x40, 0x40, 0xff, 0xff],
    [0xc5, 0xb9, 0x00, 0xff],
    [0xff, 0xff, 0x40, 0xff],
    [0xdd, 0x3e, 0xd8, 0xff],
    [0xff, 0x9e, 0xff, 0xff],
    [0x00, 0xb3, 0xbd, 0xff],
    [0x40, 0xff, 0xff, 0xff],
    [0x54, 0x00, 0xad, 0xff],
    [0xb4, 0x55, 0xff, 0xff],
    [0xd3, 0xa9, 0x7d, 0xff],
    [0xff, 0xff, 0xdd, 0xff],
    [0x79, 0x79, 0x79, 0xff],
    [0xd9, 0xd9, 0xd9, 0xff],
    [0xc5, 0x75, 0x00, 0xff],
    [0xff, 0xd5, 0x40, 0xff],
    [0x00, 0x63, 0xa7, 0xff],
    [0x40, 0xc3, 0xff, 0xff],
    [0x14, 0x51, 0x00, 0xff],
    [0x74, 0xb1, 0x55, 0xff],
    [0x23, 0x07, 0x00, 0xff],
    [0x83, 0x67, 0x4a, 0xff],
    [0x66, 0x3a, 0x28, 0xff],
    [0xc6, 0x9a, 0x88, 0xff],
    [0x11, 0x11, 0x11, 0xff],
    [0x22, 0x22, 0x22, 0xff],
    [0x33, 0x33, 0x33, 0xff],
    [0x44, 0x44, 0x44, 0xff],
    [0x55, 0x55, 0x55, 0xff],
    [0x66, 0x66, 0x66, 0xff],
    [0x77, 0x77, 0x77, 0xff],
    [0x88, 0x88, 0x88, 0xff],
    [0xaa, 0xaa, 0xaa, 0xff],
    [0xbb, 0xbb, 0xbb, 0xff],
    [0xcc, 0xcc, 0xcc, 0xff],
    [0xdd, 0xdd, 0xdd, 0xff],
    [0xee, 0xee, 0xee, 0xff],
];

/// A position on the canvas and the colour set there.
#[derive(Clone, Copy, Debug, PartialEq, Eq, Structural)]
pub struct Pixel {
    pub x: u16,
    pub y: u16,
    pub color: u8,
}

/// The message that sets `pixel` on top of the pixel hash `back_hash`: the
/// hash, then the two coordinates, most significant byte first, then the
/// colour.
pub open spec fn pixel_message(back_hash: Seq<u8>, pixel: Pixel) -> Seq<u8> {
    back_hash + seq![
        (pixel.x / 0x100) as u8,
        (pixel.x % 0x100) as u8,
        (pixel.y / 0x100) as u8,
        (pixel.y % 0x100) as u8,
        pixel.color,
    ]
}

impl Pixel {
    /// On the canvas, in a colour of the palette.
    pub open spec fn on_canvas(&self) -> bool {
        self.x < CANVAS_SIZE && self.y < CANVAS_SIZE && self.color < PALETTE_SIZE
    }

    /// Whether the pixel is on the canvas, in a colour of the palette.
    pub fn is_on_canvas(&self) -> (r: bool)
        ensures
            r == self.on_canvas(),
    {
        self.x < CANVAS_SIZE && self.y < CANVAS_SIZE && self.color < PALETTE_SIZE
    }

    /// The colour of the pixel as red, green, blue and alpha, where it is a
    /// colour of the palette.
    pub fn rgba(&self) -> (r: Option<[u8; 4]>)
        ensures
            r == if self.color < PALETTE_SIZE {
                Some(COLOR_MAP[self.color as int])
            } else {
                None
            },
    {
        if self.color < PALETTE_SIZE {
            Some(COLOR_MAP[self.color as usize])
        } else {
            None
        }
    }
}

/// The message that sets `pixel` on top of the pixel hash `back_hash`.
pub fn base_message(back_hash: &[u8; 28], pixel: Pixel) -> (r: [u8; 33])
    ensures
        r@ == pixel_message(back_hash@, pixel),
{
    let mut r = [0u8; 33];
    let mut j: usize = 0;
    while j < 28
        invariant
            j <= 28,
            forall|k: int| 0 <= k < j ==> r@[k] == back_hash@[k],
        decreases 28 - j,
    {
        r[j] = back_hash[j];
        j += 1;
    }
    r[28] = (pixel.x / 0x100) as u8;
    r[29] = (pixel.x % 0x100) as u8;
    r[30] = (pixel.y / 0x100) as u8;
    r[31] = (pixel.y % 0x100) as u8;
    r[32] = pixel.color;
    assert(r@ =~= pixel_message(back_hash@, pixel));
    r
}

/// The pixel hash and the pixel that a message names. Every message names
/// one, on the canvas or off it.
pub fn read_message(message: &[u8; 33]) -> (r: ([u8; 28], Pixel))
    ensures
        message@ == pixel_message(r.0@, r.1),
{
    let mut back_hash = [0u8; 28];
    copy_from(&mut back_hash, message, 0);
    let pixel = Pixel {
        x: (message[28] as u16) * 0x100 + message[29] as u16,
        y: (message[30] as u16) * 0x100 + message[31] as u16,
        color: message[32],
    };
    assert(message@ =~= pixel_message(back_hash@, pixel));
    (back_hash, pixel)
}

/// A message names the pixel hash and the pixel it was made from, and no
/// other.
pub proof fn lemma_message_names_one(a: Seq<u8>, p: Pixel, b: Seq<u8>, q: Pixel)
    requires
        a.len() == 28,
        b.len() == 28,
        pixel_message(a, p) == pixel_message(b, q),
    ensures
        a == b,
        p == q,
{
    let m = pixel_message(a, p);
    let n = pixel_message(b, q);
    assert(a =~= m.subrange(0, 28));
    assert(b =~= n.subrange(0, 28));
    assert(m[28] == n[28] && m[29] == n[29] && m[30] == n[30] && m[31] == n[31] && m[32] == n[32]);
}

/// The hash that names a pixel set on top of `back_hash`: the SHA3-224
/// digest of its message.
pub fn calc_pixel_hash(x: u16, y: u16, color: u8, back_hash: [u8; 28]) -> (r: [u8; 28])
    ensures
        r@ == sha3_224(pixel_message(back_hash@, Pixel { x, y, color })),
{
    let to_digest = base_message(&back_hash, Pixel { x, y, color });
    sha3_224_digest(&to_digest)
}

/// The identifier that a message mints: its SHA3-256 digest.
pub fn message_id(message: &[u8; 33]) -> (r: [u8; 32])
    ensures
        r@ == sha3_256(message@),
{
    sha3_256_digest(message)
}

/// The pixel hash that the first setting of a position builds on: that of
/// the initial colour on top of 28 zero bytes.
pub fn initial_hash(x: u16, y: u16) -> (r: [u8; 28])
    ensures
        r@ == sha3_224(
            pixel_message(Seq::new(28, |k: int| 0u8), Pixel { x, y, color: INITIAL_COLOR }),
        ),
{
    let mut zero = [0u8; 28];
    let mut j: usize = 0;
    while j < 28
        invariant
            j <= 28,
            forall|k: int| 0 <= k < j ==> zero@[k] == 0,
        decreases 28 - j,
    {
        zero[j] = 0;
        j += 1;
    }
    assert(zero@ =~= Seq::new(28, |k: int| 0u8));
    calc_pixel_hash(x, y, INITIAL_COLOR, zero)
}

} // verus!
