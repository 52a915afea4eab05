//! The colours an identicon is painted in.

use vstd::prelude::*;

verus! {

/// A colour as red, green and blue.
pub type Color = (u8, u8, u8);

/// The colour of every unpainted part of the canvas.
pub const BACKGROUND: Color = (240, 240, 240);

/// How many foreground colours there are to choose from.
pub const PALETTE_SIZE: usize = 16;

/// The foreground palette: dark shades that stand out against the
/// background.
pub const DARK_COLORS: [Color; 16] = [
    (183, 28, 28),
    (136, 14, 79),
    (74, 20, 140),
    (49, 27, 146),
    (26, 35, 126),
    (13, 71, 161),
    (1, 87, 155),
    (0, 96, 100),
    (0, 77, 64),
    (27, 94, 32),
    (51, 105, 30),
    (130, 119, 23),
    (230, 81, 0),
    (191, 54, 12),
    (62, 39, 35),
    (38, 50, 56),
];

/// The palette bytes `11`, `12` and `15` of a digest point at: their sum,
/// reduced modulo the palette's size.
pub open spec fn foreground_index(digest: Seq<u8>) -> int
    recommends
        digest.len() == 16,
{
    (digest[11] + digest[12] + digest[15]) % (PALETTE_SIZE as int)
}

/// The foreground colour that belongs to a digest.
pub open spec fn foreground_of(digest: Seq<u8>) -> Color
    recommends
        digest.len() == 16,
{
    DARK_COLORS@[foreground_index(digest)]
}

/// Chooses the foreground colour for a digest. The choice reads three
/// whole bytes and is independent of the half-bytes that shape the pattern.
pub fn foreground(hash: &[u8; 16]) -> (color: Color)
    ensures
        color == foreground_of(hash@),
{
    let sum: usize = hash[11] as usize + hash[12] as usize + hash[15] as usize;
    DARK_COLORS[sum % PALETTE_SIZE]
}

} // verus!
