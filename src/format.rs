use vstd::prelude::*;

verus! {

/// How the bytes of the pixel payload map to pixel channels.
#[derive(Debug, Clone, Copy, PartialEq, Eq, Structural)]
pub enum CteFormat {
    /// One byte per pixel: four bits of luminance (high nibble) and four bits of alpha.
    A8,
}

/// The numeric identifier of a format as written in the file header.
pub open spec fn format_id(f: CteFormat) -> u32 {
    match f {
        CteFormat::A8 => 8,
    }
}

/// The number of bits a pixel of the given format takes in the payload.
pub open spec fn format_bits(f: CteFormat) -> u32 {
    match f {
        CteFormat::A8 => 8,
    }
}

/// The format whose identifier is `id`, if any.
pub open spec fn format_of_id(id: u32) -> Option<CteFormat> {
    if id == 8 {
        Some(CteFormat::A8)
    } else {
        None
    }
}

/// The RGBA pixel that an A8 byte stands for: the high nibble as raw luminance
/// on the three colour channels, the low nibble scaled by 16 as alpha.
pub open spec fn unpack_a8(v: u8) -> Seq<u8> {
    seq![(v / 16) as u8, (v / 16) as u8, (v / 16) as u8, ((v % 16) * 16) as u8]
}

/// The A8 byte for an RGBA pixel: the truncated mean of the colour channels,
/// shifted into the high nibble (bits above the byte dropped), plus the top
/// four bits of alpha.
pub open spec fn pack_a8(r: u8, g: u8, b: u8, a: u8) -> u8 {
    ((((r + g + b) / 3) % 16) * 16 + a / 16) as u8
}

/// The pixel that byte `v` stands for in format `f`.
pub open spec fn unpack_spec(f: CteFormat, v: u8) -> Seq<u8> {
    match f {
        CteFormat::A8 => unpack_a8(v),
    }
}

/// The byte that stands for pixel `(r, g, b, a)` in format `f`.
pub open spec fn pack_spec(f: CteFormat, r: u8, g: u8, b: u8, a: u8) -> u8 {
    match f {
        CteFormat::A8 => pack_a8(r, g, b, a),
    }
}

impl CteFormat {
    /// The format with identifier `id`, or `None` for an unknown identifier.
    pub fn from_id(id: u32) -> (r: Option<Self>)
        ensures
            r == format_of_id(id),
            r matches Some(f) ==> format_id(f) == id,
    {
        match id {
            8 => Some(Self::A8),
            _ => None,
        }
    }

    /// The identifier written in the header for this format.
    pub fn get_id(&self) -> (r: u32)
        ensures
            r == format_id(*self),
            format_of_id(r) == Some(*self),
    {
        match self {
            Self::A8 => 8,
        }
    }

    /// Whether `lenght` is the bit length of a pixel of this format.
    pub fn check_pixel_lenght_bit(&self, lenght: u32) -> (r: bool)
        ensures
            r == (lenght == format_bits(*self)),
    {
        lenght == self.get_pixel_length_bit()
    }

    /// The number of bits a pixel of this format takes in the payload.
    pub fn get_pixel_length_bit(&self) -> (r: u32)
        ensures
            r == format_bits(*self),
    {
        match self {
            Self::A8 => 8,
        }
    }

    /// The RGBA pixel that the payload byte `v` stands for.
    pub fn unpack_pixel(&self, v: u8) -> (r: [u8; 4])
        ensures
            r@ == unpack_spec(*self, v),
    {
        match self {
            Self::A8 => {
                let white: u8 = v / 16;
                let alpha: u8 = (v % 16) * 16;
                let r = [white, white, white, alpha];
                assert(r@ =~= unpack_a8(v));
                r
            },
        }
    }

    /// The payload byte that stands for the RGBA pixel `(r, g, b, a)`.
    pub fn pack_pixel(&self, r: u8, g: u8, b: u8, a: u8) -> (res: u8)
        ensures
            res == pack_spec(*self, r, g, b, a),
    {
        match self {
            Self::A8 => {
                let sum: u16 = r as u16 + g as u16 + b as u16;
                let white: u8 = (sum / 3) as u8;
                let high: u8 = (white % 16) * 16;
                high + a / 16
            },
        }
    }
}

/// Unpacking the byte that a pixel packs to gives the mean of its colour
/// channels reduced to four bits as luminance, and its alpha with the low four
/// bits cleared: an alpha of 255 comes back as 240.
pub proof fn lemma_pack_unpack(f: CteFormat, r: u8, g: u8, b: u8, a: u8)
    ensures
        unpack_spec(f, pack_spec(f, r, g, b, a)) == seq![
            (((r + g + b) / 3) % 16) as u8,
            (((r + g + b) / 3) % 16) as u8,
            (((r + g + b) / 3) % 16) as u8,
            ((a / 16) * 16) as u8,
        ],
        a == 255 ==> unpack_spec(f, pack_spec(f, r, g, b, a))[3] == 240,
{
    let l: int = ((r + g + b) / 3) % 16;
    let v = pack_spec(f, r, g, b, a);
    assert(v == l * 16 + a / 16);
    assert(v / 16 == l && v % 16 == a / 16) by (nonlinear_arith)
        requires v == l * 16 + a / 16, 0 <= l < 16, 0 <= a / 16 < 16;
    assert(unpack_spec(f, v) =~= seq![l as u8, l as u8, l as u8, ((a / 16) * 16) as u8]);
}

} // verus!
