use vstd::prelude::*;

verus! {

/// One RGB pixel: three 8-bit channels. A plain value type; equality is
/// structural.
#[derive(Clone, Copy, Debug, PartialEq, Eq, Structural)]
pub struct Pixel {
    pub r: u8,
    pub g: u8,
    pub b: u8,
}

impl Pixel {
    pub fn new(r: u8, g: u8, b: u8) -> (p: Pixel)
        ensures
            p == (Pixel { r, g, b }),
    {
        Pixel { r, g, b }
    }

    pub fn black() -> (p: Pixel)
        ensures
            p == (Pixel { r: 0u8, g: 0u8, b: 0u8 }),
    {
        Pixel { r: 0, g: 0, b: 0 }
    }

    pub fn unit() -> (p: Pixel)
        ensures
            p == (Pixel { r: 1u8, g: 1u8, b: 1u8 }),
    {
        Pixel { r: 1, g: 1, b: 1 }
    }

    pub fn white() -> (p: Pixel)
        ensures
            p == (Pixel { r: 255u8, g: 255u8, b: 255u8 }),
    {
        Pixel { r: 255, g: 255, b: 255 }
    }

    pub fn red() -> (p: Pixel)
        ensures
            p == (Pixel { r: 255u8, g: 0u8, b: 0u8 }),
    {
        Pixel { r: 255, g: 0, b: 0 }
    }

    pub fn green() -> (p: Pixel)
        ensures
            p == (Pixel { r: 0u8, g: 255u8, b: 0u8 }),
    {
        Pixel { r: 0, g: 255, b: 0 }
    }

    pub fn blue() -> (p: Pixel)
        ensures
            p == (Pixel { r: 0u8, g: 0u8, b: 255u8 }),
    {
        Pixel { r: 0, g: 0, b: 255 }
    }

    pub fn purple() -> (p: Pixel)
        ensures
            p == (Pixel { r: 255u8, g: 0u8, b: 255u8 }),
    {
        Pixel { r: 255, g: 0, b: 255 }
    }

    /// Component-wise scalar multiplication. Each channel is multiplied by
    /// `k` with wrapping 8-bit arithmetic (the product is reduced modulo
    /// 256); this is the documented overflow behaviour of scaling.
    pub fn scale(self, k: u8) -> (p: Pixel)
        ensures
            p.r == (self.r as int * k as int) % 256,
            p.g == (self.g as int * k as int) % 256,
            p.b == (self.b as int * k as int) % 256,
    {
        let kk: u16 = k as u16;
        let r1: u16 = self.r as u16;
        let g1: u16 = self.g as u16;
        let b1: u16 = self.b as u16;
        proof {
            assert(r1 * kk <= 255 * 255 && g1 * kk <= 255 * 255 && b1 * kk <= 255 * 255)
                by (nonlinear_arith)
                requires
                    r1 <= 255,
                    g1 <= 255,
                    b1 <= 255,
                    kk <= 255,
            ;
        }
        Pixel { r: ((r1 * kk) % 256) as u8, g: ((g1 * kk) % 256) as u8, b: ((b1 * kk) % 256) as u8 }
    }
}

} // verus!
