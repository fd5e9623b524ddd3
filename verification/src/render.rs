//! The plain-text serializer. A buffer renders as a 2-character tag line,
//! a line with the width and the height, a line with the maximum channel
//! value, and then one line per pixel holding its three channels, each
//! right-aligned in a 3-character field, in storage order (top row first,
//! left to right within a row).

use vstd::prelude::*;

use crate::image::ImagePPM;
use crate::pixel::Pixel;

verus! {

/// The decimal digits of n, as ASCII bytes, most significant first.
pub open spec fn dec_bytes(n: nat) -> Seq<u8>
    decreases n,
{
    if n < 10 {
        seq![(48 + n) as u8]
    } else {
        dec_bytes(n / 10).push((48 + n % 10) as u8)
    }
}

/// One channel value, right-aligned with spaces in a 3-character field.
pub open spec fn channel_field(v: u8) -> Seq<u8> {
    if v < 10 {
        seq![32u8, 32u8] + dec_bytes(v as nat)
    } else if v < 100 {
        seq![32u8] + dec_bytes(v as nat)
    } else {
        dec_bytes(v as nat)
    }
}

/// The output line for one pixel: the three channel fields separated by
/// single spaces, then a newline.
pub open spec fn pixel_line(p: Pixel) -> Seq<u8> {
    channel_field(p.r) + seq![32u8] + channel_field(p.g) + seq![32u8] + channel_field(p.b)
        + seq![10u8]
}

/// The pixel lines of a stored pixel sequence, in storage order.
pub open spec fn body_bytes(pix: Seq<Pixel>) -> Seq<u8>
    decreases pix.len(),
{
    if pix.len() == 0 {
        Seq::empty()
    } else {
        pixel_line(pix[0]) + body_bytes(pix.drop_first())
    }
}

/// The three header lines: the tag "P3", the dimensions, and the maximum
/// channel value 255.
pub open spec fn header_bytes(w: nat, h: nat) -> Seq<u8> {
    seq![80u8, 51u8, 10u8] + dec_bytes(w) + seq![32u8] + dec_bytes(h) + seq![10u8] + seq![
        50u8,
        53u8,
        53u8,
        10u8,
    ]
}

/// The complete textual form of a buffer, as bytes.
pub open spec fn rendering(img: ImagePPM) -> Seq<u8> {
    header_bytes(img.width() as nat, img.height() as nat) + body_bytes(img.storage())
}

/// A sequence of lines, repeated n times.
pub open spec fn repeated(s: Seq<u8>, n: nat) -> Seq<u8>
    decreases n,
{
    if n == 0 {
        Seq::empty()
    } else {
        s + repeated(s, (n - 1) as nat)
    }
}

/// Whether every byte is ASCII.
pub open spec fn ascii_seq(s: Seq<u8>) -> bool {
    forall|i: int| 0 <= i < s.len() ==> s[i] < 128
}

/// Appends the decimal digits of n.
fn push_dec(out: &mut Vec<u8>, n: usize)
    ensures
        final(out)@ == old(out)@ + dec_bytes(n as nat),
    decreases n,
{
    if n >= 10 {
        push_dec(out, n / 10);
        let d: u8 = (n % 10) as u8 + 48;
        out.push(d);
        proof {
            assert(final(out)@ =~= old(out)@ + dec_bytes(n as nat));
        }
    } else {
        let d: u8 = n as u8 + 48;
        out.push(d);
        proof {
            assert(final(out)@ =~= old(out)@ + dec_bytes(n as nat));
        }
    }
}

/// Appends one channel field.
fn push_channel(out: &mut Vec<u8>, v: u8)
    ensures
        final(out)@ == old(out)@ + channel_field(v),
{
    if v < 10 {
        out.push(32);
        out.push(32);
    } else if v < 100 {
        out.push(32);
    }
    push_dec(out, v as usize);
    proof {
        assert(final(out)@ =~= old(out)@ + channel_field(v));
    }
}

/// Appends one pixel line.
fn push_pixel_line(out: &mut Vec<u8>, p: Pixel)
    ensures
        final(out)@ == old(out)@ + pixel_line(p),
{
    push_channel(out, p.r);
    out.push(32);
    push_channel(out, p.g);
    out.push(32);
    push_channel(out, p.b);
    out.push(10);
    proof {
        assert(final(out)@ =~= old(out)@ + pixel_line(p));
    }
}

/// Appending a pixel to the storage appends its line to the body.
proof fn lemma_body_push(s: Seq<Pixel>, p: Pixel)
    ensures
        body_bytes(s.push(p)) == body_bytes(s) + pixel_line(p),
    decreases s.len(),
{
    if s.len() == 0 {
        assert(s.push(p).drop_first() =~= Seq::<Pixel>::empty());
        assert(s.push(p)[0] == p);
        assert(body_bytes(Seq::<Pixel>::empty()) == Seq::<u8>::empty());
        assert(body_bytes(s.push(p)) == pixel_line(p) + body_bytes(s.push(p).drop_first()));
        assert(body_bytes(s) == Seq::<u8>::empty());
        assert(body_bytes(s.push(p)) =~= body_bytes(s) + pixel_line(p));
    } else {
        lemma_body_push(s.drop_first(), p);
        assert(s.push(p).drop_first() =~= s.drop_first().push(p));
        assert(s.push(p)[0] == s[0]);
        assert(body_bytes(s.push(p)) == pixel_line(s[0]) + body_bytes(s.drop_first().push(p)));
        assert(body_bytes(s) == pixel_line(s[0]) + body_bytes(s.drop_first()));
        assert(body_bytes(s.push(p)) =~= body_bytes(s) + pixel_line(p));
    }
}

impl ImagePPM {
    /// Renders the buffer into the bytes of its textual form.
    pub fn render_bytes(&self) -> (out: Vec<u8>)
        ensures
            out@ == rendering(*self),
    {
        let w: usize = self.width_val();
        let h: usize = self.height_val();
        let mut out: Vec<u8> = Vec::new();
        out.push(80);
        out.push(51);
        out.push(10);
        push_dec(&mut out, w);
        out.push(32);
        push_dec(&mut out, h);
        out.push(10);
        out.push(50);
        out.push(53);
        out.push(53);
        out.push(10);
        proof {
            assert(out@ =~= header_bytes(w as nat, h as nat));
        }
        let pix: &Vec<Pixel> = self.storage_ref();
        let count: usize = pix.len();
        let mut i: usize = 0;
        while i < count
            invariant
                count == pix.len(),
                pix@ == self.storage(),
                i <= count,
                out@ == header_bytes(self.width() as nat, self.height() as nat) + body_bytes(
                    self.storage().take(i as int),
                ),
            decreases count - i,
        {
            let p: Pixel = pix[i];
            push_pixel_line(&mut out, p);
            proof {
                assert(self.storage().take(i as int + 1) =~= self.storage().take(i as int).push(
                    self.storage()[i as int],
                ));
                lemma_body_push(self.storage().take(i as int), self.storage()[i as int]);
                assert(out@ =~= header_bytes(self.width() as nat, self.height() as nat)
                    + body_bytes(self.storage().take(i as int + 1)));
            }
            i = i + 1;
        }
        proof {
            assert(self.storage().take(count as int) =~= self.storage());
        }
        out
    }

    /// Renders the buffer into its textual form as a string; the text is
    /// pure ASCII, one character per rendered byte.
    pub fn render(&self) -> (s: String)
        ensures
            s@.len() == rendering(*self).len(),
            forall|i: int| 0 <= i < s@.len() ==> s@[i] == rendering(*self)[i] as char,
    {
        let bytes: Vec<u8> = self.render_bytes();
        proof {
            lemma_rendering_ascii(*self);
        }
        ascii_to_string(bytes)
    }
}

/// Relies on String::from_utf8: bytes that are all ASCII are valid UTF-8
/// and decode to exactly those characters, one character per byte.
#[verifier::external_body]
fn ascii_to_string(bytes: Vec<u8>) -> (s: String)
    requires
        ascii_seq(bytes@),
    ensures
        s@.len() == bytes@.len(),
        forall|i: int| 0 <= i < bytes@.len() ==> s@[i] == bytes@[i] as char,
{
    String::from_utf8(bytes).unwrap()
}

/// Decimal digits are ASCII.
proof fn lemma_dec_ascii(n: nat)
    ensures
        ascii_seq(dec_bytes(n)),
    decreases n,
{
    if n >= 10 {
        lemma_dec_ascii(n / 10);
    }
}

/// A pixel line is ASCII.
proof fn lemma_pixel_line_ascii(p: Pixel)
    ensures
        ascii_seq(pixel_line(p)),
{
    lemma_dec_ascii(p.r as nat);
    lemma_dec_ascii(p.g as nat);
    lemma_dec_ascii(p.b as nat);
}

/// A body is ASCII.
proof fn lemma_body_ascii(pix: Seq<Pixel>)
    ensures
        ascii_seq(body_bytes(pix)),
    decreases pix.len(),
{
    if pix.len() > 0 {
        lemma_pixel_line_ascii(pix[0]);
        lemma_body_ascii(pix.drop_first());
    }
}

/// The whole rendering is ASCII.
proof fn lemma_rendering_ascii(img: ImagePPM)
    ensures
        ascii_seq(rendering(img)),
{
    lemma_dec_ascii(img.width() as nat);
    lemma_dec_ascii(img.height() as nat);
    lemma_body_ascii(img.storage());
}

/// A channel field is always exactly 3 bytes.
proof fn lemma_channel_field_len(v: u8)
    ensures
        channel_field(v).len() == 3,
{
    if v >= 100 {
        assert(v as nat / 10 / 10 == v as nat / 100) by (nonlinear_arith);
        assert(1 <= v as nat / 100 < 10);
        assert(dec_bytes(v as nat / 100).len() == 1);
        assert(dec_bytes(v as nat / 10).len() == 2);
    } else if v >= 10 {
        assert(v as nat / 10 < 10);
        assert(dec_bytes(v as nat / 10).len() == 1);
    }
}

/// A pixel line is always exactly 12 bytes: three 3-character fields, two
/// separating spaces, one newline.
pub proof fn lemma_pixel_line_len(p: Pixel)
    ensures
        pixel_line(p).len() == 12,
{
    lemma_channel_field_len(p.r);
    lemma_channel_field_len(p.g);
    lemma_channel_field_len(p.b);
}

/// A body is exactly 12 bytes per stored pixel.
pub proof fn lemma_body_len(pix: Seq<Pixel>)
    ensures
        body_bytes(pix).len() == 12 * pix.len(),
    decreases pix.len(),
{
    if pix.len() > 0 {
        lemma_pixel_line_len(pix[0]);
        lemma_body_len(pix.drop_first());
    }
}

/// The rendering of any well-formed buffer, however it was mutated, is
/// the header followed by exactly one 12-byte pixel line per cell:
/// 12 * width * height body bytes in all.
pub proof fn lemma_rendering_len(img: ImagePPM)
    requires
        img.wf(),
    ensures
        rendering(img).len() == header_bytes(img.width() as nat, img.height() as nat).len() + 12
            * (img.width() * img.height()),
{
    img.lemma_storage_len();
    lemma_body_len(img.storage());
}

/// Repeating a line n times yields n times its length.
proof fn lemma_repeated_len(s: Seq<u8>, n: nat)
    ensures
        repeated(s, n).len() == n * s.len(),
    decreases n,
{
    if n > 0 {
        lemma_repeated_len(s, (n - 1) as nat);
        assert(repeated(s, n) == s + repeated(s, (n - 1) as nat));
        let len: int = s.len() as int;
        assert(len + (n - 1) * len == n * len) by (nonlinear_arith)
            requires
                n >= 1,
        ;
    } else {
        assert(repeated(s, n).len() == 0);
    }
}

/// A buffer whose cells all hold one color renders as the header followed
/// by one identical pixel line per cell: exactly one 12-byte line per
/// cell, each reading the background channels.
pub proof fn lemma_render_uniform(img: ImagePPM, bg: Pixel)
    requires
        img.storage() == Seq::new(img.storage().len(), |i: int| bg),
    ensures
        rendering(img) == header_bytes(img.width() as nat, img.height() as nat) + repeated(
            pixel_line(bg),
            img.storage().len(),
        ),
        rendering(img).len() == header_bytes(img.width() as nat, img.height() as nat).len()
            + img.storage().len() * 12,
{
    lemma_body_uniform(img.storage(), bg);
    lemma_pixel_line_len(bg);
    lemma_repeated_len(pixel_line(bg), img.storage().len());
    assert(img.storage().len() * pixel_line(bg).len() == img.storage().len() * 12);
}

/// The body of an all-one-color storage is that color's line repeated.
proof fn lemma_body_uniform(pix: Seq<Pixel>, bg: Pixel)
    requires
        pix == Seq::new(pix.len(), |i: int| bg),
    ensures
        body_bytes(pix) == repeated(pixel_line(bg), pix.len()),
    decreases pix.len(),
{
    if pix.len() > 0 {
        assert(pix.drop_first() =~= Seq::new((pix.len() - 1) as nat, |i: int| bg));
        lemma_body_uniform(pix.drop_first(), bg);
    }
}

/// Saving a rendered image to a file. The library declares the interface;
/// an I/O-capable caller implements it.
pub trait PpmFormat {
    /// Consumes the image and writes its rendering to the file at `path`,
    /// creating or truncating it; surfaces any I/O failure to the caller.
    fn save_to_file(self, path: &str) -> Result<(), std::io::Error>;
}

/// The I/O error type carried through save results; opaque to the
/// verifier.
#[verifier::external_type_specification]
#[verifier::external_body]
pub struct ExIoError(std::io::Error);

} // verus!
