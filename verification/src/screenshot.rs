//! Screenshots: their file names and their bytes.

use vstd::prelude::*;
use vstd::string::*;

use crate::color::Rgba;

verus! {

// ---------------------------------------------------------------------------
// File names
// ---------------------------------------------------------------------------

/// The character of a decimal digit.
pub open spec fn digit_char(d: int) -> char {
    if d == 0 {
        '0'
    } else if d == 1 {
        '1'
    } else if d == 2 {
        '2'
    } else if d == 3 {
        '3'
    } else if d == 4 {
        '4'
    } else if d == 5 {
        '5'
    } else if d == 6 {
        '6'
    } else if d == 7 {
        '7'
    } else if d == 8 {
        '8'
    } else {
        '9'
    }
}

/// A number in decimal, without leading zeros.
pub open spec fn decimal(n: nat) -> Seq<char>
    decreases n,
{
    if n < 10 {
        seq![digit_char(n as int)]
    } else {
        decimal(n / 10).push(digit_char(n as int % 10))
    }
}

/// A number in decimal, with leading zeros up to three digits.
pub open spec fn padded(n: nat) -> Seq<char> {
    if n < 10 {
        seq!['0', '0'] + decimal(n)
    } else if n < 100 {
        seq!['0'] + decimal(n)
    } else {
        decimal(n)
    }
}

/// The name of the file of screenshot `n`.
pub open spec fn screenshot_file(n: nat) -> Seq<char> {
    "/tmp/facecam_"@ + padded(n) + ".png"@
}

fn digit(d: usize) -> (res: char)
    requires
        d < 10,
    ensures
        res == digit_char(d as int),
{
    match d {
        0 => '0',
        1 => '1',
        2 => '2',
        3 => '3',
        4 => '4',
        5 => '5',
        6 => '6',
        7 => '7',
        8 => '8',
        _ => '9',
    }
}

fn push_decimal(s: &mut String, n: usize)
    ensures
        final(s)@ == old(s)@ + decimal(n as nat),
    decreases n,
{
    if n >= 10 {
        push_decimal(s, n / 10);
        s.push(digit(n % 10));
    } else {
        s.push(digit(n));
    }
}

/// The name of the file of screenshot `n`.
pub fn screenshot_name(n: usize) -> (res: String)
    ensures
        res@ == screenshot_file(n as nat),
{
    let mut s = "/tmp/facecam_".to_owned();
    if n < 10 {
        s.push('0');
        s.push('0');
    } else if n < 100 {
        s.push('0');
    }
    push_decimal(&mut s, n);
    assert(s@ =~= "/tmp/facecam_"@ + padded(n as nat));
    s.append(".png");
    s
}

/// The number that a digit stands for.
pub open spec fn digit_value(c: char) -> int {
    c as int - '0' as int
}

/// The number that digits stand for.
pub open spec fn value(s: Seq<char>) -> int
    decreases s.len(),
{
    if s.len() == 0 {
        0
    } else {
        10 * value(s.drop_last()) + digit_value(s.last())
    }
}

proof fn lemma_value_of_decimal(zeros: Seq<char>, n: nat)
    requires
        value(zeros) == 0,
    ensures
        value(zeros + decimal(n)) == n,
    decreases n,
{
    let s = zeros + decimal(n);
    if n < 10 {
        assert(s.drop_last() =~= zeros);
    } else {
        lemma_value_of_decimal(zeros, n / 10);
        assert(s.drop_last() =~= zeros + decimal(n / 10));
    }
    assert(s.last() == decimal(n).last());
}

proof fn lemma_value_of_padded(n: nat)
    ensures
        value(padded(n)) == n,
{
    let one = seq!['0'];
    let two = seq!['0', '0'];
    assert(one.drop_last() =~= Seq::<char>::empty());
    assert(two.drop_last() =~= one);
    assert(value(Seq::<char>::empty()) == 0);
    assert(value(one) == 0);
    assert(value(two) == 0);
    if n < 10 {
        lemma_value_of_decimal(two, n);
    } else if n < 100 {
        lemma_value_of_decimal(one, n);
    } else {
        lemma_value_of_decimal(Seq::<char>::empty(), n);
        assert(Seq::<char>::empty() + decimal(n) =~= decimal(n));
    }
}

proof fn lemma_decimal_digits(n: nat)
    ensures
        decimal(n).len() == 1 <==> n < 10,
        decimal(n).len() == 2 <==> 10 <= n < 100,
        decimal(n).len() >= 1,
        n > 0 ==> decimal(n)[0] != '0',
        forall|i: int| 0 <= i < decimal(n).len() ==> 0 <= digit_value(#[trigger] decimal(n)[i]) <= 9,
    decreases n,
{
    if n >= 10 {
        let front = decimal(n / 10);
        lemma_decimal_digits(n / 10);
        assert(decimal(n)[0] == front[0]);
        assert forall|i: int| 0 <= i < decimal(n).len() implies 0 <= digit_value(
            #[trigger] decimal(n)[i],
        ) <= 9 by {
            if i < front.len() {
                assert(decimal(n)[i] == front[i]);
            }
        }
    }
}

/// `digits` are the decimal digits of `n`: at least three, and with no zero in
/// front that is not needed for that.
pub open spec fn numbers(digits: Seq<char>, n: nat) -> bool {
    &&& digits.len() >= 3
    &&& digits.len() > 3 ==> digits[0] != '0'
    &&& forall|i: int| 0 <= i < digits.len() ==> 0 <= digit_value(#[trigger] digits[i]) <= 9
    &&& value(digits) == n
}

/// The name of a screenshot holds its number in decimal, with three digits or as
/// many as are needed.
pub proof fn lemma_file_names_hold_the_number(n: nat)
    ensures
        numbers(padded(n), n),
        screenshot_file(n) == "/tmp/facecam_"@ + padded(n) + ".png"@,
{
    lemma_decimal_digits(n);
    lemma_value_of_padded(n);
    let d = padded(n);
    let zeros = d.len() - decimal(n).len();
    assert forall|i: int| 0 <= i < d.len() implies 0 <= digit_value(#[trigger] d[i]) <= 9 by {
        if i >= zeros {
            assert(d[i] == decimal(n)[i - zeros]);
        }
    }
}

/// Screenshots of different numbers go to different files.
pub proof fn lemma_file_names_differ(n: nat, m: nat)
    requires
        n != m,
    ensures
        screenshot_file(n) != screenshot_file(m),
{
    if screenshot_file(n) == screenshot_file(m) {
        let head = "/tmp/facecam_"@.len() as int;
        let tail = ".png"@.len() as int;
        assert(padded(n) =~= screenshot_file(n).subrange(
            head,
            screenshot_file(n).len() - tail,
        ));
        assert(padded(m) =~= screenshot_file(m).subrange(
            head,
            screenshot_file(m).len() - tail,
        ));
        lemma_value_of_padded(n);
        lemma_value_of_padded(m);
    }
}

// ---------------------------------------------------------------------------
// Image data
// ---------------------------------------------------------------------------

/// Channel `c` of a pixel, in the order red, green, blue, coverage.
pub open spec fn channel(p: Rgba, c: int) -> u8 {
    if c == 0 {
        p.r
    } else if c == 1 {
        p.g
    } else if c == 2 {
        p.b
    } else {
        p.a
    }
}

/// The bytes of pixels: four for each, in order.
pub open spec fn flattened(pixels: Seq<Rgba>) -> Seq<u8> {
    Seq::new(4 * pixels.len(), |i: int| channel(pixels[i / 4], i % 4))
}

/// Each pixel is four bytes: red, green, blue and coverage, one pixel behind the
/// other.
pub proof fn lemma_pixels_are_four_bytes(pixels: Seq<Rgba>, i: int)
    requires
        0 <= i < pixels.len(),
    ensures
        flattened(pixels).len() == 4 * pixels.len(),
        flattened(pixels)[4 * i] == pixels[i].r,
        flattened(pixels)[4 * i + 1] == pixels[i].g,
        flattened(pixels)[4 * i + 2] == pixels[i].b,
        flattened(pixels)[4 * i + 3] == pixels[i].a,
{
}

/// The bytes of pixels.
pub fn rgba_bytes(pixels: &Vec<Rgba>) -> (res: Vec<u8>)
    ensures
        res@ == flattened(pixels@),
{
    let mut res: Vec<u8> = Vec::new();
    let mut i: usize = 0;
    while i < pixels.len()
        invariant
            i <= pixels@.len(),
            res@ == flattened(pixels@.take(i as int)),
        decreases pixels@.len() - i,
    {
        let p = pixels[i];
        res.push(p.r);
        res.push(p.g);
        res.push(p.b);
        res.push(p.a);
        assert(res@ =~= flattened(pixels@.take(i + 1)));
        i += 1;
    }
    assert(pixels@.take(i as int) =~= pixels@);
    res
}

/// The PNG file of an image with eight bits for each of red, green, blue and
/// coverage, as the `png` crate writes it.
pub uninterp spec fn png_file(width: u32, height: u32, rgba: Seq<u8>) -> Seq<u8>;

/// The eight bytes with which every PNG file begins.
pub open spec fn png_signature() -> Seq<u8> {
    seq![137u8, 80, 78, 71, 13, 10, 26, 10]
}

/// Why an image cannot be written.
#[derive(Debug, Clone, Copy, PartialEq, Eq)]
pub enum ImageFault {
    ZeroWidth,
    ZeroHeight,
    /// There are not four bytes for each pixel.
    WrongSize,
}

/// What is wrong with an image of the given dimensions and number of bytes.
pub open spec fn image_fault(width: u32, height: u32, len: nat) -> Option<ImageFault> {
    if width == 0 {
        Some(ImageFault::ZeroWidth)
    } else if height == 0 {
        Some(ImageFault::ZeroHeight)
    } else if len != 4 * (width * height) {
        Some(ImageFault::WrongSize)
    } else {
        None
    }
}

/// The words for it.
pub open spec fn fault_text(fault: ImageFault, width: u32, height: u32, len: nat) -> Seq<char> {
    match fault {
        ImageFault::ZeroWidth => "Zero width not allowed"@,
        ImageFault::ZeroHeight => "Zero height not allowed"@,
        ImageFault::WrongSize => "wrong data size, expected "@ + decimal(
            (4 * (width * height)) as nat,
        ) + " got "@ + decimal(len),
    }
}

/// `png::Encoder`, set to eight-bit RGBA, writing into memory: `write_header`
/// and then `write_image_data`. It fails exactly where `image_fault` finds a
/// fault, and its error then reads as `fault_text`; else it writes `png_file`, a
/// function of the arguments alone that begins with the signature of PNG files.
/// The number of bytes that it expects must be a number.
#[verifier::external_body]
fn encode_rgba8(width: u32, height: u32, rgba: &Vec<u8>) -> (res: Result<Vec<u8>, String>)
    requires
        4 * (width * height) <= usize::MAX,
    ensures
        (res is Ok) == (image_fault(width, height, rgba@.len()) is None),
        (res is Ok) ==> res->Ok_0@ == png_file(width, height, rgba@),
        (res is Ok) ==> png_signature().is_prefix_of(res->Ok_0@),
        (res is Err) ==> res->Err_0@ == fault_text(
            image_fault(width, height, rgba@.len())->0,
            width,
            height,
            rgba@.len(),
        ),
{
    let mut file: Vec<u8> = Vec::new();
    let mut encoder = png::Encoder::new(&mut file, width, height);
    encoder.set_color(png::ColorType::Rgba);
    encoder.set_depth(png::BitDepth::Eight);
    let mut writer = match encoder.write_header() {
        Ok(writer) => writer,
        Err(e) => return Err(e.to_string()),
    };
    if let Err(e) = writer.write_image_data(rgba) {
        return Err(e.to_string());
    }
    drop(writer);
    Ok(file)
}

/// An image that cannot be written, and the words for it.
#[derive(Debug, PartialEq, Eq)]
pub struct ImageError {
    pub fault: ImageFault,
    pub message: String,
}

/// The PNG file of an image, row by row from the top.
pub fn encode_color_image(width: u32, height: u32, pixels: &Vec<Rgba>) -> (res: Result<
    Vec<u8>,
    ImageError,
>)
    requires
        4 * (width * height) <= usize::MAX,
    ensures
        match res {
            Ok(file) => {
                &&& image_fault(width, height, 4 * pixels@.len()) is None
                &&& file@ == png_file(width, height, flattened(pixels@))
                &&& png_signature().is_prefix_of(file@)
            },
            Err(e) => {
                &&& image_fault(width, height, 4 * pixels@.len()) == Some(e.fault)
                &&& e.message@ == fault_text(e.fault, width, height, 4 * pixels@.len())
            },
        },
{
    let rgba = rgba_bytes(pixels);
    match encode_rgba8(width, height, &rgba) {
        Ok(file) => Ok(file),
        Err(message) => {
            let fault = if width == 0 {
                ImageFault::ZeroWidth
            } else if height == 0 {
                ImageFault::ZeroHeight
            } else {
                ImageFault::WrongSize
            };
            Err(ImageError { fault, message })
        },
    }
}

/// An image can be written exactly where it has an area and one pixel for each of
/// its points; the width is looked at before the height, and the number of
/// pixels last.
pub proof fn lemma_images_with_all_pixels_can_be_written(width: u32, height: u32, count: nat)
    ensures
        image_fault(width, height, 4 * count) is None <==> width > 0 && height > 0 && count == width
            * height,
        image_fault(width, height, 4 * count) == Some(ImageFault::ZeroWidth) <==> width == 0,
        image_fault(width, height, 4 * count) == Some(ImageFault::ZeroHeight) <==> width > 0
            && height == 0,
{
}

} // verus!
