//! The frame buffer: brightness bytes for every LED channel, split over the
//! two pages of the chip, each with a leading command byte.
use vstd::prelude::*;

verus! {

/// Number of LED channels the chip addresses.
pub const CHANNELS: u16 = 357;

/// Channels below this index live on the first page; the rest on the second.
pub const SPLIT: u16 = 180;

/// Length of the first page image: command byte plus 180 channels.
pub const FIRST_LEN: usize = 181;

/// Length of the second page image: command byte plus 177 channels.
pub const SECOND_LEN: usize = 178;

/// Number of logical rows.
pub const ROWS: u8 = 9;

/// The physical row that logical row `y` is wired to.
pub open spec fn row_of(y: int) -> int {
    if y == 0 { 8 }
    else if y == 1 { 5 }
    else if y == 2 { 4 }
    else if y == 3 { 3 }
    else if y == 4 { 2 }
    else if y == 5 { 1 }
    else if y == 6 { 0 }
    else if y == 7 { 7 }
    else { 6 }
}

/// First channel of the pixel at column `x`, logical row `y`. Columns below
/// ten have a row stride of ten pixels; the columns after them a stride of
/// three, past the eighty pixels of the first block.
pub open spec fn pixel_base(x: int, y: int) -> int {
    let row = row_of(y);
    if x < 10 {
        (x + 10 * row) * 3
    } else {
        (x + 80 + 3 * row) * 3
    }
}

/// Odd columns, and column 12, are wired green, red, blue; the others blue,
/// green, red.
pub open spec fn green_first(x: int) -> bool {
    x % 2 == 1 || x == 12
}

/// The pixel at (`x`, `y`) has a row in the table and all three of its
/// channels inside the chip's channel range.
pub open spec fn pixel_fits(x: int, y: int) -> bool {
    0 <= x && 0 <= y < ROWS && pixel_base(x, y) + 2 < CHANNELS
}

/// The three channel values of a pixel, in the order the column stores them.
pub open spec fn pixel_channels(x: int, r: u8, g: u8, b: u8) -> Seq<u8> {
    if green_first(x) {
        seq![g, r, b]
    } else {
        seq![b, g, r]
    }
}

/// The two page images, the first and the second.
pub struct Pages {
    pub first: Seq<u8>,
    pub second: Seq<u8>,
}

/// Both page images have the chip's lengths.
pub open spec fn pages_sized(p: Pages) -> bool {
    p.first.len() == FIRST_LEN && p.second.len() == SECOND_LEN
}

/// The value of channel `index`: just past the command byte of its page.
pub open spec fn channel_of(p: Pages, index: int) -> u8 {
    if index < SPLIT {
        p.first[index + 1]
    } else {
        p.second[index - SPLIT + 1]
    }
}

/// The page images with channel `index` set to `value`.
pub open spec fn with_channel(p: Pages, index: int, value: u8) -> Pages {
    if index < SPLIT {
        Pages { first: p.first.update(index + 1, value), second: p.second }
    } else {
        Pages { first: p.first, second: p.second.update(index - SPLIT + 1, value) }
    }
}

/// The page images with the pixel at (`x`, `y`) set to `r`, `g`, `b`.
pub open spec fn with_pixel(p: Pages, x: int, y: int, r: u8, g: u8, b: u8) -> Pages {
    let base = pixel_base(x, y);
    let c = pixel_channels(x, r, g, b);
    with_channel(with_channel(with_channel(p, base, c[0]), base + 1, c[1]), base + 2, c[2])
}

/// Setting channel `index` stores `value` at that channel and leaves every
/// other channel and both command bytes as they were; a channel below 180
/// sits in the first image, the others in the second.
pub proof fn lemma_channel_write(p: Pages, index: int, value: u8)
    requires
        pages_sized(p),
        0 <= index < CHANNELS,
    ensures
        pages_sized(with_channel(p, index, value)),
        channel_of(with_channel(p, index, value), index) == value,
        index < SPLIT ==> with_channel(p, index, value).first[index + 1] == value
            && with_channel(p, index, value).second == p.second,
        index >= SPLIT ==> with_channel(p, index, value).second[index - SPLIT + 1] == value
            && with_channel(p, index, value).first == p.first,
        with_channel(p, index, value).first[0] == p.first[0],
        with_channel(p, index, value).second[0] == p.second[0],
        forall|j: int|
            0 <= j < CHANNELS && j != index ==> #[trigger] channel_of(with_channel(p, index, value), j)
                == channel_of(p, j),
{
}

/// After setting a pixel, its three channels read back as its colour in the
/// column's wiring order, and no other channel nor command byte has changed.
pub proof fn lemma_pixel_write(p: Pages, x: int, y: int, r: u8, g: u8, b: u8)
    requires
        pages_sized(p),
        pixel_fits(x, y),
    ensures
        pages_sized(with_pixel(p, x, y, r, g, b)),
        channel_of(with_pixel(p, x, y, r, g, b), pixel_base(x, y)) == pixel_channels(x, r, g, b)[0],
        channel_of(with_pixel(p, x, y, r, g, b), pixel_base(x, y) + 1) == pixel_channels(x, r, g, b)[1],
        channel_of(with_pixel(p, x, y, r, g, b), pixel_base(x, y) + 2) == pixel_channels(x, r, g, b)[2],
        with_pixel(p, x, y, r, g, b).first[0] == p.first[0],
        with_pixel(p, x, y, r, g, b).second[0] == p.second[0],
        forall|j: int|
            0 <= j < CHANNELS && !(pixel_base(x, y) <= j < pixel_base(x, y) + 3)
                ==> #[trigger] channel_of(with_pixel(p, x, y, r, g, b), j) == channel_of(p, j),
{
    let base = pixel_base(x, y);
    let c = pixel_channels(x, r, g, b);
    assert(base >= 0);
    let p1 = with_channel(p, base, c[0]);
    let p2 = with_channel(p1, base + 1, c[1]);
    lemma_channel_write(p, base, c[0]);
    lemma_channel_write(p1, base + 1, c[1]);
    lemma_channel_write(p2, base + 2, c[2]);
}

/// Brightness of every LED channel, held as the images of the chip's two
/// LED-data pages. Byte 0 of each image is the command byte and stays zero.
pub struct LedMatrix {
    buffer1: [u8; 181],
    buffer2: [u8; 178],
}

impl View for LedMatrix {
    type V = Pages;

    closed spec fn view(&self) -> Pages {
        Pages { first: self.buffer1@, second: self.buffer2@ }
    }
}

/// Both page images of every frame have the chip's lengths.
pub proof fn lemma_sized(m: &LedMatrix)
    ensures
        pages_sized(m@),
{
}

/// The physical row of logical row `y`.
fn physical_row(y: u8) -> (row: u8)
    requires
        y < ROWS,
    ensures
        row == row_of(y as int),
        row < ROWS,
{
    match y {
        0 => 8,
        1 => 5,
        2 => 4,
        3 => 3,
        4 => 2,
        5 => 1,
        6 => 0,
        7 => 7,
        _ => 6,
    }
}

impl LedMatrix {
    /// A frame with every byte zero.
    pub fn new() -> (m: Self)
        ensures
            pages_sized(m@),
            forall|i: int| 0 <= i < FIRST_LEN ==> m@.first[i] == 0,
            forall|i: int| 0 <= i < SECOND_LEN ==> m@.second[i] == 0,
    {
        LedMatrix { buffer1: [0; 181], buffer2: [0; 178] }
    }

    /// The first page image.
    pub fn first_page(&self) -> (s: &[u8])
        ensures
            s@ == self@.first,
    {
        self.buffer1.as_slice()
    }

    /// The second page image.
    pub fn second_page(&self) -> (s: &[u8])
        ensures
            s@ == self@.second,
    {
        self.buffer2.as_slice()
    }

    /// Sets channel `index` to `value`: channels below 180 go to the first
    /// image at `index + 1`, the others to the second at `index - 180 + 1`.
    pub fn set_led(&mut self, index: u16, value: u8)
        requires
            index < CHANNELS,
        ensures
            final(self)@ == with_channel(old(self)@, index as int, value),
    {
        if index < SPLIT {
            self.buffer1[(index + 1) as usize] = value;
        } else {
            self.buffer2[(index - SPLIT + 1) as usize] = value;
        }
    }

    /// Sets the pixel at column `x`, logical row `y` to `r`, `g`, `b`, in the
    /// channel order that the column is wired for.
    pub fn set_pixel(&mut self, x: u8, y: u8, r: u8, g: u8, b: u8)
        requires
            pixel_fits(x as int, y as int),
        ensures
            final(self)@ == with_pixel(old(self)@, x as int, y as int, r, g, b),
    {
        let row = physical_row(y);
        let offset: u16 = if x < 10 {
            ((x as u16) + 10 * (row as u16)) * 3
        } else {
            ((x as u16) + 80 + 3 * (row as u16)) * 3
        };
        assert(offset == pixel_base(x as int, y as int));
        if (x % 2 == 1) || (x == 12) {
            self.set_led(offset, g);
            self.set_led(offset + 1, r);
            self.set_led(offset + 2, b);
        } else {
            self.set_led(offset, b);
            self.set_led(offset + 1, g);
            self.set_led(offset + 2, r);
        }
    }
}

} // verus!
