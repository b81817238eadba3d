use floodfill::surface::Surface;
use floodfill::{bboxes, fill, Image, Rect};

/// One channel of a buffer that holds several values for each pixel.
struct Channel {
    width: usize,
    height: usize,
    stride: usize,
    channel: usize,
    data: Vec<u16>,
}

impl Channel {
    fn place(&self, x: i32, y: i32) -> Option<usize> {
        if x < 0 || y < 0 || x as usize >= self.width || y as usize >= self.height {
            None
        } else {
            Some((y as usize * self.width + x as usize) * self.stride + self.channel)
        }
    }
}

impl Image for Channel {
    type Pixel = u16;

    fn view(&self) -> Surface<u16> {
        unreachable!()
    }

    fn pixel_eq_is_equality() {}

    fn get_pixel(&self, x: i32, y: i32) -> Option<u16> {
        self.place(x, y).map(|i| self.data[i])
    }

    fn set_pixel(&mut self, x: i32, y: i32, pixel: u16) {
        if let Some(i) = self.place(x, y) {
            self.data[i] = pixel;
        }
    }

    fn width(&self) -> usize {
        self.width
    }

    fn height(&self) -> usize {
        self.height
    }
}

fn two_channels() -> Channel {
    // Pairs of (first channel, second channel), three pixels to a row.
    let data = vec![
        500, 1, 500, 1, 700, 2, //
        500, 1, 700, 1, 700, 2, //
        900, 3, 900, 3, 700, 2, //
    ];
    Channel { width: 3, height: 3, stride: 2, channel: 0, data }
}

#[test]
fn fill_one_channel_of_many() {
    let mut img = two_channels();
    let r = fill(2, 0, 0, &mut img);
    assert_eq!(r, Some(Rect { top: 0, left: 1, bottom: 2, right: 2 }));
    assert_eq!(
        img.data,
        vec![
            500, 1, 500, 1, 0, 2, //
            500, 1, 0, 1, 0, 2, //
            900, 3, 900, 3, 0, 2, //
        ]
    );
}

#[test]
fn sweep_one_channel_of_many() {
    let mut img = two_channels();
    let found = bboxes(0, &mut img);
    assert_eq!(
        found,
        vec![
            (Rect { top: 0, left: 0, bottom: 1, right: 1 }, 500),
            (Rect { top: 0, left: 1, bottom: 2, right: 2 }, 700),
            (Rect { top: 2, left: 0, bottom: 2, right: 1 }, 900),
        ]
    );
    assert_eq!(
        img.data,
        vec![
            0, 1, 0, 1, 0, 2, //
            0, 1, 0, 1, 0, 2, //
            0, 3, 0, 3, 0, 2, //
        ]
    );
}

#[test]
fn sweep_the_other_channel() {
    let mut img = two_channels();
    img.channel = 1;
    let found = bboxes(2, &mut img);
    assert_eq!(
        found,
        vec![
            (Rect { top: 0, left: 0, bottom: 1, right: 1 }, 1),
            (Rect { top: 2, left: 0, bottom: 2, right: 1 }, 3),
        ]
    );
    assert_eq!(
        img.data,
        vec![
            500, 2, 500, 2, 700, 2, //
            500, 2, 700, 2, 700, 2, //
            900, 2, 900, 2, 700, 2, //
        ]
    );
}
