use floodfill::{bboxes, fill, Bitmap, Image, Rect};

fn surface(rows: &[&[u8]]) -> Bitmap {
    let height = rows.len();
    let width = if height == 0 { 0 } else { rows[0].len() };
    let mut data = Vec::new();
    for row in rows {
        assert_eq!(row.len(), width);
        data.extend_from_slice(row);
    }
    Bitmap::new(width, height, data).unwrap()
}

fn pixels(img: &Bitmap) -> Vec<Vec<u8>> {
    let mut rows = Vec::new();
    for y in 0..img.height() {
        let mut row = Vec::new();
        for x in 0..img.width() {
            row.push(img.get_pixel(x as i32, y as i32).unwrap());
        }
        rows.push(row);
    }
    rows
}

/// A flood by visiting one pixel at a time, to hold the library against.
fn plain_flood(grid: &mut Vec<Vec<u8>>, x: i32, y: i32, nv: u8) -> Option<Rect> {
    let h = grid.len() as i32;
    let w = if h == 0 { 0 } else { grid[0].len() as i32 };
    if x < 0 || y < 0 || x >= w || y >= h {
        return None;
    }
    let inside = grid[y as usize][x as usize];
    if inside == nv {
        return None;
    }
    let mut rect = Rect { top: y, left: x, bottom: y, right: x };
    let mut todo = vec![(x, y)];
    while let Some((i, j)) = todo.pop() {
        if i < 0 || j < 0 || i >= w || j >= h || grid[j as usize][i as usize] != inside {
            continue;
        }
        grid[j as usize][i as usize] = nv;
        rect.left = rect.left.min(i);
        rect.right = rect.right.max(i);
        rect.top = rect.top.min(j);
        rect.bottom = rect.bottom.max(j);
        todo.push((i + 1, j));
        todo.push((i - 1, j));
        todo.push((i, j + 1));
        todo.push((i, j - 1));
    }
    Some(rect)
}

fn plain_sweep(grid: &mut Vec<Vec<u8>>, nv: u8) -> Vec<(Rect, u8)> {
    let mut found = Vec::new();
    for y in 0..grid.len() {
        for x in 0..grid[y].len() {
            let color = grid[y][x];
            if let Some(rect) = plain_flood(grid, x as i32, y as i32, nv) {
                found.push((rect, color));
            }
        }
    }
    found
}

fn noise(state: &mut u64) -> u64 {
    *state = state.wrapping_mul(6364136223846793005).wrapping_add(1442695040888963407);
    *state >> 33
}

#[test]
fn fill_single_pixel_region() {
    let mut img = surface(&[&[0, 0, 0], &[0, 1, 0], &[0, 0, 0]]);
    let r = fill(1, 1, 9, &mut img);
    assert_eq!(r, Some(Rect { top: 1, left: 1, bottom: 1, right: 1 }));
    assert_eq!(pixels(&img), vec![vec![0, 0, 0], vec![0, 9, 0], vec![0, 0, 0]]);
}

#[test]
fn sweep_single_pixel_region() {
    let mut img = surface(&[&[0, 0, 0], &[0, 1, 0], &[0, 0, 0]]);
    let found = bboxes(9, &mut img);
    assert_eq!(
        found,
        vec![
            (Rect { top: 0, left: 0, bottom: 2, right: 2 }, 0),
            (Rect { top: 1, left: 1, bottom: 1, right: 1 }, 1),
        ]
    );
    assert_eq!(pixels(&img), vec![vec![9, 9, 9]; 3]);
}

#[test]
fn sweep_of_a_cleared_surface_finds_nothing() {
    let mut img = surface(&[&[9, 9, 9, 9], &[9, 9, 9, 9]]);
    let found = bboxes(9, &mut img);
    assert_eq!(found, vec![]);
    assert_eq!(pixels(&img), vec![vec![9; 4]; 2]);
}

#[test]
fn sweep_twice_finds_nothing_the_second_time() {
    let mut img = surface(&[&[1, 1, 2], &[3, 1, 2], &[3, 3, 3]]);
    let first = bboxes(0, &mut img);
    assert_eq!(first.len(), 3);
    let second = bboxes(0, &mut img);
    assert_eq!(second, vec![]);
}

#[test]
fn sweep_clears_every_pixel() {
    let mut img = surface(&[&[1, 2, 3, 4], &[5, 6, 7, 8], &[1, 1, 0, 0], &[4, 4, 4, 0]]);
    let found = bboxes(0, &mut img);
    assert_eq!(pixels(&img), vec![vec![0; 4]; 4]);
    assert_eq!(found.len(), 10);
}

#[test]
fn sweep_two_separate_blocks() {
    let mut img = surface(&[
        &[0, 0, 0, 0, 0, 0, 0],
        &[0, 1, 1, 0, 0, 0, 0],
        &[0, 1, 1, 0, 2, 2, 2],
        &[0, 0, 0, 0, 2, 2, 2],
        &[0, 0, 0, 0, 0, 0, 0],
    ]);
    let found = bboxes(0, &mut img);
    assert_eq!(
        found,
        vec![
            (Rect { top: 1, left: 1, bottom: 2, right: 2 }, 1),
            (Rect { top: 2, left: 4, bottom: 3, right: 6 }, 2),
        ]
    );
    assert_eq!(pixels(&img), vec![vec![0; 7]; 5]);
}

#[test]
fn sweep_blocks_of_one_colour_that_do_not_touch() {
    let mut img = surface(&[&[5, 0, 5], &[0, 0, 0], &[5, 0, 5]]);
    let found = bboxes(0, &mut img);
    assert_eq!(
        found,
        vec![
            (Rect { top: 0, left: 0, bottom: 0, right: 0 }, 5),
            (Rect { top: 0, left: 2, bottom: 0, right: 2 }, 5),
            (Rect { top: 2, left: 0, bottom: 2, right: 0 }, 5),
            (Rect { top: 2, left: 2, bottom: 2, right: 2 }, 5),
        ]
    );
}

#[test]
fn pixels_that_touch_at_a_corner_are_not_joined() {
    let mut img = surface(&[&[1, 0, 0], &[0, 1, 0], &[0, 0, 1]]);
    let r = fill(1, 1, 7, &mut img);
    assert_eq!(r, Some(Rect { top: 1, left: 1, bottom: 1, right: 1 }));
    assert_eq!(pixels(&img), vec![vec![1, 0, 0], vec![0, 7, 0], vec![0, 0, 1]]);
}

#[test]
fn boxes_of_separate_regions_may_overlap() {
    let mut img = surface(&[&[1, 1, 1], &[1, 2, 1], &[1, 1, 1]]);
    let found = bboxes(0, &mut img);
    assert_eq!(
        found,
        vec![
            (Rect { top: 0, left: 0, bottom: 2, right: 2 }, 1),
            (Rect { top: 1, left: 1, bottom: 1, right: 1 }, 2),
        ]
    );
}

#[test]
fn regions_come_in_the_order_of_their_first_pixel() {
    let mut img = surface(&[&[0, 0, 0, 3], &[0, 2, 0, 3], &[1, 2, 0, 3], &[1, 2, 2, 2]]);
    let found = bboxes(0, &mut img);
    assert_eq!(
        found,
        vec![
            (Rect { top: 0, left: 3, bottom: 2, right: 3 }, 3),
            (Rect { top: 1, left: 1, bottom: 3, right: 3 }, 2),
            (Rect { top: 2, left: 0, bottom: 3, right: 0 }, 1),
        ]
    );
}

#[test]
fn fill_from_each_corner() {
    for &(x, y) in &[(0, 0), (3, 0), (0, 2), (3, 2)] {
        let mut img = surface(&[&[4, 4, 4, 4], &[4, 4, 4, 4], &[4, 4, 4, 4]]);
        let r = fill(x, y, 1, &mut img);
        assert_eq!(r, Some(Rect { top: 0, left: 0, bottom: 2, right: 3 }));
        assert_eq!(pixels(&img), vec![vec![1; 4]; 3]);
    }
}

#[test]
fn fill_a_corner_pixel_alone() {
    let mut img = surface(&[&[1, 0, 2], &[0, 0, 0], &[3, 0, 4]]);
    assert_eq!(fill(0, 0, 9, &mut img), Some(Rect { top: 0, left: 0, bottom: 0, right: 0 }));
    assert_eq!(fill(2, 0, 9, &mut img), Some(Rect { top: 0, left: 2, bottom: 0, right: 2 }));
    assert_eq!(fill(0, 2, 9, &mut img), Some(Rect { top: 2, left: 0, bottom: 2, right: 0 }));
    assert_eq!(fill(2, 2, 9, &mut img), Some(Rect { top: 2, left: 2, bottom: 2, right: 2 }));
    assert_eq!(pixels(&img), vec![vec![9, 0, 9], vec![0, 0, 0], vec![9, 0, 9]]);
}

#[test]
fn fill_along_an_edge() {
    let mut img = surface(&[&[0, 0, 0, 0], &[5, 0, 0, 0], &[5, 0, 0, 0], &[5, 5, 5, 0]]);
    let r = fill(0, 2, 8, &mut img);
    assert_eq!(r, Some(Rect { top: 1, left: 0, bottom: 3, right: 2 }));
    assert_eq!(
        pixels(&img),
        vec![vec![0, 0, 0, 0], vec![8, 0, 0, 0], vec![8, 0, 0, 0], vec![8, 8, 8, 0]]
    );
}

#[test]
fn fill_outside_the_surface_does_nothing() {
    let mut img = surface(&[&[1, 2], &[3, 4]]);
    for &(x, y) in &[(-1, 0), (0, -1), (2, 0), (0, 2), (i32::MAX, 0), (0, i32::MIN), (i32::MIN, i32::MAX)] {
        assert_eq!(fill(x, y, 9, &mut img), None);
    }
    assert_eq!(pixels(&img), vec![vec![1, 2], vec![3, 4]]);
}

#[test]
fn fill_with_the_colour_of_the_seed_does_nothing() {
    let mut img = surface(&[&[1, 1], &[1, 2]]);
    assert_eq!(fill(0, 0, 1, &mut img), None);
    assert_eq!(pixels(&img), vec![vec![1, 1], vec![1, 2]]);
}

#[test]
fn fill_twice_does_nothing_the_second_time() {
    let mut img = surface(&[&[1, 1], &[1, 2]]);
    assert_eq!(fill(0, 0, 9, &mut img), Some(Rect { top: 0, left: 0, bottom: 1, right: 1 }));
    assert_eq!(fill(0, 0, 9, &mut img), None);
    assert_eq!(pixels(&img), vec![vec![9, 9], vec![9, 2]]);
}

#[test]
fn fill_leaves_other_pixels_of_the_fill_value_alone() {
    let mut img = surface(&[&[9, 1, 9], &[1, 1, 1], &[9, 1, 9]]);
    let r = fill(1, 1, 9, &mut img);
    assert_eq!(r, Some(Rect { top: 0, left: 0, bottom: 2, right: 2 }));
    assert_eq!(pixels(&img), vec![vec![9; 3]; 3]);
}

#[test]
fn surface_of_one_pixel() {
    let mut img = surface(&[&[3]]);
    assert_eq!(bboxes(0, &mut img), vec![(Rect { top: 0, left: 0, bottom: 0, right: 0 }, 3)]);
    assert_eq!(pixels(&img), vec![vec![0]]);
    let mut same = surface(&[&[0]]);
    assert_eq!(bboxes(0, &mut same), vec![]);
    assert_eq!(pixels(&same), vec![vec![0]]);
}

#[test]
fn surface_of_one_pixel_filled() {
    let mut img = surface(&[&[3]]);
    assert_eq!(fill(0, 0, 0, &mut img), Some(Rect { top: 0, left: 0, bottom: 0, right: 0 }));
    assert_eq!(img.get_pixel(0, 0), Some(0));
    assert_eq!(fill(0, 0, 0, &mut img), None);
}

#[test]
fn surface_without_pixels() {
    let mut none = Bitmap::new(0, 0, vec![]).unwrap();
    assert_eq!(bboxes(0, &mut none), vec![]);
    assert_eq!(fill(0, 0, 1, &mut none), None);
    let mut flat = Bitmap::new(4, 0, vec![]).unwrap();
    assert_eq!(bboxes(0, &mut flat), vec![]);
    let mut thin = Bitmap::new(0, 4, vec![]).unwrap();
    assert_eq!(bboxes(0, &mut thin), vec![]);
}

#[test]
fn surface_of_one_row() {
    let mut img = surface(&[&[1, 1, 0, 2, 2, 2, 0, 1]]);
    let found = bboxes(0, &mut img);
    assert_eq!(
        found,
        vec![
            (Rect { top: 0, left: 0, bottom: 0, right: 1 }, 1),
            (Rect { top: 0, left: 3, bottom: 0, right: 5 }, 2),
            (Rect { top: 0, left: 7, bottom: 0, right: 7 }, 1),
        ]
    );
}

#[test]
fn surface_of_one_column() {
    let mut img = surface(&[&[1], &[1], &[0], &[2], &[1]]);
    let found = bboxes(0, &mut img);
    assert_eq!(
        found,
        vec![
            (Rect { top: 0, left: 0, bottom: 1, right: 0 }, 1),
            (Rect { top: 3, left: 0, bottom: 3, right: 0 }, 2),
            (Rect { top: 4, left: 0, bottom: 4, right: 0 }, 1),
        ]
    );
}

#[test]
fn fill_reaches_round_a_wall_on_the_left() {
    // From the seed the flood goes down, left along the bottom row, and up
    // again behind the wall.
    let mut img = surface(&[
        &[1, 0, 1, 1],
        &[1, 0, 1, 1],
        &[1, 0, 1, 1],
        &[1, 1, 1, 1],
    ]);
    let r = fill(3, 0, 5, &mut img);
    assert_eq!(r, Some(Rect { top: 0, left: 0, bottom: 3, right: 3 }));
    assert_eq!(
        pixels(&img),
        vec![vec![5, 0, 5, 5], vec![5, 0, 5, 5], vec![5, 0, 5, 5], vec![5, 5, 5, 5]]
    );
}

#[test]
fn fill_reaches_round_a_wall_on_the_right() {
    let mut img = surface(&[
        &[1, 1, 0, 1],
        &[1, 1, 0, 1],
        &[1, 1, 0, 1],
        &[1, 1, 1, 1],
    ]);
    let r = fill(0, 0, 5, &mut img);
    assert_eq!(r, Some(Rect { top: 0, left: 0, bottom: 3, right: 3 }));
    assert_eq!(
        pixels(&img),
        vec![vec![5, 5, 0, 5], vec![5, 5, 0, 5], vec![5, 5, 0, 5], vec![5, 5, 5, 5]]
    );
}

#[test]
fn fill_reaches_upwards_round_a_wall() {
    let mut img = surface(&[
        &[1, 1, 1, 1, 1],
        &[1, 0, 0, 0, 1],
        &[1, 0, 1, 0, 1],
        &[1, 0, 0, 0, 1],
        &[1, 1, 1, 1, 1],
    ]);
    let r = fill(0, 4, 5, &mut img);
    assert_eq!(r, Some(Rect { top: 0, left: 0, bottom: 4, right: 4 }));
    assert_eq!(
        pixels(&img),
        vec![
            vec![5, 5, 5, 5, 5],
            vec![5, 0, 0, 0, 5],
            vec![5, 0, 1, 0, 5],
            vec![5, 0, 0, 0, 5],
            vec![5, 5, 5, 5, 5],
        ]
    );
}

#[test]
fn fill_follows_a_spiral() {
    let mut img = surface(&[
        &[1, 1, 1, 1, 1, 1, 1],
        &[0, 0, 0, 0, 0, 0, 1],
        &[1, 1, 1, 1, 1, 0, 1],
        &[1, 0, 0, 0, 1, 0, 1],
        &[1, 0, 1, 1, 1, 0, 1],
        &[1, 0, 0, 0, 0, 0, 1],
        &[1, 1, 1, 1, 1, 1, 1],
    ]);
    let r = fill(2, 4, 7, &mut img);
    assert_eq!(r, Some(Rect { top: 0, left: 0, bottom: 6, right: 6 }));
    assert_eq!(
        pixels(&img),
        vec![
            vec![7, 7, 7, 7, 7, 7, 7],
            vec![0, 0, 0, 0, 0, 0, 7],
            vec![7, 7, 7, 7, 7, 0, 7],
            vec![7, 0, 0, 0, 7, 0, 7],
            vec![7, 0, 7, 7, 7, 0, 7],
            vec![7, 0, 0, 0, 0, 0, 7],
            vec![7, 7, 7, 7, 7, 7, 7],
        ]
    );
}

#[test]
fn fill_a_comb_from_one_of_its_teeth() {
    let mut img = surface(&[
        &[2, 0, 2, 0, 2, 0, 2],
        &[2, 0, 2, 0, 2, 0, 2],
        &[2, 2, 2, 2, 2, 2, 2],
        &[0, 2, 0, 2, 0, 2, 0],
    ]);
    let r = fill(4, 0, 1, &mut img);
    assert_eq!(r, Some(Rect { top: 0, left: 0, bottom: 3, right: 6 }));
    assert_eq!(
        pixels(&img),
        vec![
            vec![1, 0, 1, 0, 1, 0, 1],
            vec![1, 0, 1, 0, 1, 0, 1],
            vec![1, 1, 1, 1, 1, 1, 1],
            vec![0, 1, 0, 1, 0, 1, 0],
        ]
    );
}

#[test]
fn box_is_tight_on_every_edge() {
    let mut img = surface(&[
        &[0, 0, 0, 0, 0, 0],
        &[0, 0, 0, 3, 0, 0],
        &[0, 3, 3, 3, 0, 0],
        &[0, 0, 0, 3, 3, 0],
        &[0, 0, 0, 3, 0, 0],
        &[0, 0, 0, 0, 0, 0],
    ]);
    let r = fill(3, 2, 0, &mut img).unwrap();
    assert_eq!(r, Rect { top: 1, left: 1, bottom: 4, right: 4 });
}

#[test]
fn every_pixel_lies_in_the_box_of_one_region() {
    let rows: [&[u8]; 4] = [&[1, 1, 2, 2], &[1, 3, 3, 2], &[4, 3, 3, 2], &[4, 4, 2, 2]];
    let mut img = surface(&rows);
    let mut grid: Vec<Vec<u8>> = rows.iter().map(|r| r.to_vec()).collect();
    let found = bboxes(0, &mut img);
    assert_eq!(found, plain_sweep(&mut grid, 0));
    assert_eq!(found.len(), 4);
    for y in 0..4 {
        for x in 0..4 {
            let color = rows[y][x];
            let holders = found
                .iter()
                .filter(|(r, c)| {
                    *c == color
                        && r.left <= x as i32
                        && x as i32 <= r.right
                        && r.top <= y as i32
                        && y as i32 <= r.bottom
                })
                .count();
            assert_eq!(holders, 1);
        }
    }
}

#[test]
fn fill_agrees_with_a_plain_flood_on_scattered_surfaces() {
    let mut state = 12345u64;
    for round in 0..200 {
        let width = 1 + (noise(&mut state) % 9) as usize;
        let height = 1 + (noise(&mut state) % 9) as usize;
        let colors = 1 + (round % 3) as u64;
        let mut grid = vec![vec![0u8; width]; height];
        for row in grid.iter_mut() {
            for px in row.iter_mut() {
                *px = (noise(&mut state) % (colors + 1)) as u8;
            }
        }
        let data: Vec<u8> = grid.iter().flatten().copied().collect();
        let x = (noise(&mut state) % (width as u64 + 2)) as i32 - 1;
        let y = (noise(&mut state) % (height as u64 + 2)) as i32 - 1;
        let nv = (noise(&mut state) % (colors + 2)) as u8;
        let mut img = Bitmap::new(width, height, data).unwrap();
        let got = fill(x, y, nv, &mut img);
        let want = plain_flood(&mut grid, x, y, nv);
        assert_eq!(got, want);
        assert_eq!(pixels(&img), grid);
    }
}

#[test]
fn sweep_agrees_with_a_plain_sweep_on_scattered_surfaces() {
    let mut state = 987654321u64;
    for round in 0..200 {
        let width = (noise(&mut state) % 12) as usize;
        let height = (noise(&mut state) % 12) as usize;
        let colors = 1 + (round % 4) as u64;
        let mut grid = vec![vec![0u8; width]; height];
        for row in grid.iter_mut() {
            for px in row.iter_mut() {
                *px = (noise(&mut state) % (colors + 1)) as u8;
            }
        }
        let data: Vec<u8> = grid.iter().flatten().copied().collect();
        let mut img = Bitmap::new(width, height, data).unwrap();
        let got = bboxes(0, &mut img);
        let want = plain_sweep(&mut grid, 0);
        assert_eq!(got, want);
        assert_eq!(pixels(&img), vec![vec![0u8; width]; height]);
    }
}

#[test]
fn fill_a_large_surface_of_one_colour() {
    let width = 300;
    let height = 200;
    let mut img = Bitmap::new(width, height, vec![1; width * height]).unwrap();
    let r = fill(150, 100, 2, &mut img);
    assert_eq!(r, Some(Rect { top: 0, left: 0, bottom: 199, right: 299 }));
    for y in 0..height {
        for x in 0..width {
            assert_eq!(img.get_pixel(x as i32, y as i32), Some(2));
        }
    }
}
