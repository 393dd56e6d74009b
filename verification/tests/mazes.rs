use recorrelaberintos::maze::{first_channel_rows, read_graph, read_png_graph, try_read_graph};
use recorrelaberintos::pos::Pos;

fn rows(picture: &[&str]) -> Vec<Vec<u8>> {
    picture
        .iter()
        .map(|line| line.chars().map(|c| if c == '.' { 255u8 } else { 0u8 }).collect())
        .collect()
}

fn p(x: u32, y: u32) -> Pos {
    Pos::from((x, y))
}

/// The bytes of a PNG file of `picture`: white pixels for `.`, black for
/// the rest; `tint` goes in the second and third channels of every pixel.
fn png_of(picture: &[&str], tint: u8) -> Vec<u8> {
    let w = picture[0].len() as u32;
    let h = picture.len() as u32;
    let mut img = image::RgbaImage::new(w, h);
    for (y, line) in picture.iter().enumerate() {
        for (x, c) in line.chars().enumerate() {
            let v = if c == '.' { 255u8 } else { 0u8 };
            img.put_pixel(x as u32, y as u32, image::Rgba([v, tint, tint, 255]));
        }
    }
    let mut bytes: Vec<u8> = Vec::new();
    img.write_to(&mut std::io::Cursor::new(&mut bytes), image::ImageFormat::Png).expect("encodes");
    bytes
}

const WINDING: [&str; 5] = ["#.###", "#...#", "###.#", "#...#", "#.###"];

#[test]
fn winding_maze_has_its_corners_as_nodes() {
    let g = try_read_graph(&rows(&WINDING)).expect("readable");
    assert!(g.len() == 6);
    assert!(g.start() == p(1, 0));
    assert!(g.end() == p(1, 4));
    for q in [p(1, 0), p(1, 1), p(3, 1), p(1, 3), p(3, 3), p(1, 4)] {
        assert!(g.contains(q));
    }
    // Middles of corridors make no node.
    for q in [p(2, 1), p(3, 2), p(2, 3), p(0, 0), p(4, 4)] {
        assert!(!g.contains(q));
    }
}

#[test]
fn winding_maze_links_up_down_left_right() {
    let g = try_read_graph(&rows(&WINDING)).expect("readable");
    assert!(g.neighbours(p(1, 0)) == [None, Some(p(1, 1)), None, None]);
    assert!(g.neighbours(p(1, 1)) == [Some(p(1, 0)), None, Some(p(3, 1)), None]);
    assert!(g.neighbours(p(3, 1)) == [None, Some(p(3, 3)), None, Some(p(1, 1))]);
    assert!(g.neighbours(p(1, 3)) == [None, Some(p(1, 4)), Some(p(3, 3)), None]);
    assert!(g.neighbours(p(3, 3)) == [Some(p(3, 1)), None, None, Some(p(1, 3))]);
    assert!(g.neighbours(p(1, 4)) == [Some(p(1, 3)), None, None, None]);
}

#[test]
fn entrance_and_exit_are_the_last_open_pixels_of_their_rows() {
    let g = try_read_graph(&rows(&["#.#.#", "#...#", "#.#.#", "#...#", "#.#.#"])).expect("readable");
    assert!(g.start() == p(3, 0));
    assert!(g.end() == p(3, 4));
    assert!(g.contains(p(1, 0)));
    assert!(g.contains(p(1, 4)));
}

#[test]
fn bottom_row_links_up_across_walls() {
    // The exit finds the nearest node above it in its column, whatever lies
    // between them.
    let g = try_read_graph(&rows(&["#.#", "###", "#.#"])).expect("readable");
    assert!(g.len() == 2);
    assert!(g.neighbours(p(1, 2)) == [Some(p(1, 0)), None, None, None]);
    assert!(g.neighbours(p(1, 0)) == [None, Some(p(1, 2)), None, None]);
}

#[test]
fn no_open_pixel_in_the_top_row_is_unreadable() {
    assert!(try_read_graph(&rows(&["###", "#.#", "#.#"])).is_none());
}

#[test]
fn no_open_pixel_in_the_bottom_row_is_unreadable() {
    assert!(try_read_graph(&rows(&["#.#", "#.#", "###"])).is_none());
}

#[test]
fn single_row_is_unreadable() {
    assert!(try_read_graph(&rows(&["#.#"])).is_none());
}

#[test]
fn empty_image_is_unreadable() {
    assert!(try_read_graph(&Vec::new()).is_none());
}

#[test]
fn exit_without_a_node_above_is_unreadable() {
    assert!(try_read_graph(&rows(&["#.#", "###", "##."])).is_none());
}

#[test]
fn left_link_to_an_open_border_is_unreadable() {
    // (1, 1) is a corner whose west pixel is open, but the pixel on the left
    // border makes no node, so its left link finds none.
    assert!(try_read_graph(&rows(&["#.##", "..##", "#.##", "#.##"])).is_none());
}

#[test]
fn read_graph_reads_a_maze() {
    let g = read_graph(&rows(&WINDING));
    assert!(g.len() == 6);
    assert!(g.start() == p(1, 0));
}

#[test]
fn png_maze_reads_as_its_pixel_rows() {
    let g = read_png_graph(&png_of(&WINDING, 0)).expect("a readable PNG maze");
    let h = try_read_graph(&rows(&WINDING)).expect("readable");
    assert!(g.len() == h.len());
    assert!(g.start() == h.start());
    assert!(g.end() == h.end());
    for q in [p(1, 0), p(1, 1), p(3, 1), p(1, 3), p(3, 3), p(1, 4)] {
        assert!(g.neighbours(q) == h.neighbours(q));
    }
}

#[test]
fn png_maze_is_read_from_the_first_channel_only() {
    // White in the other channels changes nothing.
    let g = read_png_graph(&png_of(&WINDING, 255)).expect("a readable PNG maze");
    assert!(g.len() == 6);
    assert!(g.start() == p(1, 0));
    assert!(g.end() == p(1, 4));
}

#[test]
fn bytes_that_are_no_png_give_no_graph() {
    assert!(read_png_graph(&[1u8, 2, 3, 4, 5]).is_none());
    assert!(read_png_graph(&[]).is_none());
}

#[test]
fn png_without_an_exit_gives_no_graph() {
    assert!(read_png_graph(&png_of(&["#.#", "#.#", "###"], 0)).is_none());
}

#[test]
fn first_channel_rows_take_every_fourth_byte() {
    let buf: Vec<u8> = (0u8..24).collect();
    let r = first_channel_rows(3, 2, &buf);
    assert!(r == vec![vec![0u8, 4, 8], vec![12u8, 16, 20]]);
}
