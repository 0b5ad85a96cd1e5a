use racing_core::geometry::Point;
use racing_core::racetrack::{GridTile, Racetrack, TileRepr};

const MINIMAL: &str = "+---+\n|   |\n|*s*|\n|   |\n+---+\n";

fn pt(x: i64, y: i64) -> Point {
    Point { x, y }
}

fn border_of(t: GridTile) -> (Point, Point) {
    match t {
        GridTile::Border { border, .. } => border,
        _ => panic!("expected a border tile"),
    }
}

#[test]
fn minimal_track_compiles() {
    let t = Racetrack::from_str(MINIMAL).expect("minimal track must compile");
    assert_eq!(t.width, 3);
    assert_eq!(t.height, 3);
    assert_eq!(t.start_tile, (1, 1));
    assert_eq!(t.tile_size, 2);
    assert_eq!(t.laps, 1);
    assert_eq!(t.initial_car_pos, pt(3, 3));
    assert_eq!(t.finish_line, (pt(2, 3), pt(4, 3)));
}

#[test]
fn minimal_track_without_trailing_newline_compiles() {
    let t = Racetrack::from_str("+---+\n|   |\n|*s*|\n|   |\n+---+").expect("must compile");
    assert_eq!((t.width, t.height), (3, 3));
}

#[test]
fn centre_tile_is_inside_and_not_marked() {
    let t = Racetrack::from_str(MINIMAL).unwrap();
    assert_eq!(t.get_tile(1, 1), GridTile::Inside { contains_finish_line: false });
}

#[test]
fn finish_line_marks_span_but_not_start_tile() {
    let t = Racetrack::from_str(MINIMAL).unwrap();
    let marked: Vec<(usize, usize)> = (0..3)
        .flat_map(|y| (0..3).map(move |x| (x, y)))
        .filter(|&(x, y)| match t.get_tile(x, y) {
            GridTile::Border { contains_finish_line, .. } => contains_finish_line,
            GridTile::Inside { contains_finish_line } => contains_finish_line,
            GridTile::Outside => false,
        })
        .collect();
    assert_eq!(marked, vec![(0, 1), (2, 1)]);
}

#[test]
fn single_outside_side_gives_that_edge_as_border() {
    let t = Racetrack::from_str(MINIMAL).unwrap();
    // Bottom middle tile: only the downward neighbour is off the track.
    assert_eq!(border_of(t.get_tile(1, 0)), (pt(2, 0), pt(4, 0)));
    // Top middle: only upward outside.
    assert_eq!(border_of(t.get_tile(1, 2)), (pt(2, 6), pt(4, 6)));
    // Left middle: only leftward outside.
    assert_eq!(border_of(t.get_tile(0, 1)), (pt(0, 2), pt(0, 4)));
    // Right middle: only rightward outside.
    assert_eq!(border_of(t.get_tile(2, 1)), (pt(6, 2), pt(6, 4)));
}

#[test]
fn two_outside_sides_give_the_cut_diagonal() {
    let t = Racetrack::from_str(MINIMAL).unwrap();
    // Bottom-left corner tile: down and left outside.
    assert_eq!(border_of(t.get_tile(0, 0)), (pt(2, 0), pt(0, 2)));
    // Bottom-right: right and down outside.
    assert_eq!(border_of(t.get_tile(2, 0)), (pt(6, 2), pt(4, 0)));
    // Top-left: left and up outside.
    assert_eq!(border_of(t.get_tile(0, 2)), (pt(0, 4), pt(2, 6)));
    // Top-right: up and right outside.
    assert_eq!(border_of(t.get_tile(2, 2)), (pt(4, 6), pt(6, 4)));
}

#[test]
fn render_reproduces_the_interior() {
    let t = Racetrack::from_str(MINIMAL).unwrap();
    let rows = t.render();
    assert_eq!(rows.len(), 3);
    assert_eq!(rows[0], b"   ".to_vec());
    assert_eq!(rows[1], b"*s*".to_vec());
    assert_eq!(rows[2], b"   ".to_vec());
}

#[test]
fn ring_shaped_course_compiles() {
    // A two-tile-thick ring around a blocked centre: the kind of course the
    // game is about. The finish line spans only the left band of the ring.
    let course = "+--------+\n\
                  |        |\n\
                  |        |\n\
                  |  xxxx  |\n\
                  |*sxxxx  |\n\
                  |  xxxx  |\n\
                  |  xxxx  |\n\
                  |        |\n\
                  |        |\n\
                  +--------+\n";
    let t = Racetrack::from_str(course).expect("ring course must compile");
    assert_eq!((t.width, t.height), (8, 8));
    assert_eq!(t.start_tile, (1, 4));
    assert!(t.get_tile(3, 4).is_outside());
    assert!(t.get_tile(0, 4).is_border());
    // Only the single tile left of the start carries the finish line.
    let mut marked = Vec::new();
    for y in 0..8 {
        for x in 0..8 {
            if match t.get_tile(x, y) {
                GridTile::Border { contains_finish_line, .. } => contains_finish_line,
                GridTile::Inside { contains_finish_line } => contains_finish_line,
                GridTile::Outside => false,
            } {
                marked.push((x, y));
            }
        }
    }
    assert_eq!(marked, vec![(0, 4)]);
}

#[test]
fn two_start_tiles_are_rejected() {
    let r = Racetrack::from_str("+---+\n|   |\n|*ss|\n|   |\n+---+\n");
    assert_eq!(r.unwrap_err(), "multiple start tiles found");
    let r = Racetrack::from_str("+---+\n|s s|\n|   |\n|   |\n+---+\n");
    assert_eq!(r.unwrap_err(), "multiple start tiles found");
}

#[test]
fn unknown_character_is_cited_with_its_position() {
    // 1-based input line and column: the frame counts too.
    let r = Racetrack::from_str("+---+\n|a s|\n+---+\n");
    assert_eq!(r.unwrap_err(), "expected one of 'x', ' ', 's', or '*' at 2:2");
    let r = Racetrack::from_str("+---+\n|   |\n| sq|\n+---+\n");
    assert_eq!(r.unwrap_err(), "expected one of 'x', ' ', 's', or '*' at 3:4");
    // An unknown character before the second start is reported first.
    let r = Racetrack::from_str("+---+\n|qss|\n+---+\n");
    assert_eq!(r.unwrap_err(), "expected one of 'x', ' ', 's', or '*' at 2:2");
}

#[test]
fn row_without_pipe_is_cited_with_its_line() {
    let r = Racetrack::from_str("+---+\n|s  |\nx  |\n+---+\n");
    assert_eq!(r.unwrap_err(), "expected row 3 to start with '|'");
}

#[test]
fn unreachable_region_is_rejected() {
    let r = Racetrack::from_str("+-----+\n|   x |\n|*s*x |\n|   x |\n+-----+\n");
    assert_eq!(r.unwrap_err(), "some racetrack tiles are not reachable from the start");
}

#[test]
fn skinny_column_is_rejected() {
    let r = Racetrack::from_str("+---+\n|x x|\n|*s*|\n+---+\n");
    // The first offending tile in scan order is the bottom-left star: both
    // its vertical neighbours are off the track.
    assert_eq!(r.unwrap_err(), "racetrack is too skinny around tile at (x = 1, y = 1)");
}

#[test]
fn star_off_the_finish_span_is_rejected() {
    let r = Racetrack::from_str("+---+\n| * |\n|*s*|\n|   |\n+---+\n");
    assert_eq!(
        r.unwrap_err(),
        "malformed finish line; should span the track horizontally from the start tile"
    );
}

#[test]
fn missing_star_is_rejected() {
    let r = Racetrack::from_str("+---+\n|   |\n|*s |\n|   |\n+---+\n");
    assert_eq!(
        r.unwrap_err(),
        "malformed finish line; should span the track horizontally from the start tile"
    );
}

#[test]
fn single_tile_track_is_too_skinny() {
    // A one-by-one track: every neighbour of the start tile is outside.
    let r = Racetrack::from_str("+-+\n|s|\n+-+\n");
    assert_eq!(r.unwrap_err(), "racetrack is too skinny around tile at (x = 1, y = 1)");
}

#[test]
fn missing_start_is_rejected() {
    let r = Racetrack::from_str("+---+\n|   |\n+---+\n");
    assert_eq!(r.unwrap_err(), "no start tile found");
}

#[test]
fn malformed_frames_are_rejected() {
    assert!(Racetrack::from_str("").is_err());
    assert!(Racetrack::from_str("+---+").is_err());
    assert!(Racetrack::from_str("+---+\n|s  \n+---+\n").is_err());
    assert!(Racetrack::from_str("+---+\n|s  |\n+--+\n").is_err());
    assert!(Racetrack::from_str("+---+\n|   |\n|*s*|\n|   |\n+---+\n\n").is_err());
    assert!(Racetrack::from_str("+---+\n|   |\n|*s*|\n|   |\n+---+\nx").is_err());
    assert!(Racetrack::from_str("++\n++\n").is_err());
}

#[test]
fn non_ascii_input_is_rejected() {
    assert!(Racetrack::from_str("+---+\n|\u{e9} s|\n+---+\n").is_err());
}

#[test]
fn tile_repr_parses_the_four_characters() {
    assert!(matches!(TileRepr::from_char('x'), Some(TileRepr::OutOfBounds)));
    assert!(matches!(TileRepr::from_char(' '), Some(TileRepr::InBounds)));
    assert!(matches!(TileRepr::from_char('s'), Some(TileRepr::Start)));
    assert!(matches!(TileRepr::from_char('*'), Some(TileRepr::FinishLine)));
    assert!(TileRepr::from_char('q').is_none());
    assert!(TileRepr::from_char('s').unwrap().is_part_of_racetrack());
    assert!(!TileRepr::from_char('x').unwrap().is_part_of_racetrack());
}

#[test]
fn tile_kind_predicates() {
    let t = Racetrack::from_str(MINIMAL).unwrap();
    assert!(t.get_tile(1, 1).is_inside());
    assert!(!t.get_tile(1, 1).is_border());
    assert!(t.get_tile(0, 0).is_border());
    assert!(t.get_tile(0, 0).try_border().is_some());
    assert!(t.get_tile(1, 1).try_border().is_none());
    assert!(!t.get_tile(1, 1).is_outside());
}
