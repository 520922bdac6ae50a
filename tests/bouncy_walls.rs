use shiren_tools::cell::{CellKind, CellsError};
use shiren_tools::cells::Cells;
use shiren_tools::grid::{BOUNCE_ALL, BOUNCE_BOTTOM, BOUNCE_LEFT, BOUNCE_RIGHT, BOUNCE_TOP};

const SAMPLE: &str = "#bbbbbbbb##
bb......bbb
b
b.........b
b.........b
bbbb....bbb
###bbb.bb##
";

fn parse_ok(text: &str) -> Cells {
    match Cells::parse(text) {
        Ok(c) => c,
        Err(e) => panic!("unexpected error {:?}", e),
    }
}

#[test]
fn sample_map_parses_and_has_routes() {
    let cells = parse_ok(SAMPLE);
    assert_eq!(cells.get_size(), (7, 11));
    assert_eq!(cells.len(), 77);
    // the third line is filled with vacant cells
    assert_eq!(cells.get(2, 0), Some(CellKind::BouncyWall));
    assert_eq!(cells.get(2, 1), Some(CellKind::Vacant));
    assert_eq!(cells.get(2, 10), Some(CellKind::Vacant));
    assert_eq!(cells.get(0, 0), Some(CellKind::Wall));
    let routes = cells.find_routes();
    assert!(!routes.is_empty());
}

#[test]
fn single_wall_has_no_routes() {
    let cells = parse_ok("#");
    assert_eq!(cells.get_size(), (1, 1));
    assert_eq!(cells.get(0, 0), Some(CellKind::Wall));
    assert!(cells.get(0, 0).unwrap().is_solid());
    assert_eq!(cells.find_routes(), Vec::<usize>::new());
}

#[test]
fn twenty_five_lines_are_too_large() {
    let text = vec!["#"; 25].join("\n");
    assert_eq!(Cells::parse(&text), Err(CellsError::TooLarge));
    let text = vec!["#"; 24].join("\n");
    assert_eq!(parse_ok(&text).get_size(), (24, 1));
}

#[test]
fn long_line_is_too_large() {
    let text = ".".repeat(25);
    assert_eq!(Cells::parse(&text), Err(CellsError::TooLarge));
    let text = ".".repeat(24);
    assert_eq!(parse_ok(&text).get_size(), (1, 24));
}

#[test]
fn too_large_comes_before_invalid_char() {
    let mut text = vec!["#"; 25].join("\n");
    text.push('x');
    assert_eq!(Cells::parse(&text), Err(CellsError::TooLarge));
}

#[test]
fn unknown_characters_are_rejected() {
    assert_eq!(Cells::parse("..x.."), Err(CellsError::InvalidChar));
    assert_eq!(Cells::parse("#\n@"), Err(CellsError::InvalidChar));
    let mut text = SAMPLE.to_string();
    text.insert(20, 'x');
    assert_eq!(Cells::parse(&text), Err(CellsError::InvalidChar));
}

#[test]
fn character_mapping() {
    let cells = parse_ok(" .#,pP~wWbB");
    let expected = [
        CellKind::Vacant,
        CellKind::Vacant,
        CellKind::Wall,
        CellKind::Pit,
        CellKind::Pit,
        CellKind::Pit,
        CellKind::Water,
        CellKind::Water,
        CellKind::Water,
        CellKind::BouncyWall,
        CellKind::BouncyWall,
    ];
    for (x, kind) in expected.iter().enumerate() {
        assert_eq!(cells.get(0, x), Some(*kind));
    }
    assert_eq!(cells.get(0, 11), None);
    assert_eq!(cells.get(1, 0), None);
}

#[test]
fn leading_line_feed_and_trailing_space_are_dropped() {
    let cells = parse_ok("\n#.\n.#  \n\n  ");
    assert_eq!(cells.get_size(), (2, 2));
    assert_eq!(cells.get(0, 0), Some(CellKind::Wall));
    assert_eq!(cells.get(1, 1), Some(CellKind::Wall));
}

#[test]
fn only_one_leading_line_feed_is_dropped() {
    let cells = parse_ok("\n\n#");
    assert_eq!(cells.get_size(), (2, 1));
    assert_eq!(cells.get(0, 0), Some(CellKind::Vacant));
    assert_eq!(cells.get(1, 0), Some(CellKind::Wall));
}

#[test]
fn carriage_returns_end_lines() {
    let cells = parse_ok("#.\r\n.#\r\n");
    assert_eq!(cells.get_size(), (2, 2));
    assert_eq!(cells.get(1, 1), Some(CellKind::Wall));
    assert_eq!(Cells::parse("#\r."), Err(CellsError::InvalidChar));
}

#[test]
fn empty_text_is_an_empty_map() {
    let cells = parse_ok("  \n ");
    assert_eq!(cells.get_size(), (0, 0));
    assert_eq!(cells.len(), 0);
    assert!(cells.find_routes().is_empty());
}

#[test]
fn background_classes() {
    assert_eq!(CellKind::Vacant.get_bg_class_name(), "vacant_bg");
    assert_eq!(CellKind::Wall.get_bg_class_name(), "wall_bg");
    assert_eq!(CellKind::Pit.get_bg_class_name(), "pit_bg");
    assert_eq!(CellKind::Water.get_bg_class_name(), "water_bg");
    assert_eq!(CellKind::BouncyWall.get_bg_class_name(), "bouncy_wall_bg");
    assert!(!CellKind::Pit.is_solid());
    assert!(!CellKind::Water.is_solid());
    assert!(CellKind::BouncyWall.is_solid());
}

#[test]
fn trace_of_open_square() {
    // From the top-left cell in orientation 0 the only move goes down-right.
    let cells = parse_ok("..\n..");
    assert_eq!(cells.trace(0), vec![1, 0, 0, 1]);
    // From the top-right cell in orientation 1 the only move goes down-left.
    assert_eq!(cells.trace(4 + 1), vec![0, 2, 2, 0]);
    assert!(cells.find_routes().is_empty());
}

#[test]
fn deflection_flips_orientation() {
    // Moving up-left from (1, 1) is blocked by the wall at (0, 0); the cell
    // above is solid and the one to the left open, so the move slides left
    // along the wall and turns to orientation 1.
    let cells = parse_ok("##\n..");
    let n = cells.len();
    let trace = cells.trace(3);
    assert_eq!(trace[3], 1);
    assert_eq!(trace[2], 2);
    let mut visited = vec![false; 2 * n];
    let flags = cells.explore(3, &mut visited);
    assert_eq!(flags, 0);
    assert!(visited[3]);
    assert!(visited[n + 2]);
}

#[test]
fn bounce_against_bouncy_wall_above() {
    // Deflections along bouncy walls record the side of the wall.
    let cells = parse_ok("bb\n..");
    let n = cells.len();
    let mut visited = vec![false; 2 * n];
    let flags = cells.explore(3, &mut visited);
    assert_eq!(flags & BOUNCE_TOP, BOUNCE_TOP);
    assert_eq!(flags & (BOUNCE_LEFT | BOUNCE_RIGHT | BOUNCE_BOTTOM), 0);
}

#[test]
fn find_routes_is_deterministic() {
    let cells = parse_ok(SAMPLE);
    assert_eq!(cells.find_routes(), cells.find_routes());
    let again = parse_ok(SAMPLE);
    assert_eq!(cells.find_routes(), again.find_routes());
    let routes = cells.find_routes();
    assert_eq!(cells.trace(routes[0]), again.trace(routes[0]));
}

#[test]
fn routes_bounce_all_ways_when_explored_again() {
    let cells = parse_ok(SAMPLE);
    let n = cells.len();
    for r in cells.find_routes() {
        let mut visited = vec![false; 2 * n];
        assert_eq!(cells.explore(r, &mut visited), BOUNCE_ALL);
    }
}

#[test]
fn route_components_are_disjoint() {
    let cells = parse_ok(SAMPLE);
    let n = cells.len();
    let routes = cells.find_routes();
    let mut owner: Vec<Option<usize>> = vec![None; 2 * n];
    for (i, r) in routes.iter().enumerate() {
        let mut visited = vec![false; 2 * n];
        cells.explore(*r, &mut visited);
        for v in 0..2 * n {
            if visited[v] {
                assert_eq!(owner[v], None);
                owner[v] = Some(i);
            }
        }
    }
    // representatives come in increasing order of cell, then orientation
    let keys: Vec<usize> = routes.iter().map(|r| 2 * (r % n) + r / n).collect();
    for w in keys.windows(2) {
        assert!(w[0] < w[1]);
    }
}

#[test]
fn every_open_state_is_explored_once() {
    let cells = parse_ok(SAMPLE);
    let n = cells.len();
    let (_, width) = cells.get_size();
    let mut visited = vec![false; 2 * n];
    let mut count = 0;
    for v in 0..2 * n {
        let c = v % n;
        if cells.get(c / width, c % width).unwrap().is_solid() || visited[v] {
            continue;
        }
        let before = visited.iter().filter(|b| **b).count();
        cells.explore(v, &mut visited);
        assert!(visited.iter().filter(|b| **b).count() > before);
        count += 1;
    }
    for v in 0..2 * n {
        let c = v % n;
        let open = !cells.get(c / width, c % width).unwrap().is_solid();
        assert_eq!(visited[v], open);
    }
    assert!(count >= cells.find_routes().len());
}

#[test]
fn trace_marks_the_representative_cell() {
    let cells = parse_ok(SAMPLE);
    let n = cells.len();
    for r in cells.find_routes() {
        let trace = cells.trace(r);
        assert_eq!(trace.len(), n);
        assert_ne!(trace[r % n] & (1 << (r / n)), 0);
        let mut visited = vec![false; 2 * n];
        cells.explore(r, &mut visited);
        for c in 0..n {
            assert_eq!(trace[c] & 1 != 0, visited[c]);
            assert_eq!(trace[c] & 2 != 0, visited[n + c]);
        }
    }
}

#[test]
fn no_cell_is_crossed_in_both_orientations() {
    let maps = [
        SAMPLE,
        "....\n....\n....",
        "b.b.b\n.#.#.\nb...b\n.#.#.\nb.b.b",
        "bbbbb\nb...b\nb.#.b\nb...b\nbbbbb",
    ];
    for text in maps {
        let cells = parse_ok(text);
        let (height, width) = cells.get_size();
        let n = cells.len();
        for v in 0..2 * n {
            let c = v % n;
            if cells.get(c / width, c % width).unwrap().is_solid() {
                continue;
            }
            let trace = cells.trace(v);
            assert_eq!(trace.len(), height * width);
            assert!(trace.iter().all(|b| *b != 3));
        }
    }
}
