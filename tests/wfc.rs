use rand::rngs::StdRng;
use rand::SeedableRng;
use wfc_tiles::cell::Cell;
use wfc_tiles::entropy::pick_cell_with_least_entropy;
use wfc_tiles::geometry::Direction;
use wfc_tiles::grid::{random_selection_of_sockets, CollapseError, Grid, RESTART_BUDGET};
use wfc_tiles::image::{compare_edge, PixelImage, Rect};
use wfc_tiles::propagate::wave_collapse;
use wfc_tiles::region::{name_less, sort_by_name, Region};
use wfc_tiles::tileset::{generating_adjacency_rules, mismatched_regions, Tile, Tileset, TilesetError};

fn rect(x: u32, y: u32, side: u32) -> Rect {
    Rect { x, y, width: side, height: side }
}

fn region(name: &str, x: u32, y: u32, side: u32) -> Region {
    Region { name: name.to_string(), rect: rect(x, y, side) }
}

/// A tile whose four adjacency lists are all `list`.
fn tile_with(name: &str, list: Vec<usize>) -> Tile {
    let mut t = Tile::new(name.to_string(), rect(0, 0, 1));
    t.up = list.clone();
    t.right = list.clone();
    t.down = list.clone();
    t.left = list;
    t
}

fn open_cell(index: usize, sockets: Vec<usize>) -> Cell {
    Cell::from_list(index, sockets)
}

fn collapsed_cell(index: usize, tile: usize) -> Cell {
    let mut c = Cell::from_list(index, vec![tile]);
    c.collapsed = true;
    c
}

/// Three 3x3 tiles side by side: "c" with a left column of colour 1 and a
/// right column of colour 2, "a" all 1, "b" all 2 (given out of name order).
fn three_tile_atlas() -> (PixelImage, Vec<Region>) {
    let width = 9u32;
    let height = 3u32;
    let mut pixels = Vec::new();
    for _y in 0..height {
        pixels.extend_from_slice(&[1, 9, 2]);
        pixels.extend_from_slice(&[1, 1, 1]);
        pixels.extend_from_slice(&[2, 2, 2]);
    }
    let image = PixelImage { width, height, pixels };
    let regions = vec![region("c", 0, 0, 3), region("a", 3, 0, 3), region("b", 6, 0, 3)];
    (image, regions)
}

fn tile_at(g: &Grid, i: usize) -> usize {
    g.cells[i].sockets[0]
}

fn side_list(t: &Tile, d: Direction) -> &Vec<usize> {
    t.side(d)
}

/// Post-hoc check: every cell holds one tile and every neighbour's tile is in
/// the matching adjacency list.
fn assert_complete_and_consistent(g: &Grid) {
    let n = g.dimension;
    assert_eq!(g.cells.len(), n * n);
    for (i, c) in g.cells.iter().enumerate() {
        assert!(c.collapsed);
        assert_eq!(c.sockets.len(), 1);
        assert_eq!(c.index, i);
        assert!(c.sockets[0] < g.tileset.tiles.len());
    }
    for i in 0..n * n {
        let (x, y) = (i % n, i / n);
        let t = &g.tileset.tiles[tile_at(g, i)];
        if y > 0 {
            assert!(side_list(t, Direction::Up).contains(&tile_at(g, i - n)));
        }
        if x + 1 < n {
            assert!(side_list(t, Direction::Right).contains(&tile_at(g, i + 1)));
        }
        if y + 1 < n {
            assert!(side_list(t, Direction::Down).contains(&tile_at(g, i + n)));
        }
        if x > 0 {
            assert!(side_list(t, Direction::Left).contains(&tile_at(g, i - 1)));
        }
    }
}

#[test]
fn least_entropy_keeps_all_ties() {
    let cells = vec![
        open_cell(0, vec![0, 1, 2]),
        open_cell(1, vec![1]),
        open_cell(2, vec![2]),
        open_cell(3, vec![0, 1]),
    ];
    assert_eq!(pick_cell_with_least_entropy(&cells), vec![1, 2]);
}

#[test]
fn least_entropy_skips_collapsed_cells() {
    let cells = vec![collapsed_cell(0, 0), open_cell(1, vec![0, 1]), open_cell(2, vec![0, 1, 2])];
    assert_eq!(pick_cell_with_least_entropy(&cells), vec![1]);
}

#[test]
fn least_entropy_empty_when_all_collapsed() {
    let cells = vec![collapsed_cell(0, 0), collapsed_cell(1, 1)];
    assert!(pick_cell_with_least_entropy(&cells).is_empty());
    assert!(pick_cell_with_least_entropy(&Vec::new()).is_empty());
}

#[test]
fn least_entropy_counts_empty_cells_as_least() {
    let cells = vec![open_cell(0, vec![0]), open_cell(1, vec![]), open_cell(2, vec![])];
    assert_eq!(pick_cell_with_least_entropy(&cells), vec![1, 2]);
}

#[test]
fn colour_lookup_is_row_major() {
    let image = PixelImage { width: 2, height: 2, pixels: vec![1, 2, 3, 4] };
    assert_eq!(image.get_color_at(1, 0), Some(2));
    assert_eq!(image.get_color_at(0, 1), Some(3));
    assert_eq!(image.get_color_at(2, 0), None);
    assert_eq!(image.get_color_at(0, 2), None);
}

#[test]
fn edges_compare_pixel_by_pixel() {
    let image = PixelImage { width: 2, height: 2, pixels: vec![5, 5, 6, 6] };
    // top row against bottom row
    assert!(!compare_edge(&image, 0, 0, 0, 1, 1, 0, 2));
    // left column against right column
    assert!(compare_edge(&image, 0, 0, 1, 0, 0, 1, 2));
    // no samples at all
    assert!(compare_edge(&image, 0, 0, 0, 1, 1, 0, 0));
}

#[test]
fn names_order_by_bytes() {
    let s = |x: &str| x.to_string();
    assert!(name_less(&s("apple"), &s("banana")));
    assert!(!name_less(&s("banana"), &s("apple")));
    assert!(name_less(&s("ab"), &s("abc")));
    assert!(!name_less(&s("abc"), &s("abc")));
    assert!(name_less(&s(""), &s("a")));
    assert!(name_less(&s("Z"), &s("a")));
}

#[test]
fn regions_sort_by_name_stably() {
    let regions = vec![region("b", 0, 0, 1), region("a", 1, 0, 1), region("b", 2, 0, 1), region("c", 3, 0, 1)];
    let sorted = sort_by_name(&regions);
    let names: Vec<&str> = sorted.iter().map(|r| r.name.as_str()).collect();
    assert_eq!(names, vec!["a", "b", "b", "c"]);
    assert_eq!(sorted[1].rect.x, 0);
    assert_eq!(sorted[2].rect.x, 2);
}

#[test]
fn identical_tiles_are_adjacent_everywhere() {
    let image = PixelImage { width: 4, height: 2, pixels: vec![7; 8] };
    let regions = vec![region("one", 0, 0, 2), region("two", 2, 0, 2)];
    let t = Tileset::new(&image, &regions).unwrap();
    assert_eq!(t.tile_size, 2);
    for tile in t.tiles.iter() {
        for d in [Direction::Up, Direction::Right, Direction::Down, Direction::Left] {
            assert_eq!(side_list(tile, d), &vec![0, 1]);
        }
    }
}

#[test]
fn differing_edges_give_no_adjacency() {
    let image = PixelImage { width: 4, height: 2, pixels: vec![1, 1, 2, 2, 1, 1, 2, 2] };
    let regions = vec![region("one", 0, 0, 2), region("two", 2, 0, 2)];
    let t = Tileset::new(&image, &regions).unwrap();
    for d in [Direction::Up, Direction::Right, Direction::Down, Direction::Left] {
        assert_eq!(side_list(&t.tiles[0], d), &vec![0]);
        assert_eq!(side_list(&t.tiles[1], d), &vec![1]);
    }
}

#[test]
fn adjacency_follows_edge_colours() {
    let (image, regions) = three_tile_atlas();
    let t = Tileset::new(&image, &regions).unwrap();
    let names: Vec<&str> = t.tiles.iter().map(|x| x.slice_name.as_str()).collect();
    assert_eq!(names, vec!["a", "b", "c"]);
    let (a, b, c) = (&t.tiles[0], &t.tiles[1], &t.tiles[2]);
    assert_eq!(a.right, vec![0, 2]);
    assert_eq!(a.left, vec![0]);
    assert_eq!(a.up, vec![0]);
    assert_eq!(b.left, vec![1, 2]);
    assert_eq!(b.right, vec![1]);
    assert_eq!(c.left, vec![0]);
    assert_eq!(c.right, vec![1]);
    assert_eq!(c.up, vec![2]);
    assert_eq!(c.down, vec![2]);
}

#[test]
fn adjacency_rules_append_to_existing_lists() {
    let image = PixelImage { width: 1, height: 1, pixels: vec![3] };
    let mut t = Tileset { tiles: vec![Tile::new("x".to_string(), rect(0, 0, 1))], tile_size: 1 };
    t.tiles[0].up = vec![5];
    generating_adjacency_rules(&mut t, &image, 1);
    assert_eq!(t.tiles[0].up, vec![5, 0]);
    assert_eq!(t.tiles[0].left, vec![0]);
}

#[test]
fn mismatched_regions_are_rejected() {
    let (image, mut regions) = three_tile_atlas();
    regions.push(region("wide", 0, 0, 2));
    let t = Tileset::new(&image, &regions).unwrap();
    assert_eq!(t.tiles.len(), 3);
    assert!(t.tiles.iter().all(|x| x.slice_name != "wide"));
}

#[test]
fn empty_atlas_is_rejected() {
    let image = PixelImage { width: 1, height: 1, pixels: vec![0] };
    assert_eq!(Tileset::new(&image, &Vec::new()).err(), Some(TilesetError::EmptyAtlas));
    let zero = vec![region("z", 0, 0, 0)];
    assert_eq!(Tileset::new(&image, &zero).err(), Some(TilesetError::EmptyAtlas));
    let odd = vec![Region { name: "r".to_string(), rect: Rect { x: 0, y: 0, width: 1, height: 2 } }];
    assert_eq!(Tileset::new(&image, &odd).err(), Some(TilesetError::EmptyAtlas));
}

#[test]
fn region_outside_image_is_rejected() {
    let image = PixelImage { width: 2, height: 2, pixels: vec![0; 4] };
    let regions = vec![region("in", 0, 0, 2), region("out", 1, 1, 2)];
    assert_eq!(Tileset::new(&image, &regions).err(), Some(TilesetError::PixelOutOfBounds));
}

#[test]
fn cells_start_in_full_superposition() {
    let c = Cell::from_value(4, 3);
    assert_eq!(c.index, 4);
    assert!(!c.collapsed);
    assert_eq!(c.sockets, vec![0, 1, 2]);
    let t = Tileset { tiles: vec![tile_with("x", vec![0]), tile_with("y", vec![1])], tile_size: 1 };
    let g = t.create_grid(3);
    assert_eq!(g.dimension, 3);
    assert_eq!(g.cells.len(), 9);
    for (i, c) in g.cells.iter().enumerate() {
        assert_eq!(c.index, i);
        assert!(!c.collapsed);
        assert_eq!(c.sockets, vec![0, 1]);
    }
    assert_eq!(g.tileset.tiles.len(), 2);
    assert_eq!(g.tileset.tiles[1].slice_name, "y");
}

#[test]
fn sweep_reads_only_the_previous_state() {
    let t = Tileset { tiles: vec![tile_with("x", vec![0]), tile_with("y", vec![1])], tile_size: 1 };
    let mut cells = vec![collapsed_cell(0, 1), open_cell(1, vec![0, 1]), open_cell(2, vec![0, 1]), open_cell(3, vec![0, 1])];
    wave_collapse(&mut cells, 2, &t);
    assert!(cells[0].collapsed);
    assert_eq!(cells[0].sockets, vec![1]);
    assert_eq!(cells[1].sockets, vec![1]);
    assert_eq!(cells[2].sockets, vec![1]);
    // the corner still sees its neighbours as they were before the sweep
    assert_eq!(cells[3].sockets, vec![0, 1]);
    assert!(cells.iter().enumerate().all(|(i, c)| c.index == i));
}

#[test]
fn selection_fixes_a_candidate_to_one_of_its_tiles() {
    let mut rng = StdRng::seed_from_u64(3);
    let mut cells = vec![open_cell(0, vec![3, 4]), open_cell(1, vec![])];
    assert!(random_selection_of_sockets(&mut rng, &mut cells, &vec![0]));
    assert!(cells[0].collapsed);
    assert_eq!(cells[0].sockets.len(), 1);
    assert!(cells[0].sockets[0] == 3 || cells[0].sockets[0] == 4);
    assert!(!cells[1].collapsed);
}

#[test]
fn selection_of_an_empty_cell_is_a_contradiction() {
    let mut rng = StdRng::seed_from_u64(3);
    let mut cells = vec![open_cell(0, vec![3, 4]), open_cell(1, vec![])];
    assert!(!random_selection_of_sockets(&mut rng, &mut cells, &vec![1]));
    assert!(!cells[1].collapsed);
    assert!(!random_selection_of_sockets(&mut rng, &mut cells, &Vec::new()));
    assert!(!cells[0].collapsed);
}

#[test]
fn single_tile_grid_is_all_zero() {
    let t = Tileset { tiles: vec![tile_with("only", vec![0])], tile_size: 1 };
    let mut g = t.create_grid(2);
    let mut rng = StdRng::seed_from_u64(11);
    assert_eq!(g.collapse_with(&mut rng), Ok(0));
    for c in g.cells.iter() {
        assert!(c.collapsed);
        assert_eq!(c.sockets, vec![0]);
    }
    assert_complete_and_consistent(&g);
}

#[test]
fn dead_end_tile_reports_non_termination() {
    let t = Tileset { tiles: vec![tile_with("stuck", Vec::new())], tile_size: 1 };
    let mut g = t.create_grid(2);
    let mut rng = StdRng::seed_from_u64(5);
    assert_eq!(g.collapse_with(&mut rng), Err(CollapseError::NonTermination));
    // the grid is left as it was given
    assert!(g.cells.iter().all(|c| !c.collapsed && c.sockets == vec![0]));
}

#[test]
fn empty_tileset_is_rejected_before_collapse() {
    let t = Tileset { tiles: Vec::new(), tile_size: 1 };
    let mut g = t.create_grid(2);
    let mut rng = StdRng::seed_from_u64(5);
    assert_eq!(g.collapse_with(&mut rng), Err(CollapseError::EmptyTileset));
    assert_eq!(g.collapse(), Err(CollapseError::EmptyTileset));
}

#[test]
fn completed_grid_is_consistent() {
    let (image, regions) = three_tile_atlas();
    for seed in 0..20u64 {
        let mut g = Grid::new(&image, &regions, 5).unwrap();
        let mut rng = StdRng::seed_from_u64(seed);
        let restarts = g.collapse_with(&mut rng).unwrap();
        assert!(restarts <= RESTART_BUDGET);
        assert_complete_and_consistent(&g);
    }
}

#[test]
fn entropy_seeded_collapse_is_consistent() {
    let (image, regions) = three_tile_atlas();
    let mut g = Grid::new(&image, &regions, 4).unwrap();
    assert!(g.collapse().is_ok());
    assert_complete_and_consistent(&g);
}

#[test]
fn same_seed_gives_same_grid() {
    let (image, regions) = three_tile_atlas();
    let run = |seed: u64| {
        let mut g = Grid::new(&image, &regions, 6).unwrap();
        let mut rng = StdRng::seed_from_u64(seed);
        let restarts = g.collapse_with(&mut rng).unwrap();
        let tiles: Vec<usize> = g.cells.iter().map(|c| c.sockets[0]).collect();
        (restarts, tiles)
    };
    assert_eq!(run(42), run(42));
    assert_eq!(run(7), run(7));
}

#[test]
fn grid_new_reports_atlas_errors() {
    let image = PixelImage { width: 1, height: 1, pixels: vec![0] };
    assert_eq!(Grid::new(&image, &Vec::new(), 3).err(), Some(TilesetError::EmptyAtlas));
}

#[test]
fn mismatched_regions_are_listed() {
    let regions = vec![
        region("a", 0, 0, 2),
        Region { name: "tall".to_string(), rect: Rect { x: 0, y: 0, width: 2, height: 3 } },
        region("b", 2, 0, 2),
        region("small", 0, 0, 1),
    ];
    assert_eq!(mismatched_regions(&regions), vec![1, 3]);
    assert!(mismatched_regions(&Vec::new()).is_empty());
}

#[test]
fn advance_sweeps_after_a_selection() {
    let t = Tileset { tiles: vec![tile_with("x", vec![0]), tile_with("y", vec![1])], tile_size: 1 };
    let g = t.create_grid(2);
    let mut cells = vec![collapsed_cell(0, 0), open_cell(1, vec![0, 1]), open_cell(2, vec![0, 1]), open_cell(3, vec![0, 1])];
    let mut restarts = 4usize;
    assert_eq!(g.advance(&mut cells, &mut restarts, true), Ok(()));
    assert_eq!(restarts, 4);
    assert_eq!(cells[1].sockets, vec![0]);
    assert_eq!(cells[2].sockets, vec![0]);
    assert_eq!(cells[3].sockets, vec![0, 1]);
}

#[test]
fn advance_restarts_after_a_contradiction() {
    let t = Tileset { tiles: vec![tile_with("x", vec![0]), tile_with("y", vec![1])], tile_size: 1 };
    let g = t.create_grid(2);
    let mut cells = vec![collapsed_cell(0, 0), open_cell(1, vec![]), open_cell(2, vec![0]), open_cell(3, vec![0, 1])];
    let mut restarts = 0usize;
    assert_eq!(g.advance(&mut cells, &mut restarts, false), Ok(()));
    assert_eq!(restarts, 1);
    assert!(cells.iter().enumerate().all(|(i, c)| c.index == i && !c.collapsed && c.sockets == vec![0, 1]));
}

#[test]
fn advance_fails_once_the_budget_is_spent() {
    let t = Tileset { tiles: vec![tile_with("x", vec![0])], tile_size: 1 };
    let g = t.create_grid(1);
    let mut cells = vec![open_cell(0, vec![])];
    let mut restarts = RESTART_BUDGET;
    assert_eq!(g.advance(&mut cells, &mut restarts, false), Err(CollapseError::NonTermination));
    assert_eq!(restarts, RESTART_BUDGET);
    assert!(cells[0].sockets.is_empty());
}

#[test]
fn complete_grid_collapses_without_draws() {
    let t = Tileset { tiles: vec![tile_with("x", vec![]), tile_with("y", vec![])], tile_size: 1 };
    let mut g = t.create_grid(2);
    g.cells = vec![collapsed_cell(0, 1), collapsed_cell(1, 0), collapsed_cell(2, 0), collapsed_cell(3, 1)];
    let mut rng = StdRng::seed_from_u64(1);
    assert_eq!(g.collapse_with(&mut rng), Ok(0));
    let tiles: Vec<usize> = g.cells.iter().map(|c| c.sockets[0]).collect();
    assert_eq!(tiles, vec![1, 0, 0, 1]);
}

#[test]
fn unconstrained_tileset_never_restarts() {
    let t = Tileset { tiles: vec![tile_with("x", vec![0, 1, 2]), tile_with("y", vec![0, 1, 2]), tile_with("z", vec![0, 1, 2])], tile_size: 1 };
    for seed in 0..10u64 {
        let mut g = t.create_grid(4);
        let mut rng = StdRng::seed_from_u64(seed);
        assert_eq!(g.collapse_with(&mut rng), Ok(0));
        assert_complete_and_consistent(&g);
    }
}

#[test]
fn seeded_cells_keep_their_tile() {
    let (image, regions) = three_tile_atlas();
    for seed in 0..10u64 {
        let mut g = Grid::new(&image, &regions, 5).unwrap();
        // seed the left column with tile "a"
        for y in 0..5 {
            g.cells[y * 5] = collapsed_cell(y * 5, 0);
        }
        // let the seeds constrain their neighbours before the first step
        let tileset = g.tileset.clone();
        wave_collapse(&mut g.cells, 5, &tileset);
        let mut rng = StdRng::seed_from_u64(seed);
        assert!(g.collapse_with(&mut rng).is_ok());
        for y in 0..5 {
            assert_eq!(g.cells[y * 5].sockets, vec![0]);
        }
        assert_complete_and_consistent(&g);
    }
}

#[test]
fn edges_compare_with_any_step() {
    let image = PixelImage { width: 5, height: 1, pixels: vec![4, 0, 4, 0, 4] };
    assert!(compare_edge(&image, 0, 0, 2, 0, 2, 0, 2));
    assert!(!compare_edge(&image, 0, 0, 1, 0, 2, 0, 2));
    assert!(compare_edge(&image, 1, 0, 1, 0, 2, 0, 2));
}

#[test]
fn tile_size_follows_name_order() {
    let image = PixelImage { width: 4, height: 2, pixels: vec![0; 8] };
    let small_first = vec![region("b", 0, 0, 2), region("a", 2, 0, 1)];
    let t = Tileset::new(&image, &small_first).unwrap();
    assert_eq!(t.tile_size, 1);
    assert_eq!(t.tiles.len(), 1);
    assert_eq!(t.tiles[0].slice_name, "a");
    let reordered = vec![region("a", 2, 0, 1), region("b", 0, 0, 2)];
    assert_eq!(Tileset::new(&image, &reordered).unwrap().tile_size, 1);
    assert_eq!(mismatched_regions(&small_first), vec![0]);
}

#[test]
fn identical_tiles_are_interchangeable() {
    // "p" and "q" share pixels that differ from edge to edge; "r" is plain
    let image = PixelImage { width: 6, height: 2, pixels: vec![1, 2, 1, 2, 1, 1, 3, 4, 3, 4, 1, 1] };
    let regions = vec![region("p", 0, 0, 2), region("q", 2, 0, 2), region("r", 4, 0, 2)];
    let t = Tileset::new(&image, &regions).unwrap();
    for d in [Direction::Up, Direction::Right, Direction::Down, Direction::Left] {
        assert_eq!(side_list(&t.tiles[0], d), side_list(&t.tiles[1], d));
        for tile in t.tiles.iter() {
            let list = side_list(tile, d);
            assert_eq!(list.contains(&0), list.contains(&1));
        }
    }
    assert_eq!(t.tiles[0].up, Vec::<usize>::new());
    assert_eq!(t.tiles[2].up, vec![2]);
}
