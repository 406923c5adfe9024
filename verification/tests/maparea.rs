use rustmap::constants::{base_palette, hover_palette};
use rustmap::maparea::{Click, Maparea, PaintError, MAP_HEIGHT, MAP_WIDTH};
use rustmap::palette::change_palette;
use rustmap::position::Positionable;
use rustmap::raster::{Raster, Rect};
use rustmap::tileset::Tileset;

const GREYS: [(u8, u8, u8); 4] = [(85, 85, 85), (170, 170, 170), (255, 255, 255), (0, 0, 0)];

/// A strip of `blocks` blocks; the tiles of block `b` show the greys from grey `b` on.
fn strip_of(blocks: usize) -> Tileset {
    let mut pixels = Vec::new();
    for _y in 0..8usize {
        for x in 0..32usize {
            let (red, green, blue) = GREYS[x / 8];
            pixels.push(red);
            pixels.push(green);
            pixels.push(blue);
        }
    }
    let image = Raster::from_rgb(32, 8, pixels).unwrap();
    let blockset: Vec<u8> = (0..blocks * 16).map(|slot| ((slot / 16 + slot % 16) % 4) as u8).collect();
    Tileset::from_data(&blockset, &image)
}

fn cell(x: usize, y: usize) -> Rect {
    Rect { x, y, width: 32, height: 32 }
}

/// What the picture of the map must be: each cell shows its block, black where the strip has none.
fn check_picture(map: &Maparea, tileset: &Tileset) {
    let picture = map.pix_cache();
    let columns = map.width() as usize;
    assert_eq!(picture.width(), columns * 32);
    assert_eq!(picture.height(), map.height() as usize * 32);
    for (index, block) in map.mapset().iter().enumerate() {
        let shown = picture.sub_image(cell((index % columns) * 32, (index / columns) * 32));
        assert_eq!(shown, Some(tileset.block_image(*block)));
    }
}

#[test]
fn a_new_map_shows_its_blocks() {
    let tileset = strip_of(3);
    let map = Maparea::new(3, 2, vec![0, 1, 2, 2, 1, 0], &tileset);
    assert_eq!(map.width(), 3);
    assert_eq!(map.height(), 2);
    assert_eq!(map.hovered(), None);
    assert_eq!(map.mapset(), &vec![0, 1, 2, 2, 1, 0]);
    assert_eq!(map.history().undo_len(), 0);
    assert_eq!(map.history().redo_len(), 0);
    check_picture(&map, &tileset);
    let picture = map.pix_cache();
    assert_eq!(picture.sub_image(cell(32, 0)), tileset.get_tile_pix(1));
    assert_eq!(picture.sub_image(cell(0, 32)), tileset.get_tile_pix(2));
    assert_ne!(tileset.get_tile_pix(1), tileset.get_tile_pix(2));
}

#[test]
fn a_block_that_the_strip_lacks_is_shown_black() {
    let tileset = strip_of(2);
    let map = Maparea::new(2, 1, vec![1, 9], &tileset);
    let picture = map.pix_cache();
    assert_eq!(picture.sub_image(cell(0, 0)), tileset.get_tile_pix(1));
    assert_eq!(picture.sub_image(cell(32, 0)), Some(Raster::new(32, 32).unwrap()));
}

#[test]
fn an_empty_map_has_an_empty_picture() {
    let tileset = strip_of(2);
    let mut map = Maparea::new(0, 7, Vec::new(), &tileset);
    assert_eq!(map.pix_cache().width(), 0);
    assert_eq!(map.pix_cache().height(), 224);
    assert_eq!(map.motion_notify((0, 0)), Vec::new());
    assert_eq!(map.paint_cell(&tileset, 0, 1), Err(PaintError::OutOfRange));
    assert_eq!(map.undo(&tileset), None);
}

#[test]
fn coords_give_the_corner_of_a_cell() {
    let tileset = strip_of(1);
    let map = Maparea::new(20, 18, vec![0; 360], &tileset);
    assert_eq!(map.coords(0), (0, 0));
    assert_eq!(map.coords(1), (32, 0));
    assert_eq!(map.coords(20), (0, 32));
    assert_eq!(map.coords(359), (608, 544));
}

#[test]
fn a_click_paints_the_cell_with_the_selected_block() {
    let mut tileset = strip_of(8);
    tileset.select_tile_at(7);
    let mut map = Maparea::new(20, 18, vec![0; 360], &tileset);
    assert_eq!(map.get_event_pos((45, 10)), (1, 0));
    let before = map.history().undo_len();
    let done = map.button_press(&mut tileset, (45, 10), 1);
    assert!(matches!(done, Click::Painted(rect) if rect == cell(32, 0)));
    assert_eq!(map.mapset()[1], 7);
    let mut want = vec![0u8; 360];
    want[1] = 7;
    assert_eq!(map.mapset(), &want);
    assert_eq!(map.history().undo_len(), before + 1);
    assert_eq!(map.history().redo_len(), 0);
    assert_eq!(tileset.selected(), Some(7));
    assert_eq!(map.pix_cache().sub_image(cell(32, 0)), tileset.get_tile_pix(7));
    check_picture(&map, &tileset);
}

#[test]
fn painting_draws_only_the_cell() {
    let tileset = strip_of(3);
    let mut map = Maparea::new(3, 3, vec![0; 9], &tileset);
    let before = map.pix_cache().clone();
    assert_eq!(map.paint_cell(&tileset, 4, 2), Ok(cell(32, 32)));
    let after = map.pix_cache();
    for y in 0..96usize {
        for x in 0..96usize {
            if (32..64).contains(&x) && (32..64).contains(&y) {
                continue;
            }
            assert_eq!(after.get_pixel(x, y), before.get_pixel(x, y));
        }
    }
    assert_eq!(after.sub_image(cell(32, 32)), tileset.get_tile_pix(2));
    assert_eq!(map.pix_cache(), Maparea::new(3, 3, map.mapset().clone(), &tileset).pix_cache());
}

#[test]
fn painting_the_block_a_cell_holds_is_committed_too() {
    let tileset = strip_of(3);
    let mut map = Maparea::new(2, 2, vec![1, 1, 1, 1], &tileset);
    assert_eq!(map.paint_cell(&tileset, 3, 1), Ok(cell(32, 32)));
    assert_eq!(map.mapset(), &vec![1, 1, 1, 1]);
    assert_eq!(map.history().undo_len(), 1);
    assert_eq!(map.paint_cell(&tileset, 3, 1), Ok(cell(32, 32)));
    assert_eq!(map.history().undo_len(), 2);
    assert_eq!(map.undo(&tileset), Some(Rect { x: 0, y: 0, width: 64, height: 64 }));
    assert_eq!(map.mapset(), &vec![1, 1, 1, 1]);
    assert_eq!(map.history().undo_len(), 1);
}

#[test]
fn painting_beyond_the_map_fails_and_changes_nothing() {
    let tileset = strip_of(3);
    let mut map = Maparea::new(2, 2, vec![0, 1, 2, 0], &tileset);
    let picture = map.pix_cache().clone();
    assert_eq!(map.paint_cell(&tileset, 4, 1), Err(PaintError::OutOfRange));
    assert_eq!(map.paint_cell(&tileset, usize::MAX, 1), Err(PaintError::OutOfRange));
    assert_eq!(map.mapset(), &vec![0, 1, 2, 0]);
    assert_eq!(map.history().undo_len(), 0);
    assert_eq!(map.pix_cache(), &picture);
    assert_eq!(map.button_press_left(&tileset, 4), None);
}

#[test]
fn update_map_block_leaves_the_history() {
    let tileset = strip_of(3);
    let mut map = Maparea::new(2, 2, vec![0, 0, 0, 0], &tileset);
    map.update_map_block(&tileset, 2, 1);
    assert_eq!(map.mapset(), &vec![0, 0, 1, 0]);
    assert_eq!(map.history().undo_len(), 0);
    assert_eq!(map.pix_cache().sub_image(cell(0, 32)), tileset.get_tile_pix(1));
    check_picture(&map, &tileset);
}

#[test]
fn undo_on_a_fresh_map_changes_nothing() {
    let tileset = strip_of(3);
    let mut map = Maparea::new(2, 2, vec![0, 1, 2, 0], &tileset);
    let picture = map.pix_cache().clone();
    assert_eq!(map.undo(&tileset), None);
    assert_eq!(map.redo(&tileset), None);
    assert_eq!(map.mapset(), &vec![0, 1, 2, 0]);
    assert_eq!(map.pix_cache(), &picture);
    assert_eq!(map.history().undo_len(), 0);
    assert_eq!(map.history().redo_len(), 0);
}

#[test]
fn undo_does_not_reach_below_the_first_map_after_a_bare_update() {
    let tileset = strip_of(3);
    let mut map = Maparea::new(2, 1, vec![0, 0], &tileset);
    map.update_map_block(&tileset, 0, 2);
    assert_eq!(map.undo(&tileset), None);
    assert_eq!(map.mapset(), &vec![2, 0]);
}

#[test]
fn undo_and_redo_walk_the_paintings() {
    let tileset = strip_of(3);
    let whole = Rect { x: 0, y: 0, width: 96, height: 64 };
    let mut map = Maparea::new(3, 2, vec![0; 6], &tileset);
    assert_eq!(map.paint_cell(&tileset, 0, 1), Ok(cell(0, 0)));
    assert_eq!(map.paint_cell(&tileset, 5, 2), Ok(cell(64, 32)));
    assert_eq!(map.paint_cell(&tileset, 0, 2), Ok(cell(0, 0)));
    assert_eq!(map.mapset(), &vec![2, 0, 0, 0, 0, 2]);
    assert_eq!(map.undo(&tileset), Some(whole));
    assert_eq!(map.mapset(), &vec![1, 0, 0, 0, 0, 2]);
    check_picture(&map, &tileset);
    assert_eq!(map.undo(&tileset), Some(whole));
    assert_eq!(map.mapset(), &vec![1, 0, 0, 0, 0, 0]);
    check_picture(&map, &tileset);
    assert_eq!(map.undo(&tileset), Some(whole));
    assert_eq!(map.mapset(), &vec![0; 6]);
    check_picture(&map, &tileset);
    assert_eq!(map.undo(&tileset), None);
    assert_eq!(map.mapset(), &vec![0; 6]);
    assert_eq!(map.redo(&tileset), Some(whole));
    assert_eq!(map.mapset(), &vec![1, 0, 0, 0, 0, 0]);
    assert_eq!(map.redo(&tileset), Some(whole));
    assert_eq!(map.redo(&tileset), Some(whole));
    assert_eq!(map.mapset(), &vec![2, 0, 0, 0, 0, 2]);
    check_picture(&map, &tileset);
    assert_eq!(map.redo(&tileset), None);
    assert_eq!(map.history().undo_len(), 3);
    assert_eq!(map.history().redo_len(), 0);
}

#[test]
fn a_painting_after_undo_leaves_nothing_to_redo() {
    let tileset = strip_of(3);
    let mut map = Maparea::new(2, 1, vec![0, 0], &tileset);
    assert_eq!(map.paint_cell(&tileset, 0, 1), Ok(cell(0, 0)));
    assert!(map.undo(&tileset).is_some());
    assert_eq!(map.history().redo_len(), 1);
    assert_eq!(map.paint_cell(&tileset, 1, 2), Ok(cell(32, 0)));
    assert_eq!(map.history().redo_len(), 0);
    assert_eq!(map.redo(&tileset), None);
    assert_eq!(map.mapset(), &vec![0, 2]);
}

#[test]
fn diff_lists_the_bytes_that_changed() {
    assert_eq!(Maparea::diff(&[0, 1, 2], &[0, 2, 2]), vec![(1, 2)]);
    assert_eq!(Maparea::diff(&[0, 1, 2], &[0, 1, 2]), Vec::new());
    assert_eq!(Maparea::diff(&[5, 5, 5, 5], &[1, 5, 2, 3]), vec![(0, 1), (2, 2), (3, 3)]);
    assert_eq!(Maparea::diff(&[1, 2, 3], &[9]), vec![(0, 9)]);
    assert_eq!(Maparea::diff(&[1], &[1, 2, 3]), Vec::new());
    assert_eq!(Maparea::diff(&[], &[]), Vec::new());
}

#[test]
fn the_pointer_hovers_the_cell_it_is_on() {
    let tileset = strip_of(1);
    let mut map = Maparea::new(3, 2, vec![0; 6], &tileset);
    assert_eq!(map.motion_notify((70, 40)), vec![cell(64, 32)]);
    assert_eq!(map.hovered(), Some(5));
    assert_eq!(map.motion_notify((95, 63)), Vec::new());
    assert_eq!(map.hovered(), Some(5));
    assert_eq!(map.motion_notify((33, 0)), vec![cell(64, 32), cell(32, 0)]);
    assert_eq!(map.hovered(), Some(1));
}

#[test]
fn a_pointer_beside_the_grid_is_ignored() {
    let tileset = strip_of(1);
    let mut map = Maparea::new(3, 2, vec![0; 6], &tileset);
    assert_eq!(map.motion_notify((96, 0)), Vec::new());
    assert_eq!(map.motion_notify((0, 64)), Vec::new());
    assert_eq!(map.hovered(), None);
    assert_eq!(map.motion_notify((0, 0)), vec![cell(0, 0)]);
    assert_eq!(map.motion_notify((usize::MAX, usize::MAX)), Vec::new());
    assert_eq!(map.hovered(), Some(0));
}

#[test]
fn hover_tile_at_wants_a_cell_of_the_map() {
    let tileset = strip_of(1);
    let mut map = Maparea::new(3, 2, vec![0; 6], &tileset);
    map.hover_tile_at(6);
    assert_eq!(map.hovered(), None);
    map.hover_tile_at(5);
    assert_eq!(map.hovered(), Some(5));
    map.hover_tile_at(100);
    assert_eq!(map.hovered(), Some(5));
    assert_eq!(map.clear_hover(), Some(cell(64, 32)));
    assert_eq!(map.hovered(), None);
    assert_eq!(map.clear_hover(), None);
}

#[test]
fn the_third_button_picks_the_block_of_the_cell() {
    let mut tileset = strip_of(4);
    let mut map = Maparea::new(2, 2, vec![0, 3, 2, 1], &tileset);
    let picture = map.pix_cache().clone();
    let done = map.button_press(&mut tileset, (40, 5), 3);
    assert!(matches!(done, Click::Picked(ref dirty) if dirty == &vec![cell(96, 0)]));
    assert_eq!(tileset.selected(), Some(3));
    let done = map.button_press(&mut tileset, (5, 40), 3);
    assert!(matches!(done, Click::Picked(ref dirty) if dirty == &vec![cell(96, 0), cell(64, 0)]));
    assert_eq!(tileset.selected(), Some(2));
    let done = map.button_press(&mut tileset, (31, 63), 3);
    assert!(matches!(done, Click::Picked(ref dirty) if dirty.is_empty()));
    assert_eq!(map.mapset(), &vec![0, 3, 2, 1]);
    assert_eq!(map.history().undo_len(), 0);
    assert_eq!(map.pix_cache(), &picture);
    assert_eq!(map.button_press_right(&mut tileset, 4), Vec::new());
    assert_eq!(tileset.selected(), Some(2));
}

#[test]
fn other_buttons_and_clicks_beside_the_grid_do_nothing() {
    let mut tileset = strip_of(4);
    tileset.select_tile_at(1);
    let mut map = Maparea::new(2, 2, vec![0; 4], &tileset);
    assert!(matches!(map.button_press(&mut tileset, (10, 10), 2), Click::Ignored));
    assert!(matches!(map.button_press(&mut tileset, (10, 10), 0), Click::Ignored));
    assert!(matches!(map.button_press(&mut tileset, (64, 10), 1), Click::Ignored));
    assert!(matches!(map.button_press(&mut tileset, (10, 64), 3), Click::Ignored));
    assert_eq!(map.mapset(), &vec![0; 4]);
    assert_eq!(map.history().undo_len(), 0);
    assert_eq!(tileset.selected(), Some(1));
}

#[test]
fn the_first_button_without_a_selection_does_nothing() {
    let mut tileset = strip_of(4);
    let mut map = Maparea::new(2, 2, vec![0; 4], &tileset);
    assert!(matches!(map.button_press(&mut tileset, (10, 10), 1), Click::Ignored));
    assert_eq!(map.button_press_left(&tileset, 0), None);
    assert_eq!(map.mapset(), &vec![0; 4]);
    assert_eq!(map.history().undo_len(), 0);
}

#[test]
fn button_press_left_paints_with_the_selected_block() {
    let mut tileset = strip_of(4);
    tileset.select_tile_at(2);
    let mut map = Maparea::new(2, 2, vec![0; 4], &tileset);
    assert_eq!(map.button_press_left(&tileset, 3), Some(cell(32, 32)));
    assert_eq!(map.mapset(), &vec![0, 0, 0, 2]);
    assert_eq!(map.history().undo_len(), 1);
    check_picture(&map, &tileset);
}

#[test]
fn paint_shows_the_viewport_with_the_hovered_cell_marked() {
    let tileset = strip_of(3);
    let mut map = Maparea::new(3, 2, vec![0, 1, 2, 2, 1, 0], &tileset);
    let plain = map.pix_cache().clone();
    assert_eq!(map.paint(Rect { x: 0, y: 0, width: 96, height: 64 }), plain);
    map.hover_tile_at(4);
    let hovered = change_palette(&plain, base_palette(), hover_palette());
    let viewport = Rect { x: 20, y: 30, width: 60, height: 100 };
    let shown = map.paint(viewport);
    assert_eq!(shown.width(), 60);
    assert_eq!(shown.height(), 34);
    for y in 0..34usize {
        for x in 0..60usize {
            let (gx, gy) = (x + 20, y + 30);
            let want = if (32..64).contains(&gx) && (32..64).contains(&gy) {
                hovered.get_pixel(gx, gy)
            } else {
                plain.get_pixel(gx, gy)
            };
            assert_eq!(shown.get_pixel(x, y), want);
        }
    }
    assert_ne!(shown.get_pixel(12, 2), plain.get_pixel(32, 32));
}

#[test]
fn paint_tile_with_palette_marks_one_cell() {
    let tileset = strip_of(3);
    let map = Maparea::new(2, 2, vec![0, 1, 2, 0], &tileset);
    let part = Rect { x: 0, y: 0, width: 64, height: 64 };
    let plain = map.pix_cache().clone();
    let hovered = change_palette(&plain, base_palette(), hover_palette());
    let mut canvas = plain.clone();
    map.paint_tile_with_palette(&mut canvas, part, 2, hover_palette());
    assert_eq!(canvas.sub_image(cell(0, 32)), hovered.sub_image(cell(0, 32)));
    assert_eq!(canvas.sub_image(cell(32, 32)), plain.sub_image(cell(32, 32)));
    assert_eq!(
        canvas.sub_image(Rect { x: 0, y: 0, width: 64, height: 32 }),
        plain.sub_image(Rect { x: 0, y: 0, width: 64, height: 32 })
    );
}

#[test]
fn on_bytes_hands_out_the_map() {
    let tileset = strip_of(2);
    let mut map = Maparea::new(2, 1, vec![0, 1], &tileset);
    assert_eq!(map.on_bytes(|bytes| bytes.to_vec()), vec![0, 1]);
    assert_eq!(map.paint_cell(&tileset, 0, 1), Ok(cell(0, 0)));
    assert_eq!(map.on_bytes(|bytes| bytes.len()), 2);
    assert_eq!(map.on_bytes(|bytes| bytes.to_vec()), vec![1, 1]);
}

#[test]
fn from_data_makes_a_map_of_twenty_by_eighteen() {
    let tileset = strip_of(2);
    assert_eq!((MAP_WIDTH, MAP_HEIGHT), (20, 18));
    let mut mapset = vec![0u8; 360];
    mapset[359] = 1;
    let map = Maparea::from_data(mapset.clone(), &tileset);
    assert_eq!(map.width(), 20);
    assert_eq!(map.height(), 18);
    assert_eq!(map.mapset(), &mapset);
    assert_eq!(map.pix_cache().width(), 640);
    assert_eq!(map.pix_cache().height(), 576);
    assert_eq!(map.pix_cache().sub_image(cell(608, 544)), tileset.get_tile_pix(1));
    assert_eq!(map.history().undo_len(), 0);
    check_picture(&map, &tileset);
}
