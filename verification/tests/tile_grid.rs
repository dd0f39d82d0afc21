use mandelbrust::tile::{build_tile_grid, classify_tiles_for_symmetry, TileKind, TILE_SIZE};

#[test]
fn tile_grid_covers_viewport() {
    let tiles = build_tile_grid(200, 150);
    let total_pixels: usize = tiles.iter().map(|t| t.pixel_count()).sum();
    assert_eq!(total_pixels, 200 * 150);
}

#[test]
fn tile_grid_no_overlap() {
    let tiles = build_tile_grid(200, 150);
    let mut covered = vec![false; 200 * 150];
    for tile in &tiles {
        for py in tile.y..tile.y + tile.height {
            for px in tile.x..tile.x + tile.width {
                let idx = py as usize * 200 + px as usize;
                assert!(!covered[idx], "pixel ({px}, {py}) covered twice");
                covered[idx] = true;
            }
        }
    }
    assert!(covered.iter().all(|&c| c), "all pixels must be covered");
}

#[test]
fn tile_size_respects_constant() {
    let tiles = build_tile_grid(256, 256);
    for tile in &tiles {
        assert!(tile.width <= TILE_SIZE);
        assert!(tile.height <= TILE_SIZE);
    }
}

#[test]
fn tile_grid_row_major_closed_form() {
    // the grid is exactly the row-major lattice of TILE_SIZE tiles
    let tiles = build_tile_grid(130, 70);
    // 130 -> 3 columns (64, 64, 2), 70 -> 2 rows (64, 6)
    assert_eq!(tiles.len(), 6);
    assert_eq!((tiles[0].x, tiles[0].y, tiles[0].width, tiles[0].height), (0, 0, 64, 64));
    assert_eq!((tiles[1].x, tiles[1].y, tiles[1].width, tiles[1].height), (64, 0, 64, 64));
    assert_eq!((tiles[2].x, tiles[2].y, tiles[2].width, tiles[2].height), (128, 0, 2, 64));
    assert_eq!((tiles[3].x, tiles[3].y, tiles[3].width, tiles[3].height), (0, 64, 64, 6));
    assert_eq!((tiles[4].x, tiles[4].y, tiles[4].width, tiles[4].height), (64, 64, 64, 6));
    assert_eq!((tiles[5].x, tiles[5].y, tiles[5].width, tiles[5].height), (128, 64, 2, 6));
}

#[test]
fn symmetry_classification_on_real_axis() {
    let tiles = build_tile_grid(128, 128);
    let center_im = 0.0f64;
    let on_axis = center_im.abs() <= f64::EPSILON;
    let classified = classify_tiles_for_symmetry(&tiles, 128, on_axis).unwrap();

    let primaries = classified
        .iter()
        .filter(|ct| matches!(ct.kind, TileKind::Primary { .. }))
        .count();
    let mirrors = classified
        .iter()
        .filter(|ct| matches!(ct.kind, TileKind::Mirror { .. }))
        .count();

    assert_eq!(primaries, mirrors, "each primary must have a mirror");
    assert!(
        primaries > 0,
        "128x128 centred at im=0 should have mirror pairs"
    );
}

#[test]
fn symmetry_not_applied_off_axis() {
    let tiles = build_tile_grid(128, 128);
    let center_im = 0.5f64;
    let on_axis = center_im.abs() <= f64::EPSILON;
    assert!(classify_tiles_for_symmetry(&tiles, 128, on_axis).is_none());
}

#[test]
fn symmetry_pairs_are_mutual_and_mirrored() {
    let tiles = build_tile_grid(256, 192);
    let classified = classify_tiles_for_symmetry(&tiles, 192, true).unwrap();
    for (i, ct) in classified.iter().enumerate() {
        match ct.kind {
            TileKind::Primary { mirror_index } => {
                let m = &classified[mirror_index];
                assert!(matches!(m.kind, TileKind::Mirror { primary_index } if primary_index == i));
                assert_eq!(m.tile.x, ct.tile.x);
                assert_eq!(m.tile.width, ct.tile.width);
                assert_eq!(m.tile.height, ct.tile.height);
                assert_eq!(m.tile.y, 192 - ct.tile.y - ct.tile.height);
            }
            TileKind::Mirror { primary_index } => {
                let p = &classified[primary_index];
                assert!(matches!(p.kind, TileKind::Primary { mirror_index } if mirror_index == i));
            }
            TileKind::Normal => {}
        }
    }
}

#[test]
fn straddling_tiles_stay_normal() {
    // height 96: tiles span rows 0..64 and 64..96; the first row of tiles
    // crosses the centre line at 48 and must stay Normal
    let tiles = build_tile_grid(128, 96);
    let classified = classify_tiles_for_symmetry(&tiles, 96, true).unwrap();
    for ct in &classified {
        let top2 = 2 * ct.tile.y;
        let bot2 = 2 * (ct.tile.y + ct.tile.height);
        if top2 < 96 && bot2 > 96 {
            assert!(matches!(ct.kind, TileKind::Normal));
        }
    }
}
