use mandelbrot::band::{band_rows, plan_bands, Band};

fn assert_tiles(bands: &[Band], height: usize) {
    let mut next = 0;
    for band in bands {
        assert_eq!(band.top, next);
        assert!(band.height > 0);
        next = band.top + band.height;
    }
    assert_eq!(next, height);
}

#[test]
fn band_rows_over_allocates() {
    assert_eq!(band_rows(750, 8), 94);
    assert_eq!(band_rows(800, 8), 101);
    assert_eq!(band_rows(3, 8), 1);
    assert_eq!(band_rows(200, 1), 201);
}

#[test]
fn plan_bands_of_eight_workers() {
    let bands = plan_bands(1000, 750, 8);
    assert_eq!(bands.len(), 8);
    assert_eq!(bands[0], Band { top: 0, height: 94 });
    assert_eq!(bands[6], Band { top: 564, height: 94 });
    assert_eq!(bands[7], Band { top: 658, height: 92 });
    assert_tiles(&bands, 750);
}

#[test]
fn plan_bands_may_leave_workers_idle() {
    let bands = plan_bands(10, 16, 8);
    assert_eq!(bands, vec![
        Band { top: 0, height: 3 },
        Band { top: 3, height: 3 },
        Band { top: 6, height: 3 },
        Band { top: 9, height: 3 },
        Band { top: 12, height: 3 },
        Band { top: 15, height: 1 },
    ]);
}

#[test]
fn plan_bands_single_worker_takes_whole_image() {
    assert_eq!(plan_bands(100, 200, 1), vec![Band { top: 0, height: 200 }]);
    assert_eq!(plan_bands(1, 1, 1), vec![Band { top: 0, height: 1 }]);
}

#[test]
fn plan_bands_of_empty_image() {
    assert_eq!(plan_bands(5, 0, 4), vec![]);
}

#[test]
fn plan_bands_tile_for_every_worker_count() {
    for height in 1..40 {
        for workers in 1..12 {
            assert_tiles(&plan_bands(3, height, workers), height);
        }
    }
}

#[test]
fn band_corners_and_span() {
    let band = Band { top: 94, height: 94 };
    assert_eq!(band.corner_pixels(1000), ((0, 94), (1000, 188)));
    assert_eq!(band.pixel_span(1000), (94_000, 188_000));
}
