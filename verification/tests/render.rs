use tracii::color::{blend, blend_channel, Color, Coverage};
use tracii::pixmap::Pixmap;
use tracii::render_glyphs::{
    render_all, render_glyph, render_glyphs, BoundingBox, CellSpec, CoverageSample, GlyphRaster,
};

fn rgb(r: u8, g: u8, b: u8) -> Color {
    Color { r, g, b }
}

fn sample(x: u32, y: u32, num: u32, den: u32) -> CoverageSample {
    CoverageSample {
        x,
        y,
        cov: Coverage { num, den },
    }
}

/// The blend of one channel is the truncation of `fg*t + bg*(1-t)`, checked
/// over the quarter steps of `t` and the boundary channel values.
#[test]
fn blend_truncates_quarter_steps() {
    // fg = 255, bg = 0: expected 255 * t, truncated
    let expected_up = [(0, 1, 0u8), (1, 4, 63), (2, 4, 127), (3, 4, 191), (1, 1, 255)];
    for &(num, den, want) in expected_up.iter() {
        assert_eq!(blend_channel(255, 0, Coverage { num, den }), want);
    }
    // fg = 0, bg = 255: expected 255 * (1-t), truncated
    let expected_down = [(0, 1, 255u8), (1, 4, 191), (2, 4, 127), (3, 4, 63), (1, 1, 0)];
    for &(num, den, want) in expected_down.iter() {
        assert_eq!(blend_channel(0, 255, Coverage { num, den }), want);
    }
    // equal channels are a fixed point at every coverage
    for &(num, den) in [(0u32, 1u32), (1, 4), (2, 4), (3, 4), (1, 1)].iter() {
        assert_eq!(blend_channel(77, 77, Coverage { num, den }), 77);
    }
}

#[test]
fn blend_exact_values() {
    // 10 * 1/4 + 200 * 3/4 = 152.5, truncated to 152
    assert_eq!(blend_channel(10, 200, Coverage { num: 1, den: 4 }), 152);
    // 10 * 1/2 + 200 * 1/2 = 105 exactly
    assert_eq!(blend_channel(10, 200, Coverage { num: 2, den: 4 }), 105);
    // a fine-grained fraction: 255 * 1/3 = 85
    assert_eq!(blend_channel(255, 0, Coverage { num: 1, den: 3 }), 85);
    let c = blend(
        rgb(255, 0, 10),
        rgb(0, 255, 200),
        Coverage { num: 1, den: 4 },
    );
    assert_eq!(c, rgb(63, 191, 152));
}

#[test]
fn cell_from_ratio_floors_width() {
    // height 80, ratio 19/10 (i.e. 1.9): width = floor(80 / 1.9) = 42
    let cell = CellSpec::from_ratio(80, 19, 10);
    assert_eq!(cell.height, 80);
    assert_eq!(cell.width, 42);
    let square = CellSpec::from_ratio(64, 1, 1);
    assert_eq!(square.width, 64);
}

#[test]
fn render_fills_cell_with_background() {
    let bg = rgb(240, 40, 14);
    let fg = rgb(9, 200, 220);
    let raster = GlyphRaster {
        c: 'x',
        bbox: BoundingBox {
            width: 0,
            height: 0,
        },
        samples: Vec::new(),
    };
    let cell = CellSpec {
        width: 4,
        height: 6,
    };
    let buf = render_glyph(&raster, bg, fg, cell).unwrap();
    assert_eq!(buf.width, 4);
    assert_eq!(buf.height, 6);
    for y in 0..6 {
        for x in 0..4 {
            assert_eq!(buf.get(x, y), bg);
        }
    }
}

#[test]
fn render_centers_and_blends() {
    let bg = rgb(0, 0, 0);
    let fg = rgb(255, 255, 255);
    // bounding box 3 x 3 in a 5 x 7 cell: offsets (5-3)/2 = 1, (7-3)/2 = 2
    let samples = vec![
        sample(0, 0, 1, 1),
        sample(2, 0, 1, 2),
        sample(1, 1, 1, 4),
        sample(2, 2, 3, 4),
    ];
    let raster = GlyphRaster {
        c: 'o',
        bbox: BoundingBox {
            width: 3,
            height: 3,
        },
        samples,
    };
    let cell = CellSpec {
        width: 5,
        height: 7,
    };
    let buf = render_glyph(&raster, bg, fg, cell).unwrap();
    assert_eq!(buf.get(1, 2), rgb(255, 255, 255));
    assert_eq!(buf.get(3, 2), rgb(127, 127, 127));
    assert_eq!(buf.get(2, 3), rgb(63, 63, 63));
    assert_eq!(buf.get(3, 4), rgb(191, 191, 191));
    // every pixel outside the centered 3 x 3 window keeps the background
    for y in 0..7u32 {
        for x in 0..5u32 {
            let inside = (1..4).contains(&x) && (2..5).contains(&y);
            if !inside {
                assert_eq!(buf.get(x, y), bg, "pixel ({}, {})", x, y);
            }
        }
    }
}

#[test]
fn render_is_deterministic() {
    let bg = rgb(3, 14, 15);
    let fg = rgb(92, 65, 35);
    let make = || GlyphRaster {
        c: 'q',
        bbox: BoundingBox {
            width: 2,
            height: 2,
        },
        samples: vec![sample(0, 0, 1, 3), sample(1, 1, 2, 3), sample(0, 1, 1, 7)],
    };
    let cell = CellSpec {
        width: 6,
        height: 4,
    };
    let a = render_glyph(&make(), bg, fg, cell).unwrap();
    let b = render_glyph(&make(), bg, fg, cell).unwrap();
    assert_eq!(a, b);
}

#[test]
fn render_rejects_oversized_bounding_box() {
    let bg = rgb(0, 0, 0);
    let fg = rgb(255, 255, 255);
    let cell = CellSpec {
        width: 3,
        height: 3,
    };
    let wide = GlyphRaster {
        c: 'w',
        bbox: BoundingBox {
            width: 4,
            height: 1,
        },
        samples: Vec::new(),
    };
    assert!(render_glyph(&wide, bg, fg, cell).is_none());
    let tall = GlyphRaster {
        c: 't',
        bbox: BoundingBox {
            width: 1,
            height: 4,
        },
        samples: Vec::new(),
    };
    assert!(render_glyph(&tall, bg, fg, cell).is_none());
    let exact = GlyphRaster {
        c: 'e',
        bbox: BoundingBox {
            width: 3,
            height: 3,
        },
        samples: Vec::new(),
    };
    assert!(render_glyph(&exact, bg, fg, cell).is_some());
}

#[test]
fn render_last_sample_wins() {
    let bg = rgb(0, 0, 0);
    let fg = rgb(255, 255, 255);
    let raster = GlyphRaster {
        c: 'd',
        bbox: BoundingBox {
            width: 1,
            height: 1,
        },
        samples: vec![sample(0, 0, 1, 1), sample(0, 0, 1, 4)],
    };
    let cell = CellSpec {
        width: 1,
        height: 1,
    };
    let buf = render_glyph(&raster, bg, fg, cell).unwrap();
    assert_eq!(buf.get(0, 0), rgb(63, 63, 63));
}

#[test]
fn batch_skips_oversized_and_keeps_order() {
    let bg = rgb(1, 2, 3);
    let fg = rgb(200, 100, 50);
    let cell = CellSpec {
        width: 3,
        height: 3,
    };
    let rasters = vec![
        GlyphRaster {
            c: 'a',
            bbox: BoundingBox {
                width: 1,
                height: 1,
            },
            samples: vec![sample(0, 0, 1, 1)],
        },
        GlyphRaster {
            c: 'b',
            bbox: BoundingBox {
                width: 9,
                height: 9,
            },
            samples: Vec::new(),
        },
        GlyphRaster {
            c: 'c',
            bbox: BoundingBox {
                width: 2,
                height: 2,
            },
            samples: Vec::new(),
        },
    ];
    let mut renders = Vec::new();
    render_glyphs(&rasters, &mut renders, bg, fg, cell);
    assert_eq!(renders.len(), 2);
    assert_eq!(renders[0].c, 'a');
    assert_eq!(renders[1].c, 'c');
    assert_eq!(renders[0].background, bg);
    assert_eq!(renders[0].foreground, fg);
    // appending a second batch leaves the first untouched
    let fg2 = rgb(9, 9, 9);
    render_glyphs(&rasters, &mut renders, bg, fg2, cell);
    assert_eq!(renders.len(), 4);
    assert_eq!(renders[0].foreground, fg);
    assert_eq!(renders[2].c, 'a');
    assert_eq!(renders[2].foreground, fg2);
}

#[test]
fn render_all_orders_pairs_outer_glyphs_inner() {
    let cell = CellSpec {
        width: 2,
        height: 2,
    };
    let rasters = vec![
        GlyphRaster {
            c: 'a',
            bbox: BoundingBox {
                width: 1,
                height: 1,
            },
            samples: Vec::new(),
        },
        GlyphRaster {
            c: 'b',
            bbox: BoundingBox {
                width: 1,
                height: 1,
            },
            samples: Vec::new(),
        },
    ];
    let pairs = vec![
        (rgb(0, 0, 0), rgb(255, 255, 255)),
        (rgb(10, 10, 10), rgb(20, 20, 20)),
    ];
    let renders = render_all(&rasters, &pairs, cell);
    assert_eq!(renders.len(), 4);
    let expect = [
        ('a', rgb(0, 0, 0)),
        ('b', rgb(0, 0, 0)),
        ('a', rgb(10, 10, 10)),
        ('b', rgb(10, 10, 10)),
    ];
    for (i, &(c, bg)) in expect.iter().enumerate() {
        assert_eq!(renders[i].c, c);
        assert_eq!(renders[i].background, bg);
        assert_eq!(renders[i].buffer.width, 2);
        assert_eq!(renders[i].buffer.height, 2);
    }
}
