use flyover::camera::CameraMode;
use flyover::font::{Atlas, AtlasError, MetricBits};
use flyover::text::{TextTile, TokenSpan};
use flyover::textgrid::{grid_of, layout_plan, Placement, SpanCursor, MAX_COLS, WINDOW, WINDOW_STEP};
use flyover::tileset::{fit, TileKey};

#[test]
fn the_grid_is_the_longest_line_by_the_line_count() {
    assert_eq!(grid_of("ab\ncdef\ng"), (4, 3));
    assert_eq!(grid_of("\tx"), (5, 1)); // tab to column 4, then one char
    assert_eq!(grid_of(""), (1, 1));
    // Long lines are clipped rather than shrinking the whole grid.
    let long = "x".repeat(400);
    assert_eq!(grid_of(&long).0, MAX_COLS);
}

#[test]
fn the_grid_ignores_line_endings() {
    assert_eq!(grid_of("ab\r\ncd\r\n"), (2, 2));
    assert_eq!(grid_of("a\n\n\nb"), (1, 4));
    assert_eq!(grid_of("abc\r"), (4, 1));
}

#[test]
fn windows_snap_so_small_moves_do_not_re_lay_out() {
    assert_eq!(Placement::window_for(0), 0);
    assert_eq!(Placement::window_for(100), 0);
    for line in [600u32, 1000, 5000, 12_345] {
        let start = Placement::window_for(line);
        assert!(start <= line, "{line} is before window {start}");
        assert!(line < start + WINDOW, "{line} is past window {start}");
    }
    for line in 1024..1024 + WINDOW_STEP {
        assert_eq!(Placement::window_for(line), Placement::window_for(1024));
    }
    assert_eq!(
        Placement::window_for(1024 + WINDOW_STEP) - Placement::window_for(1024),
        WINDOW_STEP
    );
}

#[test]
fn children_and_parent_are_inverse() {
    let k = TileKey::new(2, 1, 3);
    for c in k.children() {
        assert_eq!(c.parent(), Some(k));
        assert_eq!(c.z, 3);
    }
    assert_eq!(TileKey::new(0, 0, 0).parent(), None);
}

#[test]
fn layers_are_fitted_to_the_feature_count() {
    assert_eq!(fit(vec![1u16, 2, 3], 2), vec![1, 2]);
    assert_eq!(fit(vec![1u16], 3), vec![1, 0, 0]);
    assert_eq!(fit(Vec::<u16>::new(), 0), Vec::<u16>::new());
}

fn atlas_bytes(width: u32, height: u32, pixels: usize) -> Vec<u8> {
    let mut b = b"FATL".to_vec();
    for v in [1u32, width, height, 10, 12, 16, 95, 32] {
        b.extend_from_slice(&v.to_le_bytes());
    }
    for v in [0.6f32, 1.2, -0.1, -0.25, 0.55, 1.1, 0.1] {
        b.extend_from_slice(&v.to_bits().to_le_bytes());
    }
    b.extend(std::iter::repeat(128u8).take(pixels));
    b
}

#[test]
fn cells_cover_printable_ascii_only() {
    let bytes = atlas_bytes(4, 2, 8);
    let atlas = Atlas::parse(&bytes).unwrap();
    assert_eq!(atlas.cell(' '), Some(0));
    assert_eq!(atlas.cell('A'), Some(33));
    assert_eq!(atlas.cell('~'), Some(94));
    assert_eq!(atlas.cell('\t'), None);
    assert_eq!(atlas.cell('é'), None);
}

#[test]
fn a_small_atlas_parses() {
    let bytes = atlas_bytes(4, 2, 10);
    let atlas = Atlas::parse(&bytes).unwrap();
    assert_eq!(atlas.first_char, 32);
    assert_eq!(atlas.count, 95);
    assert_eq!(atlas.pixels.len(), (atlas.width * atlas.height) as usize);
    assert_eq!(f32::from_bits(atlas.metrics.advance), 0.55);
    assert_eq!(
        atlas.metrics,
        MetricBits {
            quad_w: 0.6f32.to_bits(),
            quad_h: 1.2f32.to_bits(),
            origin_x: (-0.1f32).to_bits(),
            origin_y: (-0.25f32).to_bits(),
            advance: 0.55f32.to_bits(),
            line_height: 1.1f32.to_bits(),
            range: 0.1f32.to_bits(),
        }
    );
}

#[test]
fn bad_input_is_rejected() {
    assert!(matches!(Atlas::parse(b"nope"), Err(AtlasError::Truncated)));
    let mut bad = atlas_bytes(4, 2, 8);
    bad[0] = b'X';
    assert!(matches!(Atlas::parse(&bad), Err(AtlasError::BadMagic)));
    let mut old = atlas_bytes(4, 2, 8);
    old[4] = 2;
    assert_eq!(
        Atlas::parse(&old).err(),
        Some(AtlasError::Version { found: 2, expected: 1 })
    );
    assert_eq!(Atlas::parse(&atlas_bytes(4, 2, 7)).err(), Some(AtlasError::Truncated));
}

#[test]
fn the_cursor_classifies_offsets_in_order() {
    let spans = vec![
        TokenSpan { start: 0, len: 3, class: 1 },
        TokenSpan { start: 4, len: 1, class: 7 },
        TokenSpan { start: 8, len: 1, class: 4 },
    ];
    let mut cursor = SpanCursor::new(&spans);
    let got: Vec<u8> = (0..10).map(|o| cursor.class_at(o)).collect();
    assert_eq!(got, vec![1, 1, 1, 0, 7, 0, 0, 0, 4, 0]);
}

fn tile(text: &str, spans: Vec<TokenSpan>) -> TextTile {
    TextTile { file_id: 7, text: text.into(), spans }
}

#[test]
fn spans_color_the_characters_they_cover() {
    let bytes = atlas_bytes(4, 2, 8);
    let atlas = Atlas::parse(&bytes).unwrap();
    let plan = layout_plan(&tile("abcd", vec![TokenSpan { start: 0, len: 2, class: 1 }]), 0, &atlas);
    let classes: Vec<u8> = plan.glyphs.iter().map(|g| g.class).collect();
    assert_eq!(classes, vec![1, 1, 0, 0]);
    assert_eq!(plan.strips.len(), 2);
    assert_eq!((plan.strips[0].start, plan.strips[0].end), (0, 2));
    assert_eq!((plan.strips[1].start, plan.strips[1].end), (2, 4));
}

#[test]
fn whitespace_draws_nothing_and_breaks_runs() {
    let bytes = atlas_bytes(4, 2, 8);
    let atlas = Atlas::parse(&bytes).unwrap();
    let plan = layout_plan(&tile("a b", vec![TokenSpan { start: 0, len: 3, class: 1 }]), 0, &atlas);
    assert_eq!(plan.glyphs.len(), 2, "the space has no glyph");
    assert_eq!(plan.strips.len(), 2, "the space splits the run");
    assert_eq!(plan.glyphs[1].col, 2);
}

#[test]
fn a_window_starts_at_its_first_line() {
    let bytes = atlas_bytes(4, 2, 8);
    let atlas = Atlas::parse(&bytes).unwrap();
    let text: String = (0..3000).map(|i| format!("v{i}\n")).collect();
    let top = layout_plan(&tile(&text, vec![]), 0, &atlas);
    let middle = layout_plan(&tile(&text, vec![]), 1024, &atlas);
    assert_eq!(top.glyphs[0].line, 0);
    assert_eq!(middle.glyphs[0].line, 1024);
    assert!(top.glyphs.iter().all(|g| g.line < 1024));
    assert!(middle.glyphs.iter().all(|g| (1024..2048).contains(&g.line)));
    assert!(layout_plan(&tile("", vec![]), 0, &atlas).glyphs.is_empty());
}

#[test]
fn camera_modes_have_names() {
    assert_eq!(CameraMode::MapView.label(), "map");
    assert_eq!(CameraMode::Fly.label(), "fly");
}
