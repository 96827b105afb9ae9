use flyover::text::{parse_text_raw, TextError};
use flyover::tile::{parse_tile_raw, TileError};
use flyover::keys::{self, KeysError};
use flyover::manifest::{layer_tile_key, tile_key};
use flyover::paths::{PathEntry, PathsIndex};
use flyover::text::{decode_spans, encode_spans, text_key, TextTile, TokenSpan};

#[test]
fn round_trips_sorted_and_deduplicated() {
    let bytes = keys::encode(&[(1, 1, 0), (0, 0, 0), (1, 0, 0), (1, 1, 0)]);
    assert_eq!(
        keys::decode(&bytes).unwrap(),
        vec![(0, 0, 0), (1, 0, 0), (1, 1, 0)]
    );
}

#[test]
fn keys_deterministic() {
    assert_eq!(
        keys::encode(&[(2, 3, 1), (0, 0, 0)]),
        keys::encode(&[(0, 0, 0), (2, 3, 1)])
    );
}

#[test]
fn rejects_garbage_and_truncation() {
    assert!(keys::decode(b"nope").is_err());
    let mut bytes = keys::encode(&[(0, 0, 0), (1, 0, 1)]);
    bytes.truncate(bytes.len() - 3);
    assert!(matches!(keys::decode(&bytes), Err(KeysError::Truncated)));
}

#[test]
fn keys_are_stable() {
    assert_eq!(tile_key(3, 5, 6), "tiles/3/5/6.fly");
    assert_eq!(layer_tile_key("churn", 3, 5, 6), "layers/churn/3/5/6.flv");
}

fn paths_sample() -> PathsIndex {
    PathsIndex {
        entries: vec![
            PathEntry {
                id: 2,
                lines: 10,
                bytes: 200,
                path: "src/b.rs".into(),
            },
            PathEntry {
                id: 1,
                lines: 5,
                bytes: 90,
                path: "src/a.rs".into(),
            },
        ],
    }
}

#[test]
fn round_trips_sorted_by_id() {
    let bytes = paths_sample().encode();
    let decoded = PathsIndex::decode(&bytes).unwrap();
    assert_eq!(decoded.entries.len(), 2);
    assert_eq!(decoded.entries[0].id, 1);
    assert_eq!(decoded.entries[1].id, 2);
    assert_eq!(decoded.entries[0].path, "src/a.rs");
}

#[test]
fn paths_deterministic() {
    assert_eq!(paths_sample().encode(), paths_sample().encode());
}

#[test]
fn rejects_garbage() {
    assert!(PathsIndex::decode(b"xxxx....").is_err());
}

fn text_sample() -> TextTile {
    TextTile {
        file_id: 4242,
        text: "fn main() {\n    let x = 1;\n}\n".into(),
        spans: vec![
            TokenSpan {
                start: 0,
                len: 2,
                class: 1,
            },
            TokenSpan {
                start: 3,
                len: 4,
                class: 6,
            },
            TokenSpan {
                start: 24,
                len: 1,
                class: 4,
            },
        ],
    }
}

#[test]
fn text_round_trips() {
    let tile = text_sample();
    assert_eq!(TextTile::decode(&tile.encode().unwrap()).unwrap(), tile);
}

#[test]
fn text_deterministic() {
    assert_eq!(text_sample().encode().unwrap(), text_sample().encode().unwrap());
}

#[test]
fn spans_round_trip_including_empty() {
    let spans = text_sample().spans;
    assert_eq!(decode_spans(&encode_spans(&spans)), spans);
    assert_eq!(decode_spans(&encode_spans(&[])), vec![]);
}

#[test]
fn keys_group_files_by_4096() {
    assert_eq!(text_key(0), "text/0/0.ftx");
    assert_eq!(text_key(4095), "text/0/4095.ftx");
    assert_eq!(text_key(4096), "text/1/4096.ftx");
}

#[test]
fn text_garbage_is_rejected() {
    assert!(TextTile::decode(b"not a tile").is_err());
}

use flyover::layer::{LayerTile, LayerValues};
use flyover::tile::{Feature, FeatureKind, Tile};

fn bits(v: &[f32]) -> Vec<u32> {
    v.iter().map(|f| f.to_bits()).collect()
}

#[test]
fn scalar_round_trips() {
    let t = LayerTile {
        z: 1,
        x: 0,
        y: 1,
        values: LayerValues::Scalar(bits(&[1.0, 2.5, 42.0])),
    };
    assert_eq!(LayerTile::decode(&t.encode()).unwrap(), t);
}

#[test]
fn category_round_trips() {
    let t = LayerTile {
        z: 3,
        x: 2,
        y: 5,
        values: LayerValues::Category(vec![0, 1, 1, 7]),
    };
    assert_eq!(LayerTile::decode(&t.encode()).unwrap(), t);
}

#[test]
fn layer_deterministic() {
    let t = LayerTile {
        z: 0,
        x: 0,
        y: 0,
        values: LayerValues::Scalar(bits(&[3.0, 1.0])),
    };
    assert_eq!(t.encode(), t.encode());
}

fn point(x: f32, y: f32) -> [u32; 2] {
    [x.to_bits(), y.to_bits()]
}

fn sample_tile() -> Tile {
    Tile {
        z: 2,
        x: 1,
        y: 3,
        features: vec![
            Feature {
                id: 1,
                kind: FeatureKind::File,
                depth: 2,
                parent_id: 7,
                lines: 42,
                vertices: vec![point(0.0, 0.0), point(1.0, 0.0), point(1.0, 1.0), point(0.0, 1.0)],
                indices: vec![0, 1, 2, 0, 2, 3],
            },
            Feature {
                id: 7,
                kind: FeatureKind::Dir,
                depth: 1,
                parent_id: 0,
                lines: 100,
                vertices: vec![point(0.0, 0.0), point(2.0, 0.0), point(2.0, 2.0)],
                indices: vec![0, 1, 2],
            },
        ],
    }
}

#[test]
fn tile_round_trips() {
    let tile = sample_tile();
    let bytes = tile.encode().unwrap();
    assert_eq!(Tile::decode(&bytes).unwrap(), tile);
}

#[test]
fn encoding_is_deterministic() {
    assert_eq!(sample_tile().encode().unwrap(), sample_tile().encode().unwrap());
}

#[test]
fn empty_tile_round_trips() {
    let tile = Tile {
        z: 0,
        x: 0,
        y: 0,
        features: vec![],
    };
    let bytes = tile.encode().unwrap();
    assert_eq!(Tile::decode(&bytes).unwrap(), tile);
}

#[test]
fn tile_garbage_is_rejected() {
    assert!(Tile::decode(b"not a tile").is_err());
}

#[test]
fn permuted_path_entries_encode_to_the_same_bytes() {
    let mut a = paths_sample();
    let b = paths_sample();
    a.entries.reverse();
    assert_eq!(a.encode(), b.encode());
}

#[test]
fn a_stray_tail_after_packed_spans_is_ignored() {
    let spans = vec![TokenSpan { start: 0, len: 2, class: 1 }, TokenSpan { start: 300, len: 200, class: 4 }];
    let packed = encode_spans(&spans);
    for tail in [vec![0x80u8], vec![5u8], vec![5u8, 6u8], vec![0x81u8, 0x82u8]] {
        let mut bytes = packed.clone();
        bytes.extend_from_slice(&tail);
        assert_eq!(decode_spans(&bytes), spans);
    }
}

#[test]
fn bytes_without_the_zstd_magic_are_not_tiles() {
    assert!(Tile::decode(b"not a tile").is_err());
    assert!(Tile::decode(b"").is_err());
    assert!(TextTile::decode(b"\x28\xb5\x2f").is_err());
}

#[test]
fn a_stored_file_becomes_its_text_tile() {
    let source = "fn main() {}\n";
    let content = zstd::stream::encode_all(source.as_bytes(), 9).unwrap();
    let spans = vec![TokenSpan { start: 0, len: 2, class: 1 }, TokenSpan { start: 3, len: 4, class: 6 }];
    let packed = encode_spans(&spans);
    let out = flyover::text::text_tile_file(42, &content, &packed).unwrap().unwrap();
    let back = TextTile::decode(&out).unwrap();
    assert_eq!(back, TextTile { file_id: 42, text: source.to_string(), spans });
}

#[test]
fn a_stored_file_that_does_not_decompress_or_is_not_utf8_gets_no_tile() {
    assert!(flyover::text::text_tile_file(1, b"plain bytes", &[]).is_none());
    let latin1 = zstd::stream::encode_all(&[0x66u8, 0xE9, 0x0A][..], 9).unwrap();
    assert!(flyover::text::text_tile_file(1, &latin1, &[]).is_none());
}

#[test]
fn raw_text_tiles_parse_without_compression() {
    let mut raw = b"FTX1".to_vec();
    raw.extend_from_slice(&1u32.to_le_bytes());
    raw.extend_from_slice(&9u32.to_le_bytes());
    raw.extend_from_slice(&2u32.to_le_bytes());
    raw.extend_from_slice(&0u32.to_le_bytes());
    raw.extend_from_slice(b"hi");
    let t = parse_text_raw(&raw).unwrap();
    assert_eq!(t, TextTile { file_id: 9, text: "hi".into(), spans: vec![] });
    assert_eq!(parse_text_raw(b"FTX"), Err(TextError::Truncated));
    assert_eq!(parse_text_raw(b"XXXX\x01\0\0\0"), Err(TextError::BadMagic));
    let mut later = raw.clone();
    later[4] = 7;
    assert_eq!(parse_text_raw(&later), Err(TextError::Version { found: 7, expected: 1 }));
    let mut bad = raw.clone();
    bad[20] = 0xFF;
    assert_eq!(parse_text_raw(&bad), Err(TextError::Utf8));
}

#[test]
fn raw_geometry_tiles_parse_without_compression() {
    let t = Tile { z: 2, x: 1, y: 3, features: vec![] };
    let framed = t.encode().unwrap();
    let raw = zstd::stream::decode_all(&framed[..]).unwrap();
    assert_eq!(parse_tile_raw(&raw).unwrap(), t);
    assert_eq!(parse_tile_raw(b"NOPE\x01\0\0\0"), Err(TileError::BadMagic));
    assert_eq!(parse_tile_raw(&raw[..3]), Err(TileError::Truncated));
}
