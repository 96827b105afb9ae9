use flyover::layout::{category_list, line_range, path_entries, stats};
use flyover::palette::color_for;
use flyover::tile::FeatureKind;
use flyover::tree::{
    assign_zooms, build_tree, check_tree_limits, collect_visible, split_components, try_build_tree, FileRow,
    TreeLimit, MAX_ZOOM,
};

#[test]
fn known_languages_are_fixed() {
    assert_eq!(color_for("Rust"), "#dea584");
    assert_eq!(color_for("TypeScript"), "#3178c6");
}

#[test]
fn unknown_is_stable_and_valid_hex() {
    let a = color_for("Brainfuck");
    let b = color_for("Brainfuck");
    assert_eq!(a, b);
    assert_eq!(a.len(), 7);
    assert!(a.starts_with('#'));
    assert!(a[1..].chars().all(|c| c.is_ascii_hexdigit()));
}

/// The same color computed the way the HSL formula reads, in floating point.
fn reference_color(name: &str) -> String {
    let mut hash: u32 = 0x811c_9dc5;
    for b in name.bytes() {
        hash ^= u32::from(b);
        hash = hash.wrapping_mul(0x0100_0193);
    }
    let h = (hash % 360) as f64;
    let (s, l) = (0.55f64, 0.6f64);
    let c = (1.0 - (2.0 * l - 1.0).abs()) * s;
    let hp = h / 60.0;
    let x = c * (1.0 - (hp % 2.0 - 1.0).abs());
    let (r1, g1, b1) = match hp as u32 {
        0 => (c, x, 0.0),
        1 => (x, c, 0.0),
        2 => (0.0, c, x),
        3 => (0.0, x, c),
        4 => (x, 0.0, c),
        _ => (c, 0.0, x),
    };
    let m = l - c / 2.0;
    let to = |v: f64| ((v + m) * 255.0).round().clamp(0.0, 255.0) as u8;
    format!("#{:02x}{:02x}{:02x}", to(r1), to(g1), to(b1))
}

#[test]
fn hashed_colors_follow_the_hsl_formula() {
    for name in ["Brainfuck", "Elixir", "Zig", "Haskell", "Lua", "Dart", "", "Vue", "WGSL", "Prisma"] {
        assert_eq!(color_for(name), reference_color(name), "{name}");
    }
}

fn row(id: u32, path: &str, language: &str, lines: u64) -> FileRow {
    FileRow {
        id,
        path: path.to_string(),
        language: language.to_string(),
        bytes: lines * 10,
        lines,
    }
}

fn sample() -> Vec<FileRow> {
    vec![
        row(1, "README.md", "Markdown", 10),
        row(2, "src/lib.rs", "Rust", 100),
        row(3, "src/util/a.rs", "Rust", 20),
        row(4, "src/util/b.py", "Python", 30),
        row(5, "web//app.ts", "TypeScript", 0),
    ]
}

#[test]
fn paths_split_into_components() {
    assert_eq!(split_components("a//b/c.rs"), vec!["a", "b", "c.rs"]);
    assert_eq!(split_components("/"), Vec::<String>::new());
    assert_eq!(split_components(""), Vec::<String>::new());
}

#[test]
fn the_tree_has_a_node_per_file_and_directory() {
    let (arena, root) = build_tree(&sample());
    assert_eq!(root, 0);
    let dirs: Vec<(&str, u32, u8)> = arena
        .iter()
        .skip(1)
        .filter(|n| n.kind == FeatureKind::Dir)
        .map(|n| (n.path.as_str(), n.id, n.depth))
        .collect();
    assert_eq!(dirs, vec![("src", 6, 1), ("src/util", 7, 2), ("web", 8, 1)]);
    let files: Vec<(u32, u8, u32)> = arena
        .iter()
        .filter(|n| n.kind == FeatureKind::File)
        .map(|n| (n.id, n.depth, n.parent_id))
        .collect();
    assert_eq!(files, vec![(1, 1, 0), (2, 2, 6), (3, 3, 7), (4, 3, 7), (5, 2, 8)]);
}

#[test]
fn directories_carry_their_totals_and_dominant_language() {
    let (arena, _) = build_tree(&sample());
    let by_path = |p: &str| arena.iter().find(|n| n.path == p && n.kind == FeatureKind::Dir).unwrap();
    let util = by_path("src/util");
    assert_eq!((util.lines, util.bytes, util.weight), (50, 500, 50));
    assert_eq!(util.language, "Python");
    let src = by_path("src");
    assert_eq!((src.lines, src.weight), (150, 150));
    assert_eq!(src.language, "Rust");
    let web = by_path("web");
    assert_eq!((web.lines, web.weight), (0, 1));
    assert_eq!(web.language, "TypeScript");
    assert_eq!(arena[0].lines, 160);
    assert_eq!(arena[0].weight, 161);
    assert_eq!(arena[0].language, "Rust");
}

#[test]
fn ties_go_to_the_earlier_language_name() {
    let (arena, _) = build_tree(&vec![row(1, "d/a.go", "Go", 5), row(2, "d/b.c", "C", 5)]);
    assert_eq!(arena[1].language, "C");
}

#[test]
fn an_empty_index_is_just_the_root() {
    let (arena, root) = build_tree(&Vec::new());
    assert_eq!(arena.len(), 1);
    assert_eq!(arena[root].weight, 1);
    assert_eq!(arena[root].language, "Other");
}

#[test]
fn zooms_split_directories_into_their_children() {
    let (mut arena, root) = build_tree(&sample());
    let natural: Vec<u8> = arena.iter().map(|n| if n.depth >= 2 { 3 } else { 1 }).collect();
    assign_zooms(&mut arena, &natural);
    for k in 1..arena.len() {
        let p = arena[k].parent;
        assert_eq!(arena[k].appear_z, arena[p].split_z);
        assert!(arena[k].appear_z <= arena[k].split_z && arena[k].split_z <= MAX_ZOOM);
    }
    let src = arena.iter().position(|n| n.path == "src").unwrap();
    assert_eq!(arena[src].split_z, 3);
    let mut visible = Vec::new();
    collect_visible(&arena, root, 0, &mut visible);
    assert_eq!(visible.len(), 3);
    let mut deep = Vec::new();
    collect_visible(&arena, root, MAX_ZOOM, &mut deep);
    let mut ids: Vec<u32> = deep.iter().map(|&i| arena[i].id).collect();
    ids.sort();
    assert_eq!(ids, vec![1, 2, 3, 4, 5]);
}

#[test]
fn categories_and_stats_describe_the_tile_set() {
    let files = sample();
    let (arena, _) = build_tree(&files);
    assert_eq!(category_list(&arena), vec!["Markdown", "Python", "Rust", "TypeScript"]);
    let s = stats(&arena, &files);
    assert_eq!((s.files, s.directories, s.lines, s.bytes, s.languages), (5, 3, 160, 1600, 4));
    assert_eq!(line_range(&files), (0, 100));
    assert_eq!(line_range(&Vec::new()), (0, 0));
    let rows = path_entries(&vec![FileRow { id: 9, path: "big".into(), language: "C".into(), bytes: u64::MAX, lines: 5 }]);
    assert_eq!((rows[0].id, rows[0].lines, rows[0].bytes, rows[0].path.as_str()), (9, 5, u32::MAX, "big"));
}

#[test]
fn every_zoom_covers_each_file_exactly_once() {
    let (mut arena, root) = build_tree(&sample());
    let natural: Vec<u8> = arena.iter().map(|n| n.depth * 2).collect();
    assign_zooms(&mut arena, &natural);
    let under = |v: usize, mut k: usize| loop {
        if k == v {
            return true;
        }
        if k == 0 {
            return false;
        }
        k = arena[k].parent;
    };
    for z in 0..=6u8 {
        let mut cut = Vec::new();
        collect_visible(&arena, root, z, &mut cut);
        for k in 1..arena.len() {
            if arena[k].kind == FeatureKind::File {
                let covers = cut.iter().filter(|&&v| under(v, k)).count();
                assert_eq!(covers, 1, "file {} at zoom {z}", arena[k].path);
            }
        }
    }
}

#[test]
fn tree_limits_name_the_first_bound_broken() {
    let row = |id: u32, path: &str| FileRow {
        id,
        path: path.to_string(),
        language: "Rust".to_string(),
        lines: 1,
        bytes: 1,
    };
    let ok = vec![row(1, "a/b/c.rs"), row(2, "a/d.rs")];
    assert_eq!(check_tree_limits(&ok), Ok(()));
    let (arena, root) = try_build_tree(&ok).ok().unwrap();
    assert_eq!(root, 0);
    assert_eq!(arena.len(), 5);
    let deep_path = vec!["d"; 256].join("/");
    let deep = vec![row(u32::MAX, "x.rs"), row(1, &deep_path)];
    assert_eq!(check_tree_limits(&deep), Err(TreeLimit::Depth));
    let high = vec![row(u32::MAX - 2, "a/b/c.rs")];
    assert_eq!(check_tree_limits(&high), Err(TreeLimit::DirectoryIds));
    let just = vec![row(u32::MAX - 3, "a/b/c.rs")];
    assert_eq!(check_tree_limits(&just), Ok(()));
    let top = vec![row(u32::MAX, "c.rs")];
    assert_eq!(check_tree_limits(&top), Err(TreeLimit::DirectoryIds));
    assert!(try_build_tree(&top).is_err());
}
