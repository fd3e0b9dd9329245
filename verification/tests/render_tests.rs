use xvgplot::attrs::XvgError;
use xvgplot::data::{scan_xvg, Data};
use xvgplot::render::{graph, populate_grid, zip_pairs, DrawingStyle};
use xvgplot::text::{center, truncate};

fn chars(s: &str) -> Vec<char> {
    s.chars().collect()
}

fn string(v: &[char]) -> String {
    v.iter().collect()
}

fn dataset(text: &str) -> Data {
    let scan = scan_xvg(&chars(text)).expect("scan should succeed");
    let parsed: Vec<Vec<Option<u32>>> = scan
        .data_rows
        .iter()
        .map(|row| {
            row.iter()
                .map(|tok| string(tok).parse::<f32>().ok().map(f32::to_bits))
                .collect()
        })
        .collect();
    Data::from_parsed_rows(scan.attributes, &parsed)
}

#[test]
fn truncate_shortens_to_exact_width() {
    assert_eq!(string(&truncate(&chars("hello"), 3)), "he…");
    assert_eq!(truncate(&chars("hello"), 3).len(), 3);
}

#[test]
fn truncate_keeps_short_strings() {
    assert_eq!(string(&truncate(&chars("hi"), 3)), "hi");
    assert_eq!(string(&truncate(&chars("abc"), 3)), "abc");
}

#[test]
fn truncate_to_zero_is_empty() {
    assert_eq!(string(&truncate(&chars("hello"), 0)), "");
    assert_eq!(string(&truncate(&chars(""), 0)), "");
}

#[test]
fn truncate_is_idempotent() {
    let once = truncate(&chars("a longer label"), 6);
    let twice = truncate(&once, 6);
    assert_eq!(once, twice);
}

#[test]
fn center_pads_like_format() {
    assert_eq!(string(&center(&chars("ab"), 5)), format!("{:^5}", "ab"));
    assert_eq!(string(&center(&chars("abc"), 3)), "abc");
    assert_eq!(string(&center(&chars("abcd"), 2)), "abcd");
    assert_eq!(string(&center(&chars(""), 4)), "    ");
}

#[test]
fn style_names() {
    assert_eq!(
        DrawingStyle::try_from_name(&chars("ascii")),
        Ok(DrawingStyle::Ascii)
    );
    assert_eq!(
        DrawingStyle::try_from_name(&chars("block")),
        Ok(DrawingStyle::Block)
    );
    assert_eq!(
        DrawingStyle::try_from_name(&chars("dots")),
        Err(XvgError::UnknownStyle)
    );
}

#[test]
fn default_style_is_block() {
    assert_eq!(DrawingStyle::default(), DrawingStyle::Block);
}

#[test]
fn draw_zero_is_space() {
    assert_eq!(DrawingStyle::Ascii.draw(3, 1, 0), ' ');
    assert_eq!(DrawingStyle::Block.draw(3, 1, 0), ' ');
}

#[test]
fn draw_is_monotonic_in_count() {
    // Occupied range 1..=3 over the nine-glyph ASCII ramp.
    let s = DrawingStyle::Ascii;
    assert_eq!(s.draw(3, 1, 1), '.');
    assert_eq!(s.draw(3, 1, 2), '+');
    assert_eq!(s.draw(3, 1, 3), '@');
    let ramp = "......:::---===+++***###%%%@@@";
    for hi in 1..=10usize {
        let mut last = None;
        for v in 1..=hi {
            let c = s.draw(hi, 1, v);
            assert!(ramp.contains(c));
            if let Some(prev) = last {
                let pos = |g| ".:-=+*#%@".find(g).unwrap();
                assert!(pos(prev) <= pos(c));
            }
            last = Some(c);
        }
    }
}

#[test]
fn draw_collapsed_range_uses_first_glyph() {
    assert_eq!(DrawingStyle::Ascii.draw(2, 2, 2), '.');
    assert_eq!(DrawingStyle::Block.draw(2, 2, 2), '░');
}

#[test]
fn draw_block_ramp() {
    let s = DrawingStyle::Block;
    assert_eq!(s.draw(4, 1, 1), '░');
    assert_eq!(s.draw(4, 1, 2), '▒');
    assert_eq!(s.draw(4, 1, 3), '▓');
    assert_eq!(s.draw(4, 1, 4), '█');
}

#[test]
fn populate_counts_points() {
    // Occupancies [[0, 1], [3, 0], [2, 1]] on a 3-row, 2-column grid.
    let pts = vec![
        (0, 1),
        (1, 0),
        (1, 0),
        (1, 0),
        (2, 0),
        (2, 0),
        (2, 1),
    ];
    let grid = populate_grid(&pts, 2, 3);
    assert_eq!(grid, vec![vec![0, 1], vec![3, 0], vec![2, 1]]);
}

#[test]
fn zip_stops_at_shorter() {
    let a = vec![1u32, 2, 3];
    let b = vec![4u32, 5];
    assert_eq!(zip_pairs(&a, &b), vec![(1, 4), (2, 5)]);
    assert_eq!(zip_pairs(&b, &a), vec![(4, 1), (5, 2)]);
}

#[test]
fn graph_shades_grid_scenario() {
    // The same occupancies as above, rendered: glyphs strictly increase with
    // the count among occupied cells, zero cells are spaces, and each row is
    // mirrored horizontally.
    let pts = vec![
        (0, 1),
        (1, 0),
        (1, 0),
        (1, 0),
        (2, 0),
        (2, 0),
        (2, 1),
    ];
    let data = dataset("");
    let lines = graph(&data, DrawingStyle::Ascii, 4, 6, &pts);
    let text: Vec<String> = lines.iter().map(|l| string(l)).collect();
    // hi = 3, lo = 1: count 1 -> '.', count 2 -> '+', count 3 -> '@'. Each
    // line is one gutter character, one space, and the mirrored row.
    assert_eq!(text, vec!["  . ", "   @", "  .+"]);
}

#[test]
fn graph_includes_centered_labels() {
    let text = "@ title \"Demo\"\n@ xaxis label \"Time (ns)\"\n";
    let data = dataset(text);
    let pts: Vec<(usize, usize)> = vec![(0, 0)];
    let width = 14;
    let height = 5;
    let lines = graph(&data, DrawingStyle::Ascii, width, height, &pts);
    let text: Vec<String> = lines.iter().map(|l| string(l)).collect();
    // One title line, two grid rows, one x-axis line.
    assert_eq!(text.len(), 4);
    assert_eq!(text[0], format!("{:^14}", "Demo"));
    assert_eq!(text[3], format!("{:^12}", "Time (ns)"));
    assert!(text[3].contains("Time (ns)"));
}

#[test]
fn graph_truncates_long_title() {
    let data = dataset("@ title \"A very long demonstration title\"\n");
    let pts: Vec<(usize, usize)> = vec![(0, 0)];
    let lines = graph(&data, DrawingStyle::Ascii, 8, 4, &pts);
    let text: Vec<String> = lines.iter().map(|l| string(l)).collect();
    assert_eq!(text[0], "A very …");
    assert_eq!(text[0].chars().count(), 8);
}

#[test]
fn graph_y_label_runs_down_gutter() {
    let data = dataset("@ yaxis label \"ab\"\n");
    let pts: Vec<(usize, usize)> = vec![(0, 0)];
    // Three grid rows: the label "ab" centered to height 3, one character
    // per row, padded as the standard formatter pads.
    let lines = graph(&data, DrawingStyle::Ascii, 5, 6, &pts);
    let gutter: String = lines.iter().map(|l| l[0]).collect();
    assert_eq!(gutter, format!("{:^3}", "ab"));
}
