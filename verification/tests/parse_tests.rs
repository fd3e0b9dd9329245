use xvgplot::data::{rows_uniform, scan_xvg, Data, Scan};

fn chars(s: &str) -> Vec<char> {
    s.chars().collect()
}

fn string(v: &[char]) -> String {
    v.iter().collect()
}

/// Parse every token of every data row as an `f32`, keeping the bit patterns.
fn parse_rows(scan: &Scan) -> Vec<Vec<Option<u32>>> {
    scan.data_rows
        .iter()
        .map(|row| {
            row.iter()
                .map(|tok| string(tok).parse::<f32>().ok().map(f32::to_bits))
                .collect()
        })
        .collect()
}

fn dataset(text: &str) -> Data {
    let scan = scan_xvg(&chars(text)).expect("scan should succeed");
    let parsed = parse_rows(&scan);
    Data::from_parsed_rows(scan.attributes, &parsed)
}

#[test]
fn scan_scenario() {
    let text = "# test\n@ title \"Demo\"\n@ TYPE xy\n1.0 2.0\n3.0 4.0\n";
    let data = dataset(text);
    assert_eq!(data.cols, 2);
    assert_eq!(data.rows, 2);
    assert_eq!(
        data.array,
        vec![
            1.0f32.to_bits(),
            2.0f32.to_bits(),
            3.0f32.to_bits(),
            4.0f32.to_bits(),
        ]
    );
    assert_eq!(string(data.attributes.title.as_ref().unwrap()), "Demo");
    assert_eq!(
        string(data.attributes.declared_type.as_ref().unwrap()),
        "xy"
    );
}

#[test]
fn trailing_non_numeric_token_dropped() {
    let data = dataset("1.0 2.0 RESIDUE_A\n");
    assert_eq!(data.cols, 2);
    assert_eq!(data.rows, 1);
    assert_eq!(data.array, vec![1.0f32.to_bits(), 2.0f32.to_bits()]);
}

#[test]
fn missing_closing_quote_is_fatal() {
    let r = scan_xvg(&chars("@ title \"Demo\n1.0 2.0\n"));
    assert!(matches!(r, Err(xvgplot::attrs::XvgError::MissingClosingQuote)));
}

#[test]
fn axis_labels_are_recorded() {
    let text = "@ xaxis label \"Time (ns)\"\n@ yaxis label \"Count\"\n";
    let data = dataset(text);
    assert_eq!(
        string(&data.attributes.xaxis.as_ref().unwrap().label),
        "Time (ns)"
    );
    assert_eq!(
        string(&data.attributes.yaxis.as_ref().unwrap().label),
        "Count"
    );
}

#[test]
fn subtitle_is_recorded() {
    let data = dataset("@ subtitle \"Below the title\"\n");
    assert_eq!(
        string(data.attributes.subtitle.as_ref().unwrap()),
        "Below the title"
    );
}

#[test]
fn recognized_quoted_line_still_archived_by_bare_reading() {
    // The bare-token reading runs even for a line the quoted reading already
    // handled, so a title line is archived in `misc` as well.
    let data = dataset("@ title \"Demo\"\n");
    assert_eq!(string(data.attributes.title.as_ref().unwrap()), "Demo");
    assert_eq!(data.attributes.misc.len(), 1);
    assert_eq!(string(&data.attributes.misc[0]), "title \"Demo\"");
}

#[test]
fn unrecognized_attribute_goes_to_misc() {
    let data = dataset("@ s0 legend \"T = 300 K\"\n");
    // Archived once by the quoted reading and once by the bare one.
    assert_eq!(data.attributes.misc.len(), 2);
    assert_eq!(string(&data.attributes.misc[0]), "s0 legend \"T = 300 K\"");
    assert_eq!(string(&data.attributes.misc[1]), "s0 legend \"T = 300 K\"");
}

#[test]
fn later_attribute_overwrites_earlier() {
    let data = dataset("@ title \"One\"\n@ title \"Two\"\n");
    assert_eq!(string(data.attributes.title.as_ref().unwrap()), "Two");
}

#[test]
fn uniform_rows_fix_shape() {
    let data = dataset("0.5 1.5 2.5\n3.5 4.5 5.5\n6.5 7.5 8.5\n9.5 0.25 0.75\n");
    assert_eq!(data.cols, 3);
    assert_eq!(data.rows, 4);
    assert_eq!(data.array.len(), data.cols * data.rows);
}

#[test]
fn empty_input_gives_empty_dataset() {
    let data = dataset("");
    assert_eq!(data.cols, 0);
    assert_eq!(data.rows, 0);
    assert!(data.array.is_empty());
}

#[test]
fn comments_are_skipped() {
    let data = dataset("# a comment\n# another 1.0 2.0\n1.0 2.0\n");
    assert_eq!(data.rows, 1);
    assert_eq!(data.cols, 2);
}

#[test]
fn view_lengths_match_shape() {
    let data = dataset("1.0 2.0\n3.0 4.0\n5.0 6.0\n");
    assert_eq!(data.col(0).len(), 3);
    assert_eq!(data.col(1).len(), 3);
    assert_eq!(data.row(0).len(), 2);
    assert_eq!(data.row(2).len(), 2);
    assert!(!data.col(0).is_empty());
    assert!(dataset("").col(0).is_empty());
}

#[test]
fn column_view_iterates_rows() {
    let data = dataset("1.0 2.0\n3.0 4.0\n5.0 6.0\n");
    let vals = data.col(1).values();
    assert_eq!(
        vals,
        vec![2.0f32.to_bits(), 4.0f32.to_bits(), 6.0f32.to_bits()]
    );
}

#[test]
fn row_view_iterates_columns() {
    let data = dataset("1.0 2.0\n3.0 4.0\n");
    let vals = data.row(1).values();
    assert_eq!(vals, vec![3.0f32.to_bits(), 4.0f32.to_bits()]);
}

#[test]
fn next_steps_through_view() {
    let data = dataset("1.0 2.0\n3.0 4.0\n");
    let mut v = data.col(0);
    assert_eq!(v.next(), Some(1.0f32.to_bits()));
    assert_eq!(v.next(), Some(3.0f32.to_bits()));
    assert_eq!(v.next(), None);
    assert_eq!(v.next(), None);
}

#[test]
fn short_row_ends_view_early() {
    // The second row parses to a single value, so the buffer is short: the
    // second column's view ends at the first position outside the buffer.
    let data = dataset("1.0 2.0\nonly 3.0\n");
    assert_eq!(data.cols, 2);
    assert_eq!(data.rows, 2);
    assert_eq!(data.array.len(), 3);
    assert_eq!(data.col(1).values(), vec![2.0f32.to_bits()]);
    assert_eq!(
        data.col(0).values(),
        vec![1.0f32.to_bits(), 3.0f32.to_bits()]
    );
}

#[test]
fn blank_line_counts_as_empty_row() {
    let data = dataset("\n1.0 2.0\n");
    // The blank first row fixes the column count at zero.
    assert_eq!(data.cols, 0);
    assert_eq!(data.rows, 2);
    assert_eq!(data.array, vec![1.0f32.to_bits(), 2.0f32.to_bits()]);
}

#[test]
fn uniformity_check_matches_row_shapes() {
    let scan = scan_xvg(&chars("1.0 2.0\n3.0 4.0 trailing\n")).unwrap();
    let parsed = parse_rows(&scan);
    assert!(rows_uniform(&parsed));

    let scan = scan_xvg(&chars("1.0 2.0\n3.0\n")).unwrap();
    let parsed = parse_rows(&scan);
    assert!(!rows_uniform(&parsed));

    let empty: Vec<Vec<Option<u32>>> = Vec::new();
    assert!(rows_uniform(&empty));
}
