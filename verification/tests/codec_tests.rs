use lu_server::codec::{decode_fields, encode_grid, matrix_text};
use lu_server::errors::ErrorKind;

fn grid(rows: &[&[&str]]) -> Vec<Vec<Vec<u8>>> {
    rows.iter()
        .map(|r| r.iter().map(|f| f.as_bytes().to_vec()).collect())
        .collect()
}

#[test]
fn decode_splits_lines_and_fields() {
    let text = b"1, 0\n0, 1".to_vec();
    let g = decode_fields(&text).unwrap();
    assert_eq!(g, grid(&[&["1", "0"], &["0", "1"]]));
}

#[test]
fn decode_pads_short_rows_with_empty_fields() {
    let text = b"1, 2, 3\n4\n5, 6".to_vec();
    let g = decode_fields(&text).unwrap();
    assert_eq!(g, grid(&[&["1", "2", "3"], &["4", "", ""], &["5", "6", ""]]));
}

#[test]
fn decode_rejects_rows_with_too_many_fields() {
    let text = b"1, 2".to_vec();
    assert_eq!(decode_fields(&text), Err(ErrorKind::Decode));
}

#[test]
fn decode_keeps_the_extra_row_of_a_trailing_terminator() {
    let text = b"1, 0\n0, 1\n".to_vec();
    let g = decode_fields(&text).unwrap();
    assert_eq!(g, grid(&[&["1", "0", ""], &["0", "1", ""], &["", "", ""]]));
}

#[test]
fn decode_of_empty_text_is_a_single_empty_cell() {
    let text = Vec::new();
    let g = decode_fields(&text).unwrap();
    assert_eq!(g, grid(&[&[""]]));
}

#[test]
fn encode_joins_fields_and_lines() {
    let g = grid(&[&["1.5", "-2"], &["0", "3e10"]]);
    assert_eq!(encode_grid(&g), b"1.5, -2\n0, 3e10".to_vec());
}

#[test]
fn encode_then_decode_restores_the_grid() {
    let g = grid(&[&["1.5", "-2.25", "0"], &["3e10", "NaN", "inf"], &["0.1", "7", "-0"]]);
    let text = encode_grid(&g);
    assert_eq!(decode_fields(&text).unwrap(), g);
}

#[test]
fn matrix_text_adds_the_trailing_terminator() {
    let g = grid(&[&["4", "3"], &["6", "3"]]);
    assert_eq!(matrix_text(&g), b"4, 3\n6, 3\n".to_vec());
}

#[test]
fn matrix_text_of_an_empty_grid_is_empty() {
    let g: Vec<Vec<Vec<u8>>> = Vec::new();
    assert_eq!(matrix_text(&g), Vec::<u8>::new());
}
