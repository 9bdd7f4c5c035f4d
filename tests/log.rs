use llama2_rs::log::{push_decimal, write_log, write_matrix, LogError};

fn cells(values: &[f32]) -> Vec<Vec<u8>> {
    values.iter().map(|v| format!("{v:>9.6}").into_bytes()).collect()
}

#[test]
fn test_log() {
    let array = [
        1., 2., 3., //
        4., 5., 6., //
        7., 8., 9., //
        10., 11., 12., //
    ];
    let mut out = Vec::new();
    write_log(&mut out, &cells(&array), &[2, 2, 3]).unwrap();
    println!("{}", String::from_utf8(out).unwrap());
}

#[test]
fn batched_blocks_are_indexed() {
    let array: Vec<f32> = (1..=12).map(|v| v as f32).collect();
    let mut out = Vec::new();
    write_log(&mut out, &cells(&array), &[2, 2, 3]).unwrap();
    let text = String::from_utf8(out).unwrap();
    let expected = "<2x3>[0]\n 1.000000  2.000000  3.000000 \n 4.000000  5.000000  6.000000 \n\
                    <2x3>[1]\n 7.000000  8.000000  9.000000 \n10.000000 11.000000 12.000000 \n";
    assert_eq!(text, expected);
}

#[test]
fn two_leading_axes() {
    let array: Vec<f32> = (0..8).map(|v| v as f32).collect();
    let mut out = Vec::new();
    write_log(&mut out, &cells(&array), &[2, 2, 1, 2]).unwrap();
    let text = String::from_utf8(out).unwrap();
    let headers: Vec<&str> = text.lines().filter(|l| l.starts_with('<')).collect();
    assert_eq!(headers, ["<1x2>[0, 0]", "<1x2>[0, 1]", "<1x2>[1, 0]", "<1x2>[1, 1]"]);
}

#[test]
fn flat_shapes() {
    let c = cells(&[1.5, 2.5]);
    let mut out = Vec::new();
    write_log(&mut out, &c, &[2]).unwrap();
    assert_eq!(String::from_utf8(out).unwrap(), "<2>\n 1.500000 \n 2.500000 \n");
    let mut out = Vec::new();
    write_log(&mut out, &c, &[]).unwrap();
    assert_eq!(String::from_utf8(out).unwrap(), "<>\n 1.500000 \n");
    let mut out = Vec::new();
    write_log(&mut out, &c, &[1, 2]).unwrap();
    assert_eq!(String::from_utf8(out).unwrap(), "<1x2>\n 1.500000  2.500000 \n");
}

#[test]
fn short_buffer_is_refused() {
    let mut out = b"keep".to_vec();
    assert_eq!(write_log(&mut out, &cells(&[1.0; 5]), &[2, 3]), Err(LogError::ShortBuffer));
    assert_eq!(out, b"keep");
    assert_eq!(
        write_log(&mut out, &cells(&[1.0]), &[usize::MAX, 3]),
        Err(LogError::ShapeTooLarge)
    );
}

#[test]
fn decimal_digits() {
    let mut out = Vec::new();
    push_decimal(&mut out, 0);
    out.push(b' ');
    push_decimal(&mut out, 40960);
    assert_eq!(out, b"0 40960");
}

#[test]
fn matrix_rows() {
    let c: Vec<Vec<u8>> = ["a", "b", "c", "d"].iter().map(|s| s.as_bytes().to_vec()).collect();
    let mut out = Vec::new();
    write_matrix(&mut out, &c, 1, 1, 3);
    assert_eq!(out, b"b c d \n");
}
