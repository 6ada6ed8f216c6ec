use hexpath::gen::{generate_grid, row_to_hex_line};
use hexpath::hexnum::{hex_to_bytes, parse_offset};
use hexpath::modexp::mod_exp;
use hexpath::parse::{parse_grid, parse_hex_row, GridError};

#[test]
fn mod_exp_small_values() {
    assert_eq!(mod_exp(5, 3, 7), 6);
    assert_eq!(mod_exp(2, 10, 1_000_000), 1024);
    assert_eq!(mod_exp(2, 10, 1000), 24);
    assert_eq!(mod_exp(0, 0, 13), 1);
    assert_eq!(mod_exp(10, 1, 3), 1);
}

#[test]
fn mod_exp_large_modulus() {
    let p: u128 = 0xD87FA3E291B4C7F3;
    // g^1 mod p and a square, checked against plain arithmetic.
    assert_eq!(mod_exp(2, 1, p), 2);
    assert_eq!(mod_exp(2, 64, p), (((1u128 << 64) % p) as u64));
}

#[test]
fn mod_exp_agrees_with_naive() {
    let m: u128 = 1_000_003;
    let mut naive: u128 = 1;
    for e in 0..20u64 {
        assert_eq!(mod_exp(7, e, m), naive as u64);
        naive = (naive * 7) % m;
    }
}

#[test]
fn hex_to_bytes_decodes_pairs() {
    assert_eq!(hex_to_bytes("0aFf"), vec![0x0a, 0xff]);
    assert_eq!(hex_to_bytes(""), Vec::<u8>::new());
    assert_eq!(hex_to_bytes("00"), vec![0]);
    assert_eq!(hex_to_bytes("DEADBEEF"), vec![0xde, 0xad, 0xbe, 0xef]);
}

#[test]
fn parse_offset_hex_and_decimal() {
    assert_eq!(parse_offset("0x1A"), 26);
    assert_eq!(parse_offset("123"), 123);
    assert_eq!(parse_offset("0"), 0);
    assert_eq!(parse_offset("0xffffffffffffffff"), u64::MAX);
    assert_eq!(parse_offset("18446744073709551615"), u64::MAX);
}

#[test]
fn generated_grid_has_fixed_corners() {
    let grid = generate_grid(3, 2);
    assert_eq!(grid.len(), 2);
    assert!(grid.iter().all(|row| row.len() == 3));
    assert_eq!(grid[0][0], 0);
    assert_eq!(grid[1][2], 255);
}

#[test]
fn generated_one_cell_grid_is_start() {
    let grid = generate_grid(1, 1);
    assert_eq!(grid, vec![vec![0u8]]);
}

#[test]
fn row_renders_as_uppercase_hex() {
    assert_eq!(row_to_hex_line(&vec![0u8, 26, 255]), b"00 1A FF".to_vec());
    assert_eq!(row_to_hex_line(&Vec::new()), Vec::<u8>::new());
    assert_eq!(row_to_hex_line(&vec![9u8]), b"09".to_vec());
}

#[test]
fn rendered_row_parses_back() {
    let row = vec![0u8, 26, 255, 7];
    let line = String::from_utf8(row_to_hex_line(&row)).unwrap();
    let parsed = parse_hex_row(&line).unwrap();
    let expected: Vec<u32> = row.iter().map(|&b| b as u32).collect();
    assert_eq!(parsed, expected);
}

#[test]
fn bad_numerals_are_rejected() {
    assert_eq!(parse_hex_row("00 0G"), Err(GridError::InvalidDigit));
    let lines = vec!["00 01".to_string(), "0G FF".to_string()];
    assert_eq!(parse_grid(&lines), Err(GridError::InvalidDigit));
    // Nine hex digits denote 2^32: one past the last 32-bit value.
    assert_eq!(parse_hex_row("100000000"), Err(GridError::InvalidDigit));
    // Leading zeros keep a long numeral within range.
    assert_eq!(parse_hex_row("00000000FF"), Ok(vec![255]));
}

#[test]
fn whitespace_lines_carry_no_row() {
    let lines = vec![
        "".to_string(),
        "00 01".to_string(),
        "  \t ".to_string(),
        "02 03".to_string(),
    ];
    let grid = parse_grid(&lines).unwrap();
    assert_eq!(grid, vec![vec![0u32, 1], vec![2, 3]]);
}

#[test]
fn full_32_bit_weights_parse() {
    let lines = vec!["FFFFFFFF 0".to_string(), "1 ffffffff".to_string()];
    let grid = parse_grid(&lines).unwrap();
    assert_eq!(grid[0][0], u32::MAX);
    assert_eq!(grid[1][1], u32::MAX);
}
