use mazepath::seed::Seed;

fn draw(seed: &mut Seed, n: usize) -> Vec<bool> {
    let mut bits = Vec::new();
    for _ in 0..n {
        bits.push(seed.next_bool());
    }
    bits
}

fn bits_of(byte: u8) -> Vec<bool> {
    (0..8).map(|i| (byte >> i) & 1 == 1).collect()
}

#[test]
fn single_byte_bits() {
    // 'a' is 0x61: read from the least significant bit upwards
    let mut seed = Seed::from_str("a");
    assert_eq!(draw(&mut seed, 8), bits_of(0x61));
}

#[test]
fn single_byte_wraps_around() {
    let mut seed = Seed::from_str("a");
    let first = draw(&mut seed, 8);
    let second = draw(&mut seed, 8);
    assert_eq!(first, second);
}

#[test]
fn two_bytes_in_order_then_wrap() {
    let mut seed = Seed::from_str("ab");
    assert_eq!(draw(&mut seed, 8), bits_of(0x61));
    assert_eq!(draw(&mut seed, 8), bits_of(0x62));
    assert_eq!(draw(&mut seed, 8), bits_of(0x61));
}

#[test]
fn multibyte_text_uses_utf8_bytes() {
    // 'é' encodes to the two bytes 0xC3 0xA9
    let mut seed = Seed::from_str("é");
    assert_eq!(draw(&mut seed, 8), bits_of(0xC3));
    assert_eq!(draw(&mut seed, 8), bits_of(0xA9));
}

#[test]
fn deterministic_for_equal_text() {
    let mut one = Seed::from_str("maze");
    let mut two = Seed::from_str("maze");
    assert_eq!(draw(&mut one, 50), draw(&mut two, 50));
}
