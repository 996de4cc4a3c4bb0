use webgraph::bit_stream::{BitStreamRead, BitStreamWrite};
use webgraph::word_stream::{MemWordRead, MemWordWrite};

#[test]
fn word_stream_reads_back_buffer() {
    let data = vec![7u64, 11, 13, 17];
    let mut r = MemWordRead::new(data.clone());
    let mut seen = Vec::new();
    while let Ok(w) = r.read_next_word() {
        seen.push(w);
    }
    assert_eq!(seen, data);
}

#[test]
fn word_stream_write_then_read() {
    let data = vec![1u64, 2, 3];
    let mut w = MemWordWrite::new(data);
    w.set_position(1).unwrap();
    w.write_word(42).unwrap();
    w.set_position(1).unwrap();
    assert_eq!(w.read_next_word().unwrap(), 42);
}

#[test]
fn word_stream_set_position_past_end_is_refused() {
    let data = vec![5u64, 6];
    let mut r = MemWordRead::new(data);
    assert_eq!(r.read_next_word().unwrap(), 5);
    assert!(r.set_position(2).is_err());
    // the position is unchanged: the next read still yields word 1
    assert_eq!(r.read_next_word().unwrap(), 6);
    assert!(r.read_next_word().is_err());
}

#[test]
fn bit_codes_round_trip() {
    let values = [0u64, 1, 2, 3, 4, 5, 63, 64, 100, 1023, 1 << 20, (1 << 40) + 17];
    let mut w = BitStreamWrite::new();
    for &v in &values {
        w.write_gamma(v);
    }
    for &v in &values {
        w.write_zeta(v, 3);
    }
    for &v in &values {
        w.write_unary(v % 50);
    }
    let (words, _bits) = w.into_inner();
    let mut r = BitStreamRead::new(words).unwrap();
    for &v in &values {
        assert_eq!(r.read_gamma().unwrap(), v);
    }
    for &v in &values {
        assert_eq!(r.read_zeta(3).unwrap(), v);
    }
    for &v in &values {
        assert_eq!(r.read_unary().unwrap(), v % 50);
    }
}

#[test]
fn bit_stream_known_gamma_bits() {
    // gamma(4) is 00101: two zeros, a one, then the payload 01
    let mut w = BitStreamWrite::new();
    w.write_gamma(4);
    let (words, bits) = w.into_inner();
    assert_eq!(bits, 5);
    assert_eq!(words[0] >> 27, 0b00101);
}

#[test]
fn empty_stream_unary_is_error() {
    let mut r = BitStreamRead::new(Vec::new()).unwrap();
    assert!(r.read_unary().is_err());
    assert!(r.read_gamma().is_err());
}

#[test]
fn short_read_is_error() {
    // a single word: 62 zeros would run past the end
    let mut r = BitStreamRead::new(vec![0u32]).unwrap();
    assert!(r.read_unary().is_err());
    assert!(r.read_bits(33).is_err());
    assert_eq!(r.read_bits(32).unwrap(), 0);
}
