use rand::distributions::{Distribution, Uniform};
use streamvbyte::{decode, decode_delta, encode, encode_delta};

fn create_input(bits: u32, len: usize) -> Vec<u32> {
    let min = 0;
    let max: u64 = (1 << bits) - 1;
    let between = Uniform::from(min..=max);
    let mut rng = rand::thread_rng();
    let mut vec = Vec::with_capacity(len);
    for _ in 0..len {
        vec.push(between.sample(&mut rng) as u32);
    }
    vec
}

#[test]
fn encode_decode_roundtrip() {
    let len = 10000;
    for bits in 1..=32 {
        for _ in 0..2 {
            let input = create_input(bits, len);
            let output_buf = encode(&input);
            let mut recovered: Vec<u32> = vec![0; len];
            let read_bytes = decode(&output_buf, &mut recovered);
            assert_eq!(read_bytes, output_buf.len());
            assert_eq!(recovered, input);
        }
    }
}

fn create_delta_input(bits: u32, len: usize) -> Vec<u32> {
    let min = 0;
    let max: u64 = (1 << bits) - 1;
    let between = Uniform::from(min..=max);
    let mut rng = rand::thread_rng();
    let mut vec = Vec::with_capacity(len);
    let mut prev: u32 = 0;
    for _ in 0..len {
        let gap = between.sample(&mut rng) as u32;
        let new = prev + gap;
        prev = new;
        vec.push(new);
    }
    vec
}

#[test]
fn encode_decode_delta_roundtrip() {
    let len = 10000;
    for bits in 1..=16 {
        for _ in 0..2 {
            let input = create_delta_input(bits, len);
            let output_buf = encode_delta(&input, 0);
            let mut recovered: Vec<u32> = vec![0; len];
            let read_bytes = decode_delta(&output_buf, &mut recovered, 0);
            assert_eq!(read_bytes, output_buf.len());
            assert_eq!(recovered, input);
        }
    }
}

#[test]
fn roundtrip_of_every_length_up_to_forty() {
    let between = Uniform::from(0..=u32::MAX);
    let mut rng = rand::thread_rng();
    for len in 0..=40usize {
        let input: Vec<u32> = (0..len).map(|_| between.sample(&mut rng)).collect();
        let stream = encode(&input);
        let mut recovered: Vec<u32> = vec![0; len];
        assert_eq!(decode(&stream, &mut recovered), stream.len());
        assert_eq!(recovered, input);
    }
}

#[test]
fn delta_roundtrip_with_initial_below_first() {
    let input: Vec<u32> = vec![100, 100, 101, 4000, 70000, 70000, 4_000_000_000];
    for initial in [0u32, 1, 99, 100] {
        let stream = encode_delta(&input, initial);
        let mut recovered: Vec<u32> = vec![0; input.len()];
        assert_eq!(decode_delta(&stream, &mut recovered, initial), stream.len());
        assert_eq!(recovered, input);
    }
}

#[test]
fn delta_roundtrip_of_a_sequence_that_decreases() {
    let input: Vec<u32> = vec![10, 3, u32::MAX, 0, 7, 7, 1];
    let stream = encode_delta(&input, 500);
    let mut recovered: Vec<u32> = vec![0; input.len()];
    assert_eq!(decode_delta(&stream, &mut recovered, 500), stream.len());
    assert_eq!(recovered, input);
}
