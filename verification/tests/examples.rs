use streamvbyte::{
    decode, decode_delta, encode, encode_delta, encode_delta_to_buf, encode_to_buf,
    max_compressedbytes, stream_bytes, StreamVbyteError,
};

#[test]
fn one_group_and_a_tail_of_two() {
    let out_bytes: Vec<u8> = encode(&[1, 2, 44, 5123, 43, 534]);
    assert_eq!(out_bytes.len(), 1 + 5 + 3);
    assert_eq!(out_bytes, vec![0x40, 1, 2, 44, 0x03, 0x14, 43, 0x96, 0x04]);
}

#[test]
fn single_integer_is_a_tail() {
    assert_eq!(encode(&[300]), vec![0xAC, 0x02]);
    let mut out = vec![0u32; 1];
    assert_eq!(decode(&[0xAC, 0x02], &mut out), 2);
    assert_eq!(out, vec![300]);
}

#[test]
fn tail_integers_at_the_edges_of_each_width() {
    assert_eq!(encode(&[0]), vec![0x00]);
    assert_eq!(encode(&[127]), vec![0x7F]);
    assert_eq!(encode(&[128]), vec![0x80, 0x01]);
    assert_eq!(encode(&[16383]), vec![0xFF, 0x7F]);
    assert_eq!(encode(&[16384]), vec![0x80, 0x80, 0x01]);
    assert_eq!(encode(&[0x1F_FFFF]), vec![0xFF, 0xFF, 0x7F]);
    assert_eq!(encode(&[0x20_0000]), vec![0x80, 0x80, 0x80, 0x01]);
    assert_eq!(encode(&[0xFFF_FFFF]), vec![0xFF, 0xFF, 0xFF, 0x7F]);
    assert_eq!(encode(&[0x1000_0000]), vec![0x80, 0x80, 0x80, 0x80, 0x01]);
    assert_eq!(encode(&[u32::MAX]), vec![0xFF, 0xFF, 0xFF, 0xFF, 0x0F]);
}

#[test]
fn tail_of_three_follows_the_group_data() {
    let stream = encode(&[0x0102_0304, 5, 0x0607, 0x08_090A, 1, 200, 70000]);
    assert_eq!(
        stream,
        vec![
            0b10_01_00_11, 0x04, 0x03, 0x02, 0x01, 5, 0x07, 0x06, 0x0A, 0x09, 0x08, 1, 0xC8, 0x01,
            0xF0, 0xA2, 0x04
        ]
    );
}

#[test]
fn encode_to_buf_reports_what_it_wrote() {
    let input = vec![1, 2, 44, 5123, 43, 534];
    let max_bytes = max_compressedbytes(input.len());
    let mut out_buf = vec![0; max_bytes];
    let bytes_written = encode_to_buf(&input, &mut out_buf);
    assert_eq!(bytes_written.unwrap(), 9);
    assert_eq!(&out_buf[..9], encode(&input).as_slice());
}

#[test]
fn encode_to_buf_leaves_the_rest_of_the_buffer() {
    let input = vec![1, 2, 44, 5123, 43, 534];
    let mut out_buf = vec![0xAAu8; 40];
    assert_eq!(encode_to_buf(&input, &mut out_buf), Ok(9));
    assert!(out_buf[9..].iter().all(|b| *b == 0xAA));
}

#[test]
fn delta_of_one_group_and_a_tail_of_two() {
    let out_bytes: Vec<u8> = encode_delta(&[1, 2, 44, 54, 433, 534], 0);
    assert_eq!(out_bytes.len(), 1 + 4 + 3);
    assert_eq!(out_bytes, vec![0x00, 1, 1, 42, 10, 0xFB, 0x02, 101]);
}

#[test]
fn encode_delta_to_buf_reports_what_it_wrote() {
    let input = vec![1, 2, 44, 54, 433, 534];
    let max_bytes = max_compressedbytes(input.len());
    let mut out_buf = vec![0; max_bytes];
    let bytes_written = encode_delta_to_buf(&input, &mut out_buf, 0);
    assert_eq!(bytes_written.unwrap(), 8);
}

#[test]
fn delta_example_roundtrip() {
    let out_bytes: Vec<u8> = encode_delta(&[1, 2, 44, 64, 71, 534], 0);
    let mut recovered = vec![0; 6];
    let bytes_read = decode_delta(&out_bytes, &mut recovered, 0);
    assert_eq!(out_bytes.len(), bytes_read);
    assert_eq!(&recovered, &[1, 2, 44, 64, 71, 534]);
}

#[test]
fn plain_example_roundtrip() {
    let input = vec![1, 2, 44, 5123, 43, 534];
    let out_buf = encode(&input);
    let mut recovered = vec![0; 6];
    let bytes_read = decode(&out_buf, &mut recovered);
    assert_eq!(bytes_read, out_buf.len());
    assert_eq!(recovered, input);
}

#[test]
fn delta_example_with_initial_one() {
    let input = vec![1, 2, 44, 5123, 43, 534];
    let out_buf = encode_delta(&input, 1);
    let mut recovered = vec![0; 6];
    let bytes_read = decode_delta(&out_buf, &mut recovered, 1);
    assert_eq!(bytes_read, out_buf.len());
    assert_eq!(recovered, input);
}

#[test]
fn empty_input_gives_empty_stream() {
    let out_bytes = encode(&[]);
    assert_eq!(out_bytes.len(), 0);
    let mut nothing: Vec<u32> = Vec::new();
    assert_eq!(decode(&[], &mut nothing), 0);
    assert_eq!(encode_delta(&[], 7).len(), 0);
    assert_eq!(decode_delta(&[], &mut nothing, 7), 0);
    let mut no_room: Vec<u8> = Vec::new();
    assert_eq!(encode_to_buf(&[], &mut no_room), Ok(0));
}

#[test]
fn four_zeros_take_five_bytes() {
    let stream = encode(&[0, 0, 0, 0]);
    assert_eq!(stream, vec![0u8, 0, 0, 0, 0]);
    let mut out = vec![9u32; 4];
    let consumed = decode(&stream, &mut out);
    assert_eq!(out, vec![0, 0, 0, 0]);
    assert_eq!(consumed, 5);
}

#[test]
fn bound_for_six_integers() {
    assert_eq!(max_compressedbytes(6), 2 + 24);
    assert_eq!(max_compressedbytes(6), 26);
}

#[test]
fn bound_for_small_counts() {
    assert_eq!(max_compressedbytes(0), 0);
    assert_eq!(max_compressedbytes(1), 5);
    assert_eq!(max_compressedbytes(3), 13);
    assert_eq!(max_compressedbytes(4), 17);
    assert_eq!(max_compressedbytes(5), 22);
    assert_eq!(max_compressedbytes(10000), 42500);
}

#[test]
fn stream_stays_within_the_bound_without_long_tail_integers() {
    for len in 0..=17usize {
        let small: Vec<u32> = (0..len as u32).collect();
        assert!(encode(&small).len() <= max_compressedbytes(len));
        let four_bytes: Vec<u32> = vec![0xFFF_FFFF; len];
        let tail_control = usize::from(len % 4 != 0);
        assert_eq!(encode(&four_bytes).len(), max_compressedbytes(len) - tail_control);
    }
}

#[test]
fn stream_of_the_greatest_integers() {
    for len in 0..=17usize {
        let wide: Vec<u32> = vec![u32::MAX; len];
        let stream = encode(&wide);
        assert_eq!(stream.len(), 17 * (len / 4) + 5 * (len % 4));
        if len % 4 <= 1 {
            assert_eq!(stream.len(), max_compressedbytes(len));
        } else {
            assert_eq!(stream.len(), max_compressedbytes(len) + len % 4 - 1);
        }
        let mut recovered = vec![0u32; len];
        assert_eq!(decode(&stream, &mut recovered), stream.len());
        assert_eq!(recovered, wide);
    }
}

#[test]
fn long_tail_is_refused_a_buffer_of_the_bound() {
    let input = [u32::MAX, u32::MAX];
    assert_eq!(max_compressedbytes(2), 9);
    let mut out_buf = vec![0x55u8; 9];
    assert_eq!(
        encode_to_buf(&input, &mut out_buf),
        Err(StreamVbyteError::OutbufOverflow(9, 10))
    );
    assert!(out_buf.iter().all(|b| *b == 0x55));
    let mut longer = vec![0x55u8; 10];
    assert_eq!(encode_to_buf(&input, &mut longer), Ok(10));
    assert_eq!(longer, encode(&input));
    let mut shorter = vec![0x55u8; 8];
    assert_eq!(
        encode_to_buf(&input, &mut shorter),
        Err(StreamVbyteError::OutbufOverflow(8, 9))
    );
}

#[test]
fn long_tail_of_three_is_refused_a_buffer_of_the_bound() {
    let input = [1, 2, 3, 4, u32::MAX, u32::MAX, 0x20_0000];
    assert_eq!(max_compressedbytes(7), 30);
    assert_eq!(encode(&input).len(), 1 + 4 + 14);
    let mut out_buf = vec![0u8; 30];
    assert_eq!(encode_to_buf(&input, &mut out_buf), Ok(19));
    let wide = [u32::MAX, u32::MAX, 0x20_0000];
    let mut short = vec![0x55u8; 13];
    assert_eq!(max_compressedbytes(3), 13);
    assert_eq!(
        encode_to_buf(&wide, &mut short),
        Err(StreamVbyteError::OutbufOverflow(13, 14))
    );
    assert_eq!(
        encode_delta_to_buf(&[u32::MAX, u32::MAX - 1, u32::MAX - 2], &mut short, 0),
        Err(StreamVbyteError::OutbufOverflow(13, 15))
    );
    assert!(short.iter().all(|b| *b == 0x55));
    let mut enough = vec![0u8; 15];
    assert_eq!(encode_to_buf(&[u32::MAX, u32::MAX, u32::MAX], &mut enough), Ok(15));
}

#[test]
fn one_narrow_integer_keeps_the_stream_under_the_bound() {
    let mut input: Vec<u32> = vec![u32::MAX; 9];
    input[4] = 0xFF_FFFF;
    assert_eq!(encode(&input).len(), max_compressedbytes(9) - 1);
}

#[test]
fn integers_below_256_take_one_byte_each() {
    let input: Vec<u32> = vec![0, 1, 127, 128, 200, 255, 17, 99];
    let stream = encode(&input);
    assert_eq!(stream.len(), 2 + 8);
    assert_eq!(&stream[..2], &[0u8, 0]);
    assert_eq!(&stream[2..], &[0u8, 1, 127, 128, 200, 255, 17, 99]);
}

#[test]
fn each_width_is_the_least_that_holds_the_integer() {
    let input: Vec<u32> =
        vec![0xFF, 0x100, 0xFFFF, 0x1_0000, 0xFF_FFFF, 0x100_0000, u32::MAX, 0];
    let stream = encode(&input);
    assert_eq!(stream.len(), 2 + 1 + 2 + 2 + 3 + 3 + 4 + 4 + 1);
    assert_eq!(stream[0], 0b10_01_01_00);
    assert_eq!(stream[1], 0b00_11_11_10);
    assert_eq!(
        &stream[2..],
        &[
            0xFF, 0x00, 0x01, 0xFF, 0xFF, 0x00, 0x00, 0x01, 0xFF, 0xFF, 0xFF, 0x00, 0x00, 0x00,
            0x01, 0xFF, 0xFF, 0xFF, 0xFF, 0x00
        ]
    );
}

#[test]
fn buffer_one_byte_short_is_refused() {
    for len in 1..=9usize {
        let input: Vec<u32> = vec![5; len];
        let need = max_compressedbytes(len);
        let mut out_buf = vec![0x55u8; need - 1];
        assert_eq!(
            encode_to_buf(&input, &mut out_buf),
            Err(StreamVbyteError::OutbufOverflow(need - 1, need))
        );
        assert!(out_buf.iter().all(|b| *b == 0x55));
        assert_eq!(
            encode_delta_to_buf(&input, &mut out_buf, 0),
            Err(StreamVbyteError::OutbufOverflow(need - 1, need))
        );
        assert!(out_buf.iter().all(|b| *b == 0x55));
    }
}

#[test]
fn empty_buffer_is_refused_for_one_integer() {
    let mut out_buf: Vec<u8> = Vec::new();
    assert_eq!(
        encode_to_buf(&[1], &mut out_buf),
        Err(StreamVbyteError::OutbufOverflow(0, 5))
    );
}

#[test]
fn buffer_of_exactly_the_bound_is_taken() {
    let input: Vec<u32> = vec![u32::MAX; 5];
    let mut out_buf = vec![0u8; 22];
    assert_eq!(encode_to_buf(&input, &mut out_buf), Ok(22));
    assert_eq!(out_buf[0], 0xFF);
    assert!(out_buf[1..21].iter().all(|b| *b == 0xFF));
    assert_eq!(out_buf[21], 0x0F);
}

#[test]
fn decoder_reads_no_more_than_the_stream() {
    let input: Vec<u32> = vec![7, 70000, 3];
    let mut stream = encode(&input);
    let len = stream.len();
    stream.extend_from_slice(&[0xEE, 0xEE, 0xEE]);
    let mut out = vec![0u32; 3];
    assert_eq!(decode(&stream, &mut out), len);
    assert_eq!(out, input);
}

#[test]
fn stream_bytes_tells_what_a_decoder_reads() {
    let input: Vec<u32> = vec![1, 2, 44, 5123, 43, 534];
    let stream = encode(&input);
    assert_eq!(stream_bytes(&stream, 6), Some(9));
    assert_eq!(stream_bytes(&stream[..8], 6), None);
    assert_eq!(stream_bytes(&stream[..6], 6), None);
    assert_eq!(stream_bytes(&stream[..1], 6), None);
    assert_eq!(stream_bytes(&stream, 0), Some(0));
    assert_eq!(stream_bytes(&stream, 4), Some(6));
    assert_eq!(stream_bytes(&[], 0), Some(0));
    assert_eq!(stream_bytes(&[], 1), None);
    assert_eq!(stream_bytes(&[0xFF], 1), None);
    assert_eq!(stream_bytes(&[0xFF, 1, 2, 3, 4], 1), Some(2));
    assert_eq!(stream_bytes(&[0xFF, 0xFF, 0xFF, 0xFF, 0xFF, 0xFF], 1), Some(5));
    assert_eq!(stream_bytes(&[0xFF, 0xFF, 0xFF, 0xFF], 1), None);
    assert_eq!(stream_bytes(&[0x00, 1, 2, 3, 4], 4), Some(5));
    assert_eq!(stream_bytes(&[0x00, 1, 2, 3], 4), None);
    assert_eq!(stream_bytes(&[0xFF, 1, 2, 3, 4], 4), None);
    assert_eq!(stream_bytes(&[0xFF; 17], 4), Some(17));
}
