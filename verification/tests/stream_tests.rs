use omegaflow::stream::{frame_stream, split_stream, words_to_le_bytes, HEADER_BYTES};

#[test]
fn words_are_written_little_endian() {
    let bytes = words_to_le_bytes(&[0x0403_0201, 0xdead_beef]);
    assert_eq!(bytes, vec![1, 2, 3, 4, 0xef, 0xbe, 0xad, 0xde]);
}

#[test]
fn float_bits_match_to_le_bytes() {
    let values = [1.5f32, -0.25, 6.674e-11, 0.0];
    let words: Vec<u32> = values.iter().map(|f| f.to_bits()).collect();
    let expected: Vec<u8> = values.iter().flat_map(|f| f.to_le_bytes()).collect();
    assert_eq!(words_to_le_bytes(&words), expected);
}

#[test]
fn empty_word_list_gives_no_bytes() {
    assert!(words_to_le_bytes(&[]).is_empty());
}

#[test]
fn frame_puts_lengths_then_sections() {
    let out = frame_stream(&[9, 8], &[], &[7], &[6, 5, 4]);
    assert_eq!(
        out,
        vec![2, 0, 0, 0, 0, 0, 0, 0, 1, 0, 0, 0, 3, 0, 0, 0, 9, 8, 7, 6, 5, 4]
    );
}

#[test]
fn frame_of_empty_sections_is_a_zero_header() {
    let out = frame_stream(&[], &[], &[], &[]);
    assert_eq!(out, vec![0u8; HEADER_BYTES]);
}

#[test]
fn split_gives_back_framed_sections() {
    let mass: Vec<u8> = (0..32).collect();
    let wmm: Vec<u8> = (100..120).collect();
    let terrain: Vec<u8> = vec![1, 2, 3];
    let geoid: Vec<u8> = vec![255; 300];
    let out = frame_stream(&mass, &wmm, &terrain, &geoid);
    let sec = split_stream(&out).expect("a framed stream splits");
    assert_eq!(sec.mass, mass);
    assert_eq!(sec.wmm, wmm);
    assert_eq!(sec.terrain, terrain);
    assert_eq!(sec.geoid, geoid);
}

#[test]
fn split_refuses_a_short_header() {
    assert!(split_stream(&[0u8; 15]).is_none());
    assert!(split_stream(&[]).is_none());
}

#[test]
fn split_refuses_a_section_past_the_end() {
    let mut out = frame_stream(&[1, 2, 3], &[], &[], &[]);
    out.pop();
    assert!(split_stream(&out).is_none());
}

#[test]
fn split_ignores_trailing_bytes() {
    let mut out = frame_stream(&[1], &[2], &[3], &[4]);
    out.push(99);
    let sec = split_stream(&out).unwrap();
    assert_eq!(sec.mass, vec![1]);
    assert_eq!(sec.geoid, vec![4]);
}

#[test]
fn split_refuses_huge_announced_lengths() {
    let mut out = vec![0xffu8; 16];
    out.extend_from_slice(&[0; 8]);
    assert!(split_stream(&out).is_none());
}
