use uf2conv::block::{decode, DecodeError, MAGIC_END, MAGIC_START_0, MAGIC_START_1};

fn put_le(buf: &mut [u8], off: usize, v: u32) {
    buf[off] = (v & 0xFF) as u8;
    buf[off + 1] = ((v >> 8) & 0xFF) as u8;
    buf[off + 2] = ((v >> 16) & 0xFF) as u8;
    buf[off + 3] = ((v >> 24) & 0xFF) as u8;
}

fn make_block(flags: u32, target: u32, data_len: u32, index: u32, total: u32) -> Vec<u8> {
    let mut b = vec![0u8; 512];
    put_le(&mut b, 0, MAGIC_START_0);
    put_le(&mut b, 4, MAGIC_START_1);
    put_le(&mut b, 8, flags);
    put_le(&mut b, 12, target);
    put_le(&mut b, 16, data_len);
    put_le(&mut b, 20, index);
    put_le(&mut b, 24, total);
    put_le(&mut b, 508, MAGIC_END);
    b
}

#[test]
fn decode_valid_block_fields() {
    let mut b = make_block(0x2000, 0x0800_0000, 256, 3, 8);
    for i in 0..256 {
        b[32 + i] = (i % 251) as u8;
    }
    let blk = decode(&b).unwrap();
    assert_eq!(blk.flags, 0x2000);
    assert_eq!(blk.target_addr, 0x0800_0000);
    assert_eq!(blk.data_len, 256);
    assert_eq!(blk.block_index, 3);
    assert_eq!(blk.total_blocks, 8);
    assert_eq!(blk.payload.len(), 476);
    for i in 0..256 {
        assert_eq!(blk.payload[i], (i % 251) as u8);
    }
}

#[test]
fn decode_is_idempotent() {
    let mut b = make_block(0, 0x1000, 16, 0, 1);
    for i in 0..16 {
        b[32 + i] = 0xA0 + i as u8;
    }
    let first = decode(&b).unwrap();
    let second = decode(&b).unwrap();
    assert_eq!(first.flags, second.flags);
    assert_eq!(first.target_addr, second.target_addr);
    assert_eq!(first.data_len, second.data_len);
    assert_eq!(first.block_index, second.block_index);
    assert_eq!(first.total_blocks, second.total_blocks);
    assert_eq!(first.payload, second.payload);
}

#[test]
fn decode_rejects_flipped_end_tag_byte() {
    let mut b = make_block(0, 0x1000, 16, 0, 1);
    b[508] ^= 0x01;
    assert!(matches!(decode(&b), Err(DecodeError::InvalidMagic)));
}

#[test]
fn decode_rejects_bad_first_tag() {
    let mut b = make_block(0, 0x1000, 16, 0, 1);
    b[0] = 0x00;
    assert!(matches!(decode(&b), Err(DecodeError::InvalidMagic)));
}

#[test]
fn decode_rejects_bad_second_tag() {
    let mut b = make_block(0, 0x1000, 16, 0, 1);
    b[7] ^= 0xFF;
    assert!(matches!(decode(&b), Err(DecodeError::InvalidMagic)));
}

#[test]
fn decode_rejects_oversized_payload_length() {
    let b = make_block(0, 0x1000, 477, 0, 1);
    assert!(matches!(decode(&b), Err(DecodeError::PayloadTooLarge)));
}

#[test]
fn decode_accepts_payload_at_capacity() {
    let b = make_block(0, 0x1000, 476, 0, 1);
    assert!(decode(&b).is_ok());
}

#[test]
fn decode_magic_checked_before_payload_length() {
    let mut b = make_block(0, 0x1000, 477, 0, 1);
    b[508] ^= 0x01;
    assert!(matches!(decode(&b), Err(DecodeError::InvalidMagic)));
}

#[test]
fn decode_agrees_with_uftwo() {
    let mut b = make_block(0x2000, 0x0800_1000, 64, 2, 5);
    for i in 0..64 {
        b[32 + i] = (0x30 + i) as u8;
    }
    let ours = decode(&b).unwrap();
    let theirs = uftwo::Block::from_bytes(&b).unwrap();
    assert_eq!(ours.target_addr, theirs.target_addr);
    assert_eq!(ours.data_len, theirs.data_len);
    assert_eq!(ours.block_index, theirs.block);
    assert_eq!(ours.total_blocks, theirs.total_blocks);
    assert_eq!(&ours.payload[..], &theirs.data[..]);
}
