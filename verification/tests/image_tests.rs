use picorom::image::{ImageError, Uf2File};

const MAGIC_START0: u32 = 0x0A324655;
const MAGIC_START1: u32 = 0x9E5D5157;
const MAGIC_END: u32 = 0x0AB16F30;
const FAMILY_FLAG: u32 = 0x00002000;
const RP2040_FAMILY: u32 = 0xE48BFF56;

fn put_word(block: &mut [u8], off: usize, v: u32) {
    block[off..off + 4].copy_from_slice(&v.to_le_bytes());
}

fn make_block(
    addr: u32,
    payload: &[u8],
    block_no: u32,
    num_blocks: u32,
    flags: u32,
    family: u32,
) -> Vec<u8> {
    let mut block = vec![0u8; 512];
    put_word(&mut block, 0, MAGIC_START0);
    put_word(&mut block, 4, MAGIC_START1);
    put_word(&mut block, 8, flags);
    put_word(&mut block, 12, addr);
    put_word(&mut block, 16, payload.len() as u32);
    put_word(&mut block, 20, block_no);
    put_word(&mut block, 24, num_blocks);
    put_word(&mut block, 28, family);
    block[32..32 + payload.len()].copy_from_slice(payload);
    put_word(&mut block, 508, MAGIC_END);
    block
}

fn two_block_file() -> Vec<u8> {
    let mut data = make_block(
        0x1000_0000,
        &[1, 2, 3, 4],
        0,
        2,
        FAMILY_FLAG,
        RP2040_FAMILY,
    );
    data.extend(make_block(
        0x1000_0100,
        &[5, 6],
        1,
        2,
        FAMILY_FLAG,
        RP2040_FAMILY,
    ));
    data
}

#[test]
fn parse_two_valid_blocks() {
    let f = Uf2File::parse_bytes(&two_block_file()).unwrap();
    assert_eq!(f.block_count, 2);
    assert_eq!(f.family_id, Some(RP2040_FAMILY));
    assert_eq!(f.blocks.len(), 2);
    assert_eq!(f.blocks[0].0, 0x1000_0000);
    assert_eq!(f.blocks[0].1, vec![1, 2, 3, 4]);
    assert_eq!(f.blocks[1].0, 0x1000_0100);
    assert_eq!(f.blocks[1].1, vec![5, 6]);
    assert_eq!(f.total_bytes(), 6);
    assert_eq!(f.address_range(), Some((0x1000_0000, 0x1000_0102)));
}

#[test]
fn bad_leading_magic_rejects_whole_file() {
    // Corrupt the second leading magic word of the *last* block: the
    // whole parse fails, wherever the bad block sits.
    let mut data = two_block_file();
    put_word(&mut data[512..1024], 4, 0xDEAD_BEEF);
    assert_eq!(Uf2File::parse_bytes(&data).unwrap_err(), ImageError::BadMagic);
}

#[test]
fn bad_trailing_magic_rejects_whole_file() {
    let mut data = two_block_file();
    put_word(&mut data[0..512], 508, 0);
    assert_eq!(Uf2File::parse_bytes(&data).unwrap_err(), ImageError::BadMagic);
}

#[test]
fn block_count_disagreement_rejected() {
    // Block 1 claims 3 total blocks while block 0 claimed 2.
    let mut data = make_block(0x1000_0000, &[1], 0, 2, 0, 0);
    data.extend(make_block(0x1000_0100, &[2], 1, 3, 0, 0));
    assert_eq!(
        Uf2File::parse_bytes(&data).unwrap_err(),
        ImageError::BlockCountMismatch
    );
}

#[test]
fn wrong_family_rejected() {
    let data = make_block(0x1000_0000, &[1], 0, 1, FAMILY_FLAG, 0x1234_5678);
    assert_eq!(Uf2File::parse_bytes(&data).unwrap_err(), ImageError::BadFamily);
}

#[test]
fn wrong_block_number_rejected() {
    let data = make_block(0x1000_0000, &[1], 5, 1, 0, 0);
    assert_eq!(
        Uf2File::parse_bytes(&data).unwrap_err(),
        ImageError::BadBlockNumber
    );
}

#[test]
fn oversized_payload_field_rejected() {
    let mut data = make_block(0x1000_0000, &[1], 0, 1, 0, 0);
    put_word(&mut data, 16, 477);
    assert_eq!(
        Uf2File::parse_bytes(&data).unwrap_err(),
        ImageError::PayloadTooBig
    );
}

#[test]
fn partial_block_rejected() {
    let data = vec![0u8; 700];
    assert_eq!(
        Uf2File::parse_bytes(&data).unwrap_err(),
        ImageError::NotBlockMultiple
    );
    assert_eq!(Uf2File::parse_bytes(&[]).unwrap_err(), ImageError::Empty);
}

#[test]
fn duplicate_address_keeps_last_block() {
    let mut data = make_block(0x1000_0000, &[1, 1], 0, 2, 0, 0);
    data.extend(make_block(0x1000_0000, &[9, 9], 1, 2, 0, 0));
    let f = Uf2File::parse_bytes(&data).unwrap();
    assert_eq!(f.blocks.len(), 1);
    assert_eq!(f.blocks[0].1, vec![9, 9]);
}

#[test]
fn raw_binary_splits_into_pages() {
    let data = vec![7u8; 600];
    let f = Uf2File::parse_bin_bytes(&data).unwrap();
    assert_eq!(f.blocks.len(), 3);
    assert_eq!(f.blocks[0].0, 0x1000_0000);
    assert_eq!(f.blocks[0].1.len(), 256);
    assert_eq!(f.blocks[1].0, 0x1000_0100);
    assert_eq!(f.blocks[2].0, 0x1000_0200);
    assert_eq!(f.blocks[2].1.len(), 88);
    assert_eq!(f.block_count, 3);
    assert_eq!(f.family_id, Some(RP2040_FAMILY));
    assert_eq!(f.total_bytes(), 600);
}

#[test]
fn raw_binary_empty_rejected() {
    assert_eq!(Uf2File::parse_bin_bytes(&[]).unwrap_err(), ImageError::Empty);
}

#[test]
fn empty_image_has_no_range() {
    let f = Uf2File { blocks: vec![], block_count: 0, family_id: None };
    assert_eq!(f.address_range(), None);
    assert_eq!(f.total_bytes(), 0);
}
