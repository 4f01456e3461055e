use picorom::image::Uf2File;

fn image(entries: Vec<(u32, Vec<u8>)>) -> Uf2File {
    let count = entries.len() as u32;
    Uf2File { blocks: entries, block_count: count, family_id: None }
}

#[test]
fn erase_plan_merges_touched_sectors() {
    // A payload at 0x1000..=0x1CFF sits inside one 0x1000-byte sector:
    // exactly that sector is erased, no adjacent unused one.
    let f = image(vec![(0x1000, vec![0u8; 0xD00])]);
    assert_eq!(f.sectors_to_erase(4096), vec![(0x1000, 0x1000)]);
    // A payload running past the sector boundary, 0x1000..=0x2CFF,
    // touches two sectors, merged into one region.
    let g = image(vec![(0x1000, vec![0u8; 0x1D00])]);
    assert_eq!(g.sectors_to_erase(4096), vec![(0x1000, 0x2000)]);
}

#[test]
fn erase_plan_keeps_gaps_apart() {
    let f = image(vec![(0x1000, vec![0u8; 16]), (0x5000, vec![0u8; 16])]);
    assert_eq!(f.sectors_to_erase(4096), vec![(0x1000, 0x1000), (0x5000, 0x1000)]);
}

#[test]
fn erase_plan_merges_adjacent_blocks() {
    // Two blocks in consecutive sectors merge into one region.
    let f = image(vec![(0x1000, vec![0u8; 16]), (0x2000, vec![0u8; 16])]);
    assert_eq!(f.sectors_to_erase(4096), vec![(0x1000, 0x2000)]);
}

#[test]
fn erase_plan_unaligned_block_spans_two_sectors() {
    // A block straddling a sector boundary touches both sectors.
    let f = image(vec![(0x1F00, vec![0u8; 0x200])]);
    assert_eq!(f.sectors_to_erase(4096), vec![(0x1000, 0x2000)]);
}

#[test]
fn erase_plan_empty_image() {
    let f = image(vec![]);
    assert_eq!(f.sectors_to_erase(4096), vec![]);
    let g = image(vec![(0x1000, vec![])]);
    assert_eq!(g.sectors_to_erase(4096), vec![]);
}

#[test]
fn erase_plan_same_sector_once() {
    // Several blocks inside one sector erase it exactly once.
    let f = image(vec![
        (0x1000, vec![0u8; 4]),
        (0x1100, vec![0u8; 4]),
        (0x1F00, vec![0u8; 4]),
    ]);
    assert_eq!(f.sectors_to_erase(4096), vec![(0x1000, 0x1000)]);
}
