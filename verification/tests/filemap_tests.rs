use rustorrent::filemap::{FileMapper, FileSlice};

fn apply_write(disk: &mut Vec<Vec<u8>>, slices: &[FileSlice], data: &[u8]) {
    let mut off = 0usize;
    for s in slices {
        let n = s.length as usize;
        let start = s.offset as usize;
        disk[s.file_index][start..start + n].copy_from_slice(&data[off..off + n]);
        off += n;
    }
    assert_eq!(off, data.len());
}

fn read_back(disk: &Vec<Vec<u8>>, slices: &[FileSlice]) -> Vec<u8> {
    let mut out = Vec::new();
    for s in slices {
        let start = s.offset as usize;
        out.extend_from_slice(&disk[s.file_index][start..start + s.length as usize]);
    }
    out
}

#[test]
fn test_multi_file_boundary_block() {
    // Two files of length 10000 and 6384; piece length 16384; one whole-piece
    // block must split across the boundary.
    let mapper = FileMapper::new(16384, vec![10000, 6384]);
    assert_eq!(mapper.total_size(), 16384);
    let slices = mapper.map_range(0, 16384);
    assert_eq!(
        slices,
        vec![
            FileSlice { file_index: 0, offset: 0, length: 10000 },
            FileSlice { file_index: 1, offset: 0, length: 6384 },
        ]
    );
}

#[test]
fn test_write_then_read_roundtrip() {
    let mapper = FileMapper::new(16384, vec![10000, 6384]);
    let mut disk = vec![vec![0u8; 10000], vec![0u8; 6384]];
    let data: Vec<u8> = (0..16384u32).map(|i| (i % 251) as u8).collect();
    let slices = mapper.map_range(0, 16384);
    apply_write(&mut disk, &slices, &data);
    assert_eq!(read_back(&disk, &slices), data);
    // The boundary byte went where the mapping says.
    assert_eq!(disk[0][9999], data[9999]);
    assert_eq!(disk[1][0], data[10000]);
}

#[test]
fn test_block_offsets_and_piece_ranges() {
    let mapper = FileMapper::new(16384, vec![40000]);
    assert_eq!(mapper.block_byte_offset(1, 100), 16384 + 100);
    assert_eq!(mapper.piece_range(0), (0, 16384));
    assert_eq!(mapper.piece_range(1), (16384, 16384));
    // The last piece is shorter.
    assert_eq!(mapper.piece_range(2), (32768, 40000 - 32768));
}

#[test]
fn test_map_range_within_one_file() {
    let mapper = FileMapper::new(16384, vec![10000, 6384]);
    let slices = mapper.map_range(10000, 100);
    assert_eq!(
        slices,
        vec![FileSlice { file_index: 1, offset: 0, length: 100 }]
    );
    let slices2 = mapper.map_range(500, 1000);
    assert_eq!(
        slices2,
        vec![FileSlice { file_index: 0, offset: 500, length: 1000 }]
    );
}
