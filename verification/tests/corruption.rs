//! Corruption must surface as a decode error, never as silently wrong data.

use pagecol::leaf::{LeafArray, PhysicalType};
use pagecol::meta::{Compression, PageMeta, ReadError, WriteOptions};
use pagecol::reader::NativeReader;
use pagecol::writer::NativeWriter;

fn write_one_column(compression: Compression) -> (Vec<u8>, u64, Vec<PageMeta>) {
    let mut writer = NativeWriter::new(WriteOptions { compression, max_page_size: Some(4) });
    let leaf = LeafArray::UInt64((0u64..10).map(|x| x * 3 + 1).collect());
    writer.encode_chunk(10, &vec![leaf]).unwrap();
    let (bytes, metas) = writer.finish();
    let meta = metas.into_iter().next().unwrap();
    (bytes, meta.offset, meta.pages)
}

#[test]
fn truncated_by_one_byte_fails_on_last_page() {
    for compression in [Compression::Uncompressed, Compression::Lz4] {
        let (bytes, offset, pages) = write_one_column(compression);
        let total: u64 = pages.iter().map(|p| p.length).sum();
        let start = offset as usize;
        let truncated = bytes[start..start + total as usize - 1].to_vec();
        let mut reader = NativeReader::new(
            truncated,
            PhysicalType::UInt64,
            pages.clone(),
            compression,
            Vec::new(),
        );
        for _ in 0..pages.len() - 1 {
            reader.next_array().unwrap();
        }
        assert!(reader.has_next());
        assert_eq!(reader.next_array(), Err(ReadError::Decode));
    }
}

#[test]
fn wrong_num_values_fails() {
    let (bytes, offset, mut pages) = write_one_column(Compression::Uncompressed);
    let total: u64 = pages.iter().map(|p| p.length).sum();
    pages[1].num_values += 1;
    let start = offset as usize;
    let source = bytes[start..start + total as usize].to_vec();
    let mut reader = NativeReader::new(
        source,
        PhysicalType::UInt64,
        pages,
        Compression::Uncompressed,
        Vec::new(),
    );
    reader.next_array().unwrap();
    assert_eq!(reader.next_array(), Err(ReadError::Decode));
}

#[test]
fn wrong_physical_type_fails() {
    // A u64 page body of 4 values is 32 bytes; read as u32 it would hold 8
    // values, which disagrees with the recorded count.
    let (bytes, offset, pages) = write_one_column(Compression::Uncompressed);
    let total: u64 = pages.iter().map(|p| p.length).sum();
    let start = offset as usize;
    let source = bytes[start..start + total as usize].to_vec();
    let mut reader = NativeReader::new(
        source,
        PhysicalType::UInt32,
        pages,
        Compression::Uncompressed,
        Vec::new(),
    );
    assert_eq!(reader.next_array(), Err(ReadError::Decode));
}

#[test]
fn garbled_lz4_body_fails() {
    let (mut bytes, offset, pages) = write_one_column(Compression::Lz4);
    // Flip bytes in the middle of the first page's body.
    let start = offset as usize;
    for k in 5..pages[0].length as usize {
        bytes[start + k] ^= 0xa5;
    }
    let total: u64 = pages.iter().map(|p| p.length).sum();
    let source = bytes[start..start + total as usize].to_vec();
    let mut reader = NativeReader::new(
        source,
        PhysicalType::UInt64,
        pages,
        Compression::Lz4,
        Vec::new(),
    );
    let r = reader.next_array();
    match r {
        Err(ReadError::Decode) => {},
        Ok(LeafArray::UInt64(vs)) => {
            // If the garbled body still decompresses, it must not silently
            // equal the original values.
            assert_ne!(vs, (0u64..4).map(|x| x * 3 + 1).collect::<Vec<u64>>());
        },
        other => panic!("unexpected result: {:?}", other),
    }
}
