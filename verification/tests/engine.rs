//! End-to-end behavior of the paged column writer and reader.

use pagecol::leaf::{LeafArray, PhysicalType};
use pagecol::meta::{Compression, ReadError, WriteError, WriteOptions};
use pagecol::reader::{validate_leaf_count, NativeReader};
use pagecol::writer::NativeWriter;

fn column_source(bytes: &[u8], offset: usize, total: usize) -> Vec<u8> {
    bytes[offset..offset + total].to_vec()
}

fn u64_leaf(lo: u64, hi: u64) -> LeafArray {
    let mut v: Vec<u64> = Vec::new();
    let mut x = lo;
    while x < hi {
        v.push(x.wrapping_mul(0x9e37_79b9_7f4a_7c15).rotate_left(7));
        x += 1;
    }
    LeafArray::UInt64(v)
}

#[test]
fn ten_rows_page_size_four() {
    // A batch of 10 rows, 1 leaf column, max_page_size = 4, no compression:
    // exactly 1 ColumnMeta with 3 pages of num_values [4, 4, 2].
    let options = WriteOptions {
        compression: Compression::Uncompressed,
        max_page_size: Some(4),
    };
    let mut writer = NativeWriter::new(options);
    let leaf = LeafArray::UInt64((0u64..10).collect());
    let chunk = vec![leaf];
    writer.encode_chunk(10, &chunk).unwrap();

    let metas = writer.metas();
    assert_eq!(metas.len(), 1);
    let meta = &metas[0];
    assert_eq!(meta.pages.len(), 3);
    let counts: Vec<u64> = meta.pages.iter().map(|p| p.num_values).collect();
    assert_eq!(counts, vec![4, 4, 2]);

    let total = meta.total_len() as usize;
    let source = column_source(writer.bytes(), meta.offset as usize, total);
    let mut reader = NativeReader::new(
        source,
        PhysicalType::UInt64,
        meta.pages.clone(),
        Compression::Uncompressed,
        Vec::new(),
    );
    let mut lens: Vec<usize> = Vec::new();
    for _ in 0..3 {
        assert!(reader.has_next());
        let fragment = reader.next_array().unwrap();
        lens.push(fragment.len());
    }
    assert_eq!(lens, vec![4, 4, 2]);
    assert!(!reader.has_next());
    assert_eq!(reader.next_array(), Err(ReadError::Exhausted));
}

#[test]
fn two_batches_two_column_metas() {
    // Two write calls for the same single-leaf schema, batch sizes 5 and 3,
    // no page cap: 2 ColumnMeta entries, each with 1 page (num_values 5, 3).
    let options = WriteOptions { compression: Compression::Uncompressed, max_page_size: None };
    let mut writer = NativeWriter::new(options);
    writer.encode_chunk(5, &vec![LeafArray::UInt64(vec![1, 2, 3, 4, 5])]).unwrap();
    writer.encode_chunk(3, &vec![LeafArray::UInt64(vec![6, 7, 8])]).unwrap();

    let metas = writer.metas();
    assert_eq!(metas.len(), 2);
    assert_eq!(metas[0].pages.len(), 1);
    assert_eq!(metas[0].pages[0].num_values, 5);
    assert_eq!(metas[1].pages.len(), 1);
    assert_eq!(metas[1].pages[0].num_values, 3);
    assert_eq!(metas[1].offset, metas[0].offset + metas[0].total_len());
}

#[test]
fn round_trip_two_columns_lockstep() {
    // Writing a batch and reading every column back in lockstep yields the
    // original values.
    let options = WriteOptions { compression: Compression::Uncompressed, max_page_size: Some(3) };
    let mut writer = NativeWriter::new(options);
    let a = LeafArray::UInt32(vec![10, 20, 30, 40, 50, 60, 70]);
    let b = u64_leaf(0, 7);
    let chunk = vec![a.clone(), b.clone()];
    writer.encode_chunk(7, &chunk).unwrap();

    let (bytes, metas) = writer.finish();
    assert_eq!(metas.len(), 2);
    let mut readers: Vec<NativeReader> = Vec::new();
    for (meta, ptype) in metas.iter().zip([PhysicalType::UInt32, PhysicalType::UInt64]) {
        let total = meta.total_len() as usize;
        readers.push(NativeReader::new(
            column_source(&bytes, meta.offset as usize, total),
            ptype,
            meta.pages.clone(),
            Compression::Uncompressed,
            Vec::new(),
        ));
    }

    let mut col_a: Vec<u32> = Vec::new();
    let mut col_b: Vec<u64> = Vec::new();
    while readers[0].has_next() {
        assert!(readers[1].has_next());
        match readers[0].next_array().unwrap() {
            LeafArray::UInt32(vs) => col_a.extend(vs),
            other => panic!("wrong type decoded: {:?}", other),
        }
        match readers[1].next_array().unwrap() {
            LeafArray::UInt64(vs) => col_b.extend(vs),
            other => panic!("wrong type decoded: {:?}", other),
        }
    }
    assert!(!readers[1].has_next());
    assert_eq!(LeafArray::UInt32(col_a), a);
    assert_eq!(LeafArray::UInt64(col_b), b);
}

#[test]
fn round_trip_lz4() {
    // The same round trip with LZ4-compressed page bodies.
    let options = WriteOptions { compression: Compression::Lz4, max_page_size: Some(4) };
    let mut writer = NativeWriter::new(options);
    let leaf = u64_leaf(100, 111);
    writer.encode_chunk(11, &vec![leaf.clone()]).unwrap();

    let (bytes, metas) = writer.finish();
    let meta = &metas[0];
    assert_eq!(meta.pages.len(), 3);
    let total = meta.total_len() as usize;
    let mut reader = NativeReader::new(
        column_source(&bytes, meta.offset as usize, total),
        PhysicalType::UInt64,
        meta.pages.clone(),
        Compression::Lz4,
        Vec::new(),
    );
    let mut got: Vec<u64> = Vec::new();
    while reader.has_next() {
        match reader.next_array().unwrap() {
            LeafArray::UInt64(vs) => got.extend(vs),
            other => panic!("wrong type decoded: {:?}", other),
        }
    }
    assert_eq!(LeafArray::UInt64(got), leaf);
}

#[test]
fn zero_page_size_is_config_error() {
    let mut writer = NativeWriter::new(WriteOptions {
        compression: Compression::Uncompressed,
        max_page_size: Some(0),
    });
    let r = writer.encode_chunk(5, &vec![LeafArray::UInt64(vec![1, 2, 3, 4, 5])]);
    assert_eq!(r, Err(WriteError::Config));
    assert!(writer.metas().is_empty());
}

#[test]
fn empty_batch_is_config_error() {
    // A batch of zero rows makes the effective page size zero.
    let mut writer = NativeWriter::new(WriteOptions {
        compression: Compression::Uncompressed,
        max_page_size: None,
    });
    let r = writer.encode_chunk(0, &vec![LeafArray::UInt64(Vec::new())]);
    assert_eq!(r, Err(WriteError::Config));
}

#[test]
fn empty_leaf_gets_empty_page_list() {
    // A leaf with no values in a non-empty batch: a legal empty column.
    let mut writer = NativeWriter::new(WriteOptions {
        compression: Compression::Uncompressed,
        max_page_size: None,
    });
    writer.encode_chunk(4, &vec![LeafArray::UInt32(Vec::new())]).unwrap();
    let metas = writer.metas();
    assert_eq!(metas.len(), 1);
    assert!(metas[0].pages.is_empty());
    assert_eq!(metas[0].total_len(), 0);

    let mut reader = NativeReader::new(
        Vec::new(),
        PhysicalType::UInt32,
        metas[0].pages.clone(),
        Compression::Uncompressed,
        Vec::new(),
    );
    assert!(!reader.has_next());
    assert_eq!(reader.next_array(), Err(ReadError::Exhausted));
}

#[test]
fn leaf_count_mismatch() {
    assert_eq!(validate_leaf_count(2, 2), Ok(()));
    assert_eq!(validate_leaf_count(2, 3), Err(ReadError::SchemaMismatch));
}

#[test]
fn default_options_write_one_page_per_leaf() {
    let options = WriteOptions::default();
    assert_eq!(options.compression, Compression::Uncompressed);
    assert!(options.max_page_size.is_none());
    let mut writer = NativeWriter::new(options);
    writer.encode_chunk(6, &vec![u64_leaf(0, 6)]).unwrap();
    assert_eq!(writer.metas()[0].pages.len(), 1);
    assert_eq!(writer.metas()[0].pages[0].num_values, 6);
}
