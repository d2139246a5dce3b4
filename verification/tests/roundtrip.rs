use ciso::layout::Error;
use ciso::layout::IndexTableEntry;
use ciso::mem::MemoryFilesystem;
use ciso::mem::MemoryReader;
use ciso::mem::MemorySectorReader;
use ciso::mem::MemoryWriter;
use ciso::read::CSOReader;
use ciso::read::Read;
use ciso::split::SplitFileReader;
use ciso::split::SplitOutput;
use ciso::util;
use ciso::write::write_ciso_image;
use ciso::write::AsyncWriter;
use ciso::write::NullProgress;
use ciso::write::ProgressInfo;
use ciso::write::ProgressListener;

fn xorshift_bytes(mut state: u64, len: usize) -> Vec<u8> {
    let mut out = Vec::with_capacity(len);
    while out.len() < len {
        state ^= state << 13;
        state ^= state >> 7;
        state ^= state << 17;
        for b in state.to_le_bytes().iter() {
            if out.len() < len {
                out.push(*b);
            }
        }
    }
    out
}

fn encode(image: &[u8]) -> Vec<u8> {
    let mut input = MemorySectorReader::new(image.to_vec());
    let mut output = MemoryWriter::new();
    let mut progress = NullProgress::new();
    write_ciso_image(&mut input, &mut output, &mut progress).unwrap();
    output.into_vec()
}

struct CountingProgress {
    sector_count: Option<usize>,
    sectors_finished: usize,
    finished: usize,
}

impl ProgressListener for CountingProgress {
    fn report(&mut self, info: ProgressInfo) {
        match info {
            ProgressInfo::SectorCount(n) => self.sector_count = Some(n),
            ProgressInfo::SectorFinished => self.sectors_finished += 1,
            ProgressInfo::Finished => self.finished += 1,
            _ => {}
        }
    }
}

#[test]
fn encode_decode_identity_full_and_partial() {
    // four sectors: compressible, incompressible, zero, patterned
    let mut image = vec![0x41u8; 2048];
    image.extend(xorshift_bytes(0x123456789ABCDEF, 2048));
    image.extend(vec![0u8; 2048]);
    let mut pattern = Vec::new();
    for i in 0..2048usize {
        pattern.push((i % 251) as u8);
    }
    image.extend(pattern);

    let container = encode(&image);
    let mut reader = CSOReader::new(MemoryReader::new(container)).unwrap();
    assert_eq!(reader.file_size(), image.len() as u64);

    // full read
    let mut full = vec![0u8; image.len()];
    reader.read_offset(0, &mut full).unwrap();
    assert_eq!(full, image);

    // partial reads straddling sector boundaries, in arbitrary order
    for &(a, n) in [(2000usize, 100usize), (0, 1), (2047, 4098), (4096, 2048), (6000, 2192), (1, 2048)].iter() {
        let mut part = vec![0u8; n];
        reader.read_offset(a as u64, &mut part).unwrap();
        assert_eq!(part, &image[a..a + n], "range {}+{}", a, n);
        assert_eq!(&part[..], &full[a..a + n]);
    }
}

#[test]
fn encode_reports_progress() {
    let image = vec![7u8; 3 * 2048];
    let mut input = MemorySectorReader::new(image);
    let mut output = MemoryWriter::new();
    let mut progress = CountingProgress { sector_count: None, sectors_finished: 0, finished: 0 };
    write_ciso_image(&mut input, &mut output, &mut progress).unwrap();
    assert_eq!(progress.sector_count, Some(4));
    assert_eq!(progress.sectors_finished, 4);
    assert_eq!(progress.finished, 1);
}

#[test]
fn compression_policy() {
    // an all-zero sector compresses and is stored with the flag set
    let zeros = vec![0u8; 2048];
    let container = encode(&zeros);
    let entry = IndexTableEntry::unpack(util::deserialize_u32_le(&container[24..28]));
    assert!(entry.compression_type);

    // a random sector does not compress and is stored raw
    let noise = xorshift_bytes(0xCAFEF00DD15EA5E5, 2048);
    let container = encode(&noise);
    let entry = IndexTableEntry::unpack(util::deserialize_u32_le(&container[24..28]));
    assert!(!entry.compression_type);
    // the raw sector bytes are stored verbatim at the recorded offset
    let offset = (entry.position as usize) << 2;
    assert_eq!(&container[offset..offset + 2048], &noise[..]);
}

#[test]
fn stored_offsets_are_aligned() {
    let mut image = xorshift_bytes(1, 2048);
    image.extend(vec![0u8; 2048]);
    image.extend(xorshift_bytes(2, 2048));
    let container = encode(&image);
    let n = image.len() / 2048;
    for i in 0..n + 1 {
        let word = util::deserialize_u32_le(&container[24 + 4 * i..28 + 4 * i]);
        let entry = IndexTableEntry::unpack(word);
        let offset = (entry.position as u64) << 2;
        assert_eq!(offset % 4, 0);
        assert!(offset >= 24 + 4 * (n as u64 + 1));
    }
}

#[test]
fn ten_mebibyte_scenario() {
    let mut pattern = Vec::new();
    for i in 0..2048usize {
        pattern.push((i * 7 % 256) as u8);
    }
    let mut image = Vec::with_capacity(10 * 1024 * 1024);
    while image.len() < 10 * 1024 * 1024 {
        image.extend(&pattern);
    }
    assert_eq!(image.len(), 10_485_760);

    let container = encode(&image);
    let header = ciso::layout::CSOHeader::deserialize::<()>(&container[0..24]).unwrap();
    assert_eq!(header.index_table_len(), 5121);

    let mut reader = CSOReader::new(MemoryReader::new(container)).unwrap();
    assert_eq!(reader.file_size(), 10_485_760);

    let mut chunk = vec![0u8; 2048];
    reader.read_offset(0, &mut chunk).unwrap();
    assert_eq!(chunk, pattern);
    reader.read_offset(10_485_760 - 2048, &mut chunk).unwrap();
    assert_eq!(chunk, pattern);
}

#[test]
fn empty_read_always_succeeds() {
    let image = vec![9u8; 2048];
    let container = encode(&image);
    let mut reader = CSOReader::new(MemoryReader::new(container)).unwrap();
    let mut empty: Vec<u8> = Vec::new();
    assert!(reader.read_offset(100, &mut empty).is_ok());
    assert!(empty.is_empty());
}

#[test]
fn close_releases_in_window_order() {
    let fs = MemoryFilesystem::new();
    let mut out = SplitOutput::new_with_split_point(fs, b"disc.iso".to_vec(), 4);
    out.atomic_write(0, &[1, 2, 3, 4, 5, 6, 7, 8, 9]).unwrap();
    let fs = out.close();
    assert_eq!(fs.names(), &vec![
        b"disc.1.cso".to_vec(),
        b"disc.2.cso".to_vec(),
        b"disc.3.cso".to_vec(),
    ]);
    let parts: Vec<Vec<u8>> = fs.into_closed().into_iter().map(|w| w.into_vec()).collect();
    assert_eq!(parts, vec![vec![1, 2, 3, 4], vec![5, 6, 7, 8], vec![9]]);
}

#[test]
fn open_rejects_zero_magic() {
    let image = vec![3u8; 2048];
    let mut container = encode(&image);
    container[0] = 0;
    container[1] = 0;
    container[2] = 0;
    container[3] = 0;
    match CSOReader::new(MemoryReader::new(container)) {
        Err(Error::InvalidHeader) => {}
        _ => panic!("expected InvalidHeader"),
    }
}

#[test]
fn open_rejects_version_one() {
    let image = vec![3u8; 2048];
    let mut container = encode(&image);
    container[20] = 1;
    match CSOReader::new(MemoryReader::new(container)) {
        Err(Error::UnsupportedVersion) => {}
        _ => panic!("expected UnsupportedVersion"),
    }
}

#[test]
fn open_passes_reader_errors_through() {
    // too short for a header: the source itself rejects the read
    match CSOReader::new(MemoryReader::new(vec![1, 2, 3])) {
        Err(Error::Other(())) => {}
        _ => panic!("expected Other"),
    }
}

#[test]
fn read_offset_rejects_backwards_table() {
    let image = vec![3u8; 2048];
    let mut container = encode(&image);
    // swap the two index entries so the lengths go negative
    let w0 = util::deserialize_u32_le(&container[24..28]);
    let w1 = util::deserialize_u32_le(&container[28..32]);
    let mut swapped = vec![0u8; 8];
    util::serialize_u32_le(w1, &mut swapped);
    let mut second = vec![0u8; 4];
    util::serialize_u32_le(w0, &mut second);
    swapped[4..8].copy_from_slice(&second);
    container[24..32].copy_from_slice(&swapped);
    let mut reader = CSOReader::new(MemoryReader::new(container)).unwrap();
    let mut buf = vec![0u8; 2048];
    match reader.read_offset(0, &mut buf) {
        Err(Error::CorruptBlock) => {}
        _ => panic!("expected CorruptBlock"),
    }
}

#[test]
fn split_write_read_symmetry() {
    // lengths with and without a remainder, window size 1000
    for &len in [3000usize, 2500, 1000, 999, 1].iter() {
        let data = xorshift_bytes(len as u64 + 17, len);
        let fs = MemoryFilesystem::new();
        let mut out = SplitOutput::new_with_split_point(fs, b"image.iso".to_vec(), 1000);
        out.atomic_write(0, &data).unwrap();
        let fs = out.close();
        let parts = fs.into_closed();
        let expected_parts = (len + 999) / 1000;
        assert_eq!(parts.len(), expected_parts);
        let mut readers = Vec::new();
        for part in parts {
            let bytes = part.into_vec();
            assert!(bytes.len() <= 1000);
            readers.push(MemoryReader::new(bytes));
        }
        let mut split_reader = SplitFileReader::new(readers).unwrap();
        assert_eq!(split_reader.size().unwrap(), len as u64);
        let mut back = vec![0u8; len];
        split_reader.read(0, &mut back).unwrap();
        assert_eq!(back, data);
        // a read past the extent fails
        let mut beyond = vec![0u8; 2];
        assert!(split_reader.read(len as u64 - 1, &mut beyond).is_err());
    }
}

#[test]
fn split_writer_names_parts() {
    let fs = MemoryFilesystem::new();
    let mut out = SplitOutput::new_with_split_point(fs, b"game".to_vec(), 10);
    out.atomic_write(0, &[9u8; 25]).unwrap();
    let names: Vec<Vec<u8>> = out.close().names().clone();
    assert_eq!(names, vec![b"game.1.cso".to_vec(), b"game.2.cso".to_vec(), b"game.3.cso".to_vec()]);
}

#[test]
fn split_writer_overwrite_and_gap() {
    let fs = MemoryFilesystem::new();
    let mut out = SplitOutput::new_with_split_point(fs, b"x".to_vec(), 8);
    out.atomic_write(0, &[1u8; 20]).unwrap();
    // overwrite in the middle, crossing a window boundary
    out.atomic_write(6, &[2u8; 4]).unwrap();
    let parts: Vec<Vec<u8>> =
        out.close().into_closed().into_iter().map(|w| w.into_vec()).collect();
    assert_eq!(parts.len(), 3);
    let flat: Vec<u8> = parts.concat();
    let mut expected = vec![1u8; 20];
    expected[6] = 2;
    expected[7] = 2;
    expected[8] = 2;
    expected[9] = 2;
    assert_eq!(flat, expected);
}

#[test]
fn split_encode_decode_through_parts() {
    // encode through the split writer, read back through the split reader
    let mut image = vec![0x5Au8; 2048];
    image.extend(xorshift_bytes(77, 2048));
    let mut input = MemorySectorReader::new(image.clone());
    let fs = MemoryFilesystem::new();
    let mut output = SplitOutput::new_with_split_point(fs, b"disc".to_vec(), 1500);
    let mut progress = NullProgress::new();
    write_ciso_image(&mut input, &mut output, &mut progress).unwrap();
    let parts = output.close().into_closed();
    let mut readers = Vec::new();
    for part in parts {
        readers.push(MemoryReader::new(part.into_vec()));
    }
    let split_reader = SplitFileReader::new(readers).unwrap();
    let mut reader = CSOReader::new(split_reader).unwrap();
    assert_eq!(reader.file_size(), image.len() as u64);
    let mut back = vec![0u8; image.len()];
    reader.read_offset(0, &mut back).unwrap();
    assert_eq!(back, image);
}

#[test]
fn split_name_decimal() {
    // the extension is replaced by the 1-based part number and `cso`
    let fs = MemoryFilesystem::new();
    let out: SplitOutput<MemoryWriter, MemoryFilesystem> =
        SplitOutput::new(fs, b"image.iso".to_vec());
    assert_eq!(out.split_name(0), b"image.1.cso".to_vec());
    assert_eq!(out.split_name(11), b"image.12.cso".to_vec());
    assert_eq!(out.split_name(12344), b"image.12345.cso".to_vec());
    // a name without an extension gets the suffix appended
    let fs = MemoryFilesystem::new();
    let out: SplitOutput<MemoryWriter, MemoryFilesystem> = SplitOutput::new(fs, b"game".to_vec());
    assert_eq!(out.split_name(0), b"game.1.cso".to_vec());
    // only the last extension is replaced
    let fs = MemoryFilesystem::new();
    let out: SplitOutput<MemoryWriter, MemoryFilesystem> =
        SplitOutput::new(fs, b"a.b.iso".to_vec());
    assert_eq!(out.split_name(0), b"a.b.1.cso".to_vec());
}
