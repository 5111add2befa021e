use pullauta::xyz::{XyzError, XyzInternalReader, XyzInternalWriter, XyzRecord};

fn record(x: f64, y: f64, z: f32) -> XyzRecord {
    XyzRecord {
        x: x.to_bits(),
        y: y.to_bits(),
        z: z.to_bits(),
        classification: 4,
        number_of_returns: 5,
        return_number: 6,
    }
}

#[test]
fn test_xyz_record() {
    let record = XyzRecord {
        x: 1.0f64.to_bits(),
        y: 2.0f64.to_bits(),
        z: 3.0f32.to_bits(),
        classification: 4,
        number_of_returns: 5,
        return_number: 6,
    };

    let buff = record.to_bytes();
    let read_record = XyzRecord::from_bytes(&buff).unwrap();

    assert_eq!(record, read_record);
}

#[test]
fn test_writer_reader_many() {
    let mut writer = XyzInternalWriter::new();

    let record = record(1.0, 2.0, 3.0);

    writer.write_records(&vec![record]);
    writer.write_records(&vec![record]);
    writer.write_records(&vec![record]);

    // now read the records: they come back in one chunk of three, the
    // format records no write boundaries
    let data = writer.finish();
    let mut reader = XyzInternalReader::new(data).unwrap();
    assert_eq!(reader.header().n_records, 3);
    assert_eq!(reader.next_chunk().unwrap().unwrap(), vec![record, record, record]);
    assert_eq!(reader.next_chunk().unwrap(), None);
}

#[test]
fn record_header_accumulation() {
    let mut writer = XyzInternalWriter::new();
    writer.write_records(&vec![record(1.0, 2.0, 3.0), record(-12.0, -3.0, 40.0)]);
    let header = writer.header();
    assert_eq!(header.n_records, 2);
    assert_eq!(header.min_x, (-12.0f64).to_bits());
    assert_eq!(header.max_x, 1.0f64.to_bits());
    assert_eq!(header.min_y, (-3.0f64).to_bits());
    assert_eq!(header.max_y, 2.0f64.to_bits());
    assert_eq!(header.min_z, 3.0f64.to_bits());
    assert_eq!(header.max_z, 40.0f64.to_bits());
}

#[test]
fn record_bytes_are_24_little_endian() {
    let r = record(1.0, 2.0, 3.0);
    let b = r.to_bytes();
    assert_eq!(b.len(), 24);
    assert_eq!(&b[0..8], &1.0f64.to_bits().to_le_bytes());
    assert_eq!(&b[8..16], &2.0f64.to_bits().to_le_bytes());
    assert_eq!(&b[16..20], &3.0f32.to_bits().to_le_bytes());
    assert_eq!(&b[20..24], &[4, 5, 6, 0]);
}

#[test]
fn reader_rejects_bad_magic() {
    let mut writer = XyzInternalWriter::new();
    writer.write_records(&vec![record(1.0, 2.0, 3.0)]);
    let mut data = writer.finish();
    data[0] = b'A';
    match XyzInternalReader::new(data) {
        Err(e) => assert_eq!(e, XyzError::InvalidMagic),
        Ok(_) => panic!("magic should be rejected"),
    }
}

#[test]
fn reader_rejects_truncated_file() {
    // too short even for the header
    match XyzInternalReader::new(vec![b'X', b'Y', b'Z', b'B']) {
        Err(e) => assert_eq!(e, XyzError::UnexpectedEof),
        Ok(_) => panic!("short file should be rejected"),
    }

    // header advertises one record but no cell follows
    let mut writer = XyzInternalWriter::new();
    writer.write_records(&vec![record(1.0, 2.0, 3.0)]);
    let mut data = writer.finish();
    data.truncate(70);
    let mut reader = XyzInternalReader::new(data).unwrap();
    match reader.next_chunk() {
        Err(e) => assert_eq!(e, XyzError::UnexpectedEof),
        Ok(_) => panic!("truncated records should be rejected"),
    }
}

#[test]
fn empty_store_round_trips() {
    let writer = XyzInternalWriter::new();
    let data = writer.finish();
    assert_eq!(data.len(), 60);
    let mut reader = XyzInternalReader::new(data).unwrap();
    assert_eq!(reader.header().n_records, 0);
    assert_eq!(reader.next_chunk().unwrap(), None);
}

#[test]
fn widening_matches_std() {
    for z in [0.0f32, -0.0, 1.5, -3.25, 40.0, f32::MIN_POSITIVE, 1.0e-42] {
        let mut writer = XyzInternalWriter::new();
        writer.write_records(&vec![record(0.0, 0.0, z)]);
        let header = writer.header();
        assert_eq!(header.min_z, (z as f64).to_bits());
        assert_eq!(header.max_z, (z as f64).to_bits());
    }

    // an infinite sample raises the upper bound but cannot lower a
    // bound seeded with the largest finite value
    let mut writer = XyzInternalWriter::new();
    writer.write_records(&vec![record(0.0, 0.0, f32::INFINITY)]);
    assert_eq!(writer.header().max_z, f64::INFINITY.to_bits());
    assert_eq!(writer.header().min_z, f64::MAX.to_bits());
}

#[test]
fn nan_coordinates_never_move_bounds() {
    let mut writer = XyzInternalWriter::new();
    writer.write_records(&vec![record(1.0, 2.0, 3.0), record(f64::NAN, f64::NAN, f32::NAN)]);
    let header = writer.header();
    assert_eq!(header.n_records, 2);
    assert_eq!(header.min_x, 1.0f64.to_bits());
    assert_eq!(header.max_x, 1.0f64.to_bits());
    assert_eq!(header.min_z, 3.0f64.to_bits());
    assert_eq!(header.max_z, 3.0f64.to_bits());
}

#[test]
fn streamed_store_matches_the_whole_file() {
    let records = vec![record(1.0, 2.0, 3.0), record(4.0, 5.0, 6.0), record(-7.0, 8.0, 9.0)];

    let mut whole_writer = XyzInternalWriter::new();
    whole_writer.write_records(&records);
    let whole = whole_writer.finish();

    // stream the same records batch by batch, then patch the header
    // over the placeholder
    let mut writer = XyzInternalWriter::new();
    let mut streamed = XyzInternalWriter::stream_prefix();
    writer.write_records(&records[0..1].to_vec());
    streamed.extend(writer.drain_cells());
    writer.write_records(&records[1..3].to_vec());
    streamed.extend(writer.drain_cells());
    streamed[4..60].copy_from_slice(&writer.header_bytes_now());

    assert_eq!(streamed, whole);
}
