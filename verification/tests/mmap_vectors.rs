use segment::mmap_vectors::MmapVectors;
use segment::types::OperationError;

fn floats(vector: &[f32]) -> Vec<u32> {
    vector.iter().map(|x| x.to_bits()).collect()
}

fn image(vectors: &[&[f32]]) -> Vec<u8> {
    let mut bytes = Vec::new();
    for vector in vectors {
        for x in vector.iter() {
            bytes.extend_from_slice(&x.to_le_bytes());
        }
    }
    bytes
}

#[test]
fn open_takes_empty_images() {
    let table = MmapVectors::open(Vec::new(), Vec::new(), 4).unwrap();
    assert_eq!(table.dim(), 4);
    assert_eq!(table.num_vectors(), 0);
    assert_eq!(table.deleted_count(), 0);
    assert_eq!(table.raw_vector(0), None);
    assert_eq!(table.deleted(0), None);
}

#[test]
fn open_reads_records_and_flags() {
    let vectors = image(&[&[1.0, 2.0], &[3.0, 4.0], &[5.0, 6.0]]);
    let table = MmapVectors::open(vectors, vec![0, 1, 0], 2).unwrap();
    assert_eq!(table.num_vectors(), 3);
    assert_eq!(table.deleted_count(), 1);
    assert_eq!(table.raw_vector(0), Some(floats(&[1.0, 2.0])));
    assert_eq!(table.raw_vector(1), Some(floats(&[3.0, 4.0])));
    assert_eq!(table.raw_vector(2), Some(floats(&[5.0, 6.0])));
    assert_eq!(table.raw_vector(3), None);
    assert_eq!(table.deleted(0), Some(false));
    assert_eq!(table.deleted(1), Some(true));
    assert_eq!(table.deleted(3), None);
}

#[test]
fn open_takes_any_nonzero_flag_as_deleted() {
    let vectors = image(&[&[1.0], &[2.0], &[3.0], &[4.0]]);
    let table = MmapVectors::open(vectors, vec![7, 0, 255, 1], 1).unwrap();
    assert_eq!(table.deleted_count(), 3);
    assert_eq!(table.deleted(0), Some(true));
    assert_eq!(table.deleted(1), Some(false));
    assert_eq!(table.deleted(2), Some(true));
}

#[test]
fn open_refuses_a_broken_record() {
    let mut vectors = image(&[&[1.0, 2.0]]);
    vectors.push(0);
    let r = MmapVectors::open(vectors, vec![0], 2);
    assert_eq!(r.err(), Some(OperationError::Corruption));
}

#[test]
fn open_refuses_flags_that_do_not_match_the_records() {
    let vectors = image(&[&[1.0, 2.0], &[3.0, 4.0]]);
    assert_eq!(
        MmapVectors::open(vectors.clone(), vec![0], 2).err(),
        Some(OperationError::Corruption)
    );
    assert_eq!(
        MmapVectors::open(vectors.clone(), vec![0, 0, 0], 2).err(),
        Some(OperationError::Corruption)
    );
    assert_eq!(
        MmapVectors::open(Vec::new(), vec![0], 2).err(),
        Some(OperationError::Corruption)
    );
    assert!(MmapVectors::open(vectors, vec![0, 0], 2).is_ok());
}

#[test]
fn open_refuses_a_dimension_that_is_none() {
    assert_eq!(
        MmapVectors::open(Vec::new(), Vec::new(), 0).err(),
        Some(OperationError::DimensionMismatch)
    );
    assert_eq!(
        MmapVectors::open(Vec::new(), Vec::new(), usize::MAX).err(),
        Some(OperationError::DimensionMismatch)
    );
}

#[test]
fn push_vector_grows_both_images_in_step() {
    let mut table = MmapVectors::open(Vec::new(), Vec::new(), 2).unwrap();
    assert_eq!(table.push_vector(&floats(&[1.0, -1.0])), 0);
    assert_eq!(table.push_vector(&floats(&[0.5, 0.25])), 1);
    assert_eq!(table.vectors_image(), &image(&[&[1.0, -1.0], &[0.5, 0.25]]));
    assert_eq!(table.deleted_image(), &vec![0u8, 0]);
    assert_eq!(table.num_vectors(), 2);
    assert_eq!(table.raw_vector(1), Some(floats(&[0.5, 0.25])));
}

#[test]
fn delete_sets_the_flag_and_keeps_the_vector() {
    let vectors = image(&[&[1.0], &[2.0]]);
    let mut table = MmapVectors::open(vectors.clone(), vec![0, 0], 1).unwrap();
    assert_eq!(table.delete(1), Ok(()));
    assert_eq!(table.deleted_image(), &vec![0u8, 1]);
    assert_eq!(table.vectors_image(), &vectors);
    assert_eq!(table.deleted_count(), 1);
    assert_eq!(table.deleted(1), Some(true));
    assert_eq!(table.raw_vector(1), Some(floats(&[2.0])));
}

#[test]
fn delete_twice_is_delete_once() {
    let mut table = MmapVectors::open(image(&[&[1.0], &[2.0]]), vec![0, 0], 1).unwrap();
    assert_eq!(table.delete(0), Ok(()));
    let flags = table.deleted_image().clone();
    assert_eq!(table.delete(0), Ok(()));
    assert_eq!(table.deleted_image(), &flags);
    assert_eq!(table.deleted_count(), 1);
}

#[test]
fn delete_leaves_a_foreign_flag_as_it_is() {
    let mut table = MmapVectors::open(image(&[&[1.0]]), vec![9], 1).unwrap();
    assert_eq!(table.delete(0), Ok(()));
    assert_eq!(table.deleted_image(), &vec![9u8]);
    assert_eq!(table.deleted_count(), 1);
}

#[test]
fn delete_beyond_the_last_slot_is_out_of_range() {
    let mut table = MmapVectors::open(image(&[&[1.0]]), vec![0], 1).unwrap();
    assert_eq!(table.delete(1), Err(OperationError::OutOfRange));
    assert_eq!(table.delete(usize::MAX), Err(OperationError::OutOfRange));
    assert_eq!(table.deleted_count(), 0);
    assert_eq!(table.deleted_image(), &vec![0u8]);
}

#[test]
fn room_is_counted_in_records() {
    let table = MmapVectors::open(Vec::new(), Vec::new(), 4).unwrap();
    assert!(table.has_room_for(0));
    assert!(table.has_room_for(1000));
    assert!(table.has_room_for(usize::MAX / 16));
    assert!(!table.has_room_for(usize::MAX / 16 + 1));
    assert!(!table.has_room_for(usize::MAX));
}
