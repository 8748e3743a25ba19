use voxel_chunk::chunk::{Axis, Chunk};

#[test]
fn test_set_get() {
    for z in 0..32 {
        for y in 0..32 {
            for x in 0..32 {
                let mut chunk = Chunk::empty();

                chunk.set(x, y, z, true, 0);
                assert!(chunk.get_occupied(x, y, z));
            }
        }
    }
}

#[test]
fn test_slice() {
    let mut target = vec![u32::MAX; 32];

    target[30] ^= 1 << 30;

    let mut buffer = vec![0u32; 32];

    // X-Axis
    for n in 0..32 {
        let mut chunk = Chunk::empty();

        for y in 0..32 {
            for z in 0..32 {
                chunk.set(n, z, y, true, 0);
            }
        }

        chunk.set(n, 1, 1, false, 0);

        chunk.slice(Axis::X, n, &mut buffer);

        assert_eq!(buffer, target);
    }

    // Y-Axis
    for n in 0..32 {
        let mut chunk = Chunk::empty();

        for x in 0..32 {
            for z in 0..32 {
                chunk.set(x, n, z, true, 0);
            }
        }

        chunk.set(1, n, 1, false, 0);

        chunk.slice(Axis::Y, n, &mut buffer);

        assert_eq!(buffer, target);
    }

    // Z-Axis
    for n in 0..32 {
        let mut chunk = Chunk::empty();

        for y in 0..32 {
            for x in 0..32 {
                chunk.set(x, y, n, true, 0);
            }
        }

        chunk.set(1, 1, n, false, 0);

        chunk.slice(Axis::Z, n, &mut buffer);

        assert_eq!(buffer, target);
    }
}

#[test]
fn test_set_then_get_reads_back() {
    let mut chunk = Chunk::empty();

    chunk.set(4, 9, 23, true, 211);
    assert!(chunk.get_occupied(4, 9, 23));
    assert_eq!(chunk.get_color(4, 9, 23), Some(211));

    chunk.set(0, 0, 0, true, 1);
    assert!(chunk.get_occupied(0, 0, 0));
    assert_eq!(chunk.get_color(0, 0, 0), Some(1));

    chunk.set(31, 31, 31, true, 255);
    assert!(chunk.get_occupied(31, 31, 31));
    assert_eq!(chunk.get_color(31, 31, 31), Some(255));

    // The earlier writes are untouched.
    assert!(chunk.get_occupied(4, 9, 23));
    assert_eq!(chunk.get_color(4, 9, 23), Some(211));
}

#[test]
fn test_clear_keeps_color() {
    let mut chunk = Chunk::empty();

    chunk.set(7, 13, 2, false, 99);
    assert!(!chunk.get_occupied(7, 13, 2));
    assert_eq!(chunk.get_color(7, 13, 2), Some(99));

    chunk.set(7, 13, 2, true, 50);
    chunk.set(7, 13, 2, false, 50);
    assert!(!chunk.get_occupied(7, 13, 2));
    assert_eq!(chunk.get_color(7, 13, 2), Some(50));
}

#[test]
fn test_get_color_unwritten_is_none() {
    let chunk = Chunk::empty();

    assert_eq!(chunk.get_color(0, 0, 0), None);
    assert_eq!(chunk.get_color(31, 0, 15), None);
}

#[test]
fn test_count() {
    let mut chunk = Chunk::empty();
    assert_eq!(chunk.count(), 0);

    // N distinct voxels filled: count is N.
    let coords = [(0, 0, 0), (31, 0, 0), (0, 31, 0), (0, 0, 31), (16, 8, 24)];
    for (i, &(x, y, z)) in coords.iter().enumerate() {
        chunk.set(x, y, z, true, 3);
        assert_eq!(chunk.count(), i + 1);
    }

    // Re-filling an already filled voxel changes nothing.
    chunk.set(0, 0, 0, true, 4);
    assert_eq!(chunk.count(), coords.len());

    // Clearing one brings it back down; clearing an empty one does not.
    chunk.set(0, 0, 0, false, 4);
    assert_eq!(chunk.count(), coords.len() - 1);
    chunk.set(1, 1, 1, false, 4);
    assert_eq!(chunk.count(), coords.len() - 1);
}

#[test]
fn test_slice_direct_copy_pattern() {
    // One voxel only: each axis sees it in exactly one row and bit.
    let mut chunk = Chunk::empty();
    chunk.set(3, 5, 11, true, 1);

    // X section at offset 3: row 31 - y = 26, bit 31 - z = 20.
    let mut buffer = vec![0u32; 32];
    chunk.slice(Axis::X, 3, &mut buffer);
    let mut expected = vec![0u32; 32];
    expected[26] = 1 << 20;
    assert_eq!(buffer, expected);

    // Y section at offset 5: row 31 - z = 20, bit 31 - x = 28.
    chunk.slice(Axis::Y, 5, &mut buffer);
    let mut expected = vec![0u32; 32];
    expected[20] = 1 << 28;
    assert_eq!(buffer, expected);

    // Z section at offset 11: row 31 - y = 26, bit 31 - x = 28.
    chunk.slice(Axis::Z, 11, &mut buffer);
    let mut expected = vec![0u32; 32];
    expected[26] = 1 << 28;
    assert_eq!(buffer, expected);

    // Sections at other offsets are empty.
    chunk.slice(Axis::Z, 12, &mut buffer);
    assert_eq!(buffer, vec![0u32; 32]);
}
