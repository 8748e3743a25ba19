use voxel_chunk::chunk::{Chunk, Direction};
use voxel_chunk::quad::Quad;

fn sorted(mut quads: Vec<Quad>) -> Vec<Quad> {
    quads.sort();
    quads
}

fn count_direction(quads: &[Quad], direction: Direction) -> usize {
    quads.iter().filter(|q| q.direction == direction).count()
}

#[test]
fn test_remesh_empty_appends_nothing() {
    let mut chunk = Chunk::empty();
    let mut out: Vec<Quad> = Vec::new();

    chunk.remesh(&mut out);
    assert!(out.is_empty());
}

#[test]
fn test_remesh_single_voxel() {
    let mut chunk = Chunk::empty();
    chunk.set(0, 0, 0, true, 77);

    let mut out: Vec<Quad> = Vec::new();
    chunk.remesh(&mut out);

    // One quad per direction, all at (0, 0, 0), all with the stored color.
    assert_eq!(out.len(), 6);
    for direction in [
        Direction::Up,
        Direction::Down,
        Direction::Left,
        Direction::Right,
        Direction::Front,
        Direction::Back,
    ] {
        assert_eq!(count_direction(&out, direction), 1);
    }
    for q in &out {
        assert_eq!((q.x, q.y, q.z), (0, 0, 0));
        assert_eq!(q.color, 77);
    }
}

#[test]
fn test_remesh_two_adjacent_voxels() {
    let mut chunk = Chunk::empty();
    chunk.set(0, 0, 0, true, 1);
    chunk.set(1, 0, 0, true, 2);

    let mut out: Vec<Quad> = Vec::new();
    chunk.remesh(&mut out);

    // The two touching faces are culled: 12 - 2 = 10 quads.
    assert_eq!(out.len(), 10);

    // No quad of (0,0,0) faces its neighbor at (1,0,0), and vice versa.
    assert!(!out
        .iter()
        .any(|q| q.direction == Direction::Left && (q.x, q.y, q.z) == (0, 0, 0)));
    assert!(!out
        .iter()
        .any(|q| q.direction == Direction::Right && (q.x, q.y, q.z) == (1, 0, 0)));

    // Each voxel keeps its own color on its quads.
    for q in &out {
        if (q.x, q.y, q.z) == (0, 0, 0) {
            assert_eq!(q.color, 1);
        } else {
            assert_eq!((q.x, q.y, q.z), (1, 0, 0));
            assert_eq!(q.color, 2);
        }
    }
}

#[test]
fn test_remesh_repeatable() {
    let mut chunk = Chunk::empty();
    chunk.set(5, 6, 7, true, 10);
    chunk.set(5, 7, 7, true, 11);
    chunk.set(30, 0, 16, true, 12);

    let mut first: Vec<Quad> = Vec::new();
    chunk.remesh(&mut first);

    let mut second: Vec<Quad> = Vec::new();
    chunk.remesh(&mut second);

    // Same unordered quads on an unmodified volume.
    assert_eq!(sorted(first), sorted(second));
}

#[test]
fn test_remesh_appends_without_clearing() {
    let mut chunk = Chunk::empty();
    chunk.set(2, 3, 4, true, 9);

    let mut out: Vec<Quad> = Vec::new();
    chunk.remesh(&mut out);
    assert_eq!(out.len(), 6);

    // A second remesh into the same buffer accumulates stale quads.
    chunk.remesh(&mut out);
    assert_eq!(out.len(), 12);
    assert_eq!(sorted(out[..6].to_vec()), sorted(out[6..].to_vec()));
}

#[test]
fn test_remesh_corner_voxel() {
    let mut chunk = Chunk::empty();
    chunk.set(31, 31, 31, true, 200);

    let mut out: Vec<Quad> = Vec::new();
    chunk.remesh(&mut out);

    // Faces toward the outside of the volume are exposed too.
    assert_eq!(out.len(), 6);
    for q in &out {
        assert_eq!((q.x, q.y, q.z), (31, 31, 31));
        assert_eq!(q.color, 200);
    }
}

#[test]
fn test_remesh_block_culls_interior() {
    let mut chunk = Chunk::empty();
    for x in 10..13 {
        for y in 10..13 {
            for z in 10..13 {
                chunk.set(x, y, z, true, 5);
            }
        }
    }

    let mut out: Vec<Quad> = Vec::new();
    chunk.remesh(&mut out);

    // A solid 3x3x3 block shows 9 faces on each of its 6 sides.
    assert_eq!(out.len(), 54);
    let center = out
        .iter()
        .filter(|q| (q.x, q.y, q.z) == (11, 11, 11))
        .count();
    assert_eq!(center, 0);
}
