//! The voxel volume: a 32x32x32 occupancy grid with a sparse color table.
//!
//! Occupancy is stored as 1024 32-bit words. The word at index
//! `z * 32 + (31 - y)` holds the row of voxels along the X axis at `(y, z)`,
//! with voxel `x` in bit `31 - x` (most-significant-bit-first). This layout
//! makes a Y or Z cross-section a plain word copy, while an X cross-section
//! is assembled bit by bit.
//!
//! Colors are one byte per voxel (a palette index), stored sparsely under the
//! linear key `z * 1024 + (31 - y) * 32 + x`. A color entry is written by
//! every [`Chunk::set`], whether the voxel is being filled or cleared, and is
//! never removed: clearing a voxel keeps its last color.

use std::collections::HashMap;
use vstd::multiset::Multiset;
use vstd::prelude::*;

use crate::bits::{col_bit, lemma_bit_clear, lemma_bit_extract, lemma_bit_mask, lemma_bit_noop,
    lemma_bit_or, lemma_bit_zero, lemma_popcnt_flip, lemma_popcnt_upto_le,
    lemma_sum_popcnt_update, lemma_sum_popcnt_zero, read_bit, sum_popcnt};
use crate::color_map::{color_map_get, color_map_insert};
use crate::quad::Quad;

verus! {

broadcast use vstd::seq_lib::group_to_multiset_ensures, vstd::multiset::group_multiset_axioms;

/// Edge length of a chunk, in voxels.
pub const CHUNK_SIZE: usize = 32;

/// The six face orientations a quad can have. An axis pass of the mesher
/// discovers one opposite pair: X finds Left and Right, Y finds Up and Down,
/// Z finds Front and Back.
#[derive(Clone, Copy, Debug, PartialEq, Eq, Structural, PartialOrd, Ord)]
pub enum Direction {
    Up,
    Down,
    Left,
    Right,
    Front,
    Back,
}

/// A scanning dimension for cross-sections.
#[derive(Clone, Copy, Debug, PartialEq, Eq, Structural)]
pub enum Axis {
    X,
    Y,
    Z,
}

/// Whether `(x, y, z)` lies inside the 32x32x32 volume.
pub open spec fn in_volume(x: int, y: int, z: int) -> bool {
    &&& 0 <= x < 32
    &&& 0 <= y < 32
    &&& 0 <= z < 32
}

/// The coordinates of the voxel a face in direction `d` of voxel `(x, y, z)`
/// looks at.
pub open spec fn neighbor_of(x: int, y: int, z: int, d: Direction) -> (int, int, int) {
    match d {
        Direction::Left => (x + 1, y, z),
        Direction::Right => (x - 1, y, z),
        Direction::Up => (x, y + 1, z),
        Direction::Down => (x, y - 1, z),
        Direction::Front => (x, y, z - 1),
        Direction::Back => (x, y, z + 1),
    }
}

/// Whether a scan along `axis` is the one that discovers faces in direction `d`.
pub open spec fn axis_owns(axis: Axis, d: Direction) -> bool {
    match axis {
        Axis::X => d == Direction::Left || d == Direction::Right,
        Axis::Y => d == Direction::Up || d == Direction::Down,
        Axis::Z => d == Direction::Front || d == Direction::Back,
    }
}

/// The voxel coordinates that padded-buffer position `(n, a, b)` of an `axis`
/// scan stands for (`n` counts padded planes, so plane offset `n - 1`).
spec fn scan_pos(axis: Axis, n: int, a: int, b: int) -> (int, int, int) {
    match axis {
        Axis::X => (n - 1, 31 - a, b),
        Axis::Y => (b, n - 1, 31 - a),
        Axis::Z => (b, 31 - a, n - 1),
    }
}

/// The padded-buffer position at which an `axis` scan decides the faces of
/// the voxel that owns `q`; inverse of [`scan_pos`].
spec fn scan_of(axis: Axis, q: Quad) -> (int, int, int) {
    match axis {
        Axis::X => (q.x + 1, 31 - q.y, q.z as int),
        Axis::Y => (q.y + 1, 31 - q.z, q.x as int),
        Axis::Z => (q.z + 1, 31 - q.y, q.x as int),
    }
}

/// Whether the `axis` scan position of `q` comes strictly before `(n, a, b)`
/// in scan order (planes outermost, then rows, then columns).
spec fn scanned_before(axis: Axis, q: Quad, n: int, a: int, b: int) -> bool {
    let s = scan_of(axis, q);
    s.0 < n || (s.0 == n && (s.1 < a || (s.1 == a && s.2 < b)))
}

/// The word of the padded 34-plane buffer holding plane `i`, row `r`.
spec fn word_at(buf: Seq<u32>, i: int, r: int) -> u32 {
    buf[i * 32 + r]
}

/// A 32x32x32 voxel volume. The chunk coordinates are left handed.
pub struct Chunk {
    voxels: Vec<u32>,
    colors: HashMap<u16, u8, ahash::RandomState>,
}

impl Chunk {
    /// The storage invariant: 1024 occupancy words, and every occupied voxel
    /// has a color entry (so the mesher always finds a color to emit).
    pub closed spec fn wf(&self) -> bool {
        &&& self.voxels@.len() == 1024
        &&& forall|x: int, y: int, z: int|
            in_volume(x, y, z) && #[trigger] self.occupied(x, y, z) ==> self.color_at(
                x,
                y,
                z,
            ) is Some
    }

    /// Whether the voxel at `(x, y, z)` is occupied.
    pub closed spec fn occupied(&self, x: int, y: int, z: int) -> bool {
        col_bit(self.voxels@[z * 32 + (31 - y)], x as u32)
    }

    /// Whether `(x, y, z)` is inside the volume and occupied; coordinates
    /// outside the volume count as empty.
    pub open spec fn occupied_ext(&self, x: int, y: int, z: int) -> bool {
        in_volume(x, y, z) && self.occupied(x, y, z)
    }

    /// The color entry of the voxel at `(x, y, z)`, if one was ever written.
    pub closed spec fn color_at(&self, x: int, y: int, z: int) -> Option<u8> {
        let key = (z * 1024 + (31 - y) * 32 + x) as u16;
        if self.colors@.contains_key(key) {
            Some(self.colors@[key])
        } else {
            None
        }
    }

    /// The number of occupied voxels of the whole volume.
    pub closed spec fn num_occupied(&self) -> nat {
        sum_popcnt(self.voxels@, 1024)
    }

    /// Whether the face of voxel `(x, y, z)` facing `d` is exposed: the voxel
    /// is occupied and its neighbor in that direction is empty or outside the
    /// volume.
    pub open spec fn face_visible(&self, x: int, y: int, z: int, d: Direction) -> bool {
        let nb = neighbor_of(x, y, z, d);
        &&& in_volume(x, y, z)
        &&& self.occupied(x, y, z)
        &&& !self.occupied_ext(nb.0, nb.1, nb.2)
    }

    /// Whether `q` is one of the quads a remesh of this volume emits: its face
    /// is exposed and it carries the stored color of its voxel.
    pub open spec fn is_face_quad(&self, q: Quad) -> bool {
        &&& self.face_visible(q.x as int, q.y as int, q.z as int, q.direction)
        &&& self.color_at(q.x as int, q.y as int, q.z as int) == Some(q.color)
    }

    /// How many copies of `q` one remesh appends: one per exposed face, zero
    /// otherwise.
    pub open spec fn face_multiplicity(&self, q: Quad) -> nat {
        if self.is_face_quad(q) {
            1
        } else {
            0
        }
    }

    /// The occupancy of position `(r, c)` of the cross-section at offset `m`
    /// along `axis`, as [`Chunk::slice`] lays the section out.
    spec fn plane_occ(&self, axis: Axis, m: int, r: int, c: int) -> bool {
        match axis {
            Axis::X => self.occupied(m, 31 - r, c),
            Axis::Y => self.occupied(c, m, 31 - r),
            Axis::Z => self.occupied(c, 31 - r, m),
        }
    }

    /// `buf` is a padded 34-plane buffer for `axis`: planes 1..33 hold the 32
    /// cross-sections, planes 0 and 33 are all-empty padding.
    spec fn padded_ok(&self, axis: Axis, buf: Seq<u32>) -> bool {
        &&& buf.len() == 1088
        &&& forall|i: int, r: int, c: u32|
            0 <= i < 34 && 0 <= r < 32 && c < 32 ==> (#[trigger] col_bit(word_at(buf, i, r), c)
                <==> (1 <= i < 33 && self.plane_occ(axis, i - 1, r, c as int)))
    }

    /// A fresh volume: nothing occupied, no color entries.
    pub fn empty() -> (c: Chunk)
        ensures
            c.wf(),
            forall|x: int, y: int, z: int|
                in_volume(x, y, z) ==> !#[trigger] c.occupied(x, y, z),
            forall|x: int, y: int, z: int|
                in_volume(x, y, z) ==> #[trigger] c.color_at(x, y, z) is None,
            c.num_occupied() == 0,
    {
        let voxels: Vec<u32> = zero_words(1024);
        let colors: HashMap<u16, u8, ahash::RandomState> = HashMap::default();
        let c = Chunk { voxels, colors };
        proof {
            lemma_bit_zero();
            lemma_sum_popcnt_zero(c.voxels@, 1024);
            assert forall|x: int, y: int, z: int|
                in_volume(x, y, z) implies !#[trigger] c.occupied(x, y, z) by {
                assert(c.voxels@[z * 32 + (31 - y)] == 0u32);
            }
        }
        c
    }

    /// Writes the voxel at `(x, y, z)`: stores `color` in the color table
    /// unconditionally, and sets or clears the occupancy bit per `state`.
    pub fn set(&mut self, x: usize, y: usize, z: usize, state: bool, color: u8)
        requires
            old(self).wf(),
            x < 32,
            y < 32,
            z < 32,
        ensures
            final(self).wf(),
            forall|i: int, j: int, k: int|
                in_volume(i, j, k) ==> #[trigger] final(self).occupied(i, j, k) == (if i == x && j
                    == y && k == z {
                    state
                } else {
                    old(self).occupied(i, j, k)
                }),
            forall|i: int, j: int, k: int|
                in_volume(i, j, k) ==> #[trigger] final(self).color_at(i, j, k) == (if i == x && j
                    == y && k == z {
                    Some(color)
                } else {
                    old(self).color_at(i, j, k)
                }),
            final(self).num_occupied() == old(self).num_occupied() + (if state && !old(
                self,
            ).occupied(x as int, y as int, z as int) {
                1int
            } else {
                0int
            }) - (if !state && old(self).occupied(x as int, y as int, z as int) {
                1int
            } else {
                0int
            }),
    {
        let key: usize = z * 1024 + (31 - y) * 32 + x;
        color_map_insert(&mut self.colors, key as u16, color);

        let idx: usize = z * 32 + (31 - y);
        let w: u32 = self.voxels[idx];
        let xb: u32 = x as u32;
        let new_w: u32 = if state {
            w | (0x8000_0000u32 >> xb)
        } else {
            w & (u32::MAX ^ (0x8000_0000u32 >> xb))
        };
        self.voxels.set(idx, new_w);

        proof {
            lemma_bit_or();
            lemma_bit_mask();
            lemma_bit_clear();
            lemma_bit_noop();
            let s_old = old(self).voxels@;
            let s_new = self.voxels@;
            assert(s_new == s_old.update(idx as int, new_w));

            // Every column of the rewritten word other than `x` is as before,
            // and column `x` now reads `state`.
            assert forall|c: u32| c < 32 implies #[trigger] col_bit(new_w, c) == (if c == xb {
                state
            } else {
                col_bit(w, c)
            }) by {}

            // Occupancy of every voxel other than `(x, y, z)` is untouched.
            assert forall|i: int, j: int, k: int|
                in_volume(i, j, k) implies #[trigger] self.occupied(i, j, k) == (if i == x && j
                == y && k == z {
                state
            } else {
                old(self).occupied(i, j, k)
            }) by {
                let widx = k * 32 + (31 - j);
                if widx == idx {
                    assert(j == y && k == z);
                    assert(s_new[widx] == new_w);
                } else {
                    assert(s_new[widx] == s_old[widx]);
                }
            }

            // The color table gained (or overwrote) exactly the entry of `(x, y, z)`.
            assert forall|i: int, j: int, k: int|
                in_volume(i, j, k) implies #[trigger] self.color_at(i, j, k) == (if i == x && j
                == y && k == z {
                Some(color)
            } else {
                old(self).color_at(i, j, k)
            }) by {
                let ck = k * 1024 + (31 - j) * 32 + i;
                assert(0 <= ck < 32768);
                if i == x && j == y && k == z {
                    assert(ck == key);
                } else {
                    assert(ck != key);
                }
            }

            // The voxel count moves by the popcount change of the one word.
            lemma_sum_popcnt_update(s_old, idx as int, new_w, 1024);
            if state && !col_bit(w, xb) {
                lemma_popcnt_flip(w, new_w, xb, 32);
            } else if !state && col_bit(w, xb) {
                lemma_popcnt_flip(new_w, w, xb, 32);
            } else {
                assert(new_w == w);
            }
        }
    }

    /// Reads the occupancy bit of the voxel at `(x, y, z)`.
    pub fn get_occupied(&self, x: usize, y: usize, z: usize) -> (r: bool)
        requires
            self.wf(),
            x < 32,
            y < 32,
            z < 32,
        ensures
            r == self.occupied(x as int, y as int, z as int),
    {
        read_bit(self.voxels[z * 32 + (31 - y)], x as u32)
    }

    /// Reads the stored color of the voxel at `(x, y, z)`; `None` means the
    /// voxel was never written.
    pub fn get_color(&self, x: usize, y: usize, z: usize) -> (r: Option<u8>)
        requires
            self.wf(),
            x < 32,
            y < 32,
            z < 32,
        ensures
            r == self.color_at(x as int, y as int, z as int),
    {
        let key: usize = z * 1024 + (31 - y) * 32 + x;
        color_map_get(&self.colors, key as u16)
    }

    /// The total number of occupied voxels.
    pub fn count(&self) -> (r: usize)
        requires
            self.wf(),
        ensures
            r == self.num_occupied(),
    {
        let mut total: usize = 0;
        for i in 0..1024
            invariant
                self.wf(),
                total == sum_popcnt(self.voxels@, i as int),
                total <= 32 * i,
        {
            proof {
                lemma_popcnt_upto_le(self.voxels@[i as int], 32);
            }
            total = total + self.voxels[i].count_ones() as usize;
        }
        total
    }

    /// Fills `buffer` with the 32x32 occupancy cross-section perpendicular to
    /// `axis` at offset `n`. For the Y and Z axes the rows are direct word
    /// copies; for the X axis each bit is extracted separately and or-ed into
    /// the buffer, so callers wanting the bare cross-section pass a zeroed
    /// buffer.
    pub fn slice(&self, axis: Axis, n: usize, buffer: &mut Vec<u32>)
        requires
            self.wf(),
            n < 32,
            old(buffer).len() == 32,
        ensures
            final(buffer).len() == 32,
            forall|r: int, c: u32|
                0 <= r < 32 && c < 32 ==> #[trigger] col_bit(final(buffer)@[r], c) == (match axis {
                    Axis::X => col_bit(old(buffer)@[r], c) || self.occupied(n as int, 31 - r, c as int),
                    Axis::Y => self.occupied(c as int, n as int, 31 - r),
                    Axis::Z => self.occupied(c as int, 31 - r, n as int),
                }),
    {
        match axis {
            Axis::X => {
                let nn: u32 = n as u32;
                for y in 0..32
                    invariant
                        self.wf(),
                        n < 32,
                        nn == n as u32,
                        buffer.len() == 32,
                        forall|r: int, c: u32|
                            0 <= r < y && c < 32 ==> #[trigger] col_bit(buffer@[r], c) == (col_bit(
                                old(buffer)@[r],
                                c,
                            ) || self.occupied(n as int, 31 - r, c as int)),
                        forall|r: int| y <= r < 32 ==> buffer@[r] == old(buffer)@[r],
                {
                    for z in 0..32
                        invariant
                            self.wf(),
                            n < 32,
                            nn == n as u32,
                            y < 32,
                            buffer.len() == 32,
                            forall|r: int, c: u32|
                                0 <= r < y && c < 32 ==> #[trigger] col_bit(buffer@[r], c) == (
                                col_bit(old(buffer)@[r], c) || self.occupied(
                                    n as int,
                                    31 - r,
                                    c as int,
                                )),
                            forall|r: int| y < r < 32 ==> buffer@[r] == old(buffer)@[r],
                            forall|c: u32|
                                c < 32 ==> #[trigger] col_bit(buffer@[y as int], c) == (col_bit(
                                    old(buffer)@[y as int],
                                    c,
                                ) || (c < z && self.occupied(n as int, 31 - (y as int), c as int))),
                    {
                        let w: u32 = self.voxels[z * 32 + y];
                        let ext: u32 = ((w << nn) & 0x8000_0000u32) >> (z as u32);
                        let cur: u32 = buffer[y];
                        buffer.set(y, cur | ext);
                        proof {
                            lemma_bit_or();
                            lemma_bit_extract();
                            assert forall|c: u32| c < 32 implies #[trigger] col_bit(
                                buffer@[y as int],
                                c,
                            ) == (col_bit(old(buffer)@[y as int], c) || (c < z + 1 && self.occupied(
                                n as int,
                                31 - (y as int),
                                c as int,
                            ))) by {
                                assert(col_bit(ext, c) == (c == z && col_bit(w, nn)));
                                assert(col_bit(w, nn) == self.occupied(
                                    n as int,
                                    31 - (y as int),
                                    z as int,
                                ));
                            }
                        }
                    }
                }
            }
            Axis::Y => {
                for z in 0..32
                    invariant
                        self.wf(),
                        n < 32,
                        buffer.len() == 32,
                        forall|r: int, c: u32|
                            32 - z <= r < 32 && c < 32 ==> #[trigger] col_bit(buffer@[r], c)
                                == self.occupied(c as int, n as int, 31 - r),
                        forall|r: int| 0 <= r < 32 - z ==> buffer@[r] == old(buffer)@[r],
                {
                    let w: u32 = self.voxels[z * 32 + (31 - n)];
                    buffer.set(31 - z, w);
                }
            }
            Axis::Z => {
                for r in 0..32
                    invariant
                        self.wf(),
                        n < 32,
                        buffer.len() == 32,
                        forall|j: int, c: u32|
                            0 <= j < r && c < 32 ==> #[trigger] col_bit(buffer@[j], c)
                                == self.occupied(c as int, 31 - j, n as int),
                        forall|j: int| r <= j < 32 ==> buffer@[j] == old(buffer)@[j],
                {
                    let w: u32 = self.voxels[n * 32 + r];
                    buffer.set(r, w);
                }
            }
        }
    }

    /// Writes the 32 cross-sections along `axis` into planes 1..33 of the
    /// padded buffer, leaving the all-empty padding planes 0 and 33 alone.
    fn fill_planes(&self, axis: Axis, buffer: &mut Vec<u32>)
        requires
            self.wf(),
            old(buffer).len() == 1088,
            forall|j: int| 0 <= j < 32 ==> old(buffer)@[j] == 0u32,
            forall|j: int| 1056 <= j < 1088 ==> old(buffer)@[j] == 0u32,
            axis == Axis::X ==> forall|j: int| 0 <= j < 1088 ==> old(buffer)@[j] == 0u32,
        ensures
            final(buffer).len() == 1088,
            self.padded_ok(axis, final(buffer)@),
            forall|j: int| 0 <= j < 32 ==> final(buffer)@[j] == 0u32,
            forall|j: int| 1056 <= j < 1088 ==> final(buffer)@[j] == 0u32,
    {
        for n in 0..32
            invariant
                self.wf(),
                buffer.len() == 1088,
                forall|j: int| 0 <= j < 32 ==> buffer@[j] == 0u32,
                forall|j: int| 1056 <= j < 1088 ==> buffer@[j] == 0u32,
                axis == Axis::X ==> forall|j: int|
                    32 * (n + 1) <= j < 1056 ==> buffer@[j] == 0u32,
                forall|i: int, r: int, c: u32|
                    1 <= i <= n && 0 <= r < 32 && c < 32 ==> (#[trigger] col_bit(
                        word_at(buffer@, i, r),
                        c,
                    ) <==> self.plane_occ(axis, i - 1, r, c as int)),
        {
            let mut tmp: Vec<u32> = zero_words(32);
            self.slice(axis, n, &mut tmp);
            proof {
                lemma_bit_zero();
                assert forall|r: int, c: u32| 0 <= r < 32 && c < 32 implies #[trigger] col_bit(
                    tmp@[r],
                    c,
                ) == self.plane_occ(axis, n as int, r, c as int) by {}
            }
            for r in 0..32
                invariant
                    self.wf(),
                    n < 32,
                    buffer.len() == 1088,
                    tmp.len() == 32,
                    forall|r2: int, c: u32|
                        0 <= r2 < 32 && c < 32 ==> #[trigger] col_bit(tmp@[r2], c)
                            == self.plane_occ(axis, n as int, r2, c as int),
                    forall|j: int| 0 <= j < 32 ==> buffer@[j] == 0u32,
                    forall|j: int| 1056 <= j < 1088 ==> buffer@[j] == 0u32,
                    axis == Axis::X ==> forall|j: int|
                        32 * (n + 1) + r <= j < 1056 ==> buffer@[j] == 0u32,
                    forall|i: int, r2: int, c: u32|
                        1 <= i <= n && 0 <= r2 < 32 && c < 32 ==> (#[trigger] col_bit(
                            word_at(buffer@, i, r2),
                            c,
                        ) <==> self.plane_occ(axis, i - 1, r2, c as int)),
                    forall|r2: int| 0 <= r2 < r ==> buffer@[32 * (n + 1) + r2] == tmp@[r2],
            {
                let ghost pre: Seq<u32> = buffer@;
                buffer.set((n + 1) * 32 + r, tmp[r]);
                proof {
                    assert forall|i: int, r2: int, c: u32|
                        1 <= i <= n && 0 <= r2 < 32 && c < 32 implies (#[trigger] col_bit(
                        word_at(buffer@, i, r2),
                        c,
                    ) <==> self.plane_occ(axis, i - 1, r2, c as int)) by {
                        assert(0 <= i * 32 + r2 < (n + 1) * 32 + r);
                        assert(word_at(buffer@, i, r2) == pre[i * 32 + r2]);
                        assert(word_at(pre, i, r2) == pre[i * 32 + r2]);
                        assert(col_bit(word_at(pre, i, r2), c) <==> self.plane_occ(
                            axis,
                            i - 1,
                            r2,
                            c as int,
                        ));
                    }
                }
            }
            proof {
                assert forall|i: int, r: int, c: u32|
                    1 <= i <= n + 1 && 0 <= r < 32 && c < 32 implies (#[trigger] col_bit(
                    word_at(buffer@, i, r),
                    c,
                ) <==> self.plane_occ(axis, i - 1, r, c as int)) by {
                    if i == n + 1 {
                        assert(word_at(buffer@, i, r) == tmp@[r]);
                    }
                }
            }
        }
        proof {
            lemma_bit_zero();
            assert forall|i: int, r: int, c: u32|
                0 <= i < 34 && 0 <= r < 32 && c < 32 implies (#[trigger] col_bit(
                word_at(buffer@, i, r),
                c,
            ) <==> (1 <= i < 33 && self.plane_occ(axis, i - 1, r, c as int))) by {
                if i == 0 {
                    assert(word_at(buffer@, i, r) == buffer@[r]);
                } else if i == 33 {
                    assert(word_at(buffer@, i, r) == buffer@[1056 + r]);
                }
            }
        }
    }

    /// One scan pass: walks the padded plane triples of `buffer` and appends,
    /// for every voxel with an exposed face in one of the two directions the
    /// axis owns, exactly one quad; nothing else is appended and the existing
    /// contents of `out` stay.
    #[verifier::loop_isolation(false)]
    #[verifier::rlimit(100)]
    fn emit_planes(&self, axis: Axis, buffer: &Vec<u32>, out: &mut Vec<Quad>)
        requires
            self.wf(),
            self.padded_ok(axis, buffer@),
        ensures
            final(out)@.len() >= old(out)@.len(),
            final(out)@.subrange(0, old(out)@.len() as int) == old(out)@,
            forall|q: Quad|
                #[trigger] final(out)@.skip(old(out)@.len() as int).to_multiset().count(q) == (
                if axis_owns(axis, q.direction) && self.is_face_quad(q) {
                    1nat
                } else {
                    0nat
                }),
    {
        let ghost len0: int = out@.len() as int;
        proof {
            assert(out@.skip(len0) =~= Seq::<Quad>::empty());
            assert forall|q: Quad| #[trigger] out@.skip(len0).to_multiset().count(q) == 0nat by {
                assert(!out@.skip(len0).contains(q));
            }
        }
        for n in 1..33usize
            invariant
                out@.len() >= len0,
                out@.subrange(0, len0) == old(out)@,
                forall|q: Quad|
                    #[trigger] out@.skip(len0).to_multiset().count(q) == (if axis_owns(
                        axis,
                        q.direction,
                    ) && self.is_face_quad(q) && scanned_before(axis, q, n as int, 0, 0) {
                        1nat
                    } else {
                        0nat
                    }),
        {
            for a in 0..32usize
                invariant
                    out@.len() >= len0,
                    out@.subrange(0, len0) == old(out)@,
                    forall|q: Quad|
                        #[trigger] out@.skip(len0).to_multiset().count(q) == (if axis_owns(
                            axis,
                            q.direction,
                        ) && self.is_face_quad(q) && scanned_before(
                            axis,
                            q,
                            n as int,
                            a as int,
                            0,
                        ) {
                            1nat
                        } else {
                            0nat
                        }),
            {
                for b in 0..32usize
                    invariant
                        out@.len() >= len0,
                        out@.subrange(0, len0) == old(out)@,
                        forall|q: Quad|
                            #[trigger] out@.skip(len0).to_multiset().count(q) == (if axis_owns(
                                axis,
                                q.direction,
                            ) && self.is_face_quad(q) && scanned_before(
                                axis,
                                q,
                                n as int,
                                a as int,
                                b as int,
                            ) {
                                1nat
                            } else {
                                0nat
                            }),
                {
                    let mid: u32 = buffer[n * 32 + a];
                    let far: u32 = buffer[(n + 1) * 32 + a];
                    let near: u32 = buffer[(n - 1) * 32 + a];
                    let bb: u32 = b as u32;
                    let (qx, qy, qz): (usize, usize, usize) = match axis {
                        Axis::X => (n - 1, 31 - a, b),
                        Axis::Y => (b, n - 1, 31 - a),
                        Axis::Z => (b, 31 - a, n - 1),
                    };
                    let (far_dir, near_dir): (Direction, Direction) = match axis {
                        Axis::X => (Direction::Left, Direction::Right),
                        Axis::Y => (Direction::Up, Direction::Down),
                        Axis::Z => (Direction::Back, Direction::Front),
                    };
                    let ghost pos: (int, int, int) = (qx as int, qy as int, qz as int);
                    let ghost fnb: (int, int, int) = neighbor_of(pos.0, pos.1, pos.2, far_dir);
                    let ghost nnb: (int, int, int) = neighbor_of(pos.0, pos.1, pos.2, near_dir);
                    proof {
                        assert(mid == word_at(buffer@, n as int, a as int));
                        assert(far == word_at(buffer@, n as int + 1, a as int));
                        assert(near == word_at(buffer@, n as int - 1, a as int));
                        assert(pos == scan_pos(axis, n as int, a as int, b as int));
                        assert(col_bit(mid, bb) <==> self.occupied(pos.0, pos.1, pos.2));
                        assert(col_bit(far, bb) <==> self.occupied_ext(fnb.0, fnb.1, fnb.2));
                        assert(col_bit(near, bb) <==> self.occupied_ext(nnb.0, nnb.1, nnb.2));
                    }
                    if read_bit(mid, bb) {
                        let color: u8 = self.get_color(qx, qy, qz).unwrap();
                        if !read_bit(far, bb) {
                            let q = Quad::new(far_dir, qx, qy, qz, color);
                            let ghost prev: Seq<Quad> = out@;
                            out.push(q);
                            proof {
                                assert(out@.subrange(0, len0) =~= prev.subrange(0, len0));
                                assert(out@.skip(len0) =~= prev.skip(len0).push(q));
                                assert(out@.skip(len0).to_multiset() == prev.skip(
                                    len0,
                                ).to_multiset().insert(q));
                                assert(self.is_face_quad(q));
                            }
                        }
                        if !read_bit(near, bb) {
                            let q = Quad::new(near_dir, qx, qy, qz, color);
                            let ghost prev: Seq<Quad> = out@;
                            out.push(q);
                            proof {
                                assert(out@.subrange(0, len0) =~= prev.subrange(0, len0));
                                assert(out@.skip(len0) =~= prev.skip(len0).push(q));
                                assert(out@.skip(len0).to_multiset() == prev.skip(
                                    len0,
                                ).to_multiset().insert(q));
                                assert(self.is_face_quad(q));
                            }
                        }
                    }
                    proof {
                        assert forall|q2: Quad|
                            #[trigger] out@.skip(len0).to_multiset().count(q2) == (if axis_owns(
                            axis,
                            q2.direction,
                        ) && self.is_face_quad(q2) && scanned_before(
                            axis,
                            q2,
                            n as int,
                            a as int,
                            b as int + 1,
                        ) {
                            1nat
                        } else {
                            0nat
                        }) by {
                            if axis_owns(axis, q2.direction) && self.is_face_quad(q2) {
                                let s = scan_of(axis, q2);
                                assert(1 <= s.0 < 33 && 0 <= s.1 < 32 && 0 <= s.2 < 32);
                                if s == (n as int, a as int, b as int) {
                                    // q2 is decided at this very scan position: it must be
                                    // one of the two candidate quads of this voxel.
                                    assert((q2.x as int, q2.y as int, q2.z as int) == pos);
                                    assert(q2.direction == far_dir || q2.direction == near_dir);
                                    assert(self.occupied(pos.0, pos.1, pos.2));
                                    assert(self.color_at(pos.0, pos.1, pos.2) == Some(q2.color));
                                    assert(!scanned_before(axis, q2, n as int, a as int, b as int));
                                    assert(scanned_before(
                                        axis,
                                        q2,
                                        n as int,
                                        a as int,
                                        b as int + 1,
                                    ));
                                } else {
                                    assert(scanned_before(axis, q2, n as int, a as int, b as int)
                                        == scanned_before(
                                        axis,
                                        q2,
                                        n as int,
                                        a as int,
                                        b as int + 1,
                                    ));
                                }
                            }
                        }
                    }
                }
                proof {
                    assert forall|q2: Quad|
                        #[trigger] out@.skip(len0).to_multiset().count(q2) == (if axis_owns(
                        axis,
                        q2.direction,
                    ) && self.is_face_quad(q2) && scanned_before(
                        axis,
                        q2,
                        n as int,
                        a as int + 1,
                        0,
                    ) {
                        1nat
                    } else {
                        0nat
                    }) by {
                        if axis_owns(axis, q2.direction) && self.is_face_quad(q2) {
                            let s = scan_of(axis, q2);
                            assert(1 <= s.0 < 33 && 0 <= s.1 < 32 && 0 <= s.2 < 32);
                            assert(scanned_before(axis, q2, n as int, a as int, 32)
                                == scanned_before(axis, q2, n as int, a as int + 1, 0));
                        }
                    }
                }
            }
            proof {
                assert forall|q2: Quad|
                    #[trigger] out@.skip(len0).to_multiset().count(q2) == (if axis_owns(
                    axis,
                    q2.direction,
                ) && self.is_face_quad(q2) && scanned_before(axis, q2, n as int + 1, 0, 0) {
                    1nat
                } else {
                    0nat
                }) by {
                    if axis_owns(axis, q2.direction) && self.is_face_quad(q2) {
                        let s = scan_of(axis, q2);
                        assert(1 <= s.0 < 33 && 0 <= s.1 < 32 && 0 <= s.2 < 32);
                        assert(scanned_before(axis, q2, n as int, 32, 0) == scanned_before(
                            axis,
                            q2,
                            n as int + 1,
                            0,
                            0,
                        ));
                    }
                }
            }
        }
        proof {
            assert forall|q2: Quad|
                #[trigger] out@.skip(len0).to_multiset().count(q2) == (if axis_owns(
                axis,
                q2.direction,
            ) && self.is_face_quad(q2) {
                1nat
            } else {
                0nat
            }) by {
                if axis_owns(axis, q2.direction) && self.is_face_quad(q2) {
                    let s = scan_of(axis, q2);
                    assert(1 <= s.0 < 33 && 0 <= s.1 < 32 && 0 <= s.2 < 32);
                    assert(scanned_before(axis, q2, 33, 0, 0));
                }
            }
        }
    }

    /// Full remesh: appends to `out` one quad per exposed voxel face, each
    /// carrying its voxel's stored color. What was in `out` stays in front of
    /// the appended quads (callers reuse the allocation and clear it
    /// themselves when they want only the current state), and the appended
    /// segment holds every exposed face exactly once — its order is not part
    /// of the contract. The volume itself is left as it was.
    pub fn remesh(&mut self, out: &mut Vec<Quad>)
        requires
            old(self).wf(),
        ensures
            *final(self) == *old(self),
            final(out)@.len() >= old(out)@.len(),
            final(out)@.subrange(0, old(out)@.len() as int) == old(out)@,
            forall|q: Quad|
                #[trigger] final(out)@.skip(old(out)@.len() as int).to_multiset().count(q) == old(
                    self,
                ).face_multiplicity(q),
    {
        let ghost len0: int = out@.len() as int;
        let mut buffer: Vec<u32> = zero_words(1088);

        self.fill_planes(Axis::X, &mut buffer);
        self.emit_planes(Axis::X, &buffer, out);
        let ghost s1: Seq<Quad> = out@;
        let ghost len1: int = out@.len() as int;

        self.fill_planes(Axis::Y, &mut buffer);
        self.emit_planes(Axis::Y, &buffer, out);
        let ghost s2: Seq<Quad> = out@;
        let ghost len2: int = out@.len() as int;

        self.fill_planes(Axis::Z, &mut buffer);
        self.emit_planes(Axis::Z, &buffer, out);

        proof {
            let a_x = s1.skip(len0);
            let a_y = s2.skip(len1);
            let a_z = out@.skip(len2);
            assert(out@.subrange(0, len0) =~= old(out)@);
            assert(out@.skip(len0) =~= (a_x + a_y) + a_z);
            vstd::seq_lib::lemma_multiset_commutative(a_x, a_y);
            vstd::seq_lib::lemma_multiset_commutative(a_x + a_y, a_z);
            assert forall|q: Quad| #[trigger] out@.skip(len0).to_multiset().count(q)
                == self.face_multiplicity(q) by {
                assert(out@.skip(len0).to_multiset().count(q) == a_x.to_multiset().count(q)
                    + a_y.to_multiset().count(q) + a_z.to_multiset().count(q));
            }
        }
    }
}

/// Two remeshes of one unmodified volume emit the same quads: any two
/// sequences whose quad counts both match the volume's face multiplicities
/// are equal as unordered multisets (the emission order is the one freedom).
pub proof fn lemma_remesh_repeatable(c: &Chunk, a: Seq<Quad>, b: Seq<Quad>)
    requires
        forall|q: Quad| #[trigger] a.to_multiset().count(q) == c.face_multiplicity(q),
        forall|q: Quad| #[trigger] b.to_multiset().count(q) == c.face_multiplicity(q),
    ensures
        a.to_multiset() == b.to_multiset(),
{
    assert(a.to_multiset() =~= b.to_multiset());
}

/// A remesh of a volume with no occupied voxel appends nothing: a sequence
/// whose quad counts match the face multiplicities of such a volume is empty.
pub proof fn lemma_remesh_of_empty_appends_nothing(c: &Chunk, a: Seq<Quad>)
    requires
        forall|x: int, y: int, z: int| in_volume(x, y, z) ==> !#[trigger] c.occupied(x, y, z),
        forall|q: Quad| #[trigger] a.to_multiset().count(q) == c.face_multiplicity(q),
    ensures
        a == Seq::<Quad>::empty(),
{
    assert forall|q: Quad| #[trigger] a.to_multiset().count(q) == 0nat by {
        assert(!c.is_face_quad(q));
    }
    assert(a.to_multiset() =~= Multiset::<Quad>::empty());
    assert(a.to_multiset().len() == 0);
    assert(a =~= Seq::<Quad>::empty());
}

/// A vector of `count` zero words.
fn zero_words(count: usize) -> (v: Vec<u32>)
    ensures
        v@.len() == count,
        forall|j: int| 0 <= j < count ==> v@[j] == 0u32,
{
    let mut v: Vec<u32> = Vec::new();
    for i in 0..count
        invariant
            v@.len() == i,
            forall|j: int| 0 <= j < i ==> v@[j] == 0u32,
    {
        v.push(0u32);
    }
    v
}

} // verus!

