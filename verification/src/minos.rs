//! The piece catalog and the 7-bag randomizer.
//!
//! Each of the seven piece types has a fixed list of rotation matrices and a
//! fixed spawn offset, given once as spec-level data ([`catalog_rotations`],
//! [`catalog_offset`]) and once as the executable constructor
//! [`Mino::of_type`], which is proved to build exactly the catalog entry.

use vstd::prelude::*;
use vstd::multiset::Multiset;
use rand::seq::SliceRandom;

use crate::consts::{
    Rotation, BoardXY, J_BLOCK, Z_BLOCK, O_BLOCK, S_BLOCK, T_BLOCK, L_BLOCK, I_BLOCK, ROT_LEFT,
    ROT_RIGHT,
};

verus! {

/// The view of one rotation matrix: rows of 0/1 cell values.
pub open spec fn rot_view(r: Rotation) -> Seq<Seq<u8>> {
    r@.map_values(|row: Vec<u8>| row@)
}

/// Sub-cell `(y, x)` of rotation matrix `r` is occupied.
pub open spec fn occ(r: Seq<Seq<u8>>, y: int, x: int) -> bool {
    0 <= y < r.len() && 0 <= x < r[y].len() && r[y][x] != 0
}

/// A well-formed rotation matrix: a square box of side 2 to 4 with at least
/// one occupied sub-cell.
pub open spec fn wf_rotation(r: Seq<Seq<u8>>) -> bool {
    &&& 2 <= r.len() <= 4
    &&& forall|y: int| 0 <= y < r.len() ==> #[trigger] r[y].len() == r.len()
    &&& exists|y: int, x: int| occ(r, y, x)
}

/// Every occupied sub-cell of `r`, taken at piece position `(px, py)`, lies
/// inside the side walls and above the floor.  Horizontal display columns
/// run from 0 to 19 (two per cell); the bottom board row is 19, and a
/// sub-cell at matrix row `y` occupies board row `py + y - 1`.
pub open spec fn in_walls(r: Seq<Seq<u8>>, px: int, py: int) -> bool {
    forall|y: int, x: int| occ(r, y, x) ==> 0 <= px + 2 * x <= 19 && py + y - 1 <= 19
}

/// The rotation matrices of piece type `t`, in rotation order.
pub open spec fn catalog_rotations(t: u8) -> Seq<Seq<Seq<u8>>> {
    if t == J_BLOCK {
        seq![
            seq![seq![0u8, 0, 0], seq![1u8, 1, 1], seq![0u8, 0, 1]],
            seq![seq![0u8, 1, 0], seq![0u8, 1, 0], seq![1u8, 1, 0]],
            seq![seq![1u8, 0, 0], seq![1u8, 1, 1], seq![0u8, 0, 0]],
            seq![seq![0u8, 1, 1], seq![0u8, 1, 0], seq![0u8, 1, 0]],
        ]
    } else if t == Z_BLOCK {
        seq![
            seq![seq![0u8, 0, 0], seq![0u8, 1, 1], seq![1u8, 1, 0]],
            seq![seq![0u8, 1, 0], seq![0u8, 1, 1], seq![0u8, 0, 1]],
        ]
    } else if t == O_BLOCK {
        seq![seq![seq![1u8, 1], seq![1u8, 1]]]
    } else if t == S_BLOCK {
        seq![
            seq![seq![0u8, 0, 0], seq![1u8, 1, 0], seq![0u8, 1, 1]],
            seq![seq![0u8, 0, 1], seq![0u8, 1, 1], seq![0u8, 1, 0]],
        ]
    } else if t == T_BLOCK {
        seq![
            seq![seq![0u8, 0, 0], seq![1u8, 1, 1], seq![0u8, 1, 0]],
            seq![seq![0u8, 1, 0], seq![1u8, 1, 0], seq![0u8, 1, 0]],
            seq![seq![0u8, 1, 0], seq![1u8, 1, 1], seq![0u8, 0, 0]],
            seq![seq![0u8, 1, 0], seq![0u8, 1, 1], seq![0u8, 1, 0]],
        ]
    } else if t == L_BLOCK {
        seq![
            seq![seq![0u8, 0, 0], seq![1u8, 1, 1], seq![1u8, 0, 0]],
            seq![seq![1u8, 1, 0], seq![0u8, 1, 0], seq![0u8, 1, 0]],
            seq![seq![0u8, 0, 1], seq![1u8, 1, 1], seq![0u8, 0, 0]],
            seq![seq![0u8, 1, 0], seq![0u8, 1, 0], seq![0u8, 1, 1]],
        ]
    } else {
        seq![
            seq![
                seq![0u8, 0, 0, 0],
                seq![0u8, 0, 0, 0],
                seq![1u8, 1, 1, 1],
                seq![0u8, 0, 0, 0],
            ],
            seq![
                seq![0u8, 0, 1, 0],
                seq![0u8, 0, 1, 0],
                seq![0u8, 0, 1, 0],
                seq![0u8, 0, 1, 0],
            ],
        ]
    }
}

/// The side of the bounding box of piece type `t`.
pub open spec fn catalog_size(t: u8) -> int {
    if t == O_BLOCK {
        2
    } else if t == I_BLOCK {
        4
    } else {
        3
    }
}

/// The spawn offset of piece type `t`.
pub open spec fn catalog_offset(t: u8) -> (i16, i16) {
    if t == I_BLOCK {
        (6i16, -1i16)
    } else if t == O_BLOCK {
        (8i16, 1i16)
    } else {
        (8i16, 0i16)
    }
}

/// The rotation index reached from `cur` (out of `n` states) by turning in
/// `direction`, wrapping in both directions; any other direction value
/// leaves the index unchanged.
pub open spec fn next_rot_index(cur: int, n: int, direction: u8) -> int {
    if direction == ROT_LEFT {
        if cur <= 0 {
            n - 1
        } else {
            cur - 1
        }
    } else if direction == ROT_RIGHT {
        if cur >= n - 1 {
            0
        } else {
            cur + 1
        }
    } else {
        cur
    }
}

/// One falling piece: its rotation states, its type id (1..=7, also the
/// value it writes into board cells), the rotation currently in use, and
/// the board position where it first appears.
pub struct Mino {
    pub rotations: Vec<Rotation>,
    pub selected_mino: u8,
    pub current_rotation: usize,
    pub start_offset: BoardXY,
}

impl Mino {
    /// All rotation matrices of this piece, as sequences.
    pub open spec fn rots(self) -> Seq<Seq<Seq<u8>>> {
        self.rotations@.map_values(|r: Rotation| rot_view(r))
    }

    /// The rotation matrix currently in use.
    pub open spec fn rot(self) -> Seq<Seq<u8>> {
        self.rots()[self.current_rotation as int]
    }

    /// A well-formed piece is exactly a catalog entry with a valid current
    /// rotation index.
    pub open spec fn wf(self) -> bool {
        &&& 1 <= self.selected_mino <= 7
        &&& self.rots() == catalog_rotations(self.selected_mino)
        &&& (self.current_rotation as int) < catalog_rotations(self.selected_mino).len()
        &&& self.start_offset == catalog_offset(self.selected_mino)
    }

    /// The rotation matrix currently in use, by reference.
    pub fn get_rotation(&self) -> (r: &Rotation)
        requires
            self.wf(),
        ensures
            rot_view(*r) == self.rot(),
    {
        &self.rotations[self.current_rotation]
    }

    /// The rotation matrix one turn away in `direction`, without changing
    /// the piece.
    pub fn next_rotation(&mut self, direction: u8) -> (r: &Rotation)
        requires
            old(self).wf(),
        ensures
            *final(self) == *old(self),
            rot_view(*r) == old(self).rots()[next_rot_index(
                old(self).current_rotation as int,
                old(self).rots().len() as int,
                direction,
            )],
    {
        proof {
            lemma_catalog_wf(self.selected_mino);
        }
        if direction == ROT_LEFT {
            if self.current_rotation == 0 {
                &self.rotations[self.rotations.len() - 1]
            } else {
                &self.rotations[self.current_rotation - 1]
            }
        } else if direction == ROT_RIGHT {
            if self.current_rotation >= self.rotations.len() - 1 {
                &self.rotations[0]
            } else {
                &self.rotations[self.current_rotation + 1]
            }
        } else {
            &self.rotations[self.current_rotation]
        }
    }

    /// Turn the piece one state in `direction`, wrapping across the cycle.
    pub fn rotate(&mut self, direction: u8)
        requires
            old(self).wf(),
        ensures
            final(self).wf(),
            final(self).rotations == old(self).rotations,
            final(self).selected_mino == old(self).selected_mino,
            final(self).start_offset == old(self).start_offset,
            final(self).current_rotation as int == next_rot_index(
                old(self).current_rotation as int,
                old(self).rots().len() as int,
                direction,
            ),
    {
        proof {
            lemma_catalog_wf(self.selected_mino);
        }
        if direction == ROT_LEFT {
            if self.current_rotation == 0 {
                self.current_rotation = self.rotations.len() - 1;
            } else {
                self.current_rotation = self.current_rotation - 1;
            }
        } else if direction == ROT_RIGHT {
            if self.current_rotation >= self.rotations.len() - 1 {
                self.current_rotation = 0;
            } else {
                self.current_rotation = self.current_rotation + 1;
            }
        }
    }

    /// Build the catalog piece of type `t`, in its first rotation state.
    pub fn of_type(t: u8) -> (m: Mino)
        requires
            1 <= t <= 7,
        ensures
            m.wf(),
            m.selected_mino == t,
            m.current_rotation == 0,
    {
        let rotations: Vec<Rotation> = if t == J_BLOCK {
            vec![
                vec![vec![0u8, 0, 0], vec![1u8, 1, 1], vec![0u8, 0, 1]],
                vec![vec![0u8, 1, 0], vec![0u8, 1, 0], vec![1u8, 1, 0]],
                vec![vec![1u8, 0, 0], vec![1u8, 1, 1], vec![0u8, 0, 0]],
                vec![vec![0u8, 1, 1], vec![0u8, 1, 0], vec![0u8, 1, 0]],
            ]
        } else if t == Z_BLOCK {
            vec![
                vec![vec![0u8, 0, 0], vec![0u8, 1, 1], vec![1u8, 1, 0]],
                vec![vec![0u8, 1, 0], vec![0u8, 1, 1], vec![0u8, 0, 1]],
            ]
        } else if t == O_BLOCK {
            vec![vec![vec![1u8, 1], vec![1u8, 1]]]
        } else if t == S_BLOCK {
            vec![
                vec![vec![0u8, 0, 0], vec![1u8, 1, 0], vec![0u8, 1, 1]],
                vec![vec![0u8, 0, 1], vec![0u8, 1, 1], vec![0u8, 1, 0]],
            ]
        } else if t == T_BLOCK {
            vec![
                vec![vec![0u8, 0, 0], vec![1u8, 1, 1], vec![0u8, 1, 0]],
                vec![vec![0u8, 1, 0], vec![1u8, 1, 0], vec![0u8, 1, 0]],
                vec![vec![0u8, 1, 0], vec![1u8, 1, 1], vec![0u8, 0, 0]],
                vec![vec![0u8, 1, 0], vec![0u8, 1, 1], vec![0u8, 1, 0]],
            ]
        } else if t == L_BLOCK {
            vec![
                vec![vec![0u8, 0, 0], vec![1u8, 1, 1], vec![1u8, 0, 0]],
                vec![vec![1u8, 1, 0], vec![0u8, 1, 0], vec![0u8, 1, 0]],
                vec![vec![0u8, 0, 1], vec![1u8, 1, 1], vec![0u8, 0, 0]],
                vec![vec![0u8, 1, 0], vec![0u8, 1, 0], vec![0u8, 1, 1]],
            ]
        } else {
            vec![
                vec![
                    vec![0u8, 0, 0, 0],
                    vec![0u8, 0, 0, 0],
                    vec![1u8, 1, 1, 1],
                    vec![0u8, 0, 0, 0],
                ],
                vec![
                    vec![0u8, 0, 1, 0],
                    vec![0u8, 0, 1, 0],
                    vec![0u8, 0, 1, 0],
                    vec![0u8, 0, 1, 0],
                ],
            ]
        };
        let start_offset: BoardXY = if t == I_BLOCK {
            (6, -1)
        } else if t == O_BLOCK {
            (8, 1)
        } else {
            (8, 0)
        };
        let m = Mino { rotations, selected_mino: t, current_rotation: 0, start_offset };
        proof {
            assert(m.rots() =~~= catalog_rotations(t));
        }
        m
    }

    /// Build a fresh bag: the 7 piece types, each exactly once, in an order
    /// drawn from the random shuffle.
    pub fn new_bag() -> (bag: Vec<Mino>)
        ensures
            bag@.len() == 7,
            forall|i: int|
                0 <= i < bag@.len() ==> (#[trigger] bag@[i]).wf() && bag@[i].current_rotation
                    == 0,
            one_of_each(bag@),
    {
        let mut ids: Vec<u8> = Vec::new();
        ids.push(1);
        ids.push(2);
        ids.push(3);
        ids.push(4);
        ids.push(5);
        ids.push(6);
        ids.push(7);
        proof {
            lemma_one_of_each_counts(ids@);
        }
        shuffle_bytes(&mut ids);
        let mut bag: Vec<Mino> = Vec::new();
        let mut i: usize = 0;
        while i < ids.len()
            invariant
                ids@.len() == 7,
                forall|v: u8|
                    ids@.to_multiset().count(v) == if 1 <= v <= 7 {
                        1nat
                    } else {
                        0nat
                    },
                i <= 7,
                bag@.len() == i,
                forall|j: int|
                    0 <= j < i ==> (#[trigger] bag@[j]).wf() && bag@[j].current_rotation == 0
                        && bag@[j].selected_mino == ids@[j],
            decreases 7 - i,
        {
            proof {
                broadcast use vstd::seq_lib::group_to_multiset_ensures;

                let v = ids@[i as int];
                assert(ids@.contains(v));
                assert(ids@.to_multiset().count(v) > 0);
                assert(1 <= v <= 7);
            }
            let m = Mino::of_type(ids[i]);
            bag.push(m);
            i = i + 1;
        }
        proof {
            assert(type_seq(bag@) =~= ids@);
        }
        bag
    }
}

/// The sequence of type ids of a sequence of pieces.
pub open spec fn type_seq(s: Seq<Mino>) -> Seq<u8> {
    s.map_values(|m: Mino| m.selected_mino)
}

/// How often each type id occurs in a sequence of pieces.
pub open spec fn type_multiset(s: Seq<Mino>) -> Multiset<u8> {
    type_seq(s).to_multiset()
}

/// The sequence holds each of the 7 piece types exactly once and nothing
/// else: the 7-bag fairness guarantee.
pub open spec fn one_of_each(s: Seq<Mino>) -> bool {
    forall|t: u8|
        type_multiset(s).count(t) == if 1 <= t <= 7 {
            1nat
        } else {
            0nat
        }
}

/// The sequence `1, 2, ..., 7` holds each value of 1..=7 exactly once and
/// nothing else.
proof fn lemma_one_of_each_counts(s: Seq<u8>)
    requires
        s =~= seq![1u8, 2, 3, 4, 5, 6, 7],
    ensures
        forall|v: u8|
            s.to_multiset().count(v) == if 1 <= v <= 7 {
                1nat
            } else {
                0nat
            },
{
    broadcast use vstd::seq_lib::group_to_multiset_ensures;
    broadcast use vstd::multiset::group_multiset_axioms;

    let e = Seq::<u8>::empty();
    assert(e.to_multiset().len() == 0);
    vstd::multiset::lemma_multiset_empty_len::<u8>(e.to_multiset());
    assert(e.to_multiset() =~= Multiset::<u8>::empty());
    assert(e.push(1u8) =~= seq![1u8]);
    assert(seq![1u8].push(2u8) =~= seq![1u8, 2]);
    assert(seq![1u8, 2].push(3u8) =~= seq![1u8, 2, 3]);
    assert(seq![1u8, 2, 3].push(4u8) =~= seq![1u8, 2, 3, 4]);
    assert(seq![1u8, 2, 3, 4].push(5u8) =~= seq![1u8, 2, 3, 4, 5]);
    assert(seq![1u8, 2, 3, 4, 5].push(6u8) =~= seq![1u8, 2, 3, 4, 5, 6]);
    assert(seq![1u8, 2, 3, 4, 5, 6].push(7u8) =~= seq![1u8, 2, 3, 4, 5, 6, 7]);
    assert(s.to_multiset() =~= Multiset::<u8>::empty().insert(1u8).insert(2u8).insert(3u8).insert(
        4u8,
    ).insert(5u8).insert(6u8).insert(7u8));
}

/// Relies on rand's `SliceRandom::shuffle`: an in-place Fisher-Yates
/// permutation of the slice, so the multiset of its elements is unchanged.
#[verifier::external_body]
fn shuffle_bytes(v: &mut Vec<u8>)
    ensures
        final(v)@.len() == old(v)@.len(),
        final(v)@.to_multiset() == old(v)@.to_multiset(),
{
    v.as_mut_slice().shuffle(&mut rand::rng())
}

/// Each catalog entry is well formed: 1 to 4 rotation states, each a square
/// box with at least one occupied sub-cell, and each within the walls and
/// the floor when taken at the spawn offset.
pub proof fn lemma_catalog_wf(t: u8)
    requires
        1 <= t <= 7,
    ensures
        1 <= catalog_rotations(t).len() <= 4,
        forall|k: int|
            0 <= k < catalog_rotations(t).len() ==> wf_rotation(
                #[trigger] catalog_rotations(t)[k],
            ),
        forall|k: int|
            0 <= k < catalog_rotations(t).len() ==> in_walls(
                #[trigger] catalog_rotations(t)[k],
                catalog_offset(t).0 as int,
                catalog_offset(t).1 as int,
            ),
        catalog_offset(t).1 >= -1,
{
    let c = catalog_rotations(t);
    assert forall|k: int| 0 <= k < c.len() implies wf_rotation(#[trigger] c[k]) by {
        if t == I_BLOCK {
            assert(occ(c[k], 2, 2));
        } else {
            assert(occ(c[k], 1, 1));
        }
    }
    assert forall|k: int|
        0 <= k < c.len() implies in_walls(
        #[trigger] c[k],
        catalog_offset(t).0 as int,
        catalog_offset(t).1 as int,
    ) by {
        assert forall|y: int, x: int| occ(c[k], y, x) implies 0 <= catalog_offset(t).0 + 2 * x
            <= 19 && catalog_offset(t).1 + y - 1 <= 19 by {}
    }
}

/// Every occupied sub-cell of every rotation state of every piece type lies
/// within the declared square bounding box of that type.
pub proof fn lemma_catalog_within_bounding_box(t: u8)
    requires
        1 <= t <= 7,
    ensures
        forall|k: int|
            0 <= k < catalog_rotations(t).len() ==> (#[trigger] catalog_rotations(t)[k]).len()
                == catalog_size(t),
        forall|k: int, y: int|
            0 <= k < catalog_rotations(t).len() && 0 <= y < catalog_size(t)
                ==> #[trigger] catalog_rotations(t)[k][y].len() == catalog_size(t),
        forall|k: int, y: int, x: int|
            0 <= k < catalog_rotations(t).len() && #[trigger] occ(catalog_rotations(t)[k], y, x)
                ==> 0 <= y < catalog_size(t) && 0 <= x < catalog_size(t),
{
}

} // verus!
