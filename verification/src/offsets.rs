use vstd::prelude::*;
use crate::model::Kind;

verus! {

/// Movement offsets of each kind, authored from the perspective of the side
/// whose pieces advance toward higher rows; callers mirror them for the other
/// side by negating both components.
pub open spec fn spec_offsets(k: Kind) -> Seq<(i8, i8)> {
    match k {
        Kind::Chick => seq![(0i8, 1i8)],
        Kind::Elephant => seq![(1i8, 1i8), (-1i8, 1i8), (1i8, -1i8), (-1i8, -1i8)],
        Kind::Giraffe => seq![(0i8, 1i8), (1i8, 0i8), (0i8, -1i8), (-1i8, 0i8)],
        Kind::Lion => seq![
            (0i8, 1i8),
            (1i8, 0i8),
            (0i8, -1i8),
            (-1i8, 0i8),
            (1i8, 1i8),
            (-1i8, 1i8),
            (1i8, -1i8),
            (-1i8, -1i8),
        ],
        Kind::Hen => seq![
            (0i8, 1i8),
            (1i8, 0i8),
            (0i8, -1i8),
            (-1i8, 0i8),
            (1i8, 1i8),
            (-1i8, 1i8),
        ],
    }
}

/// How many movement offsets the kind has.
pub fn offset_count(k: Kind) -> (n: usize)
    ensures
        n == spec_offsets(k).len(),
{
    match k {
        Kind::Chick => 1,
        Kind::Elephant => 4,
        Kind::Giraffe => 4,
        Kind::Lion => 8,
        Kind::Hen => 6,
    }
}

/// The `j`-th movement offset of the kind.
pub fn offset_at(k: Kind, j: usize) -> (o: (i8, i8))
    requires
        j < spec_offsets(k).len(),
    ensures
        o == spec_offsets(k)[j as int],
        -1 <= o.0 <= 1,
        -1 <= o.1 <= 1,
        !(o.0 == 0 && o.1 == 0),
{
    match k {
        Kind::Chick => (0i8, 1i8),
        Kind::Elephant => {
            if j == 0 {
                (1i8, 1i8)
            } else if j == 1 {
                (-1i8, 1i8)
            } else if j == 2 {
                (1i8, -1i8)
            } else {
                (-1i8, -1i8)
            }
        },
        Kind::Giraffe => {
            if j == 0 {
                (0i8, 1i8)
            } else if j == 1 {
                (1i8, 0i8)
            } else if j == 2 {
                (0i8, -1i8)
            } else {
                (-1i8, 0i8)
            }
        },
        Kind::Lion => {
            if j == 0 {
                (0i8, 1i8)
            } else if j == 1 {
                (1i8, 0i8)
            } else if j == 2 {
                (0i8, -1i8)
            } else if j == 3 {
                (-1i8, 0i8)
            } else if j == 4 {
                (1i8, 1i8)
            } else if j == 5 {
                (-1i8, 1i8)
            } else if j == 6 {
                (1i8, -1i8)
            } else {
                (-1i8, -1i8)
            }
        },
        Kind::Hen => {
            if j == 0 {
                (0i8, 1i8)
            } else if j == 1 {
                (1i8, 0i8)
            } else if j == 2 {
                (0i8, -1i8)
            } else if j == 3 {
                (-1i8, 0i8)
            } else if j == 4 {
                (1i8, 1i8)
            } else {
                (-1i8, 1i8)
            }
        },
    }
}

/// Every movement offset is a single king-step: components in -1..1 and not
/// both zero, so a board move never targets the mover's own square.
pub proof fn lemma_offsets_small(k: Kind, j: int)
    requires
        0 <= j < spec_offsets(k).len(),
    ensures
        -1 <= spec_offsets(k)[j].0 <= 1,
        -1 <= spec_offsets(k)[j].1 <= 1,
        !(spec_offsets(k)[j].0 == 0 && spec_offsets(k)[j].1 == 0),
{
    match k {
        Kind::Chick => {
            assert(spec_offsets(k)[j] == (0i8, 1i8));
        },
        Kind::Elephant => {
            if j == 0 {
                assert(spec_offsets(k)[j] == (1i8, 1i8));
            } else if j == 1 {
                assert(spec_offsets(k)[j] == (-1i8, 1i8));
            } else if j == 2 {
                assert(spec_offsets(k)[j] == (1i8, -1i8));
            } else {
                assert(spec_offsets(k)[j] == (-1i8, -1i8));
            }
        },
        Kind::Giraffe => {
            if j == 0 {
                assert(spec_offsets(k)[j] == (0i8, 1i8));
            } else if j == 1 {
                assert(spec_offsets(k)[j] == (1i8, 0i8));
            } else if j == 2 {
                assert(spec_offsets(k)[j] == (0i8, -1i8));
            } else {
                assert(spec_offsets(k)[j] == (-1i8, 0i8));
            }
        },
        Kind::Lion => {
            if j == 0 {
                assert(spec_offsets(k)[j] == (0i8, 1i8));
            } else if j == 1 {
                assert(spec_offsets(k)[j] == (1i8, 0i8));
            } else if j == 2 {
                assert(spec_offsets(k)[j] == (0i8, -1i8));
            } else if j == 3 {
                assert(spec_offsets(k)[j] == (-1i8, 0i8));
            } else if j == 4 {
                assert(spec_offsets(k)[j] == (1i8, 1i8));
            } else if j == 5 {
                assert(spec_offsets(k)[j] == (-1i8, 1i8));
            } else if j == 6 {
                assert(spec_offsets(k)[j] == (1i8, -1i8));
            } else {
                assert(spec_offsets(k)[j] == (-1i8, -1i8));
            }
        },
        Kind::Hen => {
            if j == 0 {
                assert(spec_offsets(k)[j] == (0i8, 1i8));
            } else if j == 1 {
                assert(spec_offsets(k)[j] == (1i8, 0i8));
            } else if j == 2 {
                assert(spec_offsets(k)[j] == (0i8, -1i8));
            } else if j == 3 {
                assert(spec_offsets(k)[j] == (-1i8, 0i8));
            } else if j == 4 {
                assert(spec_offsets(k)[j] == (1i8, 1i8));
            } else {
                assert(spec_offsets(k)[j] == (-1i8, 1i8));
            }
        },
    }
}

} // verus!
