//! The dihedral group of order `2N`: rotations, possibly after a flip.
use vstd::prelude::*;

verus! {

/// An element of the dihedral group: a flip (or none) and a rotation by `rot`
/// steps of `N`.
#[derive(Copy, Clone, Debug, PartialEq, Eq)]
pub struct Dihedral<const N: u8> {
    pub flip: bool,
    pub rot: u8,
}

impl<const N: u8> Default for Dihedral<N> {
    /// The identity.
    fn default() -> (r: Self)
        ensures
            !r.flip,
            r.rot == 0,
    {
        Self::id()
    }
}

impl<const N: u8> Dihedral<N> {
    /// The identity: no flip, no rotation.
    pub fn id() -> (r: Self)
        ensures
            !r.flip,
            r.rot == 0,
    {
        Self { flip: false, rot: 0 }
    }

    /// The composition of `self` then `other`: flipped when exactly one of them
    /// is; the rotation is that of `self` (mirrored as `N - rot` when `other`
    /// flips) plus that of `other` reduced modulo `N`.
    pub fn op(&self, other: &Self) -> (r: Self)
        requires
            N > 0,
            other.flip ==> self.rot <= N,
            (if other.flip { N - self.rot } else { self.rot as int }) + other.rot % N <= u8::MAX,
        ensures
            r.flip == (self.flip != other.flip),
            r.rot == (if other.flip { N - self.rot } else { self.rot as int }) + other.rot % N,
    {
        Self {
            flip: self.flip != other.flip,
            rot: if other.flip { N - self.rot } else { self.rot } + other.rot % N,
        }
    }

    /// The element with the same flip, whose rotation is mirrored as
    /// `N - rot` when it flips.
    pub fn inverse(&self) -> (r: Self)
        requires
            self.flip ==> self.rot <= N,
        ensures
            r.flip == self.flip,
            r.rot == if self.flip { N - self.rot } else { self.rot as int },
    {
        Self { rot: if self.flip { N - self.rot } else { self.rot }, flip: self.flip }
    }

    /// Every element of the group, one after the other.
    pub fn all() -> (r: DihedralGenerator<N>)
        ensures
            r.next == Some(Self::id_spec()),
    {
        DihedralGenerator::default()
    }

    /// The identity.
    pub open spec fn id_spec() -> Self {
        Dihedral { flip: false, rot: 0 }
    }
}

impl Dihedral<4> {
    /// The element maps rows to rows: an even rotation without a flip, or an odd
    /// one with a flip.
    pub fn is_horizontal(&self) -> (r: bool)
        ensures
            r == ((self.rot % 2 == 0) != self.flip),
    {
        (self.rot % 2 == 0) ^ self.flip
    }
}

/// The elements of the group, one after the other: the rotations without a
/// flip, then the rotations with a flip.
#[derive(Copy, Clone, Debug, PartialEq, Eq)]
pub struct DihedralGenerator<const N: u8> {
    pub next: Option<Dihedral<N>>,
}

/// How many elements follow from `d` on, `d` included.
pub open spec fn left_from<const N: u8>(d: Dihedral<N>) -> int {
    let rotations = if d.rot + 1 >= N { 1 } else { N - d.rot };
    let all_rotations = if N == 0 { 1 } else { N as int };
    if d.flip {
        rotations
    } else {
        rotations + all_rotations
    }
}

impl<const N: u8> DihedralGenerator<N> {
    /// The element after `next`: after a rotation without a flip the next
    /// rotation, or after the last one the flip without a rotation; after a
    /// rotation with a flip the next one, or none.
    pub open spec fn successor(next: Option<Dihedral<N>>) -> Option<Dihedral<N>> {
        match next {
            None => None,
            Some(d) => if d.flip {
                if d.rot + 1 >= N {
                    None
                } else {
                    Some(Dihedral::<N> { flip: true, rot: (d.rot + 1) as u8 })
                }
            } else if d.rot + 1 >= N {
                Some(Dihedral::<N> { flip: true, rot: 0 })
            } else {
                Some(Dihedral::<N> { flip: false, rot: (d.rot + 1) as u8 })
            },
        }
    }

    /// How many elements are left.
    pub open spec fn remaining(self) -> int {
        match self.next {
            None => 0,
            Some(d) => left_from(d),
        }
    }

    /// The next element, if any is left: after a rotation without a flip comes
    /// the next rotation, or after the last one the flip without a rotation;
    /// after a rotation with a flip comes the next one, or the end.
    pub fn next(&mut self) -> (r: Option<Dihedral<N>>)
        requires
            old(self).next matches Some(d) ==> d.rot < u8::MAX,
        ensures
            r == old(self).next,
            final(self).next == Self::successor(old(self).next),
    {
        let current = match self.next {
            Some(current) => current,
            None => return None,
        };
        self.next = if current.flip {
            if current.rot + 1 >= N {
                None
            } else {
                Some(Dihedral { flip: true, rot: current.rot + 1 })
            }
        } else if current.rot + 1 >= N {
            Some(Dihedral { flip: true, rot: 0 })
        } else {
            Some(Dihedral { flip: false, rot: current.rot + 1 })
        };
        Some(current)
    }

    /// Counts the elements that are left, taking them all.
    pub fn count(self) -> (n: usize)
        requires
            self.next matches Some(d) ==> d.rot < u8::MAX,
        ensures
            n == self.remaining(),
    {
        let mut generator = self;
        let mut n: usize = 0;
        while generator.next.is_some()
            invariant
                generator.next matches Some(d) ==> d.rot < u8::MAX,
                n + generator.remaining() == self.remaining(),
                0 <= generator.remaining() <= 512,
                n <= 512,
            decreases generator.remaining(),
        {
            generator.next();
            n = n + 1;
        }
        n
    }
}

impl<const N: u8> Default for DihedralGenerator<N> {
    /// The elements from the identity on.
    fn default() -> (r: Self)
        ensures
            r.next == Some(Dihedral::<N>::id_spec()),
    {
        Self { next: Some(Dihedral::id()) }
    }
}

/// The group has `2N` elements (two when `N` is 0), and [`Dihedral::all`]
/// lists each of them once.
pub proof fn lemma_all_count<const N: u8>()
    ensures
        (DihedralGenerator::<N> { next: Some(Dihedral::<N>::id_spec()) }).remaining() == if N == 0 {
            2
        } else {
            2 * N
        },
{
}

/// The element at position `k` in the order [`Dihedral::all`] lists them:
/// the rotations `0` to `N - 1` without a flip, then with a flip; none from
/// position `2N` on.
pub open spec fn element_at<const N: u8>(k: nat) -> Option<Dihedral<N>> {
    if k < N {
        Some(Dihedral::<N> { flip: false, rot: k as u8 })
    } else if k < 2 * N {
        Some(Dihedral::<N> { flip: true, rot: (k - N) as u8 })
    } else {
        None
    }
}

/// What `k` calls of [`DihedralGenerator::next`] leave as the next element,
/// from `next` on.
pub open spec fn after_steps<const N: u8>(next: Option<Dihedral<N>>, k: nat) -> Option<Dihedral<N>>
    decreases k,
{
    if k == 0 {
        next
    } else {
        DihedralGenerator::<N>::successor(after_steps(next, (k - 1) as nat))
    }
}

/// Calling [`DihedralGenerator::next`] again and again on [`Dihedral::all`]
/// gives the rotations `0` to `N - 1` without a flip, then the same with a
/// flip, then `None` on every later call: `2N` distinct elements, each with
/// a rotation below `N`.
pub proof fn lemma_all_order<const N: u8>(k: nat)
    requires
        N >= 1,
    ensures
        after_steps(Some(Dihedral::<N>::id_spec()), k) == element_at::<N>(k),
    decreases k,
{
    if k > 0 {
        lemma_all_order::<N>((k - 1) as nat);
    }
}

} // verus!
