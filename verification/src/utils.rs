//! The lexicographic maximum of several sequences, read one item at a time;
//! signed values; durations.
use std::time::Duration;
use vstd::prelude::*;

verus! {

/// `a` comes before `b` in lexicographic order, where a sequence that has
/// ended comes before any sequence that goes on.
pub open spec fn lex_lt(a: Seq<u8>, b: Seq<u8>) -> bool
    decreases a.len(),
{
    if b.len() == 0 {
        false
    } else if a.len() == 0 {
        true
    } else if a[0] != b[0] {
        a[0] < b[0]
    } else {
        lex_lt(a.drop_first(), b.drop_first())
    }
}

/// `m` is one of `seqs` and none of `seqs` comes after it; where there is no
/// sequence at all, `m` is empty.
pub open spec fn is_lex_max(m: Seq<u8>, seqs: Seq<Seq<u8>>) -> bool {
    &&& seqs.len() == 0 ==> m.len() == 0
    &&& seqs.len() > 0 ==> seqs.contains(m)
    &&& forall|i: int| 0 <= i < seqs.len() ==> !lex_lt(m, #[trigger] seqs[i])
}

/// The lexicographic order is total and strict.
pub proof fn lemma_lex_total(a: Seq<u8>, b: Seq<u8>)
    ensures
        a =~= b || lex_lt(a, b) || lex_lt(b, a),
        !(lex_lt(a, b) && lex_lt(b, a)),
        !lex_lt(a, a),
    decreases a.len(),
{
    if a.len() > 0 {
        lemma_lex_total(a.drop_first(), a.drop_first());
    }
    if a.len() > 0 && b.len() > 0 {
        lemma_lex_total(a.drop_first(), b.drop_first());
        if a[0] == b[0] && a.drop_first() =~= b.drop_first() {
            assert(a =~= seq![a[0]] + a.drop_first());
            assert(b =~= seq![b[0]] + b.drop_first());
        }
    }
}

/// The lexicographic order is transitive.
pub proof fn lemma_lex_transitive(a: Seq<u8>, b: Seq<u8>, c: Seq<u8>)
    requires
        lex_lt(a, b),
        lex_lt(b, c),
    ensures
        lex_lt(a, c),
    decreases a.len(),
{
    if a.len() > 0 && b.len() > 0 && c.len() > 0 && a[0] == b[0] && b[0] == c[0] {
        lemma_lex_transitive(a.drop_first(), b.drop_first(), c.drop_first());
    }
}

/// Every sequence of sequences has a lexicographic maximum.
pub proof fn lemma_lex_max_exists(seqs: Seq<Seq<u8>>)
    ensures
        exists|m: Seq<u8>| is_lex_max(m, seqs),
    decreases seqs.len(),
{
    if seqs.len() == 0 {
        assert(is_lex_max(Seq::<u8>::empty(), seqs));
    } else {
        let rest = seqs.drop_last();
        let last = seqs.last();
        assert forall|i: int| 0 <= i < rest.len() implies #[trigger] seqs[i] == rest[i] by {}
        if rest.len() == 0 {
            lemma_lex_total(last, last);
            assert(seqs[0] == last);
            assert(is_lex_max(last, seqs));
        } else {
            lemma_lex_max_exists(rest);
            let m0 = choose|m: Seq<u8>| is_lex_max(m, rest);
            let j0 = choose|j: int| 0 <= j < rest.len() && rest[j] == m0;
            if lex_lt(m0, last) {
                assert forall|i: int| 0 <= i < seqs.len() implies !lex_lt(last, #[trigger] seqs[i]) by {
                    lemma_lex_total(last, last);
                    if i < rest.len() && lex_lt(last, seqs[i]) {
                        lemma_lex_transitive(m0, last, seqs[i]);
                        assert(!lex_lt(m0, rest[i]));
                    }
                }
                assert(seqs[seqs.len() - 1] == last);
                assert(is_lex_max(last, seqs));
            } else {
                assert(seqs[j0] == m0);
                assert(is_lex_max(m0, seqs));
            }
        }
    }
}

/// There is only one lexicographic maximum.
pub proof fn lemma_lex_max_unique(m1: Seq<u8>, m2: Seq<u8>, seqs: Seq<Seq<u8>>)
    requires
        is_lex_max(m1, seqs),
        is_lex_max(m2, seqs),
    ensures
        m1 == m2,
{
    lemma_lex_total(m1, m2);
    if seqs.len() > 0 {
        let i1 = choose|i: int| 0 <= i < seqs.len() && seqs[i] == m1;
        let i2 = choose|i: int| 0 <= i < seqs.len() && seqs[i] == m2;
        assert(!lex_lt(m1, seqs[i2]));
        assert(!lex_lt(m2, seqs[i1]));
    }
}

/// The first item of `s`, or `None` when `s` is empty.
pub open spec fn head(s: Seq<u8>) -> Option<u8> {
    if s.len() == 0 {
        None
    } else {
        Some(s[0])
    }
}

/// `s` with its first item read, if it has one.
pub open spec fn advance(s: Seq<u8>) -> Seq<u8> {
    if s.len() == 0 {
        s
    } else {
        s.drop_first()
    }
}

/// The order of read items: an ended sequence (`None`) comes first.
pub open spec fn opt_lt(a: Option<u8>, b: Option<u8>) -> bool {
    match (a, b) {
        (None, Some(_)) => true,
        (Some(x), Some(y)) => x < y,
        _ => false,
    }
}

/// The greatest first item among `seqs`, found by going through them in
/// order; `None` when there is none.
pub open spec fn fold_max(seqs: Seq<Seq<u8>>) -> Option<u8>
    decreases seqs.len(),
{
    if seqs.len() == 0 {
        None
    } else {
        let m = fold_max(seqs.drop_last());
        let h = head(seqs.last());
        if opt_lt(m, h) {
            h
        } else {
            m
        }
    }
}

/// The sequences whose first item is the greatest, each with that item read,
/// in their order.
pub open spec fn fold_kept(seqs: Seq<Seq<u8>>) -> Seq<Seq<u8>>
    decreases seqs.len(),
{
    if seqs.len() == 0 {
        seq![]
    } else {
        let m = fold_max(seqs.drop_last());
        let h = head(seqs.last());
        if opt_lt(m, h) {
            seq![advance(seqs.last())]
        } else if m == h {
            fold_kept(seqs.drop_last()).push(advance(seqs.last()))
        } else {
            fold_kept(seqs.drop_last())
        }
    }
}

/// The number of items left in all of `seqs`.
pub open spec fn total_len(seqs: Seq<Seq<u8>>) -> nat
    decreases seqs.len(),
{
    if seqs.len() == 0 {
        0
    } else {
        total_len(seqs.drop_last()) + seqs.last().len()
    }
}

/// What `fold_max` and `fold_kept` are: the greatest first item, which some
/// sequence has, and the sequences that have it, each read once.
proof fn lemma_fold(seqs: Seq<Seq<u8>>)
    ensures
        forall|i: int| 0 <= i < seqs.len() ==> !opt_lt(fold_max(seqs), #[trigger] head(seqs[i])),
        seqs.len() > 0 ==> exists|i: int|
            0 <= i < seqs.len() && #[trigger] head(seqs[i]) == fold_max(seqs),
        forall|j: int|
            0 <= j < fold_kept(seqs).len() ==> exists|i: int|
                0 <= i < seqs.len() && head(seqs[i]) == fold_max(seqs) && #[trigger] fold_kept(
                    seqs,
                )[j] == advance(seqs[i]),
        forall|i: int|
            0 <= i < seqs.len() && #[trigger] head(seqs[i]) == fold_max(seqs) ==> fold_kept(
                seqs,
            ).contains(advance(seqs[i])),
        total_len(fold_kept(seqs)) + (if fold_max(seqs) is Some {
            1nat
        } else {
            0nat
        }) <= total_len(seqs),
    decreases seqs.len(),
{
    if seqs.len() > 0 {
        let rest = seqs.drop_last();
        lemma_fold(rest);
        let m = fold_max(rest);
        let s = seqs.last();
        let h = head(s);
        let kept = fold_kept(seqs);
        let kept0 = fold_kept(rest);
        assert forall|i: int| 0 <= i < rest.len() implies #[trigger] seqs[i] == rest[i] by {}
        assert(total_len(seqs) == total_len(rest) + s.len());
        if opt_lt(m, h) {
            assert(kept =~= seq![advance(s)]);
            assert(kept.drop_last() =~= Seq::<Seq<u8>>::empty());
            assert(total_len(Seq::<Seq<u8>>::empty()) == 0);
            assert(total_len(kept) == advance(s).len());
            assert forall|i: int| 0 <= i < seqs.len() && #[trigger] head(seqs[i]) == fold_max(
                seqs,
            ) implies kept.contains(advance(seqs[i])) by {
                if i < rest.len() {
                    assert(head(rest[i]) == h);
                    assert(!opt_lt(m, head(rest[i])));
                }
                assert(kept[0] == advance(seqs[i]));
            }
            assert(head(seqs[seqs.len() - 1]) == fold_max(seqs));
            assert(kept[0] == advance(seqs[seqs.len() - 1]));
        } else if m == h {
            assert forall|j: int| 0 <= j < kept.len() implies exists|i: int|
                0 <= i < seqs.len() && head(seqs[i]) == fold_max(seqs) && #[trigger] kept[j]
                    == advance(seqs[i]) by {
                if j < kept0.len() {
                    assert(kept[j] == kept0[j]);
                    let i = choose|i: int|
                        0 <= i < rest.len() && head(rest[i]) == fold_max(rest) && #[trigger] kept0[j]
                            == advance(rest[i]);
                    assert(seqs[i] == rest[i]);
                } else {
                    assert(kept[j] == advance(seqs[seqs.len() - 1]));
                }
            }
            assert forall|i: int| 0 <= i < seqs.len() && #[trigger] head(seqs[i]) == fold_max(
                seqs,
            ) implies kept.contains(advance(seqs[i])) by {
                if i < rest.len() {
                    assert(head(rest[i]) == fold_max(rest));
                    assert(kept0.contains(advance(rest[i])));
                    let j = choose|j: int| 0 <= j < kept0.len() && kept0[j] == advance(rest[i]);
                    assert(kept[j] == kept0[j]);
                } else {
                    assert(kept[kept.len() - 1] == advance(seqs[i]));
                }
            }
            if rest.len() > 0 {
                let i0 = choose|i: int| 0 <= i < rest.len() && #[trigger] head(rest[i]) == fold_max(rest);
                assert(head(seqs[i0]) == fold_max(seqs));
            } else {
                assert(head(seqs[0]) == fold_max(seqs));
            }
            assert(kept.drop_last() =~= kept0);
            assert(total_len(kept) == total_len(kept0) + advance(s).len());
        } else {
            assert forall|j: int| 0 <= j < kept.len() implies exists|i: int|
                0 <= i < seqs.len() && head(seqs[i]) == fold_max(seqs) && #[trigger] kept[j]
                    == advance(seqs[i]) by {
                let i = choose|i: int|
                    0 <= i < rest.len() && head(rest[i]) == fold_max(rest) && #[trigger] kept0[j]
                        == advance(rest[i]);
                assert(seqs[i] == rest[i]);
            }
            assert forall|i: int| 0 <= i < seqs.len() && #[trigger] head(seqs[i]) == fold_max(
                seqs,
            ) implies kept.contains(advance(seqs[i])) by {
                if i < rest.len() {
                    assert(head(rest[i]) == fold_max(rest));
                }
            }
            if rest.len() > 0 {
                let i0 = choose|i: int| 0 <= i < rest.len() && #[trigger] head(rest[i]) == fold_max(rest);
                assert(head(seqs[i0]) == fold_max(seqs));
            }
        }
        assert forall|i: int| 0 <= i < seqs.len() implies !opt_lt(
            fold_max(seqs),
            #[trigger] head(seqs[i]),
        ) by {
            if i < rest.len() {
                assert(!opt_lt(m, head(rest[i])));
            }
        }
    }
}

/// One read step of the lexicographic maximum: the greatest first item,
/// followed by the maximum of the sequences that start with it.
proof fn lemma_step_lex_max(seqs: Seq<Seq<u8>>, rest_max: Seq<u8>)
    requires
        fold_max(seqs) is Some,
        is_lex_max(rest_max, fold_kept(seqs)),
    ensures
        is_lex_max(seq![fold_max(seqs)->0] + rest_max, seqs),
{
    lemma_fold(seqs);
    let x = fold_max(seqs)->0;
    let r = seq![x] + rest_max;
    let kept = fold_kept(seqs);
    let i0 = choose|i: int| 0 <= i < seqs.len() && #[trigger] head(seqs[i]) == fold_max(seqs);
    assert(kept.contains(advance(seqs[i0])));
    let j = choose|j: int| 0 <= j < kept.len() && kept[j] == rest_max;
    let i = choose|i: int|
        0 <= i < seqs.len() && head(seqs[i]) == fold_max(seqs) && #[trigger] kept[j] == advance(
            seqs[i],
        );
    assert(seqs[i] =~= r);
    assert(seqs.contains(r));
    assert forall|k: int| 0 <= k < seqs.len() implies !lex_lt(r, #[trigger] seqs[k]) by {
        let s = seqs[k];
        assert(!opt_lt(fold_max(seqs), head(s)));
        if s.len() > 0 && s[0] == x {
            assert(kept.contains(advance(s)));
            let jk = choose|jk: int| 0 <= jk < kept.len() && kept[jk] == advance(s);
            assert(!lex_lt(rest_max, kept[jk]));
            assert(r.drop_first() =~= rest_max);
        }
    }
}

/// When no sequence has an item left, the maximum is the empty sequence.
proof fn lemma_ended_lex_max(seqs: Seq<Seq<u8>>)
    requires
        fold_max(seqs) is None,
    ensures
        is_lex_max(seq![], seqs),
{
    lemma_fold(seqs);
    assert forall|k: int| 0 <= k < seqs.len() implies #[trigger] seqs[k].len() == 0 by {
        assert(!opt_lt(fold_max(seqs), head(seqs[k])));
    }
    if seqs.len() > 0 {
        assert(seqs[0] =~= seq![]);
    }
}

/// The lexicographically greatest of several sequences, read one item at a
/// time: each read gives the greatest next item among the sequences still in
/// the running, and drops those whose next item was smaller.
pub struct MaxIter {
    seqs: Vec<Vec<u8>>,
    cursors: Vec<(usize, usize)>,
}

impl View for MaxIter {
    type V = Seq<Seq<u8>>;

    /// What is left to read of each sequence still in the running, in the
    /// order they were added.
    closed spec fn view(&self) -> Seq<Seq<u8>> {
        Seq::new(
            self.cursors@.len(),
            |j: int|
                self.seqs@[self.cursors@[j].0 as int]@.subrange(
                    self.cursors@[j].1 as int,
                    self.seqs@[self.cursors@[j].0 as int]@.len() as int,
                ),
        )
    }
}

impl MaxIter {
    /// Every cursor points into an added sequence.
    pub closed spec fn wf(&self) -> bool {
        forall|j: int|
            0 <= j < self.cursors@.len() ==> {
                &&& (#[trigger] self.cursors@[j]).0 < self.seqs@.len()
                &&& self.cursors@[j].1 <= self.seqs@[self.cursors@[j].0 as int]@.len()
            }
    }

    /// No sequence yet.
    pub fn new() -> (r: Self)
        ensures
            r.wf(),
            r@ == Seq::<Seq<u8>>::empty(),
    {
        let r = MaxIter { seqs: Vec::new(), cursors: Vec::new() };
        assert(r@ =~= Seq::<Seq<u8>>::empty());
        r
    }

    /// Adds `seq` to the running, from its first item.
    pub fn add_iter(&mut self, seq: Vec<u8>)
        requires
            old(self).wf(),
        ensures
            final(self).wf(),
            final(self)@ == old(self)@.push(seq@),
    {
        let ghost old_self = *self;
        let k = self.seqs.len();
        self.seqs.push(seq);
        self.cursors.push((k, 0));
        assert forall|j: int| 0 <= j < old_self.seqs@.len() implies #[trigger] self.seqs@[j]
            == old_self.seqs@[j] by {}
        assert(self@ =~= old_self@.push(seq@)) by {
            assert forall|j: int| 0 <= j < self@.len() implies #[trigger] self@[j] == old_self@.push(
                seq@,
            )[j] by {
                if j < old_self@.len() {
                    let c = old_self.cursors@[j];
                    assert(self.seqs@[c.0 as int] == old_self.seqs@[c.0 as int]);
                } else {
                    assert(self.seqs@[k as int]@.subrange(0, seq@.len() as int) =~= seq@);
                }
            }
        }
    }

    /// Reads one item: the greatest next item among the sequences still in
    /// the running (`None` once none has an item left), keeping only the
    /// sequences whose next item it was.
    pub fn next(&mut self) -> (r: Option<u8>)
        requires
            old(self).wf(),
        ensures
            final(self).wf(),
            r == fold_max(old(self)@),
            final(self)@ == fold_kept(old(self)@),
    {
        let ghost all = self@;
        let mut kept: Vec<(usize, usize)> = Vec::new();
        let mut max: Option<u8> = None;
        let mut i: usize = 0;
        while i < self.cursors.len()
            invariant
                self.wf(),
                self@ == all,
                0 <= i <= self.cursors@.len(),
                max == fold_max(all.take(i as int)),
                forall|j: int|
                    0 <= j < kept@.len() ==> {
                        &&& (#[trigger] kept@[j]).0 < self.seqs@.len()
                        &&& kept@[j].1 <= self.seqs@[kept@[j].0 as int]@.len()
                    },
                Seq::new(
                    kept@.len(),
                    |j: int|
                        self.seqs@[kept@[j].0 as int]@.subrange(
                            kept@[j].1 as int,
                            self.seqs@[kept@[j].0 as int]@.len() as int,
                        ),
                ) == fold_kept(all.take(i as int)),
            decreases self.cursors@.len() - i,
        {
            let (k, p) = self.cursors[i];
            let seq = &self.seqs[k];
            let ghost s = all[i as int];
            assert(s == seq@.subrange(p as int, seq@.len() as int));
            let (next, adv) = if p < seq.len() {
                (Some(seq[p]), p + 1)
            } else {
                (None, p)
            };
            proof {
                assert(next == head(s));
                assert(seq@.subrange(adv as int, seq@.len() as int) =~= advance(s));
                assert(all.take(i + 1).drop_last() =~= all.take(i as int));
                assert(all.take(i + 1).last() == s);
            }
            let ghost old_kept = kept@;
            let is_greater = match (max, next) {
                (None, Some(_)) => true,
                (Some(x), Some(y)) => x < y,
                _ => false,
            };
            let is_equal = match (max, next) {
                (None, None) => true,
                (Some(x), Some(y)) => x == y,
                _ => false,
            };
            if is_greater {
                kept = vec![(k, adv)];
                max = next;
            } else if is_equal {
                kept.push((k, adv));
            }
            proof {
                let view_kept = Seq::new(
                    kept@.len(),
                    |j: int|
                        self.seqs@[kept@[j].0 as int]@.subrange(
                            kept@[j].1 as int,
                            self.seqs@[kept@[j].0 as int]@.len() as int,
                        ),
                );
                let view_old = Seq::new(
                    old_kept.len(),
                    |j: int|
                        self.seqs@[old_kept[j].0 as int]@.subrange(
                            old_kept[j].1 as int,
                            self.seqs@[old_kept[j].0 as int]@.len() as int,
                        ),
                );
                if is_greater {
                    assert(view_kept =~= seq![advance(s)]);
                } else if is_equal {
                    assert(view_kept =~= view_old.push(advance(s)));
                } else {
                    assert(view_kept =~= view_old);
                }
            }
            i = i + 1;
        }
        proof {
            assert(all.take(i as int) =~= all);
        }
        self.cursors = kept;
        max
    }

    /// Reads every item: the lexicographically greatest of the sequences
    /// added (the empty sequence when none was).
    pub fn collect(&mut self) -> (r: Vec<u8>)
        requires
            old(self).wf(),
        ensures
            is_lex_max(r@, old(self)@),
    {
        let ghost start = self@;
        assert(start == old(self)@);
        let mut out: Vec<u8> = Vec::new();
        loop
            invariant
                self.wf(),
                start == old(self)@,
                forall|m: Seq<u8>| is_lex_max(m, self@) ==> is_lex_max(#[trigger] (out@ + m), start),
            decreases total_len(self@),
        {
            let ghost before = self@;
            proof {
                lemma_fold(before);
            }
            match self.next() {
                Some(x) => {
                    proof {
                        assert forall|m: Seq<u8>| is_lex_max(m, self@) implies is_lex_max(
                            #[trigger] (out@.push(x) + m),
                            start,
                        ) by {
                            lemma_step_lex_max(before, m);
                            assert(out@.push(x) + m =~= out@ + (seq![x] + m));
                        }
                    }
                    out.push(x);
                },
                None => {
                    proof {
                        lemma_ended_lex_max(before);
                        let e = Seq::<u8>::empty();
                        assert(e =~= seq![]);
                        assert(is_lex_max(e, before));
                        assert(is_lex_max(out@ + e, start));
                        assert(out@ + e =~= out@);
                        assert(is_lex_max(out@, start));
                    }
                    return out;
                },
            }
        }
    }
}

/// A value with a sign.
#[derive(Copy, Clone, Debug, PartialEq, Eq)]
pub enum Signed<T> {
    Positive(T),
    Negative(T),
}

/// A duration, shown in the unit that suits its size.
#[derive(Copy, Clone, Debug, Default, PartialEq, Eq)]
pub struct HumanDuration(pub Duration);

} // verus!
