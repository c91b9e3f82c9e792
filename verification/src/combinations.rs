//! Enumerates the sequences of a given length over an alphabet, with
//! repetition, in odometer order.
use crate::odometer::{
    advance, digits, lemma_advance_carries, lemma_digits_number, lemma_digits_of_zero,
    lemma_digits_shape, lemma_number_digits, lemma_power_positive, lemma_successor, number, power,
};
use vstd::prelude::*;

verus! {

/// How many sequences of length `k` there are over an alphabet of `n`
/// elements: `n` to the power of `k`, and none where the alphabet is empty.
pub open spec fn combination_count(n: nat, k: nat) -> nat {
    if n == 0 {
        0
    } else {
        power(n, k)
    }
}

/// The sequence of rank `r` among those of length `k` over `alphabet`: slot
/// by slot the elements that the digits of `r` in base `alphabet.len()` point
/// at, so that the last slot changes fastest.
pub open spec fn combination<T>(alphabet: Seq<T>, k: nat, r: nat) -> Seq<T> {
    Seq::new(k, |j: int| alphabet[digits(alphabet.len(), k, r)[j] as int])
}

/// All sequences of length `k` over `alphabet`, in the order of their rank.
pub open spec fn combinations<T>(alphabet: Seq<T>, k: nat) -> Seq<Seq<T>> {
    Seq::new(combination_count(alphabet.len(), k), |r: int| combination(alphabet, k, r as nat))
}

/// Every sequence over an alphabet that is not empty is one of the
/// combinations of its length.
pub proof fn lemma_every_sequence_comes<T>(alphabet: Seq<T>, s: Seq<T>)
    requires
        alphabet.len() > 0,
        forall|j: int| 0 <= j < s.len() ==> alphabet.contains(#[trigger] s[j]),
    ensures
        combinations(alphabet, s.len()).contains(s),
{
    let n = alphabet.len();
    let k = s.len();
    let places = Seq::new(k, |j: int| alphabet.index_of(s[j]) as nat);
    assert forall|j: int| 0 <= j < k implies #[trigger] places[j] < n && alphabet[places[j] as int]
        == s[j] by {
        assert(alphabet.contains(s[j]));
    }
    lemma_number_digits(n, places);
    let r = number(n, places);
    assert(combination(alphabet, k, r) =~= s);
    assert(combinations(alphabet, k)[r as int] == s);
}

/// Over an alphabet that holds nothing twice, no combination comes twice.
pub proof fn lemma_no_sequence_twice<T>(alphabet: Seq<T>, k: nat)
    requires
        alphabet.no_duplicates(),
    ensures
        combinations(alphabet, k).no_duplicates(),
{
    let n = alphabet.len();
    let all = combinations(alphabet, k);
    assert forall|r1: int, r2: int| 0 <= r1 < all.len() && 0 <= r2 < all.len() && r1 != r2
        implies all[r1] != all[r2] by {
        let d1 = digits(n, k, r1 as nat);
        let d2 = digits(n, k, r2 as nat);
        lemma_digits_shape(n, k, r1 as nat);
        lemma_digits_shape(n, k, r2 as nat);
        lemma_digits_number(n, k, r1 as nat);
        lemma_digits_number(n, k, r2 as nat);
        if all[r1] == all[r2] {
            assert forall|j: int| 0 <= j < k implies d1[j] == d2[j] by {
                assert(all[r1][j] == alphabet[d1[j] as int]);
                assert(all[r2][j] == alphabet[d2[j] as int]);
            }
            assert(d1 =~= d2);
        }
    }
}

/// Hands out the sequences of a fixed length over an alphabet one at a time,
/// each once, and then nothing more.
pub struct SliceCombo<T> {
    slice: Vec<T>,
    indices: Vec<usize>,
    first: bool,
    done: bool,
    rank: Ghost<nat>,
}

impl<T: Copy> SliceCombo<T> {
    /// The alphabet that the sequences are drawn from.
    pub closed spec fn alphabet(&self) -> Seq<T> {
        self.slice@
    }

    /// The length of each sequence.
    pub closed spec fn slots(&self) -> nat {
        self.indices@.len()
    }

    /// How many sequences have been handed out.
    pub closed spec fn yielded(&self) -> nat {
        if self.first {
            0
        } else if self.done {
            combination_count(self.slice@.len(), self.indices@.len())
        } else {
            self.rank@ + 1
        }
    }

    /// The cursor points at the sequence that was handed out last.
    pub closed spec fn wf(&self) -> bool {
        let n = self.slice@.len();
        let k = self.indices@.len();
        &&& n == 0 ==> self.first
        &&& self.first ==> !self.done
        &&& self.first ==> forall|j: int| 0 <= j < k ==> #[trigger] self.indices@[j] == 0
        &&& !self.first && !self.done ==> {
            &&& self.rank@ < power(n, k)
            &&& forall|j: int|
                0 <= j < k ==> #[trigger] self.indices@[j] == digits(n, k, self.rank@)[j]
        }
    }

    /// The number of sequences in all.
    pub open spec fn total(&self) -> nat {
        combination_count(self.alphabet().len(), self.slots())
    }

    /// The sequences that are still to come, in their order.
    pub open spec fn remaining(&self) -> Seq<Seq<T>> {
        combinations(self.alphabet(), self.slots()).skip(self.yielded() as int)
    }

    /// No more sequences have been handed out than there are.
    pub proof fn lemma_yielded_bound(&self)
        requires
            self.wf(),
        ensures
            self.yielded() <= self.total(),
    {
        if self.slice@.len() > 0 {
            lemma_power_positive(self.slice@.len(), self.indices@.len());
        }
    }

    pub fn new(slice: Vec<T>, slots: usize) -> (combo: Self)
        ensures
            combo.wf(),
            combo.alphabet() == slice@,
            combo.slots() == slots,
            combo.yielded() == 0,
    {
        Self { slice, indices: vec![0; slots], first: true, done: false, rank: Ghost(0) }
    }

    /// The sequence that the cursor points at.
    fn current(&self) -> (arr: Vec<T>)
        requires
            forall|j: int|
                0 <= j < self.indices@.len() ==> #[trigger] self.indices@[j] < self.slice@.len(),
        ensures
            arr@.len() == self.indices@.len(),
            forall|j: int|
                0 <= j < arr@.len() ==> #[trigger] arr@[j] == self.slice@[self.indices@[j] as int],
    {
        let len = self.indices.len();
        let mut arr: Vec<T> = Vec::with_capacity(len);
        for j in 0..len
            invariant
                len == self.indices@.len(),
                arr@.len() == j,
                forall|m: int|
                    0 <= m < len ==> #[trigger] self.indices@[m] < self.slice@.len(),
                forall|m: int|
                    0 <= m < j ==> #[trigger] arr@[m] == self.slice@[self.indices@[m] as int],
        {
            arr.push(self.slice[self.indices[j]]);
        }
        arr
    }

    /// Hands out the next sequence, or `None` once all have been handed out.
    pub fn next(&mut self) -> (item: Option<Vec<T>>)
        requires
            old(self).wf(),
        ensures
            final(self).wf(),
            final(self).alphabet() == old(self).alphabet(),
            final(self).slots() == old(self).slots(),
            match item {
                Some(arr) => {
                    &&& old(self).yielded() < old(self).total()
                    &&& arr@ == combination(
                        old(self).alphabet(),
                        old(self).slots(),
                        old(self).yielded(),
                    )
                    &&& final(self).yielded() == old(self).yielded() + 1
                    &&& arr@ == old(self).remaining().first()
                    &&& final(self).remaining() == old(self).remaining().drop_first()
                },
                None => {
                    &&& old(self).yielded() == old(self).total()
                    &&& final(self).yielded() == old(self).yielded()
                    &&& old(self).remaining().len() == 0
                    &&& final(self).remaining().len() == 0
                },
            },
    {
        let n = self.slice.len();
        if n == 0 || self.done {
            return None;
        }
        let len = self.indices.len();
        proof {
            lemma_power_positive(n as nat, len as nat);
        }
        if self.first {
            self.first = false;
            self.rank = Ghost(0);
            proof {
                lemma_digits_of_zero(n as nat, len as nat);
            }
            let arr = self.current();
            assert(arr@ =~= combination(self.slice@, len as nat, 0));
            return Some(arr);
        }
        let ghost rank = self.rank@;
        let ghost before = digits(n as nat, len as nat, rank);
        proof {
            lemma_digits_shape(n as nat, len as nat, rank);
        }
        let mut i = len;
        while i > 0
            invariant
                i <= len,
                n == self.slice@.len(),
                n > 0,
                len == self.indices@.len() == before.len(),
                self.slice@ == old(self).slice@,
                !self.first,
                !self.done,
                self.rank@ == rank,
                !old(self).first,
                !old(self).done,
                old(self).rank@ == rank,
                old(self).indices@.len() == len,
                rank < power(n as nat, len as nat),
                before == digits(n as nat, len as nat, rank),
                forall|j: int| 0 <= j < len ==> #[trigger] before[j] < n,
                forall|j: int| 0 <= j < i ==> #[trigger] self.indices@[j] == before[j],
                forall|j: int| i <= j < len ==> #[trigger] self.indices@[j] == 0,
                forall|j: int| i <= j < len ==> #[trigger] before[j] + 1 == n,
            decreases i,
        {
            i -= 1;
            let at = self.indices[i];
            if at < n - 1 {
                self.indices[i] = at + 1;
                self.rank = Ghost(rank + 1);
                proof {
                    lemma_successor(n as nat, len as nat, rank);
                    lemma_advance_carries(n as nat, before, i + 1);
                    let step = advance(n as nat, before);
                    assert(before.take(i + 1).drop_last() == before.take(i as int));
                    assert(before[i as int] + 1 != n);
                    assert forall|j: int| 0 <= j < len implies #[trigger] self.indices@[j]
                        == step[j] by {}
                    lemma_digits_shape(n as nat, len as nat, rank + 1);
                }
                let arr = self.current();
                assert(arr@ =~= combination(self.slice@, len as nat, rank + 1));
                return Some(arr);
            } else {
                self.indices[i] = 0;
            }
        }
        proof {
            lemma_successor(n as nat, len as nat, rank);
        }
        self.done = true;
        None
    }
}

} // verus!
