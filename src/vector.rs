use vstd::prelude::*;
use crate::matrix::{is_dot, is_dot_chain, Matrix};

verus! {

/// A vector of `size` entries, addressed by a zero-based index.
pub struct VecD<T> {
    size: usize,
    content: Vec<T>,
}

impl<T> View for VecD<T> {
    type V = Seq<T>;

    /// The entries in order.
    closed spec fn view(&self) -> Seq<T> {
        self.content@
    }
}

impl<T> VecD<T> {
    /// Number of entries.
    pub closed spec fn len(&self) -> nat {
        self.size as nat
    }

    /// The stored entries are exactly `len()` many.
    pub open spec fn wf(&self) -> bool {
        self@.len() == self.len()
    }

    /// Number of entries.
    pub fn size(&self) -> (r: usize)
        ensures
            r == self.len(),
    {
        self.size
    }

    /// The vector holding the entries of `list`, in order.
    pub fn from_vec(list: Vec<T>) -> (r: Self)
        ensures
            r.wf(),
            r@ == list@,
    {
        VecD { size: list.len(), content: list }
    }
}

impl<T: Copy> VecD<T> {
    /// A vector of `size` entries, each `zero`.
    pub fn new(size: usize, zero: T) -> (r: Self)
        ensures
            r.wf(),
            r@ == Seq::new(size as nat, |i: int| zero),
    {
        let mut content: Vec<T> = Vec::new();
        let mut i: usize = 0;
        while i < size
            invariant
                i <= size,
                content@ == Seq::new(i as nat, |a: int| zero),
            decreases size - i,
        {
            content.push(zero);
            i = i + 1;
        }
        VecD { size, content }
    }

    /// The entry at `i`, or `None` where `i` is not below the length.
    pub fn get_element(&self, i: usize) -> (r: Option<T>)
        requires
            self.wf(),
        ensures
            r == if i < self@.len() { Some(self@[i as int]) } else { None::<T> },
    {
        if i < self.size {
            Some(self.content[i])
        } else {
            None
        }
    }

    /// A mutable reference to the entry at `i`, or `None` where `i` is not below the
    /// length. Writing through the reference changes that entry alone.
    pub fn get_mut_element(&mut self, i: usize) -> (r: Option<&mut T>)
        requires
            old(self).wf(),
        ensures
            r is None <==> i >= old(self)@.len(),
            r is None ==> *final(self) == *old(self),
            match r {
                Some(e) => {
                    &&& *e == old(self)@[i as int]
                    &&& final(self).wf()
                    &&& final(self)@ == old(self)@.update(i as int, *final(e))
                },
                None => true,
            },
    {
        if i < self.size {
            Some(&mut self.content[i])
        } else {
            None
        }
    }

    /// The vector as an `n` x 1 grid, its entries copied into the single column.
    pub fn to_column(&self) -> (r: Matrix<T>)
        requires
            self.wf(),
        ensures
            r.wf(),
            r.rows() == self@.len(),
            r.cols() == 1,
            forall|i: int| 0 <= i < self@.len() ==> #[trigger] r@[i] == seq![self@[i]],
    {
        Matrix::from_column(&self.content)
    }

    /// The vector whose every entry is `f` applied to the entry at the same index.
    pub fn map_entries<F: Fn(T) -> T>(&self, f: F) -> (r: Self)
        requires
            self.wf(),
            forall|a: T| #[trigger] f.requires((a,)),
        ensures
            r.wf(),
            r@.len() == self@.len(),
            forall|i: int| 0 <= i < self@.len() ==> f.ensures((self@[i],), #[trigger] r@[i]),
    {
        let mut content: Vec<T> = Vec::new();
        let mut i: usize = 0;
        while i < self.size
            invariant
                self.wf(),
                forall|a: T| #[trigger] f.requires((a,)),
                i <= self.size,
                content@.len() == i,
                forall|a: int| 0 <= a < i ==> f.ensures((self@[a],), #[trigger] content@[a]),
            decreases self.size - i,
        {
            let e = f(self.content[i]);
            content.push(e);
            i = i + 1;
        }
        VecD { size: self.size, content }
    }

    /// The vector whose entry `i` is `f` applied to entry `i` of `self` and of `other`,
    /// or `None` where the two lengths differ.
    pub fn zip_with<F: Fn(T, T) -> T>(&self, other: &Self, f: F) -> (r: Option<Self>)
        requires
            self.wf(),
            other.wf(),
            forall|a: T, b: T| #[trigger] f.requires((a, b)),
        ensures
            r is Some <==> self@.len() == other@.len(),
            match r {
                Some(v) => {
                    &&& v.wf()
                    &&& v@.len() == self@.len()
                    &&& forall|i: int| 0 <= i < self@.len() ==> f.ensures((self@[i], other@[i]), #[trigger] v@[i])
                },
                None => true,
            },
    {
        if self.size != other.size {
            return None;
        }
        let mut content: Vec<T> = Vec::new();
        let mut i: usize = 0;
        while i < self.size
            invariant
                self.wf(),
                other.wf(),
                self@.len() == other@.len(),
                forall|a: T, b: T| #[trigger] f.requires((a, b)),
                i <= self.size,
                content@.len() == i,
                forall|a: int| 0 <= a < i ==> f.ensures((self@[a], other@[a]), #[trigger] content@[a]),
            decreases self.size - i,
        {
            let e = f(self.content[i], other.content[i]);
            content.push(e);
            i = i + 1;
        }
        Some(VecD { size: self.size, content })
    }

    /// The scalar product of `self` and `other`: from `zero`, in increasing index, `plus`
    /// of the sum so far and `times` of the two entries at that index. `None` where the
    /// two lengths differ.
    pub fn scalar_with<FA: Fn(T, T) -> T, FM: Fn(T, T) -> T>(
        &self,
        other: &Self,
        zero: T,
        plus: FA,
        times: FM,
    ) -> (r: Option<T>)
        requires
            self.wf(),
            other.wf(),
            forall|a: T, b: T| #[trigger] plus.requires((a, b)),
            forall|a: T, b: T| #[trigger] times.requires((a, b)),
        ensures
            r is Some <==> self@.len() == other@.len(),
            match r {
                Some(d) => is_dot(self@, other@, zero, plus, times, d),
                None => true,
            },
    {
        if self.size != other.size {
            return None;
        }
        let mut acc = zero;
        let ghost mut prods: Seq<T> = Seq::empty();
        let ghost mut accs: Seq<T> = seq![zero];
        let mut c: usize = 0;
        while c < self.size
            invariant
                self.wf(),
                other.wf(),
                self@.len() == other@.len(),
                forall|a: T, b: T| #[trigger] plus.requires((a, b)),
                forall|a: T, b: T| #[trigger] times.requires((a, b)),
                c <= self.size,
                is_dot_chain(self@.subrange(0, c as int), other@.subrange(0, c as int), zero, plus, times, prods, accs),
                acc == accs[c as int],
            decreases self.size - c,
        {
            let p = times(self.content[c], other.content[c]);
            let next = plus(acc, p);
            proof {
                let ra = self@.subrange(0, c + 1);
                let cb = other@.subrange(0, c + 1);
                let old_prods = prods;
                let old_accs = accs;
                prods = prods.push(p);
                accs = accs.push(next);
                assert forall|d: int| 0 <= d < c + 1 implies #[trigger] times.ensures((ra[d], cb[d]), prods[d]) by {
                    if d < c {
                        assert(ra[d] == self@.subrange(0, c as int)[d]);
                        assert(cb[d] == other@.subrange(0, c as int)[d]);
                        assert(prods[d] == old_prods[d]);
                    }
                }
                assert forall|d: int| 0 <= d < c + 1 implies #[trigger] plus.ensures((accs[d], prods[d]), accs[d + 1]) by {
                    if d < c {
                        assert(accs[d] == old_accs[d]);
                        assert(accs[d + 1] == old_accs[d + 1]);
                        assert(prods[d] == old_prods[d]);
                    }
                }
            }
            acc = next;
            c = c + 1;
        }
        proof {
            assert(self@.subrange(0, self@.len() as int) == self@);
            assert(other@.subrange(0, other@.len() as int) == other@);
            assert(is_dot_chain(self@, other@, zero, plus, times, prods, accs));
        }
        Some(acc)
    }
}

} // verus!
