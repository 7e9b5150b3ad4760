//! A growable sequence container that allocates its backing storage in
//! fixed-size chunks instead of one contiguous block, so that growing never
//! moves elements that were already written.

use vstd::arithmetic::div_mod::lemma_fundamental_div_mod;
use vstd::arithmetic::div_mod::lemma_fundamental_div_mod_converse;
use vstd::arithmetic::div_mod::lemma_mod_pos_bound;
use vstd::prelude::*;

verus! {

/// A chunked sequence: elements live in a list of fixed-capacity chunks,
/// each holding up to `chunk_size` elements. Appending allocates a fresh
/// chunk only when every existing slot is occupied, so elements already
/// stored are never relocated.
#[derive(Debug, Clone, PartialEq, Eq)]
pub struct Vec2<T> {
    data: Vec<Vec<T>>,
    len: usize,
    cap: usize,
    chunk_size: usize,
}

impl<T> View for Vec2<T> {
    type V = Seq<T>;

    closed spec fn view(&self) -> Seq<T> {
        Seq::new(
            self.len as nat,
            |i: int| self.data@[i / (self.chunk_size as int)]@[i % (self.chunk_size as int)],
        )
    }
}

impl<T> Vec2<T> {
    /// The fixed number of slots per chunk, as chosen at construction.
    pub closed spec fn spec_chunk_size(self) -> int {
        self.chunk_size as int
    }

    /// Total slots allocated across all chunks; never decreases.
    pub closed spec fn spec_capacity(self) -> int {
        self.cap as int
    }

    /// How many live elements chunk `i` holds: every chunk before the one
    /// containing the logical end is full, the one at the end is partial,
    /// and chunks past it are empty.
    spec fn chunk_fill(self, i: int) -> int {
        let cs = self.chunk_size as int;
        if self.len as int >= (i + 1) * cs {
            cs
        } else if self.len as int > i * cs {
            self.len as int - i * cs
        } else {
            0
        }
    }

    /// Structural invariant: a positive chunk size, a capacity that counts
    /// exactly the allocated slots, and chunk lengths that follow the
    /// logical length.
    pub closed spec fn wf(self) -> bool {
        &&& self.chunk_size >= 1
        &&& self.cap as int == (self.data@.len() as int) * (self.chunk_size as int)
        &&& self.len <= self.cap
        &&& forall|i: int|
            0 <= i < self.data@.len() ==> (#[trigger] self.data@[i])@.len() == self.chunk_fill(i)
    }

    /// Where logical index `i` lives: chunk `i / chunk_size`, offset
    /// `i % chunk_size`, both in bounds whenever `i` is.
    proof fn lemma_addr(self, i: int)
        requires
            self.wf(),
            0 <= i < self@.len(),
        ensures
            0 <= i / self.spec_chunk_size() < self.data@.len(),
            0 <= i % self.spec_chunk_size() < self.data@[i / self.spec_chunk_size()]@.len(),
            self@[i] == self.data@[i / self.spec_chunk_size()]@[i % self.spec_chunk_size()],
    {
        let cs = self.chunk_size as int;
        let q = i / cs;
        let r = i % cs;
        lemma_fundamental_div_mod(i, cs);
        lemma_mod_pos_bound(i, cs);
        assert(0 <= q && q < self.data@.len()) by (nonlinear_arith)
            requires
                cs >= 1,
                i == cs * q + r,
                0 <= r < cs,
                0 <= i,
                i < (self.data@.len() as int) * cs,
        {}
        assert(self.chunk_fill(q) > r) by (nonlinear_arith)
            requires
                cs >= 1,
                i == cs * q + r,
                0 <= r < cs,
                i < self.len as int,
                self.chunk_fill(q) == (if self.len as int >= (q + 1) * cs {
                    cs
                } else if self.len as int > q * cs {
                    self.len as int - q * cs
                } else {
                    0
                }),
        {}
    }

    /// Creates an empty sequence whose chunks will each hold `chunk_size`
    /// elements. A chunk size of zero is ruled out before construction.
    pub fn new(chunk_size: usize) -> (v: Vec2<T>)
        requires
            chunk_size >= 1,
        ensures
            v.wf(),
            v@ == Seq::<T>::empty(),
            v.spec_chunk_size() == chunk_size,
            v.spec_capacity() == 0,
    {
        let v = Vec2 { data: Vec::new(), len: 0, cap: 0, chunk_size };
        proof {
            assert(v@ =~= Seq::<T>::empty());
            assert(v.data@.len() == 0);
            assert((v.data@.len() as int) * (v.chunk_size as int) == 0) by (nonlinear_arith)
                requires
                    v.data@.len() == 0,
            {}
        }
        v
    }

    /// Returns the number of elements currently stored.
    pub fn len(&self) -> (n: usize)
        ensures
            n == self@.len(),
    {
        self.len
    }

    /// Returns true when no element is stored.
    pub fn is_empty(&self) -> (b: bool)
        ensures
            b == (self@.len() == 0),
    {
        self.len == 0
    }

    /// Returns the chunk size fixed at construction.
    pub fn chunk_size(&self) -> (n: usize)
        ensures
            n == self.spec_chunk_size(),
    {
        self.chunk_size
    }

    /// Returns the total number of allocated slots.
    pub fn capacity(&self) -> (n: usize)
        ensures
            n == self.spec_capacity(),
    {
        self.cap
    }

    /// Returns the element at `index`, or `None` when `index` is past the
    /// end; out-of-range access is an expected, recoverable condition here.
    pub fn get(&self, index: usize) -> (r: Option<&T>)
        requires
            self.wf(),
        ensures
            index < self@.len() ==> r is Some && *r.unwrap() == self@[index as int],
            index >= self@.len() ==> r is None,
    {
        if index >= self.len {
            None
        } else {
            Some(self.index(index))
        }
    }

    /// Direct read access for callers that have already established that
    /// `index` is in range; the bound is a precondition, not a runtime check.
    pub fn index(&self, index: usize) -> (r: &T)
        requires
            self.wf(),
            index < self@.len(),
        ensures
            *r == self@[index as int],
    {
        proof {
            self.lemma_addr(index as int);
        }
        &self.data[index / self.chunk_size][index % self.chunk_size]
    }

    /// Direct write access under the same trusted-caller contract as
    /// `index`: the element behind the returned reference is the one at
    /// `index`, and whatever is finally written through it is exactly what
    /// the sequence holds there afterwards.
    pub fn index_mut(&mut self, index: usize) -> (r: &mut T)
        requires
            old(self).wf(),
            index < old(self)@.len(),
        ensures
            *r == old(self)@[index as int],
            final(self)@ == old(self)@.update(index as int, *final(r)),
            final(self).wf(),
            final(self).spec_chunk_size() == old(self).spec_chunk_size(),
            final(self).spec_capacity() == old(self).spec_capacity(),
    {
        let ghost cs = self.chunk_size as int;
        let ghost idx = index as int;
        proof {
            self.lemma_addr(idx);
        }
        let ci = index / self.chunk_size;
        let oi = index % self.chunk_size;
        let r = &mut self.data[ci][oi];
        proof {
            assert(after_borrow(*self).data@.len() == old(self).data@.len());
            assert(after_borrow(*self).data@[ci as int]@ == old(self).data@[ci as int]@.update(
                oi as int,
                *final(r),
            ));
            assert(forall|j: int|
                0 <= j < old(self).data@.len() && j != ci as int ==> after_borrow(*self).data@[j]
                    == #[trigger] old(self).data@[j]);
            assert(after_borrow(*self).len == old(self).len && after_borrow(*self).cap == old(self).cap
                && after_borrow(*self).chunk_size == old(self).chunk_size);
            assert forall|j: int| 0 <= j < after_borrow(*self).data@.len() implies (
            #[trigger] after_borrow(*self).data@[j])@.len() == after_borrow(*self).chunk_fill(j) by {
                assert(old(self).data@[j]@.len() == old(self).chunk_fill(j));
            }
            assert forall|i: int| 0 <= i < old(self)@.len() && i != idx implies after_borrow(*self)@[i]
                == old(self)@[i] by {
                old(self).lemma_addr(i);
                lemma_fundamental_div_mod(i, cs);
                lemma_fundamental_div_mod(idx, cs);
                if i / cs == ci as int {
                    assert(i % cs != oi as int);
                }
            }
            assert(after_borrow(*self)@[idx] == *final(r)) by {
                lemma_fundamental_div_mod(idx, cs);
            }
            assert(after_borrow(*self)@ =~= old(self)@.update(idx, *final(r)));
        }
        r
    }

    /// Returns a mutable reference to the element at `index`, or `None`
    /// when `index` is past the end; the recoverable counterpart of
    /// `index_mut`.
    pub fn get_mut(&mut self, index: usize) -> (r: Option<&mut T>)
        requires
            old(self).wf(),
        ensures
            final(self).wf(),
            final(self).spec_chunk_size() == old(self).spec_chunk_size(),
            final(self).spec_capacity() == old(self).spec_capacity(),
            index >= old(self)@.len() ==> r is None && final(self)@ == old(self)@,
            index < old(self)@.len() ==> r is Some && *r.unwrap() == old(self)@[index as int]
                && final(self)@ == old(self)@.update(index as int, *final(r.unwrap())),
    {
        if index >= self.len {
            None
        } else {
            Some(self.index_mut(index))
        }
    }

    /// The view after exchanging two positions, rebuilt from what happened
    /// to the chunks: every slot outside the two swapped ones is untouched,
    /// so the whole sequence is the original with the two entries exchanged.
    proof fn lemma_swap_view(pre: Self, post: Self, a: int, b: int)
        requires
            pre.wf(),
            0 <= a < pre@.len(),
            0 <= b < pre@.len(),
            a != b,
            post.len == pre.len,
            post.cap == pre.cap,
            post.chunk_size == pre.chunk_size,
            post.data@.len() == pre.data@.len(),
            forall|j: int|
                0 <= j < pre.data@.len() ==> (#[trigger] post.data@[j])@.len()
                    == pre.data@[j]@.len(),
            forall|i: int|
                0 <= i < pre@.len() && i != a && i != b ==> (#[trigger] post.data@[i
                    / pre.spec_chunk_size()])@[i % pre.spec_chunk_size()] == pre.data@[i
                    / pre.spec_chunk_size()]@[i % pre.spec_chunk_size()],
            post.data@[a / pre.spec_chunk_size()]@[a % pre.spec_chunk_size()] == pre@[b],
            post.data@[b / pre.spec_chunk_size()]@[b % pre.spec_chunk_size()] == pre@[a],
        ensures
            post.wf(),
            post@ == pre@.update(a, pre@[b]).update(b, pre@[a]),
    {
        assert forall|j: int| 0 <= j < post.data@.len() implies (
        #[trigger] post.data@[j])@.len() == post.chunk_fill(j) by {
            assert(pre.data@[j]@.len() == pre.chunk_fill(j));
        }
        pre.lemma_addr(a);
        pre.lemma_addr(b);
        assert forall|i: int| 0 <= i < post@.len() implies post@[i] == pre@.update(
            a,
            pre@[b],
        ).update(b, pre@[a])[i] by {
            pre.lemma_addr(i);
        }
        assert(post@ =~= pre@.update(a, pre@[b]).update(b, pre@[a]));
    }

    /// Exchanges the elements at logical positions `a` and `b` in place; no
    /// other element moves and no chunk is reallocated. Both indices must
    /// be in range, mirroring the trusted-caller accessors; `a == b` is a
    /// no-op.
    pub fn swap(&mut self, a: usize, b: usize)
        requires
            old(self).wf(),
            a < old(self)@.len(),
            b < old(self)@.len(),
        ensures
            final(self).wf(),
            final(self)@ == old(self)@.update(a as int, old(self)@[b as int]).update(
                b as int,
                old(self)@[a as int],
            ),
            final(self).spec_chunk_size() == old(self).spec_chunk_size(),
            final(self).spec_capacity() == old(self).spec_capacity(),
    {
        if a == b {
            proof {
                assert(old(self)@.update(a as int, old(self)@[b as int]).update(
                    b as int,
                    old(self)@[a as int],
                ) =~= old(self)@);
            }
            return ;
        }
        let (lo, hi) = if a < b {
            (a, b)
        } else {
            (b, a)
        };
        let ghost cs = self.chunk_size as int;
        let ghost pre = *self;
        proof {
            self.lemma_addr(lo as int);
            self.lemma_addr(hi as int);
            lemma_fundamental_div_mod(lo as int, cs);
            lemma_fundamental_div_mod(hi as int, cs);
            lemma_mod_pos_bound(lo as int, cs);
            lemma_mod_pos_bound(hi as int, cs);
        }
        let clo = lo / self.chunk_size;
        let olo = lo % self.chunk_size;
        let chi = hi / self.chunk_size;
        let ohi = hi % self.chunk_size;
        if clo == chi {
            proof {
                assert(olo < ohi) by (nonlinear_arith)
                    requires
                        cs >= 1,
                        (lo as int) < (hi as int),
                        lo as int == cs * (clo as int) + (olo as int),
                        hi as int == cs * (chi as int) + (ohi as int),
                        clo == chi,
                        0 <= (olo as int) && (olo as int) < cs,
                        0 <= (ohi as int) && (ohi as int) < cs,
                {}
            }
            let row = &mut self.data[clo];
            let (x, y) = two_muts(row.as_mut_slice(), olo, ohi);
            core::mem::swap(x, y);
            proof {
                assert forall|i: int|
                    0 <= i < pre@.len() && i != lo as int && i != hi as int implies (
                #[trigger] after_borrow(*self).data@[i / pre.spec_chunk_size()])@[i
                    % pre.spec_chunk_size()] == pre.data@[i / pre.spec_chunk_size()]@[i
                    % pre.spec_chunk_size()] by {
                    pre.lemma_addr(i);
                    lemma_fundamental_div_mod(i, cs);
                    lemma_mod_pos_bound(i, cs);
                    if i / cs == clo as int {
                        assert(i % cs != olo as int && i % cs != ohi as int);
                    }
                }
                Self::lemma_swap_view(pre, after_borrow(*self), lo as int, hi as int);
            }
        } else {
            proof {
                assert(clo < chi) by (nonlinear_arith)
                    requires
                        cs >= 1,
                        (lo as int) < (hi as int),
                        lo as int == cs * (clo as int) + (olo as int),
                        hi as int == cs * (chi as int) + (ohi as int),
                        clo != chi,
                        0 <= (olo as int) && (olo as int) < cs,
                        0 <= (ohi as int) && (ohi as int) < cs,
                {}
            }
            let (rlo, rhi) = two_muts(self.data.as_mut_slice(), clo, chi);
            let x = &mut rlo[olo];
            let y = &mut rhi[ohi];
            core::mem::swap(x, y);
            proof {
                assert forall|i: int|
                    0 <= i < pre@.len() && i != lo as int && i != hi as int implies (
                #[trigger] after_borrow(*self).data@[i / pre.spec_chunk_size()])@[i
                    % pre.spec_chunk_size()] == pre.data@[i / pre.spec_chunk_size()]@[i
                    % pre.spec_chunk_size()] by {
                    pre.lemma_addr(i);
                    lemma_fundamental_div_mod(i, cs);
                    lemma_mod_pos_bound(i, cs);
                    if i / cs == clo as int {
                        assert(i % cs != olo as int);
                    }
                    if i / cs == chi as int {
                        assert(i % cs != ohi as int);
                    }
                }
                Self::lemma_swap_view(pre, after_borrow(*self), lo as int, hi as int);
            }
        }
        proof {
            if a > b {
                assert(after_borrow(*self)@ =~= old(self)@.update(
                    a as int,
                    old(self)@[b as int],
                ).update(b as int, old(self)@[a as int]));
            }
        }
    }

    /// Starts a read-only traversal of the current elements, in logical
    /// order, without consuming or changing the sequence.
    pub fn iter<'a>(&'a self) -> (it: Iter<'a, T>)
        requires
            self.wf(),
        ensures
            it.wf(),
            it.elems() == self@,
            it.spec_pos() == 0,
    {
        Iter { v: self, pos: 0 }
    }

    /// Starts a mutable traversal of the current elements, in logical
    /// order. The traversal borrows the sequence exclusively; what the
    /// sequence holds once that borrow ends is whatever the traversal's
    /// lent references finally wrote.
    pub fn iter_mut<'a>(&'a mut self) -> (it: IterMut<'a, T>)
        requires
            old(self).wf(),
        ensures
            it.pos == 0,
            *it.v == *old(self),
            *final(it.v) == *final(self),
    {
        IterMut { v: self, pos: 0 }
    }

    /// Appends `value` at the logical end. A fresh chunk, pre-sized to hold
    /// exactly `chunk_size` elements, is allocated only when every existing
    /// slot is occupied; no element already stored is moved.
    pub fn push(&mut self, value: T)
        requires
            old(self).wf(),
            old(self)@.len() == old(self).spec_capacity() ==> old(self).spec_capacity()
                + old(self).spec_chunk_size() <= usize::MAX,
        ensures
            final(self).wf(),
            final(self)@ == old(self)@.push(value),
            final(self).spec_chunk_size() == old(self).spec_chunk_size(),
            final(self).spec_capacity() == if old(self)@.len() == old(self).spec_capacity() {
                old(self).spec_capacity() + old(self).spec_chunk_size()
            } else {
                old(self).spec_capacity()
            },
    {
        let ghost cs = self.chunk_size as int;
        if self.len == self.cap {
            self.data.push(Vec::with_capacity(self.chunk_size));
            self.cap = self.cap + self.chunk_size;
            proof {
                let dlen = old(self).data@.len() as int;
                assert((dlen + 1) * cs == dlen * cs + cs) by (nonlinear_arith) {}
                assert forall|i: int| 0 <= i < self.data@.len() implies (
                #[trigger] self.data@[i])@.len() == self.chunk_fill(i) by {
                    if i < dlen {
                        assert(old(self).data@[i]@.len() == old(self).chunk_fill(i));
                    } else {
                        assert(self.len as int <= i * cs) by (nonlinear_arith)
                            requires
                                self.len as int == dlen * cs,
                                i == dlen,
                                cs >= 1,
                        {}
                    }
                }
                assert forall|i: int| 0 <= i < self@.len() implies self@[i] == old(self)@[i] by {
                    old(self).lemma_addr(i);
                }
                assert(self@ =~= old(self)@);
            }
        }
        let ghost mid = *self;
        proof {
            assert(mid.wf());
            assert(mid@ == old(self)@);
            assert(mid.len < mid.cap);
        }
        let ci = self.len / self.chunk_size;
        proof {
            lemma_fundamental_div_mod(mid.len as int, cs);
            lemma_mod_pos_bound(mid.len as int, cs);
            assert((ci as int) < mid.data@.len()) by (nonlinear_arith)
                requires
                    cs >= 1,
                    mid.len as int == cs * (ci as int) + (mid.len as int % cs),
                    0 <= mid.len as int % cs < cs,
                    (mid.len as int) < (mid.data@.len() as int) * cs,
                    ci as int == mid.len as int / cs,
            {}
            assert(mid.data@[ci as int]@.len() == mid.chunk_fill(ci as int));
            assert(mid.chunk_fill(ci as int) == mid.len as int % cs) by (nonlinear_arith)
                requires
                    cs >= 1,
                    mid.len as int == cs * (ci as int) + (mid.len as int % cs),
                    0 <= mid.len as int % cs < cs,
                    mid.chunk_fill(ci as int) == (if mid.len as int >= (ci as int + 1) * cs {
                        cs
                    } else if mid.len as int > (ci as int) * cs {
                        mid.len as int - (ci as int) * cs
                    } else {
                        0
                    }),
            {}
        }
        let row = &mut self.data[ci];
        row.push(value);
        self.len = self.len + 1;
        proof {
            let l = mid.len as int;
            assert(self.data@.len() == mid.data@.len());
            assert(self.data@[ci as int]@ == mid.data@[ci as int]@.push(value));
            assert(forall|i: int|
                0 <= i < mid.data@.len() && i != ci as int ==> self.data@[i] == #[trigger] mid.data@[i]);
            assert forall|i: int| 0 <= i < self.data@.len() implies (
            #[trigger] self.data@[i])@.len() == self.chunk_fill(i) by {
                assert(mid.data@[i]@.len() == mid.chunk_fill(i));
                assert(self.chunk_fill(i) == if i == ci as int {
                    mid.chunk_fill(i) + 1
                } else {
                    mid.chunk_fill(i)
                }) by (nonlinear_arith)
                    requires
                        cs >= 1,
                        0 <= i,
                        l == cs * (ci as int) + (l % cs),
                        0 <= l % cs < cs,
                        self.len as int == l + 1,
                        self.chunk_size as int == cs,
                        mid.chunk_size as int == cs,
                        mid.len as int == l,
                        ci as int == l / cs,
                {}
            }
            assert forall|i: int| 0 <= i < l implies self@[i] == mid@[i] by {
                mid.lemma_addr(i);
                if i / cs == ci as int {
                    assert(i % cs < mid.data@[ci as int]@.len());
                }
            }
            assert(self@[l] == value) by {
                lemma_fundamental_div_mod(l, cs);
                lemma_mod_pos_bound(l, cs);
                assert(l == (ci as int) * cs + (l % cs)) by (nonlinear_arith)
                    requires
                        l == cs * (ci as int) + (l % cs),
                        ci as int == l / cs,
                        cs >= 1,
                {}
                lemma_fundamental_div_mod_converse(l, cs, ci as int, l % cs);
            }
            assert(self@ =~= mid@.push(value));
        }
    }

    /// Removes and returns the last element, or `None` when the sequence is
    /// empty. Capacity is untouched: no chunk is freed or shrunk.
    pub fn pop(&mut self) -> (r: Option<T>)
        requires
            old(self).wf(),
        ensures
            final(self).wf(),
            final(self).spec_chunk_size() == old(self).spec_chunk_size(),
            final(self).spec_capacity() == old(self).spec_capacity(),
            old(self)@.len() == 0 ==> r is None && final(self)@ == old(self)@,
            old(self)@.len() > 0 ==> r == Some(old(self)@.last())
                && final(self)@ == old(self)@.drop_last(),
    {
        if self.len == 0 {
            return None;
        }
        let ghost cs = self.chunk_size as int;
        let ghost orig = *self;
        self.len = self.len - 1;
        let ghost l = self.len as int;
        let ci = self.len / self.chunk_size;
        proof {
            old(self).lemma_addr(l);
            lemma_fundamental_div_mod(l, cs);
            lemma_mod_pos_bound(l, cs);
            assert(orig.chunk_fill(ci as int) == l % cs + 1) by (nonlinear_arith)
                requires
                    cs >= 1,
                    l == cs * (ci as int) + (l % cs),
                    0 <= l % cs < cs,
                    orig.len as int == l + 1,
                    orig.chunk_fill(ci as int) == (if l + 1 >= (ci as int + 1) * cs {
                        cs
                    } else if l + 1 > (ci as int) * cs {
                        l + 1 - (ci as int) * cs
                    } else {
                        0
                    }),
            {}
            assert(old(self).data@[ci as int]@.len() == l % cs + 1);
        }
        let row = &mut self.data[ci];
        let r = row.pop();
        proof {
            assert(self.data@.len() == old(self).data@.len());
            assert(self.data@[ci as int]@ == old(self).data@[ci as int]@.drop_last());
            assert(forall|i: int|
                0 <= i < old(self).data@.len() && i != ci as int
                    ==> self.data@[i] == #[trigger] old(self).data@[i]);
            assert forall|i: int| 0 <= i < self.data@.len() implies (
            #[trigger] self.data@[i])@.len() == self.chunk_fill(i) by {
                assert(old(self).data@[i]@.len() == old(self).chunk_fill(i));
                assert(self.chunk_fill(i) == if i == ci as int {
                    orig.chunk_fill(i) - 1
                } else {
                    orig.chunk_fill(i)
                }) by (nonlinear_arith)
                    requires
                        cs >= 1,
                        0 <= i,
                        l == cs * (ci as int) + (l % cs),
                        0 <= l % cs < cs,
                        self.len as int == l,
                        self.chunk_size as int == cs,
                        orig.chunk_size as int == cs,
                        orig.len as int == l + 1,
                        ci as int == l / cs,
                {}
                assert(orig.chunk_fill(i) == old(self).chunk_fill(i));
            }
            assert forall|i: int| 0 <= i < l implies self@[i] == old(self)@[i] by {
                old(self).lemma_addr(i);
                lemma_fundamental_div_mod(i, cs);
                lemma_mod_pos_bound(i, cs);
                if i / cs == ci as int {
                    assert(i % cs < l % cs);
                    assert(self.data@[ci as int]@[i % cs] == old(self).data@[ci as int]@[i % cs]);
                }
            }
            assert(self@ =~= old(self)@.drop_last());
            assert(r == Some(old(self)@.last()));
        }
        r
    }

    /// Empties every chunk and resets the length to zero. The chunks stay
    /// allocated, so the capacity is exactly what it was before.
    pub fn clear(&mut self)
        requires
            old(self).wf(),
        ensures
            final(self).wf(),
            final(self)@ == Seq::<T>::empty(),
            final(self).spec_chunk_size() == old(self).spec_chunk_size(),
            final(self).spec_capacity() == old(self).spec_capacity(),
    {
        let mut i: usize = 0;
        let n = self.data.len();
        while i < n
            invariant
                n == self.data@.len(),
                i <= n,
                self.len == old(self).len,
                self.cap == old(self).cap,
                self.chunk_size == old(self).chunk_size,
                forall|j: int| 0 <= j < i ==> (#[trigger] self.data@[j])@.len() == 0,
                forall|j: int| i <= j < n ==> self.data@[j] == old(self).data@[j],
            decreases n - i,
        {
            let row = &mut self.data[i];
            row.clear();
            i = i + 1;
        }
        self.len = 0;
        proof {
            assert forall|j: int| 0 <= j < self.data@.len() implies (
            #[trigger] self.data@[j])@.len() == self.chunk_fill(j) by {
                assert(self.chunk_fill(j) == 0) by (nonlinear_arith)
                    requires
                        self.len as int == 0,
                        self.chunk_size >= 1,
                        0 <= j,
                        self.chunk_fill(j) == (if self.len as int >= (j + 1) * (
                        self.chunk_size as int) {
                            self.chunk_size as int
                        } else if self.len as int > j * (self.chunk_size as int) {
                            self.len as int - j * (self.chunk_size as int)
                        } else {
                            0
                        }),
                {}
            }
            assert(self@ =~= Seq::<T>::empty());
        }
    }
}

/// Hands out mutable references to two distinct positions of one slice,
/// splitting the borrow so that both can be held at the same time.
fn two_muts<T>(s: &mut [T], i: usize, j: usize) -> (r: (&mut T, &mut T))
    requires
        i < j,
        j < old(s)@.len(),
    ensures
        *r.0 == old(s)@[i as int],
        *r.1 == old(s)@[j as int],
        final(s)@ == old(s)@.update(i as int, *final(r.0)).update(j as int, *final(r.1)),
{
    let (left, right) = s.split_at_mut(j);
    let (_skip, mid) = left.split_at_mut(i);
    let a = mid.first_mut().unwrap();
    let b = right.first_mut().unwrap();
    proof {
        assert(after_borrow(s)@ =~= old(s)@.update(i as int, *final(a)).update(
            j as int,
            *final(b),
        ));
    }
    (a, b)
}

/// A forward traversal over a `Vec2`, yielding a shared reference to every
/// live element once, in logical order. Obtained from [`Vec2::iter`]; a new
/// call starts a fresh traversal.
pub struct Iter<'a, T> {
    v: &'a Vec2<T>,
    pos: usize,
}

impl<'a, T> Iter<'a, T> {
    /// The full sequence this traversal walks over.
    pub closed spec fn elems(self) -> Seq<T> {
        self.v@
    }

    /// How many elements were already yielded.
    pub closed spec fn spec_pos(self) -> int {
        self.pos as int
    }

    /// A traversal is valid while its cursor has not run past its sequence.
    pub closed spec fn wf(self) -> bool {
        self.v.wf() && self.pos <= self.v@.len()
    }

    /// Yields the next element, or `None` once every element was seen; the
    /// elements come back in exactly the order the sequence holds them.
    pub fn next(&mut self) -> (r: Option<&'a T>)
        requires
            old(self).wf(),
        ensures
            final(self).wf(),
            final(self).elems() == old(self).elems(),
            old(self).spec_pos() < old(self).elems().len() ==> r is Some
                && *r.unwrap() == old(self).elems()[old(self).spec_pos()]
                && final(self).spec_pos() == old(self).spec_pos() + 1,
            old(self).spec_pos() >= old(self).elems().len() ==> r is None && final(self).spec_pos()
                == old(self).spec_pos(),
    {
        if self.pos < self.v.len() {
            let i = self.pos;
            self.pos = self.pos + 1;
            Some(self.v.index(i))
        } else {
            None
        }
    }
}

/// A forward traversal over a `Vec2` that lends out a mutable reference to
/// every live element once, in logical order. Obtained from
/// [`Vec2::iter_mut`]; while it exists it holds the only access to the
/// sequence, and writes through the references it lends are exactly the
/// changes the sequence shows afterwards.
pub struct IterMut<'a, T> {
    /// The borrowed sequence; the traversal holds the only access to it.
    pub v: &'a mut Vec2<T>,
    /// How many elements were already yielded.
    pub pos: usize,
}

impl<'a, T> IterMut<'a, T> {
    /// A traversal is valid while its cursor has not run past its sequence.
    pub open spec fn wf(self) -> bool {
        (*self.v).wf() && self.pos <= (*self.v)@.len()
    }

    /// Yields a mutable reference to the next element, or `None` once every
    /// element was seen. The value finally written through the reference is
    /// exactly what the sequence holds at that position afterwards, and the
    /// traversal keeps borrowing the same sequence throughout.
    pub fn next(&mut self) -> (r: Option<&mut T>)
        requires
            old(self).wf(),
        ensures
            final(self).wf(),
            *final(final(self).v) == *final(old(self).v),
            (*final(self).v).spec_chunk_size() == (*old(self).v).spec_chunk_size(),
            (*final(self).v).spec_capacity() == (*old(self).v).spec_capacity(),
            old(self).pos < (*old(self).v)@.len() ==> r is Some
                && *r.unwrap() == (*old(self).v)@[old(self).pos as int]
                && final(self).pos == old(self).pos + 1
                && (*final(self).v)@ == (*old(self).v)@.update(
                    old(self).pos as int,
                    *final(r.unwrap()),
                ),
            old(self).pos >= (*old(self).v)@.len() ==> r is None
                && final(self).pos == old(self).pos
                && (*final(self).v)@ == (*old(self).v)@,
    {
        if self.pos < self.v.len() {
            let i = self.pos;
            self.pos = self.pos + 1;
            Some(self.v.index_mut(i))
        } else {
            None
        }
    }
}

/// Doubles every element in place by walking the sequence with a mutable
/// traversal: each element is visited exactly once, in logical order, and
/// afterwards the sequence holds the doubled values in the original order.
pub fn double_each(v: &mut Vec2<u64>)
    requires
        old(v).wf(),
        forall|i: int| 0 <= i < old(v)@.len() ==> old(v)@[i] < 0x8000_0000_0000_0000,
    ensures
        final(v).wf(),
        final(v)@.len() == old(v)@.len(),
        forall|i: int| 0 <= i < old(v)@.len() ==> final(v)@[i] == 2 * old(v)@[i],
        final(v).spec_chunk_size() == old(v).spec_chunk_size(),
        final(v).spec_capacity() == old(v).spec_capacity(),
{
    let n = v.len();
    let ghost orig = *v;
    let mut it = v.iter_mut();
    let mut i: usize = 0;
    while i < n
        invariant
            it.wf(),
            i == it.pos,
            i <= n,
            n == orig@.len(),
            (*it.v)@.len() == orig@.len(),
            (*it.v).spec_chunk_size() == orig.spec_chunk_size(),
            (*it.v).spec_capacity() == orig.spec_capacity(),
            forall|j: int| 0 <= j < orig@.len() ==> orig@[j] < 0x8000_0000_0000_0000,
            forall|j: int| 0 <= j < i ==> (*it.v)@[j] == 2 * orig@[j],
            forall|j: int| i <= j < orig@.len() ==> (*it.v)@[j] == orig@[j],
            *final(it.v) == after_borrow(*v),
        decreases n - i,
    {
        match it.next() {
            Some(e) => {
                proof {
                    assert(*e == orig@[i as int]);
                }
                *e = *e * 2;
            },
            None => {
                proof {
                    assert(false);
                }
            },
        }
        i = i + 1;
    }
    proof {
        assert(*it.v == *final(it.v));
    }
}

/// The sequence obtained by appending the values of `vs`, one after
/// another, to `s` — the step `push`'s contract takes for each call.
pub open spec fn pushed_all<T>(s: Seq<T>, vs: Seq<T>) -> Seq<T>
    decreases vs.len(),
{
    if vs.len() == 0 {
        s
    } else {
        pushed_all(s.push(vs[0]), vs.drop_first())
    }
}

/// Appending values one at a time is concatenation: after pushing the
/// values of `vs` in order, the sequence is the original followed by
/// exactly those values, so the length has grown by `vs.len()` and a
/// traversal then yields the pushed values in push order.
pub proof fn lemma_pushed_all<T>(s: Seq<T>, vs: Seq<T>)
    ensures
        pushed_all(s, vs) == s + vs,
        pushed_all(s, vs).len() == s.len() + vs.len(),
    decreases vs.len(),
{
    if vs.len() == 0 {
        assert(pushed_all(s, vs) =~= s + vs);
    } else {
        lemma_pushed_all(s.push(vs[0]), vs.drop_first());
        assert(s.push(vs[0]) + vs.drop_first() =~= s + vs);
    }
}

/// `push` followed at once by `pop` is the identity: the pop hands back
/// the value just pushed and the sequence — hence also its length — is
/// exactly what it was before the push. That popping an empty sequence
/// yields no value, without a fault, is part of `pop`'s own contract.
pub proof fn lemma_push_then_pop<T>(s: Seq<T>, value: T)
    ensures
        s.push(value).last() == value,
        s.push(value).drop_last() == s,
        s.push(value).len() == s.len() + 1,
{
    assert(s.push(value).drop_last() =~= s);
}

/// The least multiple of `size` with room for `n` elements:
/// `ceil(n / size) * size`.
pub open spec fn round_up_to_chunks(n: int, size: int) -> int {
    ((n + size - 1) / size) * size
}

/// Capacity tracks the length while the sequence only grows: a fresh
/// sequence starts at `round_up_to_chunks(0, size) == 0`, and whenever the
/// capacity stands at `round_up_to_chunks(len, size)`, the capacity that
/// `push`'s contract yields — one chunk more when everything is full,
/// unchanged otherwise — is `round_up_to_chunks` of the new length. So
/// after any number of pushes into a fresh sequence the capacity is
/// `ceil(len / size) * size`.
pub proof fn lemma_capacity_after_push(len: int, size: int)
    requires
        0 <= len,
        1 <= size,
    ensures
        round_up_to_chunks(0, size) == 0,
        len <= round_up_to_chunks(len, size),
        len == round_up_to_chunks(len, size) ==> round_up_to_chunks(len + 1, size) == len + size,
        len < round_up_to_chunks(len, size) ==> round_up_to_chunks(len + 1, size)
            == round_up_to_chunks(len, size),
{
    let q = len / size;
    let r = len % size;
    lemma_fundamental_div_mod(len, size);
    lemma_mod_pos_bound(len, size);
    lemma_fundamental_div_mod_converse(size - 1, size, 0, size - 1);
    assert(round_up_to_chunks(0, size) == 0) by (nonlinear_arith)
        requires
            (size - 1) / size == 0,
    {}
    if r == 0 {
        assert(len + size - 1 == q * size + (size - 1) && q * size == len) by (nonlinear_arith)
            requires
                len == size * q + r,
                r == 0,
        {}
        lemma_fundamental_div_mod_converse(len + size - 1, size, q, size - 1);
        assert(round_up_to_chunks(len, size) == len) by (nonlinear_arith)
            requires
                (len + size - 1) / size == q,
                q * size == len,
        {}
        assert(len + 1 + size - 1 == (q + 1) * size + 0) by (nonlinear_arith)
            requires
                len == size * q,
        {}
        lemma_fundamental_div_mod_converse(len + size, size, q + 1, 0);
        assert(round_up_to_chunks(len + 1, size) == len + size) by (nonlinear_arith)
            requires
                (len + 1 + size - 1) / size == q + 1,
                len == size * q,
        {}
    } else {
        assert(len + size - 1 == (q + 1) * size + (r - 1)) by (nonlinear_arith)
            requires
                len == size * q + r,
        {}
        lemma_fundamental_div_mod_converse(len + size - 1, size, q + 1, r - 1);
        assert(len + 1 + size - 1 == (q + 1) * size + r) by (nonlinear_arith)
            requires
                len == size * q + r,
        {}
        lemma_fundamental_div_mod_converse(len + size, size, q + 1, r);
        assert(len < (q + 1) * size) by (nonlinear_arith)
            requires
                len == size * q + r,
                0 < r < size,
        {}
        assert(round_up_to_chunks(len, size) == (q + 1) * size && round_up_to_chunks(len + 1, size)
            == (q + 1) * size) by (nonlinear_arith)
            requires
                (len + size - 1) / size == q + 1,
                (len + 1 + size - 1) / size == q + 1,
        {}
    }
}

/// Exchanging two positions is self-inverse: performing the exchange that
/// `swap`'s contract describes twice restores the original sequence, and
/// exchanging a position with itself changes nothing.
pub proof fn lemma_swap_self_inverse<T>(s: Seq<T>, a: int, b: int)
    requires
        0 <= a < s.len(),
        0 <= b < s.len(),
    ensures
        ({
            let t = s.update(a, s[b]).update(b, s[a]);
            t.update(a, t[b]).update(b, t[a]) == s
        }),
        s.update(a, s[a]).update(a, s[a]) == s,
{
    let t = s.update(a, s[b]).update(b, s[a]);
    assert(t.update(a, t[b]).update(b, t[a]) =~= s);
    assert(s.update(a, s[a]).update(a, s[a]) =~= s);
}

} // verus!
