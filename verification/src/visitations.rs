use vstd::prelude::*;

use crate::matrix::{lemma_dims_product, lemma_grid_index, lemma_grid_index_injective};
use crate::pos::Pos;

verus! {

/// The set of grid positions a search branch has rested on, stored as a
/// packed bitset over row-major cell indices.
#[derive(Debug)]
pub struct Visitations {
    pub words: Vec<u128>,
    pub width: isize,
    pub height: isize,
}

/// Whether one bit of a packed word is set.
pub open spec fn bit_is_set(word: u128, k: int) -> bool {
    word & (1u128 << (k as u128)) != 0
}

proof fn lemma_bv_set_bit(w: u128, b: u128, j: u128)
    by (bit_vector)
    requires
        b < 128,
        j < 128,
    ensures
        ((w | (1u128 << b)) & (1u128 << j) != 0) == ((w & (1u128 << j) != 0) || j == b),
{
}

proof fn lemma_bv_zero_bit(j: u128)
    by (bit_vector)
    requires
        j < 128,
    ensures
        0u128 & (1u128 << j) == 0,
{
}

impl Visitations {
    pub open spec fn wf(&self) -> bool {
        &&& 1 <= self.width <= 10000
        &&& 1 <= self.height <= 10000
        &&& self.words@.len() == (self.width * self.height) / 128 + 1
    }

    /// A position the set can track: one that lies on the grid the set was
    /// sized for.
    pub open spec fn valid(&self, p: Pos) -> bool {
        0 <= p.x < self.width && 0 <= p.y < self.height
    }

    pub open spec fn spec_index_of(&self, p: Pos) -> int {
        p.x + p.y * self.width
    }

    /// Whether the position's bit is set.
    pub open spec fn spec_contains(&self, p: Pos) -> bool {
        bit_is_set(self.words@[self.spec_index_of(p) / 128], self.spec_index_of(p) % 128)
    }

    pub proof fn lemma_index_in_range(&self, p: Pos)
        requires
            self.wf(),
            self.valid(p),
        ensures
            0 <= p.y * self.width,
            0 <= self.spec_index_of(p) < self.width * self.height,
            self.width * self.height <= 100_000_000,
            0 <= self.spec_index_of(p) / 128 < self.words@.len(),
            0 <= self.spec_index_of(p) % 128 < 128,
    {
        lemma_grid_index(self.width as int, self.height as int, p.x as int, p.y as int);
        lemma_dims_product(self.width as int, self.height as int);
        assert(self.spec_index_of(p) / 128 <= (self.width * self.height) / 128) by {
            vstd::arithmetic::div_mod::lemma_div_is_ordered(
                self.spec_index_of(p),
                self.width * self.height,
                128,
            );
        }
    }

    /// An empty visitation set for a grid of the given size.
    pub fn new(width: isize, height: isize) -> (r: Self)
        requires
            1 <= width <= 10000,
            1 <= height <= 10000,
        ensures
            r.wf(),
            r.width == width,
            r.height == height,
            forall|p: Pos| r.valid(p) ==> !r.spec_contains(p),
    {
        proof {
            lemma_dims_product(width as int, height as int);
        }
        let n: isize = (width * height) / 128 + 1;
        let mut words: Vec<u128> = Vec::new();
        let mut i: isize = 0;
        while i < n
            invariant
                0 <= i <= n,
                words@.len() == i,
                forall|j: int| 0 <= j < i ==> words@[j] == 0u128,
            decreases n - i,
        {
            words.push(0u128);
            i = i + 1;
        }
        let r = Visitations { words, width, height };
        proof {
            assert forall|p: Pos| r.valid(p) implies !r.spec_contains(p) by {
                r.lemma_index_in_range(p);
                lemma_bv_zero_bit((r.spec_index_of(p) % 128) as u128);
            }
        }
        r
    }

    /// Whether the set holds the given position.
    pub fn contains(&self, p: &Pos) -> (r: bool)
        requires
            self.wf(),
            self.valid(*p),
        ensures
            r == self.spec_contains(*p),
    {
        proof {
            self.lemma_index_in_range(*p);
        }
        let index: isize = p.x + p.y * self.width;
        let word: usize = (index / 128) as usize;
        let bit: u128 = (index % 128) as u128;
        self.words[word] & (1u128 << bit) != 0
    }

    /// Adds the position to the set, leaving every other position's
    /// membership unchanged.
    pub fn insert(&mut self, p: &Pos)
        requires
            old(self).wf(),
            old(self).valid(*p),
        ensures
            final(self).wf(),
            final(self).width == old(self).width,
            final(self).height == old(self).height,
            final(self).spec_contains(*p),
            forall|q: Pos|
                old(self).valid(q) && q != *p ==> final(self).spec_contains(q) == old(
                    self,
                ).spec_contains(q),
    {
        proof {
            self.lemma_index_in_range(*p);
        }
        let index: isize = p.x + p.y * self.width;
        let word: usize = (index / 128) as usize;
        let bit: u128 = (index % 128) as u128;
        let updated: u128 = self.words[word] | (1u128 << bit);
        self.words.set(word, updated);
        proof {
            let w0 = old(self).words@[index as int / 128];
            lemma_bv_set_bit(w0, bit, bit);
            assert(final(self).spec_contains(*p));
            assert forall|q: Pos|
                old(self).valid(q) && q != *p implies final(self).spec_contains(q) == old(
                self,
            ).spec_contains(q) by {
                old(self).lemma_index_in_range(q);
                let iq = old(self).spec_index_of(q);
                let ip = old(self).spec_index_of(*p);
                assert(iq != ip) by {
                    if iq == ip {
                        lemma_grid_index_injective(
                            self.width as int,
                            q.x as int,
                            q.y as int,
                            p.x as int,
                            p.y as int,
                        );
                    }
                }
                if iq / 128 == ip / 128 {
                    assert(iq % 128 != ip % 128) by {
                        vstd::arithmetic::div_mod::lemma_fundamental_div_mod(iq, 128);
                        vstd::arithmetic::div_mod::lemma_fundamental_div_mod(ip, 128);
                    }
                    lemma_bv_set_bit(w0, bit, (iq % 128) as u128);
                } else {
                    assert(final(self).words@[iq / 128] == old(self).words@[iq / 128]);
                }
            }
        }
    }
}

/// The set of row-major flat indices whose bits are set.
pub open spec fn flat_set(v: Visitations) -> Set<int> {
    Set::new(
        |i: int|
            0 <= i < v.width * v.height && bit_is_set(v.words@[i / 128], i % 128),
    )
}

/// The flat index set is finite and no larger than the grid.
pub proof fn lemma_flat_set_bound(v: Visitations)
    requires
        v.wf(),
    ensures
        flat_set(v).finite(),
        flat_set(v).len() <= v.width * v.height,
{
    let univ = vstd::set_lib::set_int_range(0, v.width * v.height);
    vstd::set_lib::lemma_int_range(0, v.width * v.height);
    assert(flat_set(v).subset_of(univ));
    vstd::set_lib::lemma_len_subset(flat_set(v), univ);
}

/// Inserting a position sets exactly its flat index.
pub proof fn lemma_flat_set_insert(a: Visitations, b: Visitations, p: Pos)
    requires
        a.wf(),
        b.wf(),
        b.width == a.width,
        b.height == a.height,
        a.valid(p),
        b.spec_contains(p),
        forall|q: Pos| a.valid(q) && q != p ==> b.spec_contains(q) == a.spec_contains(q),
    ensures
        flat_set(b) == flat_set(a).insert(a.spec_index_of(p)),
    decreases 0int,
{
    let w = a.width as int;
    let h = a.height as int;
    let ip = a.spec_index_of(p);
    a.lemma_index_in_range(p);
    assert forall|i: int| flat_set(b).contains(i) == flat_set(a).insert(ip).contains(i) by {
        if 0 <= i < w * h {
            let qx = i % w;
            let qy = i / w;
            vstd::arithmetic::div_mod::lemma_fundamental_div_mod(i, w);
            assert(0 <= qx < w) by {
                vstd::arithmetic::div_mod::lemma_mod_bound(i, w);
            }
            assert(0 <= qy < h) by {
                crate::matrix::lemma_grid_index_injective(w, 0, 0, 0, 0);
                if qy < 0 {
                    vstd::arithmetic::mul::lemma_mul_inequality(qy, -1, w);
                }
                if qy >= h {
                    vstd::arithmetic::mul::lemma_mul_inequality(h, qy, w);
                }
            }
            let q = Pos { x: qx as isize, y: qy as isize };
            assert(a.valid(q));
            assert(qy * w == w * qy) by (nonlinear_arith);
            assert(a.spec_index_of(q) == i);
            if q == p {
                assert(i == ip);
            } else {
                assert(b.spec_contains(q) == a.spec_contains(q));
                assert(i != ip) by {
                    if i == ip {
                        crate::matrix::lemma_grid_index_injective(
                            w,
                            q.x as int,
                            q.y as int,
                            p.x as int,
                            p.y as int,
                        );
                    }
                }
            }
        }
    }
    assert(flat_set(b) =~= flat_set(a).insert(ip));
}

impl Clone for Visitations {
    fn clone(&self) -> (r: Self)
        ensures
            r.words@ == self.words@,
            r.width == self.width,
            r.height == self.height,
    {
        let mut words: Vec<u128> = Vec::new();
        let mut i: usize = 0;
        while i < self.words.len()
            invariant
                i <= self.words@.len(),
                words@ == self.words@.take(i as int),
            decreases self.words@.len() - i,
        {
            words.push(self.words[i]);
            proof {
                assert(self.words@.take(i + 1) =~= self.words@.take(i as int).push(
                    self.words@[i as int],
                ));
            }
            i = i + 1;
        }
        proof {
            assert(self.words@.take(self.words@.len() as int) =~= self.words@);
        }
        let r = Visitations { words, width: self.width, height: self.height };
        proof {
            assert(r.words@ == self.words@);
        }
        r
    }
}

} // verus!
