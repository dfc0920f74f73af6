//! A plain dense vector: a contiguous array of values with bounds-extending
//! writes (writing index `i` beyond the current length extends the vector,
//! zero-filling the intermediate slots).
//!
//! It is the dense collaborator consumed by the matrix-vector product.

use vstd::prelude::*;
use crate::types::ValueType;

verus! {

/// A sequence of `n` zero values.
pub open spec fn zeros<T: ValueType>(n: int) -> Seq<T> {
    Seq::new(n as nat, |k: int| T::sp_zero())
}

/// Inner product of the first `n` components of `a` and `b`, folded from
/// the left in index order.
pub open spec fn inner_upto<T: ValueType>(a: Seq<T>, b: Seq<T>, n: int) -> T
    decreases n,
{
    if n <= 0 {
        T::sp_zero()
    } else {
        inner_upto(a, b, n - 1).sp_add(a[n - 1].sp_mul(b[n - 1]))
    }
}

/// A dense vector of values.
#[derive(Clone)]
pub struct DenseVec<T> {
    pub values: Vec<T>,
}

impl<T> DenseVec<T>
    where T: ValueType
{
    /// The mathematical model: the sequence of stored values.
    pub open spec fn spec_vals(&self) -> Seq<T> {
        self.values@
    }

    /// The dimension of the vector.
    pub open spec fn spec_dim(&self) -> int {
        self.values@.len() as int
    }

    /// Creates an empty vector.
    pub fn new() -> (r: Self)
        ensures
            r.spec_vals() == Seq::<T>::empty(),
    {
        Self { values: Vec::new() }
    }

    /// Creates an empty vector with reserved space.
    pub fn with_capacity(cap: usize) -> (r: Self)
        ensures
            r.spec_vals() == Seq::<T>::empty(),
    {
        Self { values: Vec::with_capacity(cap) }
    }

    /// Wraps an existing array of values.
    pub fn from_vec(vec: Vec<T>) -> (r: Self)
        ensures
            r.spec_vals() == vec@,
    {
        Self { values: vec }
    }

    /// Borrows the underlying array of values.
    pub fn iter_ref(&self) -> (r: &Vec<T>)
        ensures
            r@ == self.spec_vals(),
    {
        &self.values
    }

    /// Returns the dimension of the vector.
    pub fn dim(&self) -> (r: usize)
        ensures
            r as int == self.spec_dim(),
    {
        self.values.len()
    }

    /// Returns the value at position `i`.
    pub fn get(&self, i: usize) -> (r: T)
        requires
            i < self.spec_dim(),
        ensures
            r == self.spec_vals()[i as int],
    {
        self.values[i]
    }

    /// Sets the value at position `i`, extending the vector with zeros if
    /// `i` lies beyond the current dimension.
    pub fn set(&mut self, i: usize, val: T)
        requires
            i < usize::MAX,
        ensures
            final(self).spec_vals() == if i < old(self).spec_dim() {
                old(self).spec_vals().update(i as int, val)
            } else {
                old(self).spec_vals() + zeros(i - old(self).spec_dim()) + seq![val]
            },
    {
        let ghost pre = self.values@;
        if i < self.values.len() {
            self.values[i] = val;
        } else {
            let z = T::zero();
            while self.values.len() < i
                invariant
                    pre.len() <= self.values@.len() <= i < usize::MAX,
                    z == T::sp_zero(),
                    self.values@ == pre + zeros(self.values@.len() - pre.len()),
                decreases i - self.values.len(),
            {
                self.values.push(z);
                proof {
                    assert(self.values@ =~= pre + zeros(self.values@.len() - pre.len()));
                }
            }
            self.values.push(val);
            proof {
                assert(self.values@ =~= pre + zeros(i - pre.len()) + seq![val]);
            }
        }
    }

    /// Adds `val` to the entry at position `i`; a position beyond the
    /// current dimension counts as zero and the vector is extended.
    pub fn add_to(&mut self, i: usize, val: T)
        requires
            i < usize::MAX,
        ensures
            final(self).spec_vals() == if i < old(self).spec_dim() {
                old(self).spec_vals().update(
                    i as int,
                    old(self).spec_vals()[i as int].sp_add(val),
                )
            } else {
                old(self).spec_vals() + zeros(i - old(self).spec_dim()) + seq![
                    T::sp_zero().sp_add(val),
                ]
            },
    {
        if i < self.values.len() {
            let cur = self.values[i];
            self.values[i] = cur.add_val(val);
        } else {
            let z = T::zero();
            self.set(i, z.add_val(val));
        }
    }

    /// Componentwise addition of `rhs`; `rhs` must not be longer.
    pub fn add(&mut self, rhs: &Self)
        requires
            rhs.spec_dim() <= old(self).spec_dim(),
        ensures
            final(self).spec_dim() == old(self).spec_dim(),
            forall|k: int| 0 <= k < rhs.spec_dim()
                ==> final(self).spec_vals()[k] == old(self).spec_vals()[k].sp_add(
                    #[trigger] rhs.spec_vals()[k],
                ),
            forall|k: int| rhs.spec_dim() <= k < old(self).spec_dim()
                ==> final(self).spec_vals()[k] == old(self).spec_vals()[k],
    {
        let n = rhs.values.len();
        let mut k: usize = 0;
        while k < n
            invariant
                n == rhs.spec_dim(),
                n <= self.values@.len() == old(self).spec_dim(),
                0 <= k <= n,
                forall|k2: int| 0 <= k2 < k
                    ==> self.values@[k2] == old(self).spec_vals()[k2].sp_add(
                        #[trigger] rhs.spec_vals()[k2],
                    ),
                forall|k2: int| k <= k2 < self.values@.len()
                    ==> self.values@[k2] == old(self).spec_vals()[k2],
            decreases n - k,
        {
            let cur = self.values[k];
            self.values[k] = cur.add_val(rhs.values[k]);
            k = k + 1;
        }
    }

    /// Componentwise subtraction of `rhs`; `rhs` must not be longer.
    pub fn sub(&mut self, rhs: &Self)
        requires
            rhs.spec_dim() <= old(self).spec_dim(),
        ensures
            final(self).spec_dim() == old(self).spec_dim(),
            forall|k: int| 0 <= k < rhs.spec_dim()
                ==> final(self).spec_vals()[k] == old(self).spec_vals()[k].sp_sub(
                    #[trigger] rhs.spec_vals()[k],
                ),
            forall|k: int| rhs.spec_dim() <= k < old(self).spec_dim()
                ==> final(self).spec_vals()[k] == old(self).spec_vals()[k],
    {
        let n = rhs.values.len();
        let mut k: usize = 0;
        while k < n
            invariant
                n == rhs.spec_dim(),
                n <= self.values@.len() == old(self).spec_dim(),
                0 <= k <= n,
                forall|k2: int| 0 <= k2 < k
                    ==> self.values@[k2] == old(self).spec_vals()[k2].sp_sub(
                        #[trigger] rhs.spec_vals()[k2],
                    ),
                forall|k2: int| k <= k2 < self.values@.len()
                    ==> self.values@[k2] == old(self).spec_vals()[k2],
            decreases n - k,
        {
            let cur = self.values[k];
            self.values[k] = cur.sub_val(rhs.values[k]);
            k = k + 1;
        }
    }

    /// Scales every component by `rhs`.
    pub fn scale(&mut self, rhs: T)
        ensures
            final(self).spec_dim() == old(self).spec_dim(),
            forall|k: int| 0 <= k < old(self).spec_dim()
                ==> final(self).spec_vals()[k] == (#[trigger] old(self).spec_vals()[k]).sp_mul(
                    rhs,
                ),
    {
        let n = self.values.len();
        let mut k: usize = 0;
        while k < n
            invariant
                n == self.values@.len() == old(self).spec_dim(),
                0 <= k <= n,
                forall|k2: int| 0 <= k2 < k
                    ==> self.values@[k2] == (#[trigger] old(self).spec_vals()[k2]).sp_mul(rhs),
                forall|k2: int| k <= k2 < n ==> self.values@[k2] == old(self).spec_vals()[k2],
            decreases n - k,
        {
            let cur = self.values[k];
            self.values[k] = cur.mul_val(rhs);
            k = k + 1;
        }
    }

    /// Inner product with `rhs`, over the components both vectors share.
    pub fn inner_prod(&self, rhs: &Self) -> (r: T)
        ensures
            r == inner_upto(
                self.spec_vals(),
                rhs.spec_vals(),
                if self.spec_dim() <= rhs.spec_dim() { self.spec_dim() } else { rhs.spec_dim() },
            ),
    {
        let n = if self.values.len() <= rhs.values.len() {
            self.values.len()
        } else {
            rhs.values.len()
        };
        let mut sum = T::zero();
        let mut k: usize = 0;
        while k < n
            invariant
                n <= self.values@.len(),
                n <= rhs.values@.len(),
                0 <= k <= n,
                sum == inner_upto(self.spec_vals(), rhs.spec_vals(), k as int),
            decreases n - k,
        {
            let p = self.values[k].mul_val(rhs.values[k]);
            sum = sum.add_val(p);
            k = k + 1;
        }
        sum
    }

    /// The squared Euclidean norm: the inner product of the vector with
    /// itself.
    pub fn norm_squared(&self) -> (r: T)
        ensures
            r == inner_upto(self.spec_vals(), self.spec_vals(), self.spec_dim()),
    {
        self.inner_prod(self)
    }
}

} // verus!
