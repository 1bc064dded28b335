//! Where the data of a variable lies: pure arithmetic over a decoded header.

use vstd::prelude::*;
use crate::dtype::Dtype;
use crate::error::Error;

verus! {

/// The product of the numbers in `s`; one for the empty sequence.
pub open spec fn product(s: Seq<u64>) -> int
    decreases s.len(),
{
    if s.len() == 0 {
        1
    } else {
        product(s.drop_last()) * s.last()
    }
}

/// The position of the element with index tuple `idx` in an array with the
/// given extents, counted in elements, the last index running fastest.
pub open spec fn flat_offset(extents: Seq<u64>, idx: Seq<u64>) -> int
    decreases extents.len(),
{
    if extents.len() == 0 || idx.len() == 0 {
        0
    } else {
        flat_offset(extents.drop_last(), idx.drop_last()) * extents.last() + idx.last()
    }
}

/// Whether `idx` names an element of an array with the given extents.
pub open spec fn within(extents: Seq<u64>, idx: Seq<u64>) -> bool {
    &&& idx.len() == extents.len()
    &&& forall|i: int| 0 <= i < idx.len() ==> #[trigger] idx[i] < extents[i]
}

/// The layout of one variable: whether it is a record variable, the lengths
/// of its dimensions other than the record dimension, the kind of its
/// elements, the offset of its data, and the number of records of the dataset
/// where that is known.
#[derive(Debug)]
pub struct Layout {
    pub is_record_variable: bool,
    pub extents: Vec<u64>,
    pub dtype: Dtype,
    pub begin: u64,
    pub record_count: Option<u64>,
}

/// What a [`Layout`] holds, as mathematical values.
pub struct LayoutView {
    pub is_record_variable: bool,
    pub extents: Seq<u64>,
    pub dtype: Dtype,
    pub begin: u64,
    pub record_count: Option<u64>,
}

impl View for Layout {
    type V = LayoutView;

    open spec fn view(&self) -> LayoutView {
        LayoutView {
            is_record_variable: self.is_record_variable,
            extents: self.extents@,
            dtype: self.dtype,
            begin: self.begin,
            record_count: self.record_count,
        }
    }
}

impl LayoutView {
    /// The number of elements: in one record for a record variable, in all
    /// for any other.
    pub open spec fn element_count(self) -> int {
        product(self.extents)
    }

    /// The number of bytes that one record of a record variable takes.
    pub open spec fn record_stride(self) -> Option<int> {
        if self.is_record_variable {
            Some(self.element_count() * self.dtype.spec_width())
        } else {
            None
        }
    }

    /// The lengths of all dimensions. The record dimension, where the variable
    /// has it, counts the records, or zero while their number is not known.
    pub open spec fn shape(self) -> Seq<u64> {
        if self.is_record_variable {
            seq![
                match self.record_count {
                    Some(n) => n,
                    None => 0,
                },
            ] + self.extents
        } else {
            self.extents
        }
    }

    /// Whether record `record` and index tuple `idx` name an element. The
    /// record is checked for record variables only, and only against a known
    /// number of records.
    pub open spec fn holds(self, record: u64, idx: Seq<u64>) -> bool {
        &&& within(self.extents, idx)
        &&& self.is_record_variable && self.record_count is Some ==> record < self.record_count->0
    }

    /// The offset of the first byte of an element.
    pub open spec fn start(self, record: u64, idx: Seq<u64>) -> int {
        self.begin + (if self.is_record_variable {
            record * (self.element_count() * self.dtype.spec_width())
        } else {
            0
        }) + flat_offset(self.extents, idx) * self.dtype.spec_width()
    }

    /// The bytes of an element as a half-open range of offsets. An element
    /// that does not exist, or whose bytes would lie past the largest 64-bit
    /// offset, has none.
    pub open spec fn byte_range(self, record: u64, idx: Seq<u64>) -> Result<(u64, u64), Error> {
        if self.holds(record, idx) && self.start(record, idx) + self.dtype.spec_width() <= u64::MAX {
            Ok(
                (
                    self.start(record, idx) as u64,
                    (self.start(record, idx) + self.dtype.spec_width()) as u64,
                ),
            )
        } else {
            Err(Error::IndexOutOfBounds)
        }
    }
}

/// The product of a prefix with one more factor.
pub proof fn lemma_product_step(s: Seq<u64>, k: int)
    requires
        0 <= k < s.len(),
    ensures
        product(s.take(k + 1)) == product(s.take(k)) * s[k],
{
    assert(s.take(k + 1).drop_last() =~= s.take(k));
}

/// A product with a zero factor is zero.
pub proof fn lemma_product_zero(s: Seq<u64>, k: int)
    requires
        0 <= k < s.len(),
        s[k] == 0,
    ensures
        product(s) == 0,
    decreases s.len(),
{
    if k == s.len() - 1 {
        assert(product(s.drop_last()) * 0 == 0) by (nonlinear_arith);
    } else {
        lemma_product_zero(s.drop_last(), k);
        assert(0 * (s.last() as int) == 0) by (nonlinear_arith);
    }
}

/// Without a zero factor, the product of a prefix is at least one and at most
/// the product of the whole.
pub proof fn lemma_product_prefix(s: Seq<u64>, k: int)
    requires
        0 <= k <= s.len(),
        forall|i: int| 0 <= i < s.len() ==> #[trigger] s[i] >= 1,
    ensures
        1 <= product(s.take(k)) <= product(s),
    decreases s.len() - k,
{
    if k == s.len() {
        assert(s.take(k) =~= s);
        lemma_product_positive(s);
    } else {
        lemma_product_prefix(s, k + 1);
        lemma_product_step(s, k);
        lemma_product_positive(s.take(k));
        let p = product(s.take(k));
        let f = s[k] as int;
        assert(p <= p * f) by (nonlinear_arith)
            requires
                p >= 1,
                f >= 1,
        ;
    }
}

/// A product is never negative.
pub proof fn lemma_product_nonnegative(s: Seq<u64>)
    ensures
        product(s) >= 0,
    decreases s.len(),
{
    if s.len() > 0 {
        lemma_product_nonnegative(s.drop_last());
        let p = product(s.drop_last());
        let f = s.last() as int;
        assert(p * f >= 0) by (nonlinear_arith)
            requires
                p >= 0,
                f >= 0,
        ;
    }
}

/// Without a zero factor, a product is at least one.
pub proof fn lemma_product_positive(s: Seq<u64>)
    requires
        forall|i: int| 0 <= i < s.len() ==> #[trigger] s[i] >= 1,
    ensures
        product(s) >= 1,
    decreases s.len(),
{
    if s.len() > 0 {
        lemma_product_positive(s.drop_last());
        let p = product(s.drop_last());
        let f = s.last() as int;
        assert(p * f >= 1) by (nonlinear_arith)
            requires
                p >= 1,
                f >= 1,
        ;
    }
}

/// The position within a prefix of the dimensions, with one more dimension.
pub proof fn lemma_flat_step(extents: Seq<u64>, idx: Seq<u64>, k: int)
    requires
        0 <= k < extents.len(),
        idx.len() == extents.len(),
    ensures
        flat_offset(extents.take(k + 1), idx.take(k + 1)) == flat_offset(extents.take(k), idx.take(k))
            * extents[k] + idx[k],
{
    assert(extents.take(k + 1).drop_last() =~= extents.take(k));
    assert(idx.take(k + 1).drop_last() =~= idx.take(k));
}

/// For an index tuple within the extents, the position within a prefix of the
/// dimensions is not negative and at most the position within all of them,
/// which is less than the number of elements.
pub proof fn lemma_flat_prefix(extents: Seq<u64>, idx: Seq<u64>, k: int)
    requires
        0 <= k <= extents.len(),
        within(extents, idx),
    ensures
        0 <= flat_offset(extents.take(k), idx.take(k)) <= flat_offset(extents, idx),
    decreases extents.len() - k,
{
    lemma_flat_nonnegative(extents.take(k), idx.take(k));
    if k == extents.len() {
        assert(extents.take(k) =~= extents);
        assert(idx.take(k) =~= idx);
    } else {
        lemma_flat_prefix(extents, idx, k + 1);
        lemma_flat_step(extents, idx, k);
        let f = flat_offset(extents.take(k), idx.take(k));
        let e = extents[k] as int;
        assert(idx[k] < extents[k]);
        assert(f <= f * e) by (nonlinear_arith)
            requires
                f >= 0,
                e >= 1,
        ;
    }
}

/// A position is never negative.
pub proof fn lemma_flat_nonnegative(extents: Seq<u64>, idx: Seq<u64>)
    ensures
        flat_offset(extents, idx) >= 0,
    decreases extents.len(),
{
    if extents.len() > 0 && idx.len() > 0 {
        lemma_flat_nonnegative(extents.drop_last(), idx.drop_last());
        let f = flat_offset(extents.drop_last(), idx.drop_last());
        let e = extents.last() as int;
        assert(f * e >= 0) by (nonlinear_arith)
            requires
                f >= 0,
                e >= 0,
        ;
    }
}

impl Layout {
    /// Returns the number of elements (per record, for a record variable), or
    /// `None` where it does not fit in 64 bits.
    pub fn element_count(&self) -> (count: Option<u64>)
        ensures
            count == if self@.element_count() <= u64::MAX {
                Some(self@.element_count() as u64)
            } else {
                None
            },
    {
        let n: usize = self.extents.len();
        let mut i: usize = 0;
        while i < n
            invariant
                n == self.extents.len(),
                i <= n,
                forall|j: int| 0 <= j < i ==> #[trigger] self.extents@[j] >= 1,
            decreases n - i,
        {
            if self.extents[i] == 0 {
                proof {
                    lemma_product_zero(self.extents@, i as int);
                }
                return Some(0);
            }
            i = i + 1;
        }
        let mut count: u64 = 1;
        i = 0;
        assert(self.extents@.take(0) =~= Seq::<u64>::empty());
        while i < n
            invariant
                n == self.extents.len(),
                i <= n,
                forall|j: int| 0 <= j < n ==> #[trigger] self.extents@[j] >= 1,
                count == product(self.extents@.take(i as int)),
            decreases n - i,
        {
            proof {
                lemma_product_step(self.extents@, i as int);
                lemma_product_prefix(self.extents@, i + 1);
            }
            count = match count.checked_mul(self.extents[i]) {
                Some(more) => more,
                None => return None,
            };
            i = i + 1;
        }
        assert(self.extents@.take(n as int) =~= self.extents@);
        Some(count)
    }

    /// Returns the number of bytes that one record takes. `None` for a
    /// variable that is no record variable, and where the number does not fit
    /// in 64 bits.
    pub fn record_stride(&self) -> (stride: Option<u64>)
        ensures
            stride == match self@.record_stride() {
                Some(n) => if n <= u64::MAX {
                    Some(n as u64)
                } else {
                    None
                },
                None => None,
            },
    {
        if !self.is_record_variable {
            return None;
        }
        let width: u64 = self.dtype.width() as u64;
        proof {
            let c = self@.element_count();
            let w = width as int;
            lemma_product_nonnegative(self.extents@);
            assert(c > u64::MAX ==> c * w > u64::MAX) by (nonlinear_arith)
                requires
                    w >= 1,
            ;
            assert(c * w >= 0) by (nonlinear_arith)
                requires
                    c >= 0,
                    w >= 1,
            ;
        }
        match self.element_count() {
            Some(count) => count.checked_mul(width),
            None => None,
        }
    }

    /// Returns the lengths of all dimensions, the record dimension included.
    pub fn shape(&self) -> (shape: Vec<u64>)
        ensures
            shape@ == self@.shape(),
    {
        let mut shape: Vec<u64> = Vec::new();
        if self.is_record_variable {
            shape.push(
                match self.record_count {
                    Some(n) => n,
                    None => 0,
                },
            );
        }
        let ghost head = shape@;
        let n: usize = self.extents.len();
        let mut i: usize = 0;
        while i < n
            invariant
                n == self.extents.len(),
                i <= n,
                shape@ == head + self.extents@.take(i as int),
            decreases n - i,
        {
            shape.push(self.extents[i]);
            proof {
                assert(self.extents@.take(i + 1) =~= self.extents@.take(i as int).push(self.extents@[i as int]));
                assert(shape@ =~= head + self.extents@.take(i + 1));
            }
            i = i + 1;
        }
        proof {
            assert(self.extents@.take(n as int) =~= self.extents@);
            assert(Seq::<u64>::empty() + self.extents@ =~= self.extents@);
        }
        shape
    }

    /// Returns the half-open range of byte offsets of the element with index
    /// tuple `idx` in record `record`. `idx` has one index for each dimension
    /// other than the record dimension; `record` is not looked at for a
    /// variable that is no record variable.
    pub fn byte_range(&self, record: u64, idx: &[u64]) -> (range: Result<(u64, u64), Error>)
        ensures
            range == self@.byte_range(record, idx@),
    {
        let n: usize = self.extents.len();
        if idx.len() != n {
            return Err(Error::IndexOutOfBounds);
        }
        let mut i: usize = 0;
        while i < n
            invariant
                n == self.extents.len(),
                n == idx@.len(),
                i <= n,
                forall|j: int| 0 <= j < i ==> #[trigger] idx@[j] < self.extents@[j],
            decreases n - i,
        {
            if idx[i] >= self.extents[i] {
                return Err(Error::IndexOutOfBounds);
            }
            i = i + 1;
        }
        assert(within(self.extents@, idx@));
        if self.is_record_variable {
            match self.record_count {
                Some(known) => {
                    if record >= known {
                        return Err(Error::IndexOutOfBounds);
                    }
                },
                None => {},
            }
        }
        assert(self@.holds(record, idx@));
        let width: u64 = self.dtype.width() as u64;
        let ghost total = flat_offset(self.extents@, idx@);
        let ghost whole = self@.start(record, idx@);
        proof {
            lemma_flat_nonnegative(self.extents@, idx@);
            let c = self@.element_count();
            let w = width as int;
            let rec = record as int;
            assert forall|j: int| 0 <= j < self.extents@.len() implies #[trigger] self.extents@[j] >= 1 by {
                assert(idx@[j] < self.extents@[j]);
            }
            lemma_product_positive(self.extents@);
            assert(rec * (c * w) >= 0) by (nonlinear_arith)
                requires
                    rec >= 0,
                    c >= 1,
                    w >= 1,
            ;
            assert(total * w >= total) by (nonlinear_arith)
                requires
                    total >= 0,
                    w >= 1,
            ;
        }
        let mut flat: u64 = 0;
        i = 0;
        assert(self.extents@.take(0) =~= Seq::<u64>::empty());
        while i < n
            invariant
                n == self.extents.len(),
                n == idx@.len(),
                i <= n,
                within(self.extents@, idx@),
                total == flat_offset(self.extents@, idx@),
                whole == self@.start(record, idx@),
                whole >= total,
                width == self.dtype.spec_width(),
                self@.holds(record, idx@),
                flat == flat_offset(self.extents@.take(i as int), idx@.take(i as int)),
            decreases n - i,
        {
            proof {
                lemma_flat_step(self.extents@, idx@, i as int);
                lemma_flat_prefix(self.extents@, idx@, i + 1);
                lemma_flat_nonnegative(self.extents@.take(i as int), idx@.take(i as int));
                let f = flat as int;
                let e = self.extents@[i as int] as int;
                assert(f * e >= 0) by (nonlinear_arith)
                    requires
                        f >= 0,
                        e >= 0,
                ;
            }
            let scaled: u64 = match flat.checked_mul(self.extents[i]) {
                Some(scaled) => scaled,
                None => return Err(Error::IndexOutOfBounds),
            };
            flat = match scaled.checked_add(idx[i]) {
                Some(next) => next,
                None => return Err(Error::IndexOutOfBounds),
            };
            i = i + 1;
        }
        proof {
            assert(self.extents@.take(n as int) =~= self.extents@);
            assert(idx@.take(n as int) =~= idx@);
        }
        let inner: u64 = match flat.checked_mul(width) {
            Some(inner) => inner,
            None => return Err(Error::IndexOutOfBounds),
        };
        let outer: u64 = if self.is_record_variable && record > 0 {
            proof {
                let c = self@.element_count();
                let w = width as int;
                let rec = record as int;
                assert(c * w >= c) by (nonlinear_arith)
                    requires
                        c >= 1,
                        w >= 1,
                ;
                assert(rec * (c * w) >= c * w) by (nonlinear_arith)
                    requires
                        rec >= 1,
                        c >= 1,
                        w >= 1,
                ;
            }
            let count: u64 = match self.element_count() {
                Some(count) => count,
                None => return Err(Error::IndexOutOfBounds),
            };
            let stride: u64 = match count.checked_mul(width) {
                Some(stride) => stride,
                None => return Err(Error::IndexOutOfBounds),
            };
            match record.checked_mul(stride) {
                Some(outer) => outer,
                None => return Err(Error::IndexOutOfBounds),
            }
        } else {
            proof {
                assert(0 * (self@.element_count() * self.dtype.spec_width()) == 0) by (nonlinear_arith);
            }
            0
        };
        let base: u64 = match self.begin.checked_add(outer) {
            Some(base) => base,
            None => return Err(Error::IndexOutOfBounds),
        };
        let start: u64 = match base.checked_add(inner) {
            Some(start) => start,
            None => return Err(Error::IndexOutOfBounds),
        };
        match start.checked_add(width) {
            Some(end) => Ok((start, end)),
            None => Err(Error::IndexOutOfBounds),
        }
    }
}

} // verus!
