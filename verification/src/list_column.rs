//! Offsets-encoded variable-length (list) columns: a flat values buffer
//! plus a monotonically non-decreasing offsets buffer of length
//! `row_count + 1`; row `i` spans `values[offsets[i]..offsets[i + 1]]`.
//! Equal adjacent offsets denote an empty, non-null list; a separate
//! validity bitmap distinguishes an empty list from a null list.

use crate::bits::Bitmap;
use vstd::prelude::*;

verus! {

/// The logical elements of row `i` under an offsets encoding.
pub open spec fn row_of<T: View>(values: Seq<T::V>, offsets: Seq<usize>, i: int) -> Seq<T::V> {
    values.subrange(offsets[i] as int, offsets[i + 1] as int)
}

/// A list column: flat values, offsets, and an optional validity mask.
pub struct ListColumn<T> {
    values: Vec<T>,
    offsets: Vec<usize>,
    validity: Option<Bitmap>,
}

impl<T: View> View for ListColumn<T> {
    type V = Seq<Option<Seq<T::V>>>;

    closed spec fn view(&self) -> Seq<Option<Seq<T::V>>> {
        Seq::new(
            (self.offsets@.len() - 1) as nat,
            |i: int|
                match self.validity {
                    Some(vb) => if vb@[i] {
                        Some(row_of::<T>(self.values@.map_values(|v: T| v@), self.offsets@, i))
                    } else {
                        None
                    },
                    None => Some(
                        row_of::<T>(self.values@.map_values(|v: T| v@), self.offsets@, i),
                    ),
                },
        )
    }
}

impl<T: View> ListColumn<T> {
    /// Offsets start at zero, never decrease, stay within the values
    /// buffer, and end at its length; the validity mask, when present,
    /// covers exactly the rows.
    pub closed spec fn wf(&self) -> bool {
        &&& self.offsets@.len() >= 1
    &&& self.offsets@[0] == 0
    &&& self.offsets@[self.offsets@.len() - 1] == self.values@.len()
    &&& forall|i: int|
            0 <= i < self.offsets@.len() - 1 ==> #[trigger] self.offsets@[i]
                <= self.offsets@[i + 1]
    &&& forall|i: int| 0 <= i < self.offsets@.len() ==> self.offsets@[i] <= self.values@.len()
    &&& match self.validity {
            Some(vb) => vb.wf() && vb@.len() == self.offsets@.len() - 1,
            None => true,
        }
    }

    /// The number of rows.
    pub fn len(&self) -> (r: usize)
        requires
            self.wf(),
        ensures
            r == self@.len(),
    {
        self.offsets.len() - 1
    }

    /// The length of the list at row `i`, or `None` for a null row.
    pub fn get_len(&self, i: usize) -> (r: Option<usize>)
        requires
            self.wf(),
            i < self@.len(),
        ensures
            match self@[i as int] {
                Some(s) => s.len() <= usize::MAX && r == Some(s.len() as usize),
                None => r is None,
            },
    {
        let valid = match &self.validity {
            Some(vb) => vb.get(i),
            None => true,
        };
        if valid {
            proof {
                vstd::std_specs::vec::axiom_spec_len(&self.offsets);
                vstd::std_specs::vec::axiom_spec_len(&self.values);
                assert(self.offsets@[i as int] <= self.offsets@[i as int + 1]);
            }
            Some(self.offsets[i + 1] - self.offsets[i])
        } else {
            None
        }
    }

    /// Element `k` of the list at row `i`.
    pub fn elem(&self, i: usize, k: usize) -> (r: &T)
        requires
            self.wf(),
            i < self@.len(),
            self@[i as int] is Some,
            k < self@[i as int]->Some_0.len(),
        ensures
            self@[i as int]->Some_0[k as int] == r@,
    {
        let s = self.offsets[i];
        &self.values[s + k]
    }
}

/// Accumulates one output list column row by row.
pub struct ListBuilder<T> {
    values: Vec<T>,
    offsets: Vec<usize>,
    bits: Vec<bool>,
}

impl<T: View> ListBuilder<T> {
    /// Rows pushed so far, a missing row shown as `None`.
    pub closed spec fn view(&self) -> Seq<Option<Seq<T::V>>> {
        Seq::new(
            self.bits@.len(),
            |i: int|
                if self.bits@[i] {
                    Some(row_of::<T>(self.values@.map_values(|v: T| v@), self.offsets@, i))
                } else {
                    None
                },
        )
    }

    pub closed spec fn wf(&self) -> bool {
        &&& self.offsets@.len() == self.bits@.len() + 1
    &&& self.offsets@[0] == 0
    &&& self.offsets@[self.offsets@.len() - 1] == self.values@.len()
    &&& forall|i: int|
            0 <= i < self.offsets@.len() - 1 ==> #[trigger] self.offsets@[i]
                <= self.offsets@[i + 1]
    &&& forall|i: int| 0 <= i < self.offsets@.len() ==> self.offsets@[i] <= self.values@.len()
    }

    /// An empty builder.
    pub fn new() -> (r: ListBuilder<T>)
        ensures
            r.wf(),
            r.view() == Seq::<Option<Seq<T::V>>>::empty(),
    {
        let mut offsets: Vec<usize> = Vec::new();
        offsets.push(0);
        let r = ListBuilder { values: Vec::new(), offsets, bits: Vec::new() };
        proof {
            assert(r.view() =~= Seq::<Option<Seq<T::V>>>::empty());
        }
        r
    }

    /// Appends a present list row.
    pub fn push_list(&mut self, row: Vec<T>)
        requires
            old(self).wf(),
        ensures
            final(self).wf(),
            final(self).view() == old(self).view().push(Some(row@.map_values(|v: T| v@))),
    {
        let ghost row0 = row@;
        let mut tail = row;
        self.values.append(&mut tail);
        self.offsets.push(self.values.len());
        self.bits.push(true);
        proof {
            assert forall|i: int| 0 <= i < self.view().len() implies self.view()[i] == old(
                self,
            ).view().push(Some(row0.map_values(|v: T| v@)))[i] by {
                let vm_old = old(self).values@.map_values(|v: T| v@);
                let vm_new = self.values@.map_values(|v: T| v@);
                if i < old(self).bits@.len() {
                    assert(self.offsets@[i] == old(self).offsets@[i]);
                    assert(self.offsets@[i + 1] == old(self).offsets@[i + 1]);
                    if old(self).bits@[i] {
                        assert(row_of::<T>(vm_new, self.offsets@, i) =~= row_of::<T>(
                            vm_old,
                            old(self).offsets@,
                            i,
                        ));
                    }
                } else {
                    assert(row_of::<T>(vm_new, self.offsets@, i) =~= row0.map_values(|v: T| v@));
                }
            }
            assert(self.view() =~= old(self).view().push(Some(row0.map_values(|v: T| v@))));
        }
    }

    /// Appends a missing row.
    pub fn push_null(&mut self)
        requires
            old(self).wf(),
        ensures
            final(self).wf(),
            final(self).view() == old(self).view().push(None::<Seq<T::V>>),
    {
        let last = self.offsets[self.offsets.len() - 1];
        self.offsets.push(last);
        self.bits.push(false);
        proof {
            assert forall|i: int| 0 <= i < self.view().len() implies self.view()[i] == old(
                self,
            ).view().push(None::<Seq<T::V>>)[i] by {
                if i < old(self).bits@.len() {
                    assert(self.offsets@[i] == old(self).offsets@[i]);
                    assert(self.offsets@[i + 1] == old(self).offsets@[i + 1]);
                }
            }
            assert(self.view() =~= old(self).view().push(None::<Seq<T::V>>));
        }
    }

    /// The finished list column.
    pub fn finish(self) -> (r: ListColumn<T>)
        requires
            self.wf(),
        ensures
            r.wf(),
            r@ == self.view(),
    {
        let validity = Bitmap::from_bools(&self.bits);
        let r = ListColumn { values: self.values, offsets: self.offsets, validity: Some(validity) };
        proof {
            assert(r@ =~= self.view());
        }
        r
    }
}

} // verus!
