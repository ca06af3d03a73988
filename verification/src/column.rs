//! A column block: the bytes of one column across all rows, addressed by a
//! table of non-decreasing offsets.

use vstd::prelude::*;
use vstd::slice::slice_subrange;

verus! {

/// The mathematical model of a column block.
pub struct ColumnState {
    /// The bytes of all rows, one row after the other.
    pub data: Seq<u8>,
    /// Where each row starts, and at the end where the last row stops.
    pub offsets: Seq<u64>,
}

impl ColumnState {
    /// The block's invariant: the offsets start at zero, never decrease and
    /// end at the length of the data.
    pub open spec fn wf(self) -> bool {
        &&& self.offsets.len() >= 1
        &&& self.offsets[0] == 0
        &&& self.offsets.last() == self.data.len()
        &&& forall|i: int, j: int|
            0 <= i <= j < self.offsets.len() ==> self.offsets[i] <= self.offsets[j]
    }

    /// A block without rows.
    pub open spec fn empty() -> ColumnState {
        ColumnState { data: Seq::empty(), offsets: seq![0u64] }
    }

    /// The number of rows.
    pub open spec fn len(self) -> nat {
        (self.offsets.len() - 1) as nat
    }

    /// The bytes of row `i`.
    pub open spec fn row(self, i: int) -> Seq<u8> {
        self.data.subrange(self.offsets[i] as int, self.offsets[i + 1] as int)
    }

    /// All rows, in order.
    pub open spec fn rows(self) -> Seq<Seq<u8>> {
        Seq::new(self.len(), |i: int| self.row(i))
    }

    /// The block with one more row.
    pub open spec fn push(self, bytes: Seq<u8>) -> ColumnState {
        ColumnState {
            data: self.data + bytes,
            offsets: self.offsets.push((self.data.len() + bytes.len()) as u64),
        }
    }

    /// The block with the given rows appended in order.
    pub open spec fn push_all(self, rows: Seq<Seq<u8>>) -> ColumnState
        decreases rows.len(),
    {
        if rows.len() == 0 {
            self
        } else {
            self.push_all(rows.drop_last()).push(rows.last())
        }
    }
}

/// Appending a row keeps the block well formed, keeps the rows that were
/// there and adds the new one at the end.
pub proof fn lemma_push(st: ColumnState, bytes: Seq<u8>)
    requires
        st.wf(),
        st.data.len() + bytes.len() <= u64::MAX,
    ensures
        st.push(bytes).wf(),
        st.push(bytes).rows() == st.rows().push(bytes),
{
    let after = st.push(bytes);
    assert forall|i: int| 0 <= i < st.len() implies after.row(i) == st.row(i) by {
        assert(after.offsets[i] == st.offsets[i]);
        assert(after.offsets[i + 1] == st.offsets[i + 1]);
        assert(st.offsets[i + 1] <= st.offsets[st.offsets.len() - 1]);
        assert(after.row(i) =~= st.row(i));
    }
    assert(after.row(st.len() as int) =~= bytes);
    assert(after.rows() =~= st.rows().push(bytes));
}

/// Appending rows one after the other gives a block that reads back as the
/// old rows followed by the new ones.
pub proof fn lemma_push_all(st: ColumnState, rows: Seq<Seq<u8>>)
    requires
        st.wf(),
        st.push_all(rows).data.len() <= u64::MAX,
    ensures
        st.push_all(rows).wf(),
        st.push_all(rows).rows() == st.rows() + rows,
        st.data.len() <= st.push_all(rows).data.len(),
    decreases rows.len(),
{
    if rows.len() == 0 {
        assert(st.rows() + rows =~= st.rows());
    } else {
        let before = st.push_all(rows.drop_last());
        lemma_push_all(st, rows.drop_last());
        lemma_push(before, rows.last());
        assert(st.rows() + rows =~= (st.rows() + rows.drop_last()).push(rows.last()));
    }
}

/// A column block.
#[derive(Debug)]
pub struct Column {
    data: Vec<u8>,
    offsets: Vec<u64>,
}

impl View for Column {
    type V = ColumnState;

    closed spec fn view(&self) -> ColumnState {
        ColumnState { data: self.data@, offsets: self.offsets@ }
    }
}

impl Column {
    /// Whether the block's invariant holds; every block that this module
    /// hands out is well formed.
    pub open spec fn wf(&self) -> bool {
        self@.wf()
    }

    /// Creates a block without rows.
    pub fn new() -> (r: Self)
        ensures
            r.wf(),
            r@ == ColumnState::empty(),
    {
        let mut offsets: Vec<u64> = Vec::new();
        offsets.push(0);
        let r = Column { data: Vec::new(), offsets };
        proof {
            assert(r@.offsets =~= seq![0u64]);
            assert(r@.data =~= Seq::<u8>::empty());
        }
        r
    }

    /// Puts a block together from its two parts if they fit each other.
    pub fn from_parts(data: Vec<u8>, offsets: Vec<u64>) -> (r: Option<Self>)
        ensures
            match r {
                Some(c) => c.wf() && c@.data == data@ && c@.offsets == offsets@,
                None => !(ColumnState { data: data@, offsets: offsets@ }).wf(),
            },
    {
        let n = offsets.len();
        if n == 0 || offsets[0] != 0 || offsets[n - 1] != data.len() as u64 {
            return None;
        }
        let mut i: usize = 1;
        while i < n
            invariant
                1 <= i <= n,
                n == offsets@.len(),
                forall|a: int, b: int| 0 <= a <= b < i ==> offsets@[a] <= offsets@[b],
            decreases n - i,
        {
            if offsets[i - 1] > offsets[i] {
                return None;
            }
            i += 1;
        }
        Some(Column { data, offsets })
    }

    /// The number of rows.
    pub fn len(&self) -> (n: usize)
        requires
            self.wf(),
        ensures
            n == self@.len(),
    {
        self.offsets.len() - 1
    }

    /// The bytes of all rows, one row after the other.
    pub fn data(&self) -> (d: &Vec<u8>)
        ensures
            d@ == self@.data,
    {
        &self.data
    }

    /// The offset table.
    pub fn offsets(&self) -> (o: &Vec<u64>)
        ensures
            o@ == self@.offsets,
    {
        &self.offsets
    }

    /// Appends a row.
    pub fn push(&mut self, bytes: &[u8])
        requires
            old(self).wf(),
        ensures
            final(self).wf(),
            final(self)@ == old(self)@.push(bytes@),
            final(self)@.rows() == old(self)@.rows().push(bytes@),
    {
        self.data.extend_from_slice(bytes);
        let end: u64 = self.data.len() as u64;
        self.offsets.push(end);
        proof {
            assert(self.data@.len() == old(self)@.data.len() + bytes@.len());
            lemma_push(old(self)@, bytes@);
            assert(self@.data =~= old(self)@.push(bytes@).data);
            assert(self@.offsets =~= old(self)@.push(bytes@).offsets);
        }
    }

    /// The bytes of row `i`, or `None` past the last row.
    pub fn get(&self, i: usize) -> (r: Option<&[u8]>)
        requires
            self.wf(),
        ensures
            match r {
                Some(bytes) => i < self@.len() && bytes@ == self@.row(i as int),
                None => i >= self@.len(),
            },
    {
        if i >= self.offsets.len() - 1 {
            return None;
        }
        proof {
            let last = self@.offsets.len() - 1;
            assert(self@.offsets[i as int] <= self@.offsets[i + 1]);
            assert(self@.offsets[i + 1] <= self@.offsets[last]);
            assert(self@.offsets[last] == self.data.len());
        }
        let start: usize = self.offsets[i] as usize;
        let end: usize = self.offsets[i + 1] as usize;
        Some(slice_subrange(self.data.as_slice(), start, end))
    }
}

} // verus!
