//! The jar: a single-writer builder that appends rows and keys, the frozen
//! jar that it turns into, and the point lookups and range scans that the
//! frozen jar answers.
//!
//! A jar has a fixed number of columns. Every row gives one byte string
//! per column and carries a key. With filters enabled the builder feeds
//! each key to a cuckoo filter, and freezing builds a perfect hash over the
//! keys; a lookup then asks the filter, takes the row from the perfect
//! hash and compares the key stored there before it answers. Without
//! filters a lookup compares the stored keys one by one.

use vstd::prelude::*;
use crate::bytes::{byte_rows, bytes_eq, copy_bytes, lemma_byte_rows_push};
use crate::codec::{
    bytes_words,
    decode_words,
    encode_words,
    frame,
    lemma_frame_roundtrip,
    lemma_words_roundtrip,
    seal,
    unframe,
    unseal,
    words_bytes,
};
use crate::column::{lemma_push, lemma_push_all, Column, ColumnState};
use crate::cuckoo::{
    bucket_mask_for,
    lemma_insert_adds,
    lemma_insert_keeps,
    lemma_insert_wf,
    Cuckoo,
    CuckooState,
    DEFAULT_FINGERPRINT_MASK,
};
use crate::error::NippyJarError;
use crate::filter::{lemma_filter_roundtrip, FilterState, InclusionFilter, InclusionFilters};
use crate::phf::{
    has_duplicates,
    lemma_built_is_bijection,
    lemma_level_bounds,
    lemma_phf_roundtrip,
    lemma_position,
    lemma_position_prefix,
    position,
    PerfectHash,
    PhfState,
    MAX_KEYS,
};
use crate::snapshot::{Filters, PerfectHashingFunction};

verus! {

/// The largest number of columns of a jar.
pub const MAX_COLUMNS: usize = 0xffff;

/// The models of the column blocks that a vector holds.
pub open spec fn column_views(columns: Seq<Column>) -> Seq<ColumnState> {
    Seq::new(columns.len(), |c: int| columns[c]@)
}

/// The rows that a vector of rows holds.
pub open spec fn row_views(rows: Seq<Vec<Vec<u8>>>) -> Seq<Seq<Seq<u8>>> {
    Seq::new(rows.len(), |i: int| byte_rows(rows[i]@))
}

/// Whether a filter configuration and a filter belong together.
pub open spec fn filter_fits(config: Filters, filter: FilterState) -> bool {
    match config {
        Filters::WithFilters(_, _) => filter is Cuckoo,
        Filters::WithoutFilters => filter is Unused,
    }
}

/// The mathematical model of a jar that is being built.
pub struct BuilderState {
    /// The filter configuration, fixed at creation.
    pub config: Filters,
    /// One block per column.
    pub columns: Seq<ColumnState>,
    /// The keys of the rows, in order.
    pub keys: Seq<Seq<u8>>,
    /// The filter under construction.
    pub filter: FilterState,
}

impl BuilderState {
    /// The builder's invariant: every column has one entry per key, the
    /// filter fits the configuration and reports every key present.
    pub open spec fn wf(self) -> bool {
        &&& self.columns.len() <= MAX_COLUMNS
        &&& self.keys.len() <= MAX_KEYS
        &&& forall|c: int|
            0 <= c < self.columns.len() ==> (#[trigger] self.columns[c]).wf()
                && self.columns[c].len() == self.keys.len()
        &&& self.filter.wf()
        &&& filter_fits(self.config, self.filter)
        &&& forall|i: int|
            0 <= i < self.keys.len() && self.filter is Cuckoo ==> self.filter.may_contain(
                #[trigger] self.keys[i],
            )
    }

    /// Row `i`: one byte string per column.
    pub open spec fn row(self, i: int) -> Seq<Seq<u8>> {
        Seq::new(self.columns.len(), |c: int| self.columns[c].row(i))
    }

    /// All rows, in order.
    pub open spec fn rows(self) -> Seq<Seq<Seq<u8>>> {
        Seq::new(self.keys.len(), |i: int| self.row(i))
    }

    /// The builder with one more row and key and the given filter.
    pub open spec fn pushed(self, row: Seq<Seq<u8>>, key: Seq<u8>, filter: FilterState) -> BuilderState {
        BuilderState {
            config: self.config,
            columns: Seq::new(self.columns.len(), |c: int| self.columns[c].push(row[c])),
            keys: self.keys.push(key),
            filter,
        }
    }

    /// What appending a row does to the builder and returns. A row of the
    /// wrong width, a full jar and a full filter are refused, and the
    /// builder stays as it was.
    pub open spec fn append(self, row: Seq<Seq<u8>>, key: Seq<u8>) -> (
        BuilderState,
        Result<(), NippyJarError>,
    ) {
        if row.len() != self.columns.len() {
            (self, Err(NippyJarError::ColumnCountMismatch))
        } else if self.keys.len() >= MAX_KEYS {
            (self, Err(NippyJarError::TooLarge))
        } else {
            match self.config {
                Filters::WithFilters(_, _) => match self.filter.add(key) {
                    (filter, Ok(_)) => (self.pushed(row, key, filter), Ok(())),
                    (_, Err(e)) => (self, Err(e)),
                },
                Filters::WithoutFilters => (self.pushed(row, key, self.filter), Ok(())),
            }
        }
    }

    /// What freezing gives: with filters, a jar with a perfect hash over
    /// the keys, or the duplicate-key error; without filters, a jar without
    /// a perfect hash.
    pub open spec fn freeze(self) -> Result<JarState, NippyJarError> {
        let keys = ColumnState::empty().push_all(self.keys);
        match self.config {
            Filters::WithFilters(_, variant) => if has_duplicates(self.keys) {
                Err(NippyJarError::DuplicateKey)
            } else {
                Ok(
                    JarState {
                        config: self.config,
                        columns: self.columns,
                        keys,
                        filter: self.filter,
                        phf: Some(PhfState::built(variant, self.keys)),
                    },
                )
            },
            Filters::WithoutFilters => Ok(
                JarState {
                    config: self.config,
                    columns: self.columns,
                    keys,
                    filter: self.filter,
                    phf: None,
                },
            ),
        }
    }
}

/// The mathematical model of a frozen jar.
pub struct JarState {
    /// The filter configuration.
    pub config: Filters,
    /// One block per column.
    pub columns: Seq<ColumnState>,
    /// The block of the keys.
    pub keys: ColumnState,
    /// The filter over the keys.
    pub filter: FilterState,
    /// The perfect hash over the keys, if the jar has filters.
    pub phf: Option<PhfState>,
}

impl JarState {
    /// The number of rows.
    pub open spec fn row_count(self) -> nat {
        self.keys.len()
    }

    /// The keys of the rows, in order.
    pub open spec fn key_list(self) -> Seq<Seq<u8>> {
        self.keys.rows()
    }

    /// Row `i`: one byte string per column.
    pub open spec fn row(self, i: int) -> Seq<Seq<u8>> {
        Seq::new(self.columns.len(), |c: int| self.columns[c].row(i))
    }

    /// All rows, in order.
    pub open spec fn rows(self) -> Seq<Seq<Seq<u8>>> {
        Seq::new(self.row_count(), |i: int| self.row(i))
    }

    /// The jar's invariant: every column has one entry per key; the filter
    /// and the perfect hash are there exactly when the configuration asks
    /// for them; the filter reports every key present and the perfect hash
    /// answers every key with its row.
    pub open spec fn wf(self) -> bool {
        &&& self.columns.len() <= MAX_COLUMNS
        &&& self.keys.wf()
        &&& self.keys.len() <= MAX_KEYS
        &&& forall|c: int|
            0 <= c < self.columns.len() ==> (#[trigger] self.columns[c]).wf()
                && self.columns[c].len() == self.keys.len()
        &&& self.filter.wf()
        &&& filter_fits(self.config, self.filter)
        &&& (self.config is WithFilters <==> self.phf is Some)
        &&& forall|i: int|
            0 <= i < self.keys.len() && self.filter is Cuckoo ==> self.filter.may_contain(
                #[trigger] self.keys.row(i),
            )
        &&& self.phf matches Some(p) ==> {
            &&& p.wf()
            &&& p.encodable()
            &&& p.len == self.keys.len()
            &&& forall|i: int| 0 <= i < self.keys.len() ==> p.get(#[trigger] self.keys.row(i)) == i
        }
    }

    /// The row that a lookup of `key` finds: the first row with that key.
    pub open spec fn find(self, key: Seq<u8>) -> Option<int> {
        position(self.key_list(), key)
    }
}

/// A jar that is being built: a single-writer, append-only accumulator.
#[derive(Debug)]
pub struct NippyJarBuilder {
    config: Filters,
    columns: Vec<Column>,
    keys: Vec<Vec<u8>>,
    filter: InclusionFilters,
}

impl View for NippyJarBuilder {
    type V = BuilderState;

    closed spec fn view(&self) -> BuilderState {
        BuilderState {
            config: self.config,
            columns: column_views(self.columns@),
            keys: byte_rows(self.keys@),
            filter: self.filter@,
        }
    }
}

/// The given number of empty column blocks.
fn empty_columns(columns: usize) -> (out: Vec<Column>)
    ensures
        out@.len() == columns,
        forall|c: int| 0 <= c < columns ==> (#[trigger] out@[c])@ == ColumnState::empty(),
        forall|c: int| 0 <= c < columns ==> (#[trigger] out@[c]).wf(),
{
    let mut out: Vec<Column> = Vec::new();
    let mut c: usize = 0;
    while c < columns
        invariant
            c <= columns,
            out@.len() == c,
            forall|k: int| 0 <= k < c ==> (#[trigger] out@[k])@ == ColumnState::empty(),
            forall|k: int| 0 <= k < c ==> (#[trigger] out@[k]).wf(),
        decreases columns - c,
    {
        out.push(Column::new());
        c += 1;
    }
    out
}

/// Appends one cell to each column block.
fn push_cells(columns: &mut Vec<Column>, row: &Vec<Vec<u8>>)
    requires
        old(columns)@.len() == row@.len(),
        forall|k: int| 0 <= k < old(columns)@.len() ==> (#[trigger] old(columns)@[k]).wf(),
    ensures
        final(columns)@.len() == old(columns)@.len(),
        forall|k: int| 0 <= k < row@.len() ==> (#[trigger] final(columns)@[k]).wf(),
        forall|k: int|
            0 <= k < row@.len() ==> (#[trigger] final(columns)@[k])@ == old(columns)@[k]@.push(
                row@[k]@,
            ),
{
    let width: usize = columns.len();
    let mut c: usize = 0;
    while c < width
        invariant
            c <= width,
            width == row@.len(),
            columns@.len() == width,
            forall|k: int| 0 <= k < c ==> (#[trigger] columns@[k])@ == old(columns)@[k]@.push(row@[k]@),
            forall|k: int| 0 <= k < width ==> (#[trigger] columns@[k]).wf(),
            forall|k: int| c <= k < width ==> (#[trigger] columns@[k]) == old(columns)@[k],
        decreases width - c,
    {
        columns[c].push(row[c].as_slice());
        c += 1;
    }
}

/// A builder with one more row keeps its invariant and its old rows, and
/// has the new row at the end.
pub proof fn lemma_pushed(before: BuilderState, row: Seq<Seq<u8>>, key: Seq<u8>, filter: FilterState)
    requires
        before.wf(),
        row.len() == before.columns.len(),
        before.keys.len() < MAX_KEYS,
        filter.wf(),
        filter_fits(before.config, filter),
        filter is Cuckoo ==> filter.may_contain(key),
        forall|e: Seq<u8>| before.filter.may_contain(e) ==> filter.may_contain(e),
        forall|c: int| 0 <= c < row.len() ==> (#[trigger] before.columns[c]).push(row[c]).wf(),
    ensures
        before.pushed(row, key, filter).wf(),
        before.pushed(row, key, filter).rows() == before.rows().push(row),
{
    let after = before.pushed(row, key, filter);
    assert forall|c: int| 0 <= c < after.columns.len() implies (#[trigger] after.columns[c]).wf()
        && after.columns[c].len() == after.keys.len() && after.columns[c].rows()
        == before.columns[c].rows().push(row[c]) by {
        assert(before.columns[c].wf());
        assert(before.columns[c].push(row[c]).wf());
        assert(before.columns[c].push(row[c]).offsets.last() == (before.columns[c].data.len()
            + row[c].len()) as u64);
        lemma_push(before.columns[c], row[c]);
    }
    assert forall|i: int| 0 <= i < after.keys.len() && after.filter is Cuckoo implies after.filter.may_contain(
        #[trigger] after.keys[i],
    ) by {
        if i < before.keys.len() {
            assert(after.keys[i] == before.keys[i]);
            assert(before.filter is Cuckoo);
            assert(before.filter.may_contain(before.keys[i]));
        }
    }
    assert forall|i: int| 0 <= i < after.keys.len() implies after.rows()[i] == before.rows().push(
        row,
    )[i] by {
        assert forall|c: int| 0 <= c < row.len() implies after.row(i)[c] == before.rows().push(
            row,
        )[i][c] by {
            assert(after.columns[c].rows() == before.columns[c].rows().push(row[c]));
            assert(after.columns[c].rows()[i] == after.columns[c].row(i));
            if i < before.keys.len() {
                assert(before.columns[c].rows()[i] == before.columns[c].row(i));
            }
        }
        assert(after.row(i) =~= before.rows().push(row)[i]);
    }
    assert(after.rows() =~= before.rows().push(row));
}

impl NippyJarBuilder {
    /// Whether the builder's invariant holds; every builder that this
    /// module hands out is well formed.
    pub open spec fn wf(&self) -> bool {
        self@.wf()
    }

    /// The model of a builder that has just been created.
    pub open spec fn fresh(columns: nat, config: Filters, filter: FilterState) -> BuilderState {
        BuilderState {
            config,
            columns: Seq::new(columns, |c: int| ColumnState::empty()),
            keys: Seq::empty(),
            filter,
        }
    }

    /// The filter that a new builder starts with: with filters enabled, an
    /// empty cuckoo filter with room for `capacity` keys and fingerprints
    /// of the default width; else none.
    pub open spec fn fresh_filter(config: Filters, capacity: nat) -> FilterState {
        match config {
            Filters::WithFilters(_, _) => FilterState::Cuckoo(
                CuckooState::empty(bucket_mask_for(capacity), DEFAULT_FINGERPRINT_MASK),
            ),
            Filters::WithoutFilters => FilterState::Unused,
        }
    }

    /// Creates a builder for a jar with the given number of columns. With
    /// filters enabled its cuckoo filter has room for `capacity` keys.
    /// More than [`MAX_COLUMNS`] columns are refused.
    pub fn new(columns: usize, config: Filters, capacity: usize) -> (r: Result<
        Self,
        NippyJarError,
    >)
        ensures
            match r {
                Ok(b) => columns <= MAX_COLUMNS && b.wf() && b@ == Self::fresh(
                    columns as nat,
                    config,
                    Self::fresh_filter(config, capacity as nat),
                ),
                Err(e) => columns > MAX_COLUMNS && e == NippyJarError::TooLarge,
            },
    {
        if columns > MAX_COLUMNS {
            return Err(NippyJarError::TooLarge);
        }
        let filter = match config {
            Filters::WithFilters(_, _) => InclusionFilters::Cuckoo(Cuckoo::new(capacity)),
            Filters::WithoutFilters => InclusionFilters::Unused,
        };
        let b = NippyJarBuilder { config, columns: empty_columns(columns), keys: Vec::new(), filter };
        proof {
            assert(b@.columns =~= Self::fresh(columns as nat, config, b@.filter).columns);
            assert(b@.keys =~= Seq::<Seq<u8>>::empty());
        }
        Ok(b)
    }

    /// Creates a builder with filters enabled that uses the given cuckoo
    /// filter, which the caller has sized.
    pub fn with_filter(columns: usize, variant: PerfectHashingFunction, filter: Cuckoo) -> (r:
        Result<Self, NippyJarError>)
        requires
            filter.wf(),
        ensures
            match r {
                Ok(b) => columns <= MAX_COLUMNS && b.wf() && b@ == Self::fresh(
                    columns as nat,
                    Filters::WithFilters(crate::snapshot::InclusionFilter::Cuckoo, variant),
                    FilterState::Cuckoo(filter@),
                ),
                Err(e) => columns > MAX_COLUMNS && e == NippyJarError::TooLarge,
            },
    {
        if columns > MAX_COLUMNS {
            return Err(NippyJarError::TooLarge);
        }
        let config = Filters::WithFilters(crate::snapshot::InclusionFilter::Cuckoo, variant);
        let b = NippyJarBuilder {
            config,
            columns: empty_columns(columns),
            keys: Vec::new(),
            filter: InclusionFilters::Cuckoo(filter),
        };
        proof {
            assert(b@.columns =~= Self::fresh(columns as nat, config, b@.filter).columns);
            assert(b@.keys =~= Seq::<Seq<u8>>::empty());
        }
        Ok(b)
    }

    /// The number of rows appended so far.
    pub fn rows(&self) -> (n: usize)
        ensures
            n == self@.keys.len(),
    {
        self.keys.len()
    }

    /// The number of columns.
    pub fn columns(&self) -> (n: usize)
        ensures
            n == self@.columns.len(),
    {
        self.columns.len()
    }

    /// Appends a row: each column's bytes go to the end of its block, the
    /// key is kept for the perfect hash and, with filters enabled, fed to
    /// the filter. On an error nothing is appended.
    pub fn append_row(&mut self, row: &Vec<Vec<u8>>, key: &[u8]) -> (r: Result<(), NippyJarError>)
        requires
            old(self).wf(),
        ensures
            final(self).wf(),
            final(self)@ == old(self)@.append(byte_rows(row@), key@).0,
            r == old(self)@.append(byte_rows(row@), key@).1,
            r is Ok ==> final(self)@.keys == old(self)@.keys.push(key@),
            r is Ok ==> final(self)@.rows() == old(self)@.rows().push(byte_rows(row@)),
            r is Err ==> final(self)@ == old(self)@,
    {
        let ghost before = self@;
        let ghost cells = byte_rows(row@);
        if row.len() != self.columns.len() {
            return Err(NippyJarError::ColumnCountMismatch);
        }
        if self.keys.len() >= MAX_KEYS {
            return Err(NippyJarError::TooLarge);
        }
        match self.config {
            Filters::WithFilters(_, _) => {
                match self.filter.add(key) {
                    Ok(()) => {},
                    Err(e) => {
                        return Err(e);
                    },
                }
            },
            Filters::WithoutFilters => {},
        }
        let ghost filter = self.filter@;
        proof {
            assert forall|k: int| 0 <= k < self.columns@.len() implies (#[trigger] self.columns@[k]).wf() by {
                assert(before.columns[k].wf());
            }
        }
        push_cells(&mut self.columns, row);
        let ghost keys_before = self.keys@;
        self.keys.push(copy_bytes(key));
        proof {
            lemma_byte_rows_push(keys_before, self.keys@.last());
            assert(self.keys@ =~= keys_before.push(self.keys@.last()));
            let after = before.pushed(cells, key@, filter);
            assert(self@.columns =~= after.columns);
            assert(self@.keys =~= after.keys);
            assert(self@ == after);
            assert forall|e: Seq<u8>| before.filter.may_contain(e) implies filter.may_contain(e) by {
                assert(old(self).filter.may_contain(e) == before.filter.may_contain(e));
            }
            assert forall|c: int| 0 <= c < cells.len() implies (#[trigger] before.columns[c]).push(
                cells[c],
            ).wf() by {
                assert(self.columns@[c].wf());
            }
            lemma_pushed(before, cells, key@, filter);
        }
        Ok(())
    }
}

/// A frozen jar: immutable, and safe to read from any number of readers.
#[derive(Debug)]
pub struct NippyJar {
    config: Filters,
    columns: Vec<Column>,
    keys: Column,
    filter: InclusionFilters,
    phf: Option<PerfectHash>,
}

impl View for NippyJar {
    type V = JarState;

    closed spec fn view(&self) -> JarState {
        JarState {
            config: self.config,
            columns: column_views(self.columns@),
            keys: self.keys@,
            filter: self.filter@,
            phf: match self.phf {
                Some(p) => Some(p@),
                None => None,
            },
        }
    }
}

/// The key block that holds the given keys.
fn key_column(keys: &Vec<Vec<u8>>) -> (out: Column)
    ensures
        out.wf(),
        out@ == ColumnState::empty().push_all(byte_rows(keys@)),
        out@.rows() == byte_rows(keys@),
{
    let ghost ks = byte_rows(keys@);
    let mut out = Column::new();
    let mut k: usize = 0;
    proof {
        assert(ks.take(0).len() == 0);
        assert(out@.rows() =~= ks.take(0));
    }
    while k < keys.len()
        invariant
            k <= keys@.len(),
            ks == byte_rows(keys@),
            out.wf(),
            out@ == ColumnState::empty().push_all(ks.take(k as int)),
            out@.rows() == ks.take(k as int),
        decreases keys@.len() - k,
    {
        proof {
            assert(ks.take(k + 1).drop_last() =~= ks.take(k as int));
            assert(ks.take(k + 1).last() == keys@[k as int]@);
            assert(ks.take(k as int).push(keys@[k as int]@) =~= ks.take(k + 1));
        }
        out.push(keys[k].as_slice());
        k += 1;
    }
    proof {
        assert(ks.take(k as int) =~= ks);
    }
    out
}

impl NippyJarBuilder {
    /// Freezes the jar. The builder is used up: nothing can be appended to
    /// a frozen jar. With filters enabled, equal keys are refused.
    pub fn freeze(self) -> (r: Result<NippyJar, NippyJarError>)
        requires
            self.wf(),
        ensures
            match self@.freeze() {
                Ok(st) => r matches Ok(jar) && jar@ == st && jar.wf(),
                Err(e) => r matches Err(x) && x == e,
            },
            r matches Ok(jar) ==> jar@.rows() == self@.rows() && jar@.key_list() == self@.keys,
    {
        let ghost model = self@;
        let NippyJarBuilder { config, columns, keys, filter } = self;
        let phf = match config {
            Filters::WithFilters(_, variant) => match PerfectHash::build(variant, &keys) {
                Ok(f) => Some(f),
                Err(e) => {
                    return Err(e);
                },
            },
            Filters::WithoutFilters => None,
        };
        let key_block = key_column(&keys);
        let jar = NippyJar { config, columns, keys: key_block, filter, phf };
        proof {
            let ks = model.keys;
            assert forall|i: int| 0 <= i < ks.len() implies jar@.keys.row(i) == #[trigger] ks[i] by {
                assert(jar@.keys.rows()[i] == ks[i]);
            }
            assert(jar@.rows() =~= model.rows());
            match &jar.phf {
                Some(index) => {
                    index.lemma_encodable();
                    assert forall|i: int| 0 <= i < jar@.keys.len() implies index@.get(
                        #[trigger] jar@.keys.row(i),
                    ) == i by {
                        assert(jar@.keys.row(i) == ks[i]);
                    }
                },
                None => {},
            }
            assert forall|i: int|
                0 <= i < jar@.keys.len() && jar@.filter is Cuckoo implies jar@.filter.may_contain(
                #[trigger] jar@.keys.row(i),
            ) by {
                assert(jar@.keys.row(i) == ks[i]);
            }
        }
        Ok(jar)
    }
}

impl NippyJar {
    /// Whether the jar's invariant holds; every jar that this module hands
    /// out is well formed.
    pub open spec fn wf(&self) -> bool {
        self@.wf()
    }

    /// The filter configuration.
    pub fn config(&self) -> (c: Filters)
        ensures
            c == self@.config,
    {
        self.config
    }

    /// The number of rows.
    pub fn rows(&self) -> (n: usize)
        requires
            self.wf(),
        ensures
            n == self@.row_count(),
    {
        self.keys.len()
    }

    /// The number of columns.
    pub fn columns(&self) -> (n: usize)
        ensures
            n == self@.columns.len(),
    {
        self.columns.len()
    }

    /// Asks the jar's filter for a key. A jar without filters answers with
    /// the unsupported error.
    pub fn contains(&self, key: &[u8]) -> (r: Result<bool, NippyJarError>)
        requires
            self.wf(),
        ensures
            r == self@.filter.contains(key@),
    {
        self.filter.contains(key)
    }

    /// The key of row `i`, or `None` past the last row.
    pub fn key(&self, i: usize) -> (r: Option<&[u8]>)
        requires
            self.wf(),
        ensures
            match r {
                Some(k) => i < self@.row_count() && k@ == self@.keys.row(i as int),
                None => i >= self@.row_count(),
            },
    {
        self.keys.get(i)
    }

    /// The stored bytes of one cell, or `None` outside the jar.
    pub fn cell(&self, row: usize, column: usize) -> (r: Option<&[u8]>)
        requires
            self.wf(),
        ensures
            match r {
                Some(bytes) => row < self@.row_count() && column < self@.columns.len() && bytes@
                    == self@.columns[column as int].row(row as int),
                None => row >= self@.row_count() || column >= self@.columns.len(),
            },
    {
        if column >= self.columns.len() {
            return None;
        }
        proof {
            assert(self@.columns[column as int].wf());
        }
        self.columns[column].get(row)
    }

    /// Row `i`, one byte string per column, or `None` past the last row.
    pub fn row(&self, i: usize) -> (r: Option<Vec<Vec<u8>>>)
        requires
            self.wf(),
        ensures
            match r {
                Some(cells) => i < self@.row_count() && byte_rows(cells@) == self@.row(i as int),
                None => i >= self@.row_count(),
            },
    {
        if i >= self.keys.len() {
            return None;
        }
        let mut cells: Vec<Vec<u8>> = Vec::new();
        let mut c: usize = 0;
        while c < self.columns.len()
            invariant
                c <= self.columns@.len(),
                self.wf(),
                i < self@.row_count(),
                cells@.len() == c,
                forall|k: int| 0 <= k < c ==> (#[trigger] cells@[k])@ == self@.columns[k].row(i as int),
            decreases self.columns@.len() - c,
        {
            proof {
                assert(self@.columns[c as int].wf());
            }
            match self.columns[c].get(i) {
                Some(bytes) => {
                    cells.push(copy_bytes(bytes));
                },
                None => {
                    proof {
                        assert(false);
                    }
                },
            }
            c += 1;
        }
        proof {
            assert(byte_rows(cells@) =~= self@.row(i as int));
        }
        Some(cells)
    }

    /// The row that holds `key`: the first row with that key, or `None` if
    /// no row has it. With filters the filter is asked first, then the
    /// perfect hash names a row, and the key stored there decides.
    pub fn find(&self, key: &[u8]) -> (r: Option<usize>)
        requires
            self.wf(),
        ensures
            match self@.find(key@) {
                Some(i) => r == Some(i as usize) && 0 <= i < self@.row_count(),
                None => r is None,
            },
    {
        proof {
            lemma_position(self@.key_list(), key@);
        }
        let ghost keys = self@.key_list();
        match &self.phf {
            Some(p) => {
                assert(self@.filter is Cuckoo);
                match self.filter.contains(key) {
                    Ok(true) => {},
                    _ => {
                        proof {
                            if position(keys, key@) is Some {
                                let i = position(keys, key@)->0;
                                assert(keys[i] == self@.keys.row(i));
                                assert(self@.filter.may_contain(self@.keys.row(i)));
                            }
                        }
                        return None;
                    },
                }
                let i: usize = p.get(key);
                proof {
                    if position(keys, key@) is Some {
                        let j = position(keys, key@)->0;
                        assert(keys[j] == self@.keys.row(j));
                        assert(p@.get(self@.keys.row(j)) == j);
                    }
                }
                match self.keys.get(i) {
                    Some(stored) => {
                        if bytes_eq(stored, key) {
                            proof {
                                assert(keys[i as int] == self@.keys.row(i as int));
                            }
                            Some(i)
                        } else {
                            None
                        }
                    },
                    None => None,
                }
            },
            None => {
                let n: usize = self.keys.len();
                let mut i: usize = 0;
                proof {
                    assert(keys.take(0).len() == 0);
                }
                while i < n
                    invariant
                        i <= n,
                        self.wf(),
                        n == self@.row_count(),
                        keys == self@.key_list(),
                        position(keys.take(i as int), key@) is None,
                    decreases n - i,
                {
                    proof {
                        assert(keys.take(i + 1).drop_last() =~= keys.take(i as int));
                        assert(keys.take(i + 1).last() == self@.keys.row(i as int));
                    }
                    match self.keys.get(i) {
                        Some(stored) => {
                            if bytes_eq(stored, key) {
                                proof {
                                    lemma_position_prefix(keys, i + 1, key@);
                                }
                                return Some(i);
                            }
                        },
                        None => {},
                    }
                    i += 1;
                }
                proof {
                    assert(keys.take(i as int) =~= keys);
                }
                None
            },
        }
    }

    /// Point lookup: the row that holds `key`, or `NotFound`.
    pub fn get(&self, key: &[u8]) -> (r: Result<Vec<Vec<u8>>, NippyJarError>)
        requires
            self.wf(),
        ensures
            match self@.find(key@) {
                Some(i) => r matches Ok(cells) && byte_rows(cells@) == self@.row(i),
                None => r matches Err(e) && e == NippyJarError::NotFound,
            },
    {
        match self.find(key) {
            Some(i) => {
                proof {
                    let found = self@.find(key@)->0;
                    assert(found < self@.row_count());
                    assert(self@.row_count() <= MAX_KEYS);
                    assert(i as int == found);
                }
                match self.row(i) {
                    Some(cells) => Ok(cells),
                    None => Err(NippyJarError::NotFound),
                }
            },
            None => Err(NippyJarError::NotFound),
        }
    }

    /// Range scan: up to `count` rows from row `start` on, in order,
    /// without touching the filter or the perfect hash.
    pub fn scan(&self, start: usize, count: usize) -> (r: Vec<Vec<Vec<u8>>>)
        requires
            self.wf(),
        ensures
            row_views(r@) == self@.rows().subrange(
                scan_start(self@.row_count(), start as nat) as int,
                scan_end(self@.row_count(), start as nat, count as nat) as int,
            ),
    {
        let n: usize = self.keys.len();
        let first: usize = if start > n {
            n
        } else {
            start
        };
        let last: usize = if count > n - first {
            n
        } else {
            first + count
        };
        let mut out: Vec<Vec<Vec<u8>>> = Vec::new();
        let mut i: usize = first;
        while i < last
            invariant
                first <= i <= last <= n,
                self.wf(),
                n == self@.row_count(),
                out@.len() == i - first,
                forall|k: int| 0 <= k < out@.len() ==> byte_rows((#[trigger] out@[k])@) == self@.row(first + k),
            decreases last - i,
        {
            match self.row(i) {
                Some(cells) => {
                    out.push(cells);
                },
                None => {
                    proof {
                        assert(false);
                    }
                },
            }
            i += 1;
        }
        proof {
            assert(row_views(out@) =~= self@.rows().subrange(first as int, last as int));
        }
        out
    }
}

/// The first row of a scan that starts at `start` in a jar of `rows` rows.
pub open spec fn scan_start(rows: nat, start: nat) -> nat {
    if start > rows {
        rows
    } else {
        start
    }
}

/// The row behind the last row of a scan of `count` rows from `start`.
pub open spec fn scan_end(rows: nat, start: nat, count: nat) -> nat {
    if scan_start(rows, start) + count > rows {
        rows
    } else {
        scan_start(rows, start) + count
    }
}

/// The four byte regions that a frozen jar is published as.
#[derive(Debug, Clone, PartialEq, Eq)]
pub struct Artifacts {
    /// The column blocks and the key block.
    pub data: Vec<u8>,
    /// The configuration, the counts and the offset tables.
    pub offsets: Vec<u8>,
    /// The filter.
    pub filter: Vec<u8>,
    /// The perfect hash.
    pub phf: Vec<u8>,
}

/// The mathematical model of a jar's artifacts.
pub struct ArtifactsState {
    pub data: Seq<u8>,
    pub offsets: Seq<u8>,
    pub filter: Seq<u8>,
    pub phf: Seq<u8>,
}

impl View for Artifacts {
    type V = ArtifactsState;

    open spec fn view(&self) -> ArtifactsState {
        ArtifactsState {
            data: self.data@,
            offsets: self.offsets@,
            filter: self.filter@,
            phf: self.phf@,
        }
    }
}

/// The number that stands for a filter configuration.
pub open spec fn config_tag(config: Filters) -> u64 {
    match config {
        Filters::WithoutFilters => 0,
        Filters::WithFilters(_, PerfectHashingFunction::Fmph) => 1,
        Filters::WithFilters(_, PerfectHashingFunction::GoFmph) => 2,
    }
}

/// The filter configuration that a number stands for.
pub open spec fn tag_config(tag: u64) -> Option<Filters> {
    if tag == 0 {
        Some(Filters::WithoutFilters)
    } else if tag == 1 {
        Some(
            Filters::WithFilters(
                crate::snapshot::InclusionFilter::Cuckoo,
                PerfectHashingFunction::Fmph,
            ),
        )
    } else if tag == 2 {
        Some(
            Filters::WithFilters(
                crate::snapshot::InclusionFilter::Cuckoo,
                PerfectHashingFunction::GoFmph,
            ),
        )
    } else {
        None
    }
}

/// Whether the offsets of block `c` are readable as words.
pub open spec fn readable(offsets: Seq<Seq<u8>>, c: int) -> bool {
    bytes_words(offsets[1 + c]) is Some
}

/// The block `c` that the data and offset sections hold.
pub open spec fn column_at(data: Seq<Seq<u8>>, offsets: Seq<Seq<u8>>, c: int) -> ColumnState {
    ColumnState { data: data[c], offsets: bytes_words(offsets[1 + c])->0 }
}

/// The perfect hash that sections hold: none for no sections.
pub open spec fn phf_decoded(sections: Seq<Seq<u8>>) -> Option<Option<PhfState>> {
    if sections.len() == 0 {
        Some(None)
    } else {
        match PhfState::decoded(sections) {
            Some(p) => Some(Some(p)),
            None => None,
        }
    }
}

/// Whether the sections of the four artifacts have the shape of a jar: a
/// head of three words, one data and one offset section per block, and a
/// filter and a perfect hash that can be read.
pub open spec fn shaped(
    data: Seq<Seq<u8>>,
    offsets: Seq<Seq<u8>>,
    filter: Seq<Seq<u8>>,
    phf: Seq<Seq<u8>>,
) -> bool {
    &&& offsets.len() >= 2
    &&& bytes_words(offsets[0]) matches Some(head) && {
        &&& head.len() == 3
        &&& tag_config(head[0]) is Some
        &&& head[1] <= MAX_COLUMNS
        &&& offsets.len() == head[1] + 2
        &&& data.len() == head[1] + 1
        &&& forall|c: int| 0 <= c <= head[1] ==> #[trigger] readable(offsets, c)
        &&& column_at(data, offsets, head[1] as int).offsets.len() == head[2] + 1
    }
    &&& FilterState::decoded(filter) is Some
    &&& phf_decoded(phf) is Some
}

/// The jar that shaped sections hold.
pub open spec fn assembled(
    data: Seq<Seq<u8>>,
    offsets: Seq<Seq<u8>>,
    filter: Seq<Seq<u8>>,
    phf: Seq<Seq<u8>>,
) -> JarState {
    let head = bytes_words(offsets[0])->0;
    JarState {
        config: tag_config(head[0])->0,
        columns: Seq::new(head[1] as nat, |c: int| column_at(data, offsets, c)),
        keys: column_at(data, offsets, head[1] as int),
        filter: FilterState::decoded(filter)->0,
        phf: phf_decoded(phf)->0,
    }
}

impl JarState {
    /// The sections of the data artifact: the column blocks, then the key
    /// block.
    pub open spec fn data_sections(self) -> Seq<Seq<u8>> {
        Seq::new(
            self.columns.len() + 1,
            |c: int|
                if c < self.columns.len() {
                    self.columns[c].data
                } else {
                    self.keys.data
                },
        )
    }

    /// The sections of the offsets artifact: the configuration with the
    /// numbers of columns and rows, then the offset table of each block.
    pub open spec fn offset_sections(self) -> Seq<Seq<u8>> {
        seq![
            words_bytes(
                seq![config_tag(self.config), self.columns.len() as u64, self.keys.len() as u64],
            ),
        ] + Seq::new(
            self.columns.len() + 1,
            |c: int|
                words_bytes(
                    if c < self.columns.len() {
                        self.columns[c].offsets
                    } else {
                        self.keys.offsets
                    },
                ),
        )
    }

    /// The sections of the perfect hash artifact: none without one.
    pub open spec fn phf_sections(self) -> Seq<Seq<u8>> {
        match self.phf {
            Some(p) => p.sections(),
            None => Seq::empty(),
        }
    }

    /// The artifacts that the jar is published as.
    pub open spec fn artifacts(self) -> ArtifactsState {
        ArtifactsState {
            data: frame(self.data_sections()),
            offsets: frame(self.offset_sections()),
            filter: frame(self.filter.sections()),
            phf: frame(self.phf_sections()),
        }
    }

    /// The jar that artifacts hold, or `None` if one of them is not a
    /// frame or they do not hold a well formed jar.
    pub open spec fn opened(artifacts: ArtifactsState) -> Option<JarState> {
        match (
            unframe(artifacts.data),
            unframe(artifacts.offsets),
            unframe(artifacts.filter),
            unframe(artifacts.phf),
        ) {
            (Some(d), Some(o), Some(f), Some(p)) => if shaped(d, o, f, p) && assembled(
                d,
                o,
                f,
                p,
            ).wf() {
                Some(assembled(d, o, f, p))
            } else {
                None
            },
            _ => None,
        }
    }
}

/// The sections of a well formed jar have the shape of a jar and hold the
/// jar itself.
pub proof fn lemma_sections_roundtrip(st: JarState)
    requires
        st.wf(),
    ensures
        shaped(st.data_sections(), st.offset_sections(), st.filter.sections(), st.phf_sections()),
        assembled(st.data_sections(), st.offset_sections(), st.filter.sections(), st.phf_sections())
            == st,
{
    let d = st.data_sections();
    let o = st.offset_sections();
    let f = st.filter.sections();
    let p = st.phf_sections();
    let width = st.columns.len() as int;
    let head = seq![config_tag(st.config), st.columns.len() as u64, st.keys.len() as u64];
    lemma_words_roundtrip(head);
    assert(o[0] == words_bytes(head));
    assert(tag_config(config_tag(st.config)) == Some(st.config)) by {
        match st.config {
            Filters::WithFilters(kind, _) => {
                assert(kind == crate::snapshot::InclusionFilter::Cuckoo);
            },
            Filters::WithoutFilters => {},
        }
    }
    assert forall|c: int| 0 <= c <= width implies #[trigger] readable(o, c) && column_at(d, o, c)
        == (if c < width {
        st.columns[c]
    } else {
        st.keys
    }) by {
        let block = if c < width {
            st.columns[c]
        } else {
            st.keys
        };
        assert(o[1 + c] == words_bytes(block.offsets));
        lemma_words_roundtrip(block.offsets);
    }
    lemma_filter_roundtrip(st.filter);
    match st.phf {
        Some(index) => {
            lemma_phf_roundtrip(index);
            assert(p.len() > 0);
        },
        None => {},
    }
    let back = assembled(d, o, f, p);
    assert(readable(o, width));
    assert(back.keys == st.keys);
    assert(back.columns =~= st.columns) by {
        assert forall|c: int| 0 <= c < width implies back.columns[c] == st.columns[c] by {
            assert(readable(o, c));
        }
    }
}

/// Every section of a well formed jar is short enough to be framed.
pub proof fn lemma_sections_bounded(st: JarState)
    requires
        st.wf(),
    ensures
        framable(st.data_sections()),
        framable(st.offset_sections()),
        framable(st.filter.sections()),
        framable(st.phf_sections()),
{
    let d = st.data_sections();
    let o = st.offset_sections();
    assert forall|c: int| 0 <= c < d.len() implies (#[trigger] d[c]).len() <= u64::MAX by {
        if c < st.columns.len() {
            assert(st.columns[c].wf());
        }
    }
    assert forall|c: int| 0 <= c < o.len() implies (#[trigger] o[c]).len() <= u64::MAX by {
        if 1 <= c && c - 1 < st.columns.len() {
            assert(st.columns[c - 1].wf());
        }
    }
    match st.phf {
        Some(index) => {
            let p = index.sections();
            assert forall|i: int| 0 <= i < p.len() implies (#[trigger] p[i]).len() <= u64::MAX by {
                let levels = index.levels.len();
                if 1 <= i && i < 1 + 2 * levels {
                    let lvl = index.levels[(i - 1) / 2];
                    assert(lvl.wf(index.len));
                    lemma_level_bounds(lvl, index.len);
                } else if i >= 2 + 2 * levels {
                    assert(p[i] == index.fallback_keys[i - 2 - 2 * levels]);
                }
            }
        },
        None => {},
    }
}

/// Whether sections are few and short enough to be framed.
pub open spec fn framable(sections: Seq<Seq<u8>>) -> bool {
    &&& sections.len() <= u64::MAX
    &&& forall|i: int| 0 <= i < sections.len() ==> (#[trigger] sections[i]).len() <= u64::MAX
}

/// Round trip of a jar: opening the artifacts of a well formed jar gives
/// back the jar, and with it every row and every key.
pub proof fn lemma_jar_roundtrip(st: JarState)
    requires
        st.wf(),
    ensures
        JarState::opened(st.artifacts()) == Some(st),
{
    lemma_sections_bounded(st);
    lemma_frame_roundtrip(st.data_sections());
    lemma_frame_roundtrip(st.offset_sections());
    lemma_frame_roundtrip(st.filter.sections());
    lemma_frame_roundtrip(st.phf_sections());
    lemma_sections_roundtrip(st);
}

/// Whether block `c` can be read and is well formed.
pub open spec fn block_sound(data: Seq<Seq<u8>>, offsets: Seq<Seq<u8>>, c: int) -> bool {
    readable(offsets, c) && column_at(data, offsets, c).wf()
}

/// Whether each of the blocks `0 .. count` can be read and is well formed.
pub open spec fn blocks_sound(data: Seq<Seq<u8>>, offsets: Seq<Seq<u8>>, count: int) -> bool {
    forall|c: int| 0 <= c < count ==> #[trigger] block_sound(data, offsets, c)
}

/// The blocks `0 .. count` that the data and offset sections hold, if
/// every one of them can be read and is well formed.
fn read_blocks(data: &Vec<Vec<u8>>, offsets: &Vec<Vec<u8>>, count: usize) -> (r: Option<
    Vec<Column>,
>)
    requires
        data@.len() >= count,
        offsets@.len() >= count + 1,
    ensures
        match r {
            Some(blocks) => {
                &&& blocks@.len() == count
                &&& forall|c: int| 0 <= c < count ==> #[trigger] readable(byte_rows(offsets@), c)
                &&& forall|c: int|
                    0 <= c < count ==> (#[trigger] blocks@[c])@ == column_at(
                        byte_rows(data@),
                        byte_rows(offsets@),
                        c,
                    )
                &&& forall|c: int| 0 <= c < count ==> (#[trigger] blocks@[c]).wf()
            },
            None => !blocks_sound(byte_rows(data@), byte_rows(offsets@), count as int),
        },
{
    let ghost d = byte_rows(data@);
    let ghost o = byte_rows(offsets@);
    let mut blocks: Vec<Column> = Vec::new();
    let mut c: usize = 0;
    while c < count
        invariant
            c <= count,
            data@.len() >= count,
            offsets@.len() >= count + 1,
            d == byte_rows(data@),
            o == byte_rows(offsets@),
            blocks@.len() == c,
            forall|k: int| 0 <= k < c ==> #[trigger] readable(o, k),
            forall|k: int| 0 <= k < c ==> (#[trigger] blocks@[k])@ == column_at(d, o, k),
            forall|k: int| 0 <= k < c ==> (#[trigger] blocks@[k]).wf(),
        decreases count - c,
    {
        proof {
            assert(o[1 + c] == offsets@[1 + c]@);
            assert(d[c as int] == data@[c as int]@);
        }
        let words = match decode_words(offsets[1 + c].as_slice()) {
            Some(w) => w,
            None => {
                proof {
                    assert(!block_sound(d, o, c as int));
                }
                return None;
            },
        };
        match Column::from_parts(copy_bytes(data[c].as_slice()), words) {
            Some(block) => {
                blocks.push(block);
            },
            None => {
                proof {
                    assert(!block_sound(d, o, c as int));
                }
                return None;
            },
        }
        c += 1;
    }
    Some(blocks)
}

/// Whether the filter reports every key present and the perfect hash
/// answers every key with its row.
fn indexes_agree(keys: &Column, filter: &InclusionFilters, phf: &Option<PerfectHash>) -> (r: bool)
    requires
        keys.wf(),
        keys@.len() <= MAX_KEYS,
        filter.valid(),
        phf matches Some(p) ==> p.wf(),
    ensures
        r == ((forall|i: int|
            0 <= i < keys@.len() && filter@ is Cuckoo ==> filter@.may_contain(
                #[trigger] keys@.row(i),
            )) && (phf matches Some(p) ==> forall|i: int|
            0 <= i < keys@.len() ==> p@.get(#[trigger] keys@.row(i)) == i)),
{
    let n: usize = keys.len();
    let mut i: usize = 0;
    while i < n
        invariant
            i <= n,
            n == keys@.len(),
            n <= MAX_KEYS,
            keys.wf(),
            filter.valid(),
            phf matches Some(p) ==> p.wf(),
            forall|k: int|
                0 <= k < i && filter@ is Cuckoo ==> filter@.may_contain(#[trigger] keys@.row(k)),
            phf matches Some(p) ==> forall|k: int|
                0 <= k < i ==> p@.get(#[trigger] keys@.row(k)) == k,
        decreases n - i,
    {
        match keys.get(i) {
            Some(key) => {
                match filter.contains(key) {
                    Ok(present) => {
                        if !present {
                            proof {
                                assert(!filter@.may_contain(keys@.row(i as int)));
                            }
                            return false;
                        }
                    },
                    Err(_) => {},
                }
                match phf {
                    Some(p) => {
                        if p.get(key) != i {
                            proof {
                                assert(p@.get(keys@.row(i as int)) != i);
                            }
                            return false;
                        }
                    },
                    None => {},
                }
            },
            None => {},
        }
        i += 1;
    }
    true
}

/// The words of the head of the offsets artifact.
fn head_words(config: Filters, columns: usize, rows: usize) -> (head: Vec<u64>)
    ensures
        head@ == seq![config_tag(config), columns as u64, rows as u64],
{
    let tag: u64 = match config {
        Filters::WithoutFilters => 0,
        Filters::WithFilters(_, PerfectHashingFunction::Fmph) => 1,
        Filters::WithFilters(_, PerfectHashingFunction::GoFmph) => 2,
    };
    let mut head: Vec<u64> = Vec::new();
    head.push(tag);
    head.push(columns as u64);
    head.push(rows as u64);
    proof {
        assert(head@ =~= seq![config_tag(config), columns as u64, rows as u64]);
    }
    head
}

/// The filter configuration that a number stands for.
fn config_of(tag: u64) -> (r: Option<Filters>)
    ensures
        r == tag_config(tag),
{
    if tag == 0 {
        Some(Filters::WithoutFilters)
    } else if tag == 1 {
        Some(
            Filters::WithFilters(
                crate::snapshot::InclusionFilter::Cuckoo,
                PerfectHashingFunction::Fmph,
            ),
        )
    } else if tag == 2 {
        Some(
            Filters::WithFilters(
                crate::snapshot::InclusionFilter::Cuckoo,
                PerfectHashingFunction::GoFmph,
            ),
        )
    } else {
        None
    }
}

impl NippyJar {
    /// The artifacts that the jar is published as: four byte regions, each
    /// a frame of its own. Opening them gives back a jar with the same rows
    /// and keys.
    pub fn to_artifacts(&self) -> (r: Artifacts)
        requires
            self.wf(),
        ensures
            r@ == self@.artifacts(),
            JarState::opened(r@) == Some(self@),
    {
        let width: usize = self.columns.len();
        let mut data: Vec<Vec<u8>> = Vec::new();
        let mut offsets: Vec<Vec<u8>> = Vec::new();
        offsets.push(encode_words(&head_words(self.config, width, self.keys.len())));
        let ghost d = self@.data_sections();
        let ghost o = self@.offset_sections();
        let mut c: usize = 0;
        while c < width
            invariant
                c <= width,
                width == self.columns@.len(),
                self.wf(),
                d == self@.data_sections(),
                o == self@.offset_sections(),
                data@.len() == c,
                offsets@.len() == c + 1,
                forall|k: int| 0 <= k < c ==> (#[trigger] data@[k])@ == d[k],
                forall|k: int| 0 <= k < c + 1 ==> (#[trigger] offsets@[k])@ == o[k],
            decreases width - c,
        {
            proof {
                assert(self@.columns[c as int] == self.columns@[c as int]@);
                assert(o[c + 1] == words_bytes(self@.columns[c as int].offsets));
            }
            data.push(copy_bytes(self.columns[c].data().as_slice()));
            offsets.push(encode_words(self.columns[c].offsets()));
            c += 1;
        }
        proof {
            assert(o[width + 1] == words_bytes(self@.keys.offsets));
        }
        data.push(copy_bytes(self.keys.data().as_slice()));
        offsets.push(encode_words(self.keys.offsets()));
        proof {
            assert(byte_rows(data@) =~= d);
            assert(byte_rows(offsets@) =~= o);
            lemma_jar_roundtrip(self@);
        }
        let filter = self.filter.to_sections();
        let phf = match &self.phf {
            Some(p) => p.to_sections(),
            None => {
                let none: Vec<Vec<u8>> = Vec::new();
                proof {
                    assert(byte_rows(none@) =~= Seq::<Seq<u8>>::empty());
                }
                none
            },
        };
        Artifacts { data: seal(&data), offsets: seal(&offsets), filter: seal(&filter), phf: seal(&phf) }
    }

    /// Opens a jar from its artifacts. Every frame is checked, then the
    /// shape of the jar, then that the filter and the perfect hash agree
    /// with the stored keys; a jar that fails any check is refused as
    /// corrupted.
    pub fn open(artifacts: &Artifacts) -> (r: Result<NippyJar, NippyJarError>)
        ensures
            match JarState::opened(artifacts@) {
                Some(st) => r matches Ok(jar) && jar@ == st && jar.wf(),
                None => r matches Err(e) && e == NippyJarError::Corruption,
            },
    {
        let data = match unseal(artifacts.data.as_slice()) {
            Ok(v) => v,
            Err(_) => {
                return Err(NippyJarError::Corruption);
            },
        };
        let offsets = match unseal(artifacts.offsets.as_slice()) {
            Ok(v) => v,
            Err(_) => {
                return Err(NippyJarError::Corruption);
            },
        };
        let filter_sections = match unseal(artifacts.filter.as_slice()) {
            Ok(v) => v,
            Err(_) => {
                return Err(NippyJarError::Corruption);
            },
        };
        let phf_sections = match unseal(artifacts.phf.as_slice()) {
            Ok(v) => v,
            Err(_) => {
                return Err(NippyJarError::Corruption);
            },
        };
        match Self::assemble(&data, &offsets, &filter_sections, &phf_sections) {
            Some(jar) => Ok(jar),
            None => Err(NippyJarError::Corruption),
        }
    }

    /// The jar that the sections of the four artifacts hold, if they hold
    /// a well formed one.
    fn assemble(
        data: &Vec<Vec<u8>>,
        offsets: &Vec<Vec<u8>>,
        filter_sections: &Vec<Vec<u8>>,
        phf_sections: &Vec<Vec<u8>>,
    ) -> (r: Option<NippyJar>)
        ensures
            ({
                let d = byte_rows(data@);
                let o = byte_rows(offsets@);
                let f = byte_rows(filter_sections@);
                let p = byte_rows(phf_sections@);
                if shaped(d, o, f, p) && assembled(d, o, f, p).wf() {
                    r matches Some(jar) && jar@ == assembled(d, o, f, p) && jar.wf()
                } else {
                    r is None
                }
            }),
    {
        let ghost d = byte_rows(data@);
        let ghost o = byte_rows(offsets@);
        let ghost f = byte_rows(filter_sections@);
        let ghost p = byte_rows(phf_sections@);
        if offsets.len() < 2 {
            return None;
        }
        proof {
            assert(o[0] == offsets@[0]@);
        }
        let head = match decode_words(offsets[0].as_slice()) {
            Some(h) => h,
            None => {
                return None;
            },
        };
        if head.len() != 3 {
            return None;
        }
        let config = match config_of(head[0]) {
            Some(c) => c,
            None => {
                return None;
            },
        };
        if head[1] > MAX_COLUMNS as u64 {
            return None;
        }
        let width: usize = head[1] as usize;
        if offsets.len() != width + 2 || data.len() != width + 1 {
            return None;
        }
        let mut blocks = match read_blocks(data, offsets, width + 1) {
            Some(b) => b,
            None => {
                proof {
                    let h = bytes_words(o[0])->0;
                    assert(h == head@);
                    assert(h[1] == width);
                    if shaped(d, o, f, p) && assembled(d, o, f, p).wf() {
                        let st = assembled(d, o, f, p);
                        assert(st.columns.len() == width);
                        assert forall|c: int| 0 <= c < width + 1 implies #[trigger] block_sound(
                            d,
                            o,
                            c,
                        ) by {
                            assert(readable(o, c));
                            if c < width {
                                assert(st.columns[c] == column_at(d, o, c));
                                assert(st.columns[c].wf());
                            } else {
                                assert(st.keys == column_at(d, o, c));
                            }
                        }
                        assert(blocks_sound(d, o, width + 1));
                    }
                }
                return None;
            },
        };
        let keys = match blocks.pop() {
            Some(k) => k,
            None => {
                return None;
            },
        };
        proof {
            assert(keys@ == column_at(d, o, width as int));
            assert forall|c: int| 0 <= c <= width implies #[trigger] readable(o, c) by {}
        }
        if keys.len() as u64 != head[2] || keys.len() > MAX_KEYS {
            return None;
        }
        let rows: usize = keys.len();
        let mut c: usize = 0;
        while c < width
            invariant
                c <= width,
                width == blocks@.len(),
                keys.wf(),
                rows == keys@.len(),
                d == byte_rows(data@),
                o == byte_rows(offsets@),
                f == byte_rows(filter_sections@),
                p == byte_rows(phf_sections@),
                o.len() >= 2,
                keys@ == column_at(d, o, width as int),
                bytes_words(o[0]) matches Some(h) && h.len() == 3 && h[1] == width,
                forall|k: int| 0 <= k < width ==> (#[trigger] blocks@[k])@ == column_at(d, o, k),
                forall|k: int| 0 <= k < width ==> (#[trigger] blocks@[k]).wf(),
                forall|k: int| 0 <= k < c ==> (#[trigger] blocks@[k])@.len() == rows,
            decreases width - c,
        {
            if blocks[c].len() != rows {
                proof {
                    if shaped(d, o, f, p) {
                        let st = assembled(d, o, f, p);
                        assert(st.columns[c as int] == column_at(d, o, c as int));
                        assert(st.keys == keys@);
                    }
                }
                return None;
            }
            c += 1;
        }
        let filter = match InclusionFilters::from_sections(filter_sections) {
            Some(x) => x,
            None => {
                return None;
            },
        };
        let phf = if phf_sections.len() == 0 {
            None
        } else {
            match PerfectHash::from_sections(phf_sections) {
                Some(x) => Some(x),
                None => {
                    return None;
                },
            }
        };
        let fits = match (config, &filter) {
            (Filters::WithFilters(_, _), InclusionFilters::Cuckoo(_)) => true,
            (Filters::WithoutFilters, InclusionFilters::Unused) => true,
            _ => false,
        };
        if !fits || config.has_filters() != phf.is_some() {
            return None;
        }
        match &phf {
            Some(index) => {
                if index.len() != rows {
                    return None;
                }
            },
            None => {},
        }
        if !indexes_agree(&keys, &filter, &phf) {
            return None;
        }
        let jar = NippyJar { config, columns: blocks, keys, filter, phf };
        proof {
            let st = assembled(d, o, f, p);
            assert(jar@.columns =~= st.columns);
            assert(jar@ == st);
            assert(shaped(d, o, f, p));
            if jar@.phf is Some {
                let index = jar@.phf->0;
                assert forall|k: int| 0 <= k < index.fallback_keys.len() implies (
                #[trigger] index.fallback_keys[k]).len() <= u64::MAX by {
                    jar.phf->0.lemma_encodable();
                }
            }
            assert(jar@.wf());
        }
        Some(jar)
    }
}

impl BuilderState {
    /// The builder after appending the rows with their keys in order, or
    /// `None` as soon as one row is refused.
    pub open spec fn append_all(self, rows: Seq<Seq<Seq<u8>>>, keys: Seq<Seq<u8>>) -> Option<
        BuilderState,
    >
        decreases rows.len(),
    {
        if rows.len() == 0 {
            Some(self)
        } else {
            match self.append_all(rows.drop_last(), keys.drop_last()) {
                Some(b) => match b.append(rows.last(), keys.last()) {
                    (after, Ok(_)) => Some(after),
                    (_, Err(_)) => None,
                },
                None => None,
            }
        }
    }

    /// The artifacts that are published after appending the rows with
    /// their keys to this builder and freezing it, or `None` if a row or
    /// the freeze is refused.
    pub open spec fn published(self, rows: Seq<Seq<Seq<u8>>>, keys: Seq<Seq<u8>>) -> Option<
        ArtifactsState,
    > {
        match self.append_all(rows, keys) {
            Some(b) => match b.freeze() {
                Ok(jar) => Some(jar.artifacts()),
                Err(_) => None,
            },
            None => None,
        }
    }
}

/// Whether no column block of the builder has outgrown what an offset can
/// address.
pub open spec fn addressable(b: BuilderState) -> bool {
    forall|c: int| 0 <= c < b.columns.len() ==> (#[trigger] b.columns[c]).data.len() <= u64::MAX
}

/// Appending one row keeps the builder well formed, keeps its old rows and
/// keys, and puts the new row and key at the end.
pub proof fn lemma_append(b: BuilderState, row: Seq<Seq<u8>>, key: Seq<u8>)
    requires
        b.wf(),
        b.append(row, key).1 is Ok,
        addressable(b.append(row, key).0),
    ensures
        b.append(row, key).0.wf(),
        b.append(row, key).0.config == b.config,
        b.append(row, key).0.keys == b.keys.push(key),
        b.append(row, key).0.rows() == b.rows().push(row),
        addressable(b),
{
    let after = b.append(row, key).0;
    let filter = after.filter;
    assert(after == b.pushed(row, key, filter));
    match b.filter {
        FilterState::Cuckoo(st) => {
            lemma_insert_wf(st, key);
            lemma_insert_adds(st, key);
            assert forall|e: Seq<u8>| b.filter.may_contain(e) implies filter.may_contain(e) by {
                lemma_insert_keeps(st, key, e);
            }
        },
        FilterState::Unused => {},
    }
    assert forall|c: int| 0 <= c < row.len() implies (#[trigger] b.columns[c]).push(row[c]).wf() by {
        assert(b.columns[c].wf());
        assert(after.columns[c] == b.columns[c].push(row[c]));
        assert(after.columns[c].data.len() <= u64::MAX);
        lemma_push(b.columns[c], row[c]);
    }
    assert forall|c: int| 0 <= c < b.columns.len() implies (#[trigger] b.columns[c]).data.len()
        <= u64::MAX by {
        assert(after.columns[c] == b.columns[c].push(row[c]));
        assert(after.columns[c].data.len() <= u64::MAX);
    }
    lemma_pushed(b, row, key, filter);
}

/// Appending rows one after the other keeps the builder well formed, keeps
/// its old rows and keys, and puts the new rows and keys at the end, in
/// their order.
pub proof fn lemma_append_all(
    start: BuilderState,
    rows: Seq<Seq<Seq<u8>>>,
    keys: Seq<Seq<u8>>,
)
    requires
        start.wf(),
        rows.len() == keys.len(),
        start.append_all(rows, keys) is Some,
        addressable(start.append_all(rows, keys)->0),
    ensures
        start.append_all(rows, keys)->0.wf(),
        start.append_all(rows, keys)->0.config == start.config,
        start.append_all(rows, keys)->0.keys == start.keys + keys,
        start.append_all(rows, keys)->0.rows() == start.rows() + rows,
        addressable(start),
    decreases rows.len(),
{
    if rows.len() == 0 {
        assert(start.keys + keys =~= start.keys);
        assert(start.rows() + rows =~= start.rows());
    } else {
        let before = start.append_all(rows.drop_last(), keys.drop_last())->0;
        let after = start.append_all(rows, keys)->0;
        assert(after == before.append(rows.last(), keys.last()).0);
        // the blocks only grow, so the builder before the last row is addressable too
        assert forall|c: int| 0 <= c < before.columns.len() implies (
        #[trigger] before.columns[c]).data.len() <= u64::MAX by {
            assert(after.columns[c] == before.columns[c].push(rows.last()[c]));
            assert(after.columns[c].data.len() <= u64::MAX);
        }
        lemma_append_all(start, rows.drop_last(), keys.drop_last());
        lemma_append(before, rows.last(), keys.last());
        assert(start.keys + keys =~= (start.keys + keys.drop_last()).push(keys.last()));
        assert(start.rows() + rows =~= (start.rows() + rows.drop_last()).push(rows.last()));
    }
}

/// No false negatives, from the first append to the lookup: when rows
/// were appended to a new builder and the builder froze, the jar reports
/// every appended key present, if it has a filter, and a lookup of an
/// appended key finds a row with that key and returns the bytes that were
/// appended for that row; with filters, or whenever the keys are pairwise
/// different, that row is the appended row itself.
pub proof fn lemma_appended_rows_are_found(
    start: BuilderState,
    rows: Seq<Seq<Seq<u8>>>,
    keys: Seq<Seq<u8>>,
    i: int,
)
    requires
        start.wf(),
        start.keys.len() == 0,
        rows.len() == keys.len(),
        0 <= i < rows.len(),
        start.append_all(rows, keys) matches Some(b) && addressable(b) && b.freeze() is Ok
            && ColumnState::empty().push_all(b.keys).data.len() <= u64::MAX,
    ensures
        start.append_all(rows, keys)->0.freeze() matches Ok(jar) && {
            &&& jar.wf()
            &&& jar.rows() == rows
            &&& jar.key_list() == keys
            &&& jar.filter is Cuckoo ==> jar.filter.contains(keys[i]) == Ok::<bool, NippyJarError>(
                true,
            )
            &&& jar.find(keys[i]) matches Some(j) && 0 <= j <= i && keys[j] == keys[i]
                && jar.row(j) == rows[j]
            &&& jar.phf is Some || !has_duplicates(keys) ==> jar.find(keys[i]) == Some(i)
        },
{
    let b = start.append_all(rows, keys)->0;
    lemma_append_all(start, rows, keys);
    assert(start.keys + keys =~= keys);
    assert(start.rows() =~= Seq::<Seq<Seq<u8>>>::empty());
    assert(start.rows() + rows =~= rows);
    lemma_freeze_keeps_rows(b);
    let jar = b.freeze()->Ok_0;
    lemma_stored_keys_are_found(jar, i);
    let j = jar.find(keys[i])->0;
    assert(jar.rows()[j] == jar.row(j));
}

/// Determinism: what is published depends on nothing but the builder's
/// starting state and the rows and keys that were appended, in their order.
/// Two runs over the same input publish the same bytes.
pub proof fn lemma_publish_is_deterministic(
    first: BuilderState,
    second: BuilderState,
    rows: Seq<Seq<Seq<u8>>>,
    keys: Seq<Seq<u8>>,
    other_rows: Seq<Seq<Seq<u8>>>,
    other_keys: Seq<Seq<u8>>,
)
    requires
        first == second,
        rows == other_rows,
        keys == other_keys,
    ensures
        first.published(rows, keys) == second.published(other_rows, other_keys),
{
}

/// Freezing keeps what was appended: the frozen jar is well formed and has
/// the builder's rows and keys.
pub proof fn lemma_freeze_keeps_rows(b: BuilderState)
    requires
        b.wf(),
        b.freeze() is Ok,
        ColumnState::empty().push_all(b.keys).data.len() <= u64::MAX,
    ensures
        b.freeze() matches Ok(jar) && jar.wf() && jar.rows() == b.rows() && jar.key_list()
            == b.keys,
{
    let jar = b.freeze()->Ok_0;
    let empty = ColumnState::empty();
    assert(empty.wf());
    lemma_push_all(empty, b.keys);
    assert(empty.rows() =~= Seq::<Seq<u8>>::empty());
    assert(empty.rows() + b.keys =~= b.keys);
    assert(jar.key_list() == b.keys);
    assert forall|i: int| 0 <= i < b.keys.len() implies jar.keys.row(i) == #[trigger] b.keys[i] by {
        assert(jar.keys.rows()[i] == b.keys[i]);
    }
    assert(jar.rows() =~= b.rows());
    match b.config {
        Filters::WithFilters(_, variant) => {
            lemma_built_is_bijection(variant, b.keys);
            reveal(PhfState::built);
            let p = PhfState::built(variant, b.keys);
            assert forall|k: int| 0 <= k < p.fallback_keys.len() implies (
            #[trigger] p.fallback_keys[k]).len() <= u64::MAX by {
                let o = p.fallback_ordinals[k] as int;
                assert(p.fallback_ordinals[k] < b.keys.len());
                assert(p.fallback_keys[k] == b.keys[o]);
                assert(jar.keys.row(o) == b.keys[o]);
            }
            assert forall|i: int| 0 <= i < jar.keys.len() implies p.get(#[trigger] jar.keys.row(i))
                == i by {
                assert(jar.keys.row(i) == b.keys[i]);
            }
        },
        Filters::WithoutFilters => {},
    }
    assert forall|i: int|
        0 <= i < jar.keys.len() && jar.filter is Cuckoo implies jar.filter.may_contain(
        #[trigger] jar.keys.row(i),
    ) by {
        assert(jar.keys.row(i) == b.keys[i]);
    }
}

/// No false negatives: in a well formed jar the filter, if there is one,
/// reports the key of every row present, and a lookup of that key finds a
/// row with that key: the first such row, which with filters is the row
/// itself.
pub proof fn lemma_stored_keys_are_found(jar: JarState, i: int)
    requires
        jar.wf(),
        0 <= i < jar.row_count(),
    ensures
        jar.filter is Cuckoo ==> jar.filter.contains(jar.key_list()[i]) == Ok::<
            bool,
            NippyJarError,
        >(true),
        jar.find(jar.key_list()[i]) matches Some(j) && 0 <= j <= i && jar.key_list()[j]
            == jar.key_list()[i] && jar.rows()[j] == jar.row(j),
        jar.phf is Some || !has_duplicates(jar.key_list()) ==> jar.find(jar.key_list()[i]) == Some(
            i,
        ),
{
    let keys = jar.key_list();
    let key = keys[i];
    assert(key == jar.keys.row(i));
    lemma_position(keys, key);
    let j = jar.find(key)->0;
    if jar.phf is Some {
        let p = jar.phf->0;
        assert(keys[j] == jar.keys.row(j));
        assert(p.get(jar.keys.row(j)) == j);
        assert(p.get(jar.keys.row(i)) == i);
    }
}

/// Round trip from the builder: the jar that is opened from the published
/// artifacts of a frozen builder has the rows and keys that were appended
/// to the builder, byte for byte.
pub proof fn lemma_written_rows_read_back(b: BuilderState)
    requires
        b.wf(),
        b.freeze() is Ok,
        ColumnState::empty().push_all(b.keys).data.len() <= u64::MAX,
    ensures
        b.published(Seq::empty(), Seq::empty()) matches Some(artifacts) && JarState::opened(
            artifacts,
        ) matches Some(jar) && jar.rows() == b.rows() && jar.key_list() == b.keys,
{
    lemma_freeze_keeps_rows(b);
    lemma_jar_roundtrip(b.freeze()->Ok_0);
}

/// Without filters every filter query is unsupported: a jar that was made
/// without filters answers `contains` with the unsupported error, whatever
/// the key.
pub proof fn lemma_without_filters_is_unsupported(jar: JarState, key: Seq<u8>)
    requires
        jar.wf(),
        jar.config is WithoutFilters,
    ensures
        jar.filter.contains(key) == Err::<bool, NippyJarError>(
            NippyJarError::UnsupportedFilterQuery,
        ),
        jar.filter.add(key) == (
            jar.filter,
            Err::<(), NippyJarError>(NippyJarError::UnsupportedFilterQuery),
        ),
{
}

/// A lookup never answers with another key's row: the row that is found
/// for a key holds that key, and a key that no row holds is not found.
pub proof fn lemma_find_is_exact(jar: JarState, key: Seq<u8>)
    requires
        jar.wf(),
    ensures
        match jar.find(key) {
            Some(j) => 0 <= j < jar.row_count() && jar.key_list()[j] == key,
            None => !jar.key_list().contains(key),
        },
{
    lemma_position(jar.key_list(), key);
}

/// The published generations of a jar: at most one is current, and a new
/// one takes its place only when it has been built completely.
#[derive(Debug)]
pub struct Generations {
    current: Option<Artifacts>,
    number: u64,
}

/// The mathematical model of the published generations.
pub struct GenerationsState {
    /// The artifacts of the current generation, if one was published.
    pub current: Option<ArtifactsState>,
    /// The number of generations published so far.
    pub number: u64,
}

impl View for Generations {
    type V = GenerationsState;

    closed spec fn view(&self) -> GenerationsState {
        GenerationsState {
            current: match self.current {
                Some(a) => Some(a@),
                None => None,
            },
            number: self.number,
        }
    }
}

impl GenerationsState {
    /// What publishing a builder does and returns: a builder that freezes
    /// becomes the current generation; one that does not leaves the current
    /// generation as it is.
    pub open spec fn publish(self, builder: BuilderState) -> (
        GenerationsState,
        Result<u64, NippyJarError>,
    ) {
        match builder.freeze() {
            Ok(jar) => if self.number == u64::MAX {
                (self, Err(NippyJarError::TooLarge))
            } else {
                (
                    GenerationsState {
                        current: Some(jar.artifacts()),
                        number: (self.number + 1) as u64,
                    },
                    Ok((self.number + 1) as u64),
                )
            },
            Err(e) => (self, Err(e)),
        }
    }
}

impl Generations {
    /// Nothing published yet.
    pub fn new() -> (r: Self)
        ensures
            r@.current is None,
            r@.number == 0,
    {
        Generations { current: None, number: 0 }
    }

    /// The number of generations published so far.
    pub fn number(&self) -> (n: u64)
        ensures
            n == self@.number,
    {
        self.number
    }

    /// The artifacts of the current generation, if one was published.
    pub fn current(&self) -> (r: Option<&Artifacts>)
        ensures
            match r {
                Some(a) => self@.current == Some(a@),
                None => self@.current is None,
            },
    {
        match &self.current {
            Some(a) => Some(a),
            None => None,
        }
    }

    /// Freezes the builder and makes the result the current generation.
    /// The new generation is put together completely before it replaces
    /// the current one; if freezing fails, the current generation is left
    /// exactly as it was.
    pub fn publish(&mut self, builder: NippyJarBuilder) -> (r: Result<u64, NippyJarError>)
        requires
            builder.wf(),
        ensures
            final(self)@ == old(self)@.publish(builder@).0,
            r == old(self)@.publish(builder@).1,
            r is Err ==> final(self)@ == old(self)@,
            r is Ok ==> (final(self)@.current matches Some(a) && JarState::opened(a) is Some),
    {
        let jar = match builder.freeze() {
            Ok(j) => j,
            Err(e) => {
                return Err(e);
            },
        };
        if self.number == u64::MAX {
            return Err(NippyJarError::TooLarge);
        }
        let artifacts = jar.to_artifacts();
        self.current = Some(artifacts);
        self.number = self.number + 1;
        Ok(self.number)
    }

    /// Opens the current generation: `None` if nothing was published.
    pub fn open_current(&self) -> (r: Option<Result<NippyJar, NippyJarError>>)
        ensures
            match self@.current {
                Some(a) => r matches Some(opened) && match JarState::opened(a) {
                    Some(st) => opened matches Ok(jar) && jar@ == st && jar.wf(),
                    None => opened matches Err(e) && e == NippyJarError::Corruption,
                },
                None => r is None,
            },
    {
        match &self.current {
            Some(a) => Some(NippyJar::open(a)),
            None => None,
        }
    }
}

} // verus!
