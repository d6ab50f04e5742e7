use vstd::prelude::*;

verus! {

/// Row-major positions in a `width` by `height` grid: cell `(x, y)` sits at
/// `y * width + x`, inside `0..width * height`, and distinct cells sit at
/// distinct positions.
pub proof fn lemma_cell_offset(width: int, height: int, x: int, y: int, x2: int, y2: int)
    requires
        0 <= x < width,
        0 <= y < height,
        0 <= x2 < width,
        0 <= y2 < height,
    ensures
        0 <= y * width + x < width * height,
        y * width + x == y2 * width + x2 ==> x == x2 && y == y2,
{
    assert(0 <= y * width + x < width * height) by (nonlinear_arith)
        requires
            0 <= x < width,
            0 <= y < height,
    ;
    assert(y * width + x == y2 * width + x2 ==> x == x2 && y == y2) by (nonlinear_arith)
        requires
            0 <= x < width,
            0 <= x2 < width,
            0 <= y,
            0 <= y2,
    ;
}

/// Row-major position of cell `(x, y)` in a grid `width` cells wide.
pub open spec fn cell_offset(width: int, x: int, y: int) -> int {
    y * width + x
}

/// Whether `(x, y)` lies inside a `width` by `height` grid.
pub open spec fn in_grid(width: int, height: int, x: int, y: int) -> bool {
    0 <= x < width && 0 <= y < height
}

/// The value read at `(x, y)` from row-major `data`: the stored value inside
/// the grid, `nodata` outside it.
pub open spec fn cell_value<V>(data: Seq<V>, width: int, height: int, nodata: V, x: int, y: int) -> V {
    if in_grid(width, height, x, y) {
        data[cell_offset(width, x, y)]
    } else {
        nodata
    }
}

/// Reading after a write: inside the grid, position `y2 * width + x2` holds
/// the written value when `(x2, y2)` is the written cell and its earlier
/// value otherwise; a write outside the grid changes no position.
pub proof fn lemma_read_after_write<V>(
    data: Seq<V>,
    width: int,
    height: int,
    x: int,
    y: int,
    value: V,
    x2: int,
    y2: int,
)
    requires
        data.len() == width * height,
        0 <= x2 < width,
        0 <= y2 < height,
    ensures
        data_after_set(data, width, height, x, y, value).len() == data.len(),
        data_after_set(data, width, height, x, y, value)[y2 * width + x2] == if 0 <= x < width && 0 <= y
            < height && x2 == x && y2 == y {
            value
        } else {
            data[y2 * width + x2]
        },
{
    lemma_cell_offset(width, height, x2, y2, x2, y2);
    if 0 <= x < width && 0 <= y < height {
        lemma_cell_offset(width, height, x, y, x2, y2);
        lemma_cell_offset(width, height, x2, y2, x, y);
    }
}

/// A fresh raster reads `nodata` at every cell of the grid.
pub proof fn lemma_fresh_raster_reads_nodata<V>(width: int, height: int, nodata: V, x: int, y: int)
    requires
        0 <= x < width,
        0 <= y < height,
    ensures
        Seq::new((width * height) as nat, |i: int| nodata)[y * width + x] == nodata,
{
    lemma_cell_offset(width, height, x, y, x, y);
}

/// In a row-major lattice `w` wide, a cell of an earlier row comes before
/// the start of row `row`.
pub proof fn lemma_before_row(w: int, i: int, j: int, row: int)
    requires
        0 <= i < w,
        0 <= j < row,
    ensures
        0 <= j * w + i < row * w,
{
    assert(0 <= j * w + i < row * w) by (nonlinear_arith)
        requires
            0 <= i < w,
            0 <= j < row,
    ;
}

/// `data` after writing `value` at `(x, y)` of a `width` by `height` grid:
/// changed only where the cell is inside the grid.
pub open spec fn data_after_set<V>(data: Seq<V>, width: int, height: int, x: int, y: int, value: V) -> Seq<V> {
    if 0 <= x < width && 0 <= y < height {
        data.update(y * width + x, value)
    } else {
        data
    }
}

/// Cell data after writing each result, in order, at its cell.
pub open spec fn data_after_results<V>(
    data: Seq<V>,
    width: int,
    height: int,
    results: Seq<(usize, usize, V, Option<String>)>,
) -> Seq<V>
    decreases results.len(),
{
    if results.len() == 0 {
        data
    } else {
        let last = results.last();
        data_after_set(
            data_after_results(data, width, height, results.drop_last()),
            width,
            height,
            last.0 as int,
            last.1 as int,
            last.2,
        )
    }
}

/// `ids` with `id` appended unless it is already there.
pub open spec fn ids_after_record(ids: Seq<Seq<char>>, id: Seq<char>) -> Seq<Seq<char>> {
    if ids.contains(id) {
        ids
    } else {
        ids.push(id)
    }
}

/// Source identifiers after recording, in order, the identifier that each
/// result carries.
pub open spec fn ids_after_results<V>(
    ids: Seq<Seq<char>>,
    results: Seq<(usize, usize, V, Option<String>)>,
) -> Seq<Seq<char>>
    decreases results.len(),
{
    if results.len() == 0 {
        ids
    } else {
        let before = ids_after_results(ids, results.drop_last());
        match results.last().3 {
            Some(id) => ids_after_record(before, id@),
            None => before,
        }
    }
}

/// Writing results into a grid: the length is kept; a cell that some result
/// targets ends with the value of the last result that targets it; every
/// other cell keeps its value.
pub proof fn lemma_results_fill_cells<V>(
    data: Seq<V>,
    width: int,
    height: int,
    results: Seq<(usize, usize, V, Option<String>)>,
)
    requires
        0 <= width,
        0 <= height,
        data.len() == width * height,
    ensures
        data_after_results(data, width, height, results).len() == data.len(),
        forall|x: int, y: int|
            0 <= x < width && 0 <= y < height ==> {
                let v = #[trigger] data_after_results(data, width, height, results)[y * width + x];
                &&& (forall|k: int| 0 <= k < results.len() ==> !(results[k].0 == x && results[k].1 == y))
                    ==> v == data[y * width + x]
                &&& (exists|k: int| 0 <= k < results.len() && results[k].0 == x && results[k].1 == y)
                    ==> exists|k: int|
                    {
                        &&& 0 <= k < results.len()
                        &&& results[k].0 == x
                        &&& results[k].1 == y
                        &&& v == results[k].2
                        &&& forall|l: int| k < l < results.len() ==> !(results[l].0 == x && results[l].1 == y)
                    }
            },
    decreases results.len(),
{
    if results.len() > 0 {
        let prev = results.drop_last();
        let n = results.len() - 1;
        let last = results.last();
        lemma_results_fill_cells(data, width, height, prev);
        let before = data_after_results(data, width, height, prev);
        let after = data_after_results(data, width, height, results);
        if 0 <= last.0 < width && 0 <= last.1 < height {
            lemma_cell_offset(width, height, last.0 as int, last.1 as int, last.0 as int, last.1 as int);
        }
        assert forall|x: int, y: int| 0 <= x < width && 0 <= y < height implies {
            let v = #[trigger] after[y * width + x];
            &&& (forall|k: int| 0 <= k < results.len() ==> !(results[k].0 == x && results[k].1 == y))
                ==> v == data[y * width + x]
            &&& (exists|k: int| 0 <= k < results.len() && results[k].0 == x && results[k].1 == y)
                ==> exists|k: int|
                {
                    &&& 0 <= k < results.len()
                    &&& results[k].0 == x
                    &&& results[k].1 == y
                    &&& v == results[k].2
                    &&& forall|l: int| k < l < results.len() ==> !(results[l].0 == x && results[l].1 == y)
                }
        } by {
            lemma_cell_offset(width, height, x, y, x, y);
            let bv = before[y * width + x];
            if last.0 == x && last.1 == y {
                assert(after[y * width + x] == last.2);
                assert(results[n] == last);
            } else {
                if 0 <= last.0 < width && 0 <= last.1 < height {
                    lemma_cell_offset(width, height, x, y, last.0 as int, last.1 as int);
                }
                assert(after[y * width + x] == bv);
                assert forall|k: int| 0 <= k < prev.len() implies #[trigger] prev[k] == results[k] by {}
                if exists|k: int| 0 <= k < results.len() && results[k].0 == x && results[k].1 == y {
                    let k0 = choose|k: int| 0 <= k < results.len() && results[k].0 == x && results[k].1 == y;
                    assert(k0 < n);
                    assert(prev[k0] == results[k0]);
                    let k = choose|k: int|
                        {
                            &&& 0 <= k < prev.len()
                            &&& prev[k].0 == x
                            &&& prev[k].1 == y
                            &&& bv == prev[k].2
                            &&& forall|l: int| k < l < prev.len() ==> !(prev[l].0 == x && prev[l].1 == y)
                        };
                    assert(prev[k] == results[k]);
                    assert forall|l: int| k < l < results.len() implies !(results[l].0 == x && results[l].1 == y) by {
                        if l < n {
                            assert(prev[l] == results[l]);
                        }
                    }
                } else {
                    assert forall|k: int| 0 <= k < prev.len() implies !(prev[k].0 == x && prev[k].1 == y) by {
                        assert(prev[k] == results[k]);
                    }
                }
            }
        }
    }
}

/// Recording identifiers of results: the earlier identifiers stay, in
/// place, at the front; every identifier that any result carries is listed
/// afterwards; and every listed identifier was listed before or is carried by
/// some result.
pub proof fn lemma_results_record_ids<V>(ids: Seq<Seq<char>>, results: Seq<(usize, usize, V, Option<String>)>)
    ensures
        ids_after_results(ids, results).len() >= ids.len(),
        forall|k: int| 0 <= k < ids.len() ==> #[trigger] ids_after_results(ids, results)[k] == ids[k],
        forall|k: int|
            #![trigger results[k]]
            0 <= k < results.len() ==> (results[k].3 matches Some(id) ==> ids_after_results(
                ids,
                results,
            ).contains(id@)),
        forall|k: int|
            0 <= k < ids_after_results(ids, results).len() ==> ids.contains(
                #[trigger] ids_after_results(ids, results)[k],
            ) || exists|m: int|
                #![trigger results[m]]
                0 <= m < results.len() && (results[m].3 matches Some(id) && id@ == ids_after_results(
                    ids,
                    results,
                )[k]),
    decreases results.len(),
{
    if results.len() > 0 {
        let prev = results.drop_last();
        let n = results.len() - 1;
        lemma_results_record_ids(ids, prev);
        let before = ids_after_results(ids, prev);
        let after = ids_after_results(ids, results);
        assert forall|k: int| 0 <= k < prev.len() implies #[trigger] prev[k] == results[k] by {}
        match results.last().3 {
            Some(id) => {
                assert(after == ids_after_record(before, id@));
                if !before.contains(id@) {
                    assert(after[before.len() as int] == id@);
                }
                assert(after.contains(id@));
                assert forall|k: int| 0 <= k < before.len() implies #[trigger] after[k] == before[k] by {}
                assert forall|k: int|
                    #![trigger results[k]]
                    0 <= k < results.len() implies (results[k].3 matches Some(i) ==> after.contains(i@)) by {
                    if k < n {
                        assert(prev[k] == results[k]);
                        if let Some(i) = results[k].3 {
                            let j = choose|j: int| 0 <= j < before.len() && before[j] == i@;
                            assert(after[j] == i@);
                        }
                    }
                }
                assert forall|k: int| 0 <= k < after.len() implies ids.contains(#[trigger] after[k]) || exists|m: int|
                    #![trigger results[m]]
                    0 <= m < results.len() && (results[m].3 matches Some(i) && i@ == after[k]) by {
                    if k < before.len() {
                        assert(after[k] == before[k]);
                        if !ids.contains(before[k]) {
                            let m = choose|m: int|
                                #![trigger prev[m]]
                                0 <= m < prev.len() && (prev[m].3 matches Some(i) && i@ == before[k]);
                            assert(prev[m] == results[m]);
                        }
                    } else {
                        assert(after[k] == id@);
                        assert(results[n].3 == Some(id));
                    }
                }
            },
            None => {
                assert forall|k: int|
                    #![trigger results[k]]
                    0 <= k < results.len() implies (results[k].3 matches Some(i) ==> after.contains(i@)) by {
                    if k < n {
                        assert(prev[k] == results[k]);
                    }
                }
                assert forall|k: int| 0 <= k < after.len() implies ids.contains(#[trigger] after[k]) || exists|m: int|
                    #![trigger results[m]]
                    0 <= m < results.len() && (results[m].3 matches Some(i) && i@ == after[k]) by {
                    if !ids.contains(before[k]) {
                        let m = choose|m: int|
                            #![trigger prev[m]]
                            0 <= m < prev.len() && (prev[m].3 matches Some(i) && i@ == before[k]);
                        assert(prev[m] == results[m]);
                    }
                }
            },
        }
    }
}

/// Recording identifiers never lists one twice, and the recorded one is listed
/// afterwards.
pub proof fn lemma_record_keeps_ids_distinct(ids: Seq<Seq<char>>, id: Seq<char>)
    requires
        ids.no_duplicates(),
    ensures
        ids_after_record(ids, id).no_duplicates(),
        ids_after_record(ids, id).contains(id),
{
    if !ids.contains(id) {
        let r = ids.push(id);
        assert(r[ids.len() as int] == id);
        assert forall|i: int, j: int| 0 <= i < r.len() && 0 <= j < r.len() && i != j implies r[i] != r[j] by {
            if i < ids.len() && j < ids.len() {
            } else if i == ids.len() {
                assert(r[j] == ids[j]);
            } else {
                assert(r[i] == ids[i]);
            }
        }
    }
}

/// Applying results never lists a source identifier twice.
pub proof fn lemma_results_keep_ids_distinct<V>(
    ids: Seq<Seq<char>>,
    results: Seq<(usize, usize, V, Option<String>)>,
)
    requires
        ids.no_duplicates(),
    ensures
        ids_after_results(ids, results).no_duplicates(),
    decreases results.len(),
{
    if results.len() > 0 {
        lemma_results_keep_ids_distinct(ids, results.drop_last());
        if let Some(id) = results.last().3 {
            lemma_record_keeps_ids_distinct(ids_after_results(ids, results.drop_last()), id@);
        }
    }
}

/// A coverage raster: `width` by `height` cells in row-major order, with the
/// geographic bounds and resolution they cover, and the identifiers of the
/// terrain sources that contributed to it. A cell that holds no result holds
/// `nodata`, and reads outside the grid give `nodata` too.
pub struct CoverageRaster<B, R, V> {
    pub width: usize,
    pub height: usize,
    pub bounds: B,
    pub resolution_m: R,
    pub nodata: V,
    pub data: Vec<V>,
    pub source_ids: Vec<String>,
}

impl<B, R, V: Copy> CoverageRaster<B, R, V> {
    /// The cell store holds exactly `width * height` cells, a count that
    /// fits in a `usize`.
    pub open spec fn wf(&self) -> bool {
        &&& self.data@.len() == self.width * self.height
        &&& self.width * self.height <= usize::MAX
    }

    /// The value that a read at `(x, y)` gives.
    pub open spec fn cell(&self, x: int, y: int) -> V {
        cell_value(self.data@, self.width as int, self.height as int, self.nodata, x, y)
    }

    /// The source identifiers, as character sequences.
    pub open spec fn id_seq(&self) -> Seq<Seq<char>> {
        self.source_ids@.map_values(|s: String| s@)
    }

    /// A raster of `width` by `height` cells that all hold `nodata`, with no
    /// source identifiers.
    pub fn new(width: usize, height: usize, bounds: B, resolution_m: R, nodata: V) -> (r: Self)
        requires
            width * height <= usize::MAX,
        ensures
            r.wf(),
            r.width == width,
            r.height == height,
            r.bounds == bounds,
            r.resolution_m == resolution_m,
            r.nodata == nodata,
            r.data@.len() == width * height,
            forall|i: int| 0 <= i < width * height ==> #[trigger] r.data@[i] == nodata,
            r.source_ids@.len() == 0,
    {
        let n = width * height;
        let mut data: Vec<V> = Vec::with_capacity(n);
        let mut i: usize = 0;
        while i < n
            invariant
                i <= n,
                data@.len() == i,
                forall|k: int| 0 <= k < i ==> #[trigger] data@[k] == nodata,
            decreases n - i,
        {
            data.push(nodata);
            i = i + 1;
        }
        CoverageRaster { width, height, bounds, resolution_m, nodata, data, source_ids: Vec::new() }
    }

    /// Writes `value` at `(x, y)`, that is at position `y * width + x` of the
    /// cell buffer; a write outside the grid changes nothing.
    pub fn set(&mut self, x: usize, y: usize, value: V)
        requires
            old(self).wf(),
        ensures
            final(self).wf(),
            final(self).width == old(self).width,
            final(self).height == old(self).height,
            final(self).bounds == old(self).bounds,
            final(self).resolution_m == old(self).resolution_m,
            final(self).nodata == old(self).nodata,
            final(self).source_ids@ == old(self).source_ids@,
            x < old(self).width && y < old(self).height ==> final(self).data@ == old(self).data@.update(
                y * old(self).width + x,
                value,
            ),
            !(x < old(self).width && y < old(self).height) ==> final(self).data@ == old(self).data@,
            final(self).data@ == data_after_set(
                old(self).data@,
                old(self).width as int,
                old(self).height as int,
                x as int,
                y as int,
                value,
            ),
    {
        if x < self.width && y < self.height {
            proof {
                lemma_cell_offset(self.width as int, self.height as int, x as int, y as int, x as int, y as int);
            }
            let i = y * self.width + x;
            self.data.set(i, value);
        }
    }

    /// The value at `(x, y)`, which is position `y * width + x` of the cell
    /// buffer, or `nodata` outside the grid.
    pub fn get(&self, x: usize, y: usize) -> (r: V)
        requires
            self.wf(),
        ensures
            x < self.width && y < self.height ==> r == self.data@[y * self.width + x],
            !(x < self.width && y < self.height) ==> r == self.nodata,
            r == self.cell(x as int, y as int),
    {
        if x < self.width && y < self.height {
            proof {
                lemma_cell_offset(self.width as int, self.height as int, x as int, y as int, x as int, y as int);
            }
            self.data[y * self.width + x]
        } else {
            self.nodata
        }
    }

    /// All cells, in row-major order.
    pub fn to_f32_buffer(&self) -> (r: &[V])
        ensures
            r@ == self.data@,
    {
        self.data.as_slice()
    }

    /// Writes each result's value at its cell and records its source
    /// identifier, in the order given; results outside the grid write nothing
    /// but still record their identifier.
    pub fn apply_results(&mut self, results: &Vec<(usize, usize, V, Option<String>)>)
        requires
            old(self).wf(),
        ensures
            final(self).wf(),
            final(self).width == old(self).width,
            final(self).height == old(self).height,
            final(self).bounds == old(self).bounds,
            final(self).resolution_m == old(self).resolution_m,
            final(self).nodata == old(self).nodata,
            final(self).data@ == data_after_results(
                old(self).data@,
                old(self).width as int,
                old(self).height as int,
                results@,
            ),
            final(self).id_seq() == ids_after_results(old(self).id_seq(), results@),
            // Each cell ends with the value of the last result aimed at it, or
            // keeps its value where no result is.
            forall|x: int, y: int|
                0 <= x < old(self).width && 0 <= y < old(self).height ==> {
                    let v = #[trigger] final(self).data@[y * old(self).width + x];
                    &&& (forall|k: int|
                        0 <= k < results@.len() ==> !(results@[k].0 == x && results@[k].1 == y)) ==> v
                        == old(self).data@[y * old(self).width + x]
                    &&& (exists|k: int| 0 <= k < results@.len() && results@[k].0 == x && results@[k].1 == y)
                        ==> exists|k: int|
                        {
                            &&& 0 <= k < results@.len()
                            &&& results@[k].0 == x
                            &&& results@[k].1 == y
                            &&& v == results@[k].2
                            &&& forall|l: int|
                                k < l < results@.len() ==> !(results@[l].0 == x && results@[l].1 == y)
                        }
                },
            // No identifier comes to be listed twice.
            old(self).id_seq().no_duplicates() ==> final(self).id_seq().no_duplicates(),
            // The earlier identifiers stay in place at the front.
            final(self).id_seq().len() >= old(self).id_seq().len(),
            forall|k: int| 0 <= k < old(self).id_seq().len() ==> #[trigger] final(self).id_seq()[k] == old(self).id_seq()[k],
            // Every identifier a result carries is listed.
            forall|k: int|
                #![trigger results@[k]]
                0 <= k < results@.len() ==> (results@[k].3 matches Some(id) ==> final(self).id_seq().contains(id@)),
            // Every listed identifier was listed before or comes from a result.
            forall|k: int|
                0 <= k < final(self).id_seq().len() ==> old(self).id_seq().contains(
                    #[trigger] final(self).id_seq()[k],
                ) || exists|m: int|
                    #![trigger results@[m]]
                    0 <= m < results@.len() && (results@[m].3 matches Some(id) && id@ == final(self).id_seq()[k]),
    {
        let ghost data0 = self.data@;
        let ghost ids0 = self.id_seq();
        let mut k: usize = 0;
        while k < results.len()
            invariant
                k <= results@.len(),
                self.wf(),
                self.width == old(self).width,
                self.height == old(self).height,
                self.bounds == old(self).bounds,
                self.resolution_m == old(self).resolution_m,
                self.nodata == old(self).nodata,
                data0 == old(self).data@,
                ids0 == old(self).id_seq(),
                self.data@ == data_after_results(
                    data0,
                    self.width as int,
                    self.height as int,
                    results@.subrange(0, k as int),
                ),
                self.id_seq() == ids_after_results(ids0, results@.subrange(0, k as int)),
            decreases results@.len() - k,
        {
            let (x, y, value, _) = results[k];
            proof {
                assert(results@.subrange(0, k + 1).drop_last() =~= results@.subrange(0, k as int));
                assert(results@.subrange(0, k + 1).last() == results@[k as int]);
            }
            self.set(x, y, value);
            match &results[k].3 {
                Some(id) => {
                    self.record_source_id(id.clone());
                },
                None => {},
            }
            k = k + 1;
        }
        proof {
            assert(results@.subrange(0, results@.len() as int) =~= results@);
            lemma_results_fill_cells(data0, self.width as int, self.height as int, results@);
            lemma_results_record_ids(ids0, results@);
            if ids0.no_duplicates() {
                lemma_results_keep_ids_distinct(ids0, results@);
            }
        }
    }

    /// Adds `id` to the contributing sources unless it is already listed:
    /// the identifiers already listed stay, in place, and `id` is appended
    /// when it was not among them.
    pub fn record_source_id(&mut self, id: String)
        ensures
            final(self).width == old(self).width,
            final(self).height == old(self).height,
            final(self).bounds == old(self).bounds,
            final(self).resolution_m == old(self).resolution_m,
            final(self).nodata == old(self).nodata,
            final(self).data@ == old(self).data@,
            (exists|k: int| 0 <= k < old(self).source_ids@.len() && #[trigger] old(self).source_ids@[k]@ == id@)
                ==> final(self).source_ids@ == old(self).source_ids@,
            !(exists|k: int| 0 <= k < old(self).source_ids@.len() && #[trigger] old(self).source_ids@[k]@ == id@)
                ==> {
                &&& final(self).source_ids@.len() == old(self).source_ids@.len() + 1
                &&& forall|k: int|
                    0 <= k < old(self).source_ids@.len() ==> #[trigger] final(self).source_ids@[k]
                        == old(self).source_ids@[k]
                &&& final(self).source_ids@.last() == id
            },
            final(self).id_seq() == ids_after_record(old(self).id_seq(), id@),
    {
        let ghost before = self.id_seq();
        let mut k: usize = 0;
        while k < self.source_ids.len()
            invariant
                k <= self.source_ids@.len(),
                before == self.id_seq(),
                forall|j: int| 0 <= j < k ==> self.source_ids@[j]@ != id@,
            decreases self.source_ids@.len() - k,
        {
            if self.source_ids[k] == id {
                proof {
                    assert(before[k as int] == id@);
                }
                return;
            }
            k = k + 1;
        }
        proof {
            assert(!before.contains(id@)) by {
                if before.contains(id@) {
                    let j = choose|j: int| 0 <= j < before.len() && before[j] == id@;
                    assert(self.source_ids@[j]@ == id@);
                }
            }
        }
        self.source_ids.push(id);
        proof {
            assert(self.id_seq() =~= before.push(id@));
        }
    }
}

} // verus!
