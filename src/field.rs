//! Reassembly of an escape field from rows that arrive out of order.
//!
//! Each row of the raster is computed as an independent unit and handed back
//! together with its row index. Completion order carries no meaning: the field
//! is put together by the indices alone, and it is returned whole or not at
//! all.
use vstd::prelude::*;

verus! {

/// Why a set of computed rows does not make up a field.
#[derive(Clone, Copy, Debug, PartialEq, Eq, Structural)]
pub enum FieldError {
    /// The raster has no columns or no rows.
    InvalidDimensions,
    /// A row carries an index at or beyond the raster's height.
    RowOutOfRange,
    /// A row does not hold exactly one count per column.
    RowWidthMismatch,
    /// A row holds a count above the iteration budget.
    CountAboveCap,
    /// Two rows carry the same index.
    DuplicateRow,
    /// No row carries some index below the raster's height.
    MissingRow,
}

/// Computed rows as mathematical values: each a row index and its counts.
pub open spec fn tagged_view(results: Seq<(usize, Vec<u16>)>) -> Seq<(usize, Seq<u16>)> {
    results.map_values(|p: (usize, Vec<u16>)| (p.0, p.1@))
}

/// A field as a sequence of rows of counts.
pub open spec fn field_view(field: Seq<Vec<u16>>) -> Seq<Seq<u16>> {
    field.map_values(|row: Vec<u16>| row@)
}

/// The outcome of an assembly, with the field as mathematical values.
pub open spec fn outcome_view(r: Result<Vec<Vec<u16>>, FieldError>) -> Result<
    Seq<Seq<u16>>,
    FieldError,
> {
    match r {
        Ok(field) => Ok(field_view(field@)),
        Err(e) => Err(e),
    }
}

pub open spec fn all_tags_below(rs: Seq<(usize, Seq<u16>)>, height: nat) -> bool {
    forall|k: int| 0 <= k < rs.len() ==> rs[k].0 < height
}

pub open spec fn all_widths(rs: Seq<(usize, Seq<u16>)>, width: nat) -> bool {
    forall|k: int| 0 <= k < rs.len() ==> rs[k].1.len() == width
}

pub open spec fn all_within_cap(rs: Seq<(usize, Seq<u16>)>, cap: u16) -> bool {
    forall|k: int, x: int| 0 <= k < rs.len() && 0 <= x < rs[k].1.len() ==> rs[k].1[x] <= cap
}

pub open spec fn tags_distinct(rs: Seq<(usize, Seq<u16>)>) -> bool {
    forall|j: int, k: int| 0 <= j < k < rs.len() ==> rs[j].0 != rs[k].0
}

/// Some row carries index `y`.
pub open spec fn has_tag(rs: Seq<(usize, Seq<u16>)>, y: int) -> bool {
    exists|k: int| 0 <= k < rs.len() && rs[k].0 == y
}

pub open spec fn covers_rows(rs: Seq<(usize, Seq<u16>)>, height: nat) -> bool {
    forall|y: int| 0 <= y < height ==> has_tag(rs, y)
}

/// The counts of a row that carries index `y`.
pub open spec fn row_with_tag(rs: Seq<(usize, Seq<u16>)>, y: int) -> Seq<u16> {
    rs[choose|k: int| 0 <= k < rs.len() && rs[k].0 == y].1
}

/// What assembling the computed rows `rs` into a `width` by `height` field
/// under an iteration budget `cap` gives. The faults are looked for in a fixed
/// order, each over all rows at once, so the outcome does not depend on the
/// order in which the rows are listed.
pub open spec fn assemble_spec(width: nat, height: nat, cap: u16, rs: Seq<(usize, Seq<u16>)>) -> Result<
    Seq<Seq<u16>>,
    FieldError,
> {
    if width == 0 || height == 0 {
        Err(FieldError::InvalidDimensions)
    } else if !all_tags_below(rs, height) {
        Err(FieldError::RowOutOfRange)
    } else if !all_widths(rs, width) {
        Err(FieldError::RowWidthMismatch)
    } else if !all_within_cap(rs, cap) {
        Err(FieldError::CountAboveCap)
    } else if !tags_distinct(rs) {
        Err(FieldError::DuplicateRow)
    } else if !covers_rows(rs, height) {
        Err(FieldError::MissingRow)
    } else {
        Ok(Seq::new(height, |y: int| row_with_tag(rs, y)))
    }
}

fn check_tags_below(results: &Vec<(usize, Vec<u16>)>, height: usize) -> (r: bool)
    ensures
        r == all_tags_below(tagged_view(results@), height as nat),
{
    let ghost rs = tagged_view(results@);
    let mut k: usize = 0;
    while k < results.len()
        invariant
            k <= results.len(),
            rs == tagged_view(results@),
            forall|i: int| 0 <= i < k ==> rs[i].0 < height,
        decreases results.len() - k,
    {
        if results[k].0 >= height {
            assert(rs[k as int].0 == results@[k as int].0);
            return false;
        }
        k = k + 1;
    }
    true
}

fn check_widths(results: &Vec<(usize, Vec<u16>)>, width: usize) -> (r: bool)
    ensures
        r == all_widths(tagged_view(results@), width as nat),
{
    let ghost rs = tagged_view(results@);
    let mut k: usize = 0;
    while k < results.len()
        invariant
            k <= results.len(),
            rs == tagged_view(results@),
            forall|i: int| 0 <= i < k ==> rs[i].1.len() == width,
        decreases results.len() - k,
    {
        if results[k].1.len() != width {
            assert(rs[k as int].1 == results@[k as int].1@);
            return false;
        }
        k = k + 1;
    }
    true
}

fn check_within_cap(results: &Vec<(usize, Vec<u16>)>, cap: u16) -> (r: bool)
    ensures
        r == all_within_cap(tagged_view(results@), cap),
{
    let ghost rs = tagged_view(results@);
    let mut k: usize = 0;
    while k < results.len()
        invariant
            k <= results.len(),
            rs == tagged_view(results@),
            forall|i: int, x: int| 0 <= i < k && 0 <= x < rs[i].1.len() ==> rs[i].1[x] <= cap,
        decreases results.len() - k,
    {
        let row = &results[k].1;
        let mut x: usize = 0;
        while x < row.len()
            invariant
                k < results.len(),
                x <= row.len(),
                row@ == rs[k as int].1,
                rs == tagged_view(results@),
                forall|j: int| 0 <= j < x ==> row@[j] <= cap,
            decreases row.len() - x,
        {
            if row[x] > cap {
                return false;
            }
            x = x + 1;
        }
        k = k + 1;
    }
    true
}

/// Puts computed rows into a `width` by `height` field under the iteration
/// budget `max_iterations`, each at the row index it carries, whatever order
/// they come in. The field is returned only when the rows cover every index
/// exactly once and each holds one count per column, none above the budget;
/// otherwise the first fault in the order of `assemble_spec` is reported and
/// no field is returned.
pub fn assemble_field(
    width: usize,
    height: usize,
    max_iterations: u16,
    results: Vec<(usize, Vec<u16>)>,
) -> (r: Result<Vec<Vec<u16>>, FieldError>)
    ensures
        outcome_view(r) == assemble_spec(
            width as nat,
            height as nat,
            max_iterations,
            tagged_view(results@),
        ),
{
    let ghost rs = tagged_view(results@);
    if width == 0 || height == 0 {
        return Err(FieldError::InvalidDimensions);
    }
    if !check_tags_below(&results, height) {
        return Err(FieldError::RowOutOfRange);
    }
    if !check_widths(&results, width) {
        return Err(FieldError::RowWidthMismatch);
    }
    if !check_within_cap(&results, max_iterations) {
        return Err(FieldError::CountAboveCap);
    }
    let mut field: Vec<Vec<u16>> = Vec::new();
    let mut filled: Vec<bool> = Vec::new();
    let mut y: usize = 0;
    while y < height
        invariant
            y <= height,
            field.len() == y,
            filled.len() == y,
            forall|i: int| 0 <= i < y ==> !filled@[i],
        decreases height - y,
    {
        field.push(Vec::new());
        filled.push(false);
        y = y + 1;
    }
    // Rows are taken from the back; those already placed are `rs[pending.len()..]`.
    let mut pending = results;
    while pending.len() > 0
        invariant
            pending.len() <= rs.len(),
            rs == tagged_view(results@),
            pending@ == results@.subrange(0, pending.len() as int),
            field.len() == height,
            filled.len() == height,
            width > 0,
            all_tags_below(rs, height as nat),
            all_widths(rs, width as nat),
            all_within_cap(rs, max_iterations),
            forall|j: int, k: int| pending.len() <= j < k < rs.len() ==> rs[j].0 != rs[k].0,
            forall|i: int|
                0 <= i < height ==> (filled@[i] <==> exists|k: int|
                    pending.len() <= k < rs.len() && rs[k].0 == i),
            forall|k: int|
                pending.len() <= k < rs.len() ==> field@[rs[k].0 as int]@ == rs[k].1,
        decreases pending.len(),
    {
        let ghost k = pending.len() - 1;
        let (tag, row) = pending.pop().unwrap();
        assert(rs[k] == (tag, row@));
        if filled[tag] {
            let ghost j = choose|j: int| pending.len() < j < rs.len() && rs[j].0 == tag;
            assert(rs[k].0 == rs[j].0);
            assert(!tags_distinct(rs));
            return Err(FieldError::DuplicateRow);
        }
        field.set(tag, row);
        filled.set(tag, true);
        assert forall|i: int|
            0 <= i < height implies (filled@[i] <==> exists|k2: int|
                k <= k2 < rs.len() && rs[k2].0 == i) by {
            if i != tag && filled@[i] {
                let k2 = choose|k2: int| k + 1 <= k2 < rs.len() && rs[k2].0 == i;
                assert(k <= k2 < rs.len() && rs[k2].0 == i);
            }
        }
    }
    assert(tags_distinct(rs));
    assert forall|i: int| 0 <= i < height implies (filled@[i] <==> has_tag(rs, i)) by {
        if filled@[i] {
            let k = choose|k: int| 0 <= k < rs.len() && rs[k].0 == i;
            assert(0 <= k < rs.len() && rs[k].0 == i);
        }
    }
    let mut y: usize = 0;
    while y < height
        invariant
            y <= height,
            width > 0,
            filled.len() == height,
            rs == tagged_view(results@),
            all_tags_below(rs, height as nat),
            all_widths(rs, width as nat),
            all_within_cap(rs, max_iterations),
            tags_distinct(rs),
            forall|i: int| 0 <= i < height ==> (filled@[i] <==> has_tag(rs, i)),
            forall|i: int| 0 <= i < y ==> filled@[i],
        decreases height - y,
    {
        if !filled[y] {
            assert(!has_tag(rs, y as int));
            return Err(FieldError::MissingRow);
        }
        y = y + 1;
    }
    assert(covers_rows(rs, height as nat));
    let ghost want = Seq::new(height as nat, |i: int| row_with_tag(rs, i));
    assert forall|i: int| 0 <= i < height implies field@[i]@ == want[i] by {
        assert(has_tag(rs, i));
        let k = choose|k: int| 0 <= k < rs.len() && rs[k].0 == i;
        assert(field@[rs[k].0 as int]@ == rs[k].1);
    }
    assert(field_view(field@) =~= want);
    Ok(field)
}

/// Every field that assembly returns has exactly `height` rows of exactly
/// `width` counts each, and every count lies in `0..=cap`.
pub proof fn lemma_assembled_field_shape(
    width: nat,
    height: nat,
    cap: u16,
    rs: Seq<(usize, Seq<u16>)>,
)
    requires
        assemble_spec(width, height, cap, rs) is Ok,
    ensures
        ({
            let f = assemble_spec(width, height, cap, rs)->Ok_0;
            &&& f.len() == height
            &&& forall|y: int| 0 <= y < height ==> #[trigger] f[y].len() == width
            &&& forall|y: int, x: int| 0 <= y < height && 0 <= x < width ==> f[y][x] <= cap
        }),
{
    let f = assemble_spec(width, height, cap, rs)->Ok_0;
    assert forall|y: int| 0 <= y < height implies f[y].len() == width && (forall|x: int|
        0 <= x < width ==> f[y][x] <= cap) by {
        assert(has_tag(rs, y));
        let k = choose|k: int| 0 <= k < rs.len() && rs[k].0 == y;
        assert(f[y] == rs[k].1);
    }
}

/// `order` lists every index below `n` exactly once: an order of arrival for
/// `n` computed rows.
pub open spec fn is_arrival_order(order: Seq<int>, n: nat) -> bool {
    &&& order.len() == n
    &&& forall|k: int| 0 <= k < n ==> 0 <= #[trigger] order[k] < n
    &&& forall|j: int, k: int| 0 <= j < n && 0 <= k < n && j != k ==> order[j] != order[k]
    &&& forall|i: int| 0 <= i < n ==> #[trigger] lists_index(order, i)
}

/// Index `i` occurs in `order`.
pub open spec fn lists_index(order: Seq<int>, i: int) -> bool {
    exists|k: int| 0 <= k < order.len() && order[k] == i
}

/// The rows `rs` as they arrive in the order `order`.
pub open spec fn arrive_in(rs: Seq<(usize, Seq<u16>)>, order: Seq<int>) -> Seq<(usize, Seq<u16>)> {
    Seq::new(order.len(), |k: int| rs[order[k]])
}

/// The order in which computed rows arrive does not change the outcome of
/// assembly: the same field, or the same fault, for every order.
pub proof fn lemma_arrival_order_irrelevant(
    width: nat,
    height: nat,
    cap: u16,
    rs: Seq<(usize, Seq<u16>)>,
    order: Seq<int>,
)
    requires
        is_arrival_order(order, rs.len()),
    ensures
        assemble_spec(width, height, cap, arrive_in(rs, order)) == assemble_spec(
            width,
            height,
            cap,
            rs,
        ),
{
    let qs = arrive_in(rs, order);
    let n = rs.len();
    // Each row of one list stands in the other.
    assert forall|i: int| 0 <= i < n implies #[trigger] qs.contains(rs[i]) by {
        assert(lists_index(order, i));
        let k = choose|k: int| 0 <= k < n && order[k] == i;
        assert(qs[k] == rs[i]);
    }
    assert(all_tags_below(qs, height) == all_tags_below(rs, height)) by {
        if !all_tags_below(rs, height) {
            let i = choose|i: int| 0 <= i < n && !(rs[i].0 < height);
            assert(qs.contains(rs[i]));
            let k = choose|k: int| 0 <= k < n && qs[k] == rs[i];
        }
    }
    assert(all_widths(qs, width) == all_widths(rs, width)) by {
        if !all_widths(rs, width) {
            let i = choose|i: int| 0 <= i < n && rs[i].1.len() != width;
            assert(qs.contains(rs[i]));
            let k = choose|k: int| 0 <= k < n && qs[k] == rs[i];
        }
    }
    assert(all_within_cap(qs, cap) == all_within_cap(rs, cap)) by {
        if !all_within_cap(rs, cap) {
            let (i, x) = choose|i: int, x: int|
                0 <= i < n && 0 <= x < rs[i].1.len() && !(rs[i].1[x] <= cap);
            assert(qs.contains(rs[i]));
            let k = choose|k: int| 0 <= k < n && qs[k] == rs[i];
            assert(qs[k].1[x] > cap);
        }
    }
    assert(tags_distinct(qs) == tags_distinct(rs)) by {
        if !tags_distinct(rs) {
            let (i, j) = choose|i: int, j: int| 0 <= i < j < n && rs[i].0 == rs[j].0;
            assert(lists_index(order, i));
            assert(lists_index(order, j));
            let ki = choose|k: int| 0 <= k < n && order[k] == i;
            let kj = choose|k: int| 0 <= k < n && order[k] == j;
            if ki < kj {
                assert(qs[ki].0 == qs[kj].0);
            } else {
                assert(qs[kj].0 == qs[ki].0);
            }
        }
        if !tags_distinct(qs) {
            let (i, j) = choose|i: int, j: int| 0 <= i < j < n && qs[i].0 == qs[j].0;
            if order[i] < order[j] {
                assert(rs[order[i]].0 == rs[order[j]].0);
            } else {
                assert(rs[order[j]].0 == rs[order[i]].0);
            }
        }
    }
    assert forall|y: int| has_tag(qs, y) == has_tag(rs, y) by {
        if has_tag(rs, y) {
            let i = choose|i: int| 0 <= i < n && rs[i].0 == y;
            assert(qs.contains(rs[i]));
            let k = choose|k: int| 0 <= k < n && qs[k] == rs[i];
            assert(qs[k].0 == y);
        }
        if has_tag(qs, y) {
            let k = choose|k: int| 0 <= k < n && qs[k].0 == y;
            assert(rs[order[k]].0 == y);
        }
    }
    assert(covers_rows(qs, height) == covers_rows(rs, height));
    if assemble_spec(width, height, cap, rs) is Ok {
        assert forall|y: int| 0 <= y < height implies row_with_tag(qs, y) == row_with_tag(rs, y) by {
            assert(has_tag(rs, y));
            assert(has_tag(qs, y));
            let a = choose|k: int| 0 <= k < n && qs[k].0 == y;
            let b = choose|k: int| 0 <= k < n && rs[k].0 == y;
            assert(qs[a] == rs[order[a]]);
            assert(rs[order[a]].0 == rs[b].0);
            assert(order[a] == b);
        }
        assert(Seq::new(height, |y: int| row_with_tag(qs, y)) =~= Seq::new(
            height,
            |y: int| row_with_tag(rs, y),
        ));
    }
}

} // verus!
