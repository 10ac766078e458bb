//! How blocks of a sparse column are read one behind another.
use vstd::prelude::*;

use crate::cells::parsed_cells;
use crate::error::Error;
use crate::guess::default_of;
use crate::sparse::{first_places, parsed_dense, parsed_groups, parsed_sparse, placed, SparseState};
use crate::types::TypeView;
use crate::values::ValueView;
use crate::wire::{law_varuint_reads_back, varuint_bytes};

verus! {

// ---------------------------------------------------------------------------
// Runs
// ---------------------------------------------------------------------------

/// A run of `n` tells that `n` rows are left out and that a value comes behind them. Where that
/// value falls behind the last row, it is left for the rows that come next.
pub proof fn law_runs_before_values(n: u64, s: Seq<u8>, from: nat, left: nat, rows: nat)
    requires
        n < 0x4000_0000_0000_0000,
        n <= usize::MAX,
    ensures
        ({
            let read = parsed_groups(varuint_bytes(n as nat) + s, from, left, rows);
            &&& from + n >= rows && from + n - rows <= usize::MAX ==> read == Ok::<_, Error>(
                (
                    (
                        Seq::<nat>::empty(),
                        SparseState {
                            trailing_defaults: (from + n - rows) as usize,
                            has_value_after_defaults: true,
                        },
                    ),
                    s,
                ),
            )
            &&& from + n < rows ==> match parsed_groups(s, (from + n + 1) as nat, 0, rows) {
                Ok(((places, st), last)) => read == Ok::<_, Error>(
                    ((seq![(from + n) as nat] + places, st), last),
                ),
                Err(e) => read == Err::<((Seq<nat>, SparseState), Seq<u8>), Error>(e),
            }
        }),
{
    law_varuint_reads_back(n, s);
    assert(n & 0x4000_0000_0000_0000u64 == 0) by (bit_vector)
        requires
            n < 0x4000_0000_0000_0000,
    ;
    assert(n as usize == n);
}

/// The last run has the bit below the highest one set, and no value comes behind it: the rows it
/// counts beyond those asked for are left for the next block.
pub proof fn law_last_runs(n: u64, s: Seq<u8>, from: nat, left: nat, rows: nat)
    requires
        n < 0x4000_0000_0000_0000,
        n + left <= usize::MAX,
    ensures
        ({
            let read = parsed_groups(
                varuint_bytes((n + 0x4000_0000_0000_0000) as nat) + s,
                from,
                left,
                rows,
            );
            let rest: int = if from + n >= rows {
                from + n - rows
            } else {
                n + left
            };
            rest <= usize::MAX ==> read == Ok::<_, Error>(
                (
                    (
                        Seq::<nat>::empty(),
                        SparseState {
                            trailing_defaults: rest as usize,
                            has_value_after_defaults: false,
                        },
                    ),
                    s,
                ),
            )
        }),
{
    let v: u64 = (n + 0x4000_0000_0000_0000u64) as u64;
    law_varuint_reads_back(v, s);
    assert(v & 0x4000_0000_0000_0000u64 != 0 && v & !0x4000_0000_0000_0000u64 == n) by (bit_vector)
        requires
            n < 0x4000_0000_0000_0000,
            v == n + 0x4000_0000_0000_0000u64,
    ;
    assert(n as usize == n);
}

// ---------------------------------------------------------------------------
// Rows
// ---------------------------------------------------------------------------

/// The rows that have values come in order, none of them before `from` nor behind the last row.
pub proof fn law_rows_with_values(s: Seq<u8>, from: nat, left: nat, rows: nat)
    ensures
        parsed_groups(s, from, left, rows) matches Ok(((places, _), _)) ==> {
            &&& forall|i: int| 0 <= i < places.len() ==> from <= #[trigger] places[i] < rows
            &&& forall|i: int, k: int|
                0 <= i < k < places.len() ==> #[trigger] places[i] < #[trigger] places[k]
        },
    decreases rows - from,
{
    if let Ok(((places, _), _)) = parsed_groups(s, from, left, rows) {
        if places.len() > 0 {
            let rest = crate::wire::parsed_varuint(s)->Ok_0.1;
            let next: nat = places[0];
            law_rows_with_values(rest, next + 1, 0, rows);
            let more = parsed_groups(rest, next + 1, 0, rows)->Ok_0.0.0;
            assert(places =~= seq![next] + more);
            assert forall|i: int| 0 <= i < places.len() implies from <= #[trigger] places[i]
                < rows by {
                if i > 0 {
                    assert(places[i] == more[i - 1]);
                }
            }
            assert forall|i: int, k: int| 0 <= i < k < places.len() implies #[trigger] places[i]
                < #[trigger] places[k] by {
                assert(places[k] == more[k - 1]);
                if i > 0 {
                    assert(places[i] == more[i - 1]);
                }
            }
        }
    }
}

proof fn lemma_as_many_cells(s: Seq<u8>, t: TypeView, n: nat)
    ensures
        parsed_cells(s, t, n) matches Ok((vs, _)) ==> vs.len() == n,
    decreases n,
{
    if n > 0 {
        if let Ok((_, next)) = crate::cells::parsed_cell(s, t) {
            lemma_as_many_cells(next, t, (n - 1) as nat);
        }
    }
}

proof fn lemma_placed(rows: Seq<ValueView>, places: Seq<nat>, vs: Seq<ValueView>)
    requires
        places.len() == vs.len(),
        forall|i: int, k: int|
            0 <= i < k < places.len() ==> #[trigger] places[i] < #[trigger] places[k],
    ensures
        placed(rows, places, vs).len() == rows.len(),
        forall|i: int|
            0 <= i < places.len() && places[i] < rows.len() ==> placed(rows, places, vs)[(
            #[trigger] places[i]) as int] == vs[i],
        forall|r: nat|
            r < rows.len() && !places.contains(r) ==> (#[trigger] placed(rows, places, vs)[r as int])
                == rows[r as int],
    decreases places.len(),
{
    if places.len() > 0 {
        let next = if places[0] < rows.len() {
            rows.update(places[0] as int, vs[0])
        } else {
            rows
        };
        let more = places.skip(1);
        assert forall|i: int, k: int| 0 <= i < k < more.len() implies #[trigger] more[i]
            < #[trigger] more[k] by {
            assert(more[i] == places[i + 1] && more[k] == places[k + 1]);
        }
        lemma_placed(next, more, vs.skip(1));
        let all = placed(rows, places, vs);
        assert forall|i: int| 0 <= i < places.len() && places[i] < rows.len() implies all[(
        #[trigger] places[i]) as int] == vs[i] by {
            if i > 0 {
                assert(more[i - 1] == places[i]);
                assert(vs.skip(1)[i - 1] == vs[i]);
            } else {
                assert forall|k: int| 0 <= k < more.len() implies #[trigger] more[k]
                    != places[0] by {
                    assert(more[k] == places[k + 1]);
                }
                assert(!more.contains(places[0]));
            }
        }
        assert forall|r: nat| r < rows.len() && !places.contains(r) implies (#[trigger] all[r as int])
            == rows[r as int] by {
            assert(!more.contains(r)) by {
                if more.contains(r) {
                    let k = choose|k: int| 0 <= k < more.len() && more[k] == r;
                    assert(places[k + 1] == r);
                }
            }
            assert(places[0] != r);
        }
    }
}

/// A block of a sparse column has as many rows as were asked for. A row has a value where a run
/// ends in front of it, the values standing in the order of their rows behind the runs, and the
/// type's own first value where it was left out.
pub proof fn law_blocks_of_sparse_columns(
    s: Seq<u8>,
    t: TypeView,
    rows: nat,
    places: Seq<nat>,
    next: SparseState,
    rest: Seq<u8>,
    vs: Seq<ValueView>,
    last: Seq<u8>,
    row: nat,
)
    requires
        !(t is Object),
        row < rows,
        parsed_groups(s, 0, 0, rows) == Ok::<_, Error>(((places, next), rest)),
        parsed_cells(rest, t, places.len()) == Ok::<_, Error>((vs, last)),
    ensures
        ({
            let st = SparseState { trailing_defaults: 0, has_value_after_defaults: false };
            match parsed_sparse(s, t, rows, st) {
                Ok(((read, after), end)) => {
                    &&& read.len() == rows
                    &&& after == next
                    &&& end == last
                    &&& !places.contains(row) ==> read[row as int] == default_of(t)
                    &&& forall|i: int|
                        0 <= i < places.len() && #[trigger] places[i] == row ==> read[row as int]
                            == vs[i]
                },
                Err(_) => false,
            }
        }),
{
    let st = SparseState { trailing_defaults: 0, has_value_after_defaults: false };
    law_rows_with_values(s, 0, 0, rows);
    lemma_as_many_cells(rest, t, places.len());
    assert(first_places(st) + places =~= places);
    let blank = Seq::new(rows, |i: int| default_of(t));
    lemma_placed(blank, places, vs);
    assert(places.contains(row) || placed(blank, places, vs)[row as int] == blank[row as int]);
}

/// Where an earlier block left `k` rows and a value behind them, the first `k` rows are the type's
/// own first value, and the first value that is read belongs to the row behind them. Where it left
/// rows and no value, the runs go on counting behind those rows.
pub proof fn law_rows_an_earlier_block_left(
    s: Seq<u8>,
    t: TypeView,
    rows: nat,
    k: usize,
    read: Seq<ValueView>,
    next: SparseState,
    last: Seq<u8>,
    i: int,
)
    requires
        k < usize::MAX,
        0 <= i < k,
    ensures
        ({
            let st = SparseState { trailing_defaults: k, has_value_after_defaults: true };
            parsed_sparse(s, t, rows, st) == Ok::<_, Error>(((read, next), last)) && k < rows ==> {
                let runs = parsed_groups(s, (k + 1) as nat, 0, rows);
                &&& runs is Ok
                &&& parsed_dense(runs->Ok_0.1, t, runs->Ok_0.0.0.len() + 1) matches Ok((vs, _))
                    ==> read[k as int] == vs[0] && read[i] == default_of(t)
            }
        }),
        ({
            let st = SparseState { trailing_defaults: k, has_value_after_defaults: false };
            parsed_sparse(s, t, rows, st) == Ok::<_, Error>(((read, next), last)) && i < rows ==> {
                let runs = parsed_groups(s, k as nat, k as nat, rows);
                &&& runs is Ok
                &&& read[i] == default_of(t)
            }
        }),
{
    let blank = Seq::new(rows, |i: int| default_of(t));
    law_rows_with_values(s, (k + 1) as nat, 0, rows);
    law_rows_with_values(s, k as nat, k as nat, rows);
    if let Ok(((places, _), rest)) = parsed_groups(s, (k + 1) as nat, 0, rows) {
        let all = seq![k as nat] + places;
        if let Ok((vs, _)) = parsed_dense(rest, t, all.len()) {
            lemma_as_many_cells(rest, t, all.len());
            if vs.len() == all.len() {
                assert forall|a: int, b: int| 0 <= a < b < all.len() implies #[trigger] all[a]
                    < #[trigger] all[b] by {
                    assert(all[b] == places[b - 1]);
                    if a > 0 {
                        assert(all[a] == places[a - 1]);
                    }
                }
                lemma_placed(blank, all, vs);
                assert(all[0] == k);
                assert(!all.contains(i as nat)) by {
                    assert forall|b: int| 0 <= b < all.len() implies #[trigger] all[b] != i by {
                        if b > 0 {
                            assert(all[b] == places[b - 1]);
                        }
                    }
                }
                assert(k < rows ==> placed(blank, all, vs)[(i as nat) as int] == blank[i]);
            }
        }
    }
    if let Ok(((places, _), rest)) = parsed_groups(s, k as nat, k as nat, rows) {
        let st = SparseState { trailing_defaults: k, has_value_after_defaults: false };
        assert(first_places(st) + places =~= places);
        if let Ok((vs, _)) = parsed_dense(rest, t, places.len()) {
            lemma_as_many_cells(rest, t, places.len());
            if vs.len() == places.len() {
                lemma_placed(blank, places, vs);
                assert(!places.contains(i as nat));
                assert(i < rows ==> placed(blank, places, vs)[(i as nat) as int] == blank[i]);
            }
        }
    }
}

} // verus!
