use crate::bitmap::BitMap;
use crate::bytemap::{lowered, raised, ByteMap};
use crate::parser::Operation;
use crate::range::{cell_count, PointRange};
use vstd::prelude::*;

verus! {

/// `v` with `f` applied at each index that `cells` holds.
pub open spec fn apply_cells<T>(v: Seq<T>, cells: Seq<int>, f: spec_fn(T) -> T) -> Seq<T> {
    Seq::new(v.len(), |i: int| if cells.contains(i) { f(v[i]) } else { v[i] })
}

/// State of a light that was `on`, after `op`.
pub open spec fn switched(op: Operation, on: bool) -> bool {
    match op {
        Operation::TurnOn => true,
        Operation::TurnOff => false,
        Operation::Toggle => !on,
    }
}

/// Brightness of a light that was `v`, after `op`.
pub open spec fn brightened(op: Operation, v: u8) -> u8 {
    match op {
        Operation::TurnOn => raised(v, 1),
        Operation::TurnOff => lowered(v),
        Operation::Toggle => raised(v, 2),
    }
}

/// Applying `f` at one more index, one not yet visited, updates that index alone.
proof fn lemma_apply_step<T>(v: Seq<T>, cells: Seq<int>, k: int, f: spec_fn(T) -> T)
    requires
        0 <= k < cells.len(),
        0 <= cells[k] < v.len(),
        forall|a: int, b: int| 0 <= a < b < cells.len() ==> cells[a] < cells[b],
    ensures
        apply_cells(v, cells.take(k), f)[cells[k]] == v[cells[k]],
        apply_cells(v, cells.take(k + 1), f) == apply_cells(v, cells.take(k), f).update(
            cells[k],
            f(v[cells[k]]),
        ),
{
    let before = cells.take(k);
    let after = cells.take(k + 1);
    let c = cells[k];
    assert(!before.contains(c)) by {
        if before.contains(c) {
            let j = choose|j: int| 0 <= j < before.len() && before[j] == c;
            assert(cells[j] < cells[k]);
        }
    }
    assert forall|i: int| 0 <= i < v.len() implies after.contains(i) == (before.contains(i) || i
        == c) by {
        if before.contains(i) {
            let j = choose|j: int| 0 <= j < before.len() && before[j] == i;
            assert(after[j] == i);
        }
        if i == c {
            assert(after[k] == c);
        }
        if after.contains(i) {
            let j = choose|j: int| 0 <= j < after.len() && after[j] == i;
            if j < k {
                assert(before[j] == i);
            }
        }
    }
    assert(apply_cells(v, after, f) =~= apply_cells(v, before, f).update(c, f(v[c])));
}

/// Applies `operation` to each light of `range`.
pub fn do_onoff(bitmap: &mut BitMap, range: PointRange, operation: Operation)
    requires
        old(bitmap).wf(),
        range.wf(),
        cell_count(range.max_point()) <= old(bitmap)@.len(),
    ensures
        final(bitmap).wf(),
        final(bitmap)@ == apply_cells(old(bitmap)@, range@, |on: bool| switched(operation, on)),
{
    let ghost start = bitmap@;
    let ghost cells = range@;
    let ghost f = |on: bool| switched(operation, on);
    let ghost mut k: int = 0;
    let mut it = range;
    proof {
        range.lemma_remaining();
        assert(cells.take(0) =~= Seq::<int>::empty());
        assert(apply_cells(start, cells.take(0), f) =~= start);
        assert(cells.skip(0) =~= cells);
    }
    loop
        invariant
            bitmap.wf(),
            bitmap@.len() == start.len(),
            it.wf(),
            it.max_point() == range.max_point(),
            cell_count(range.max_point()) <= start.len(),
            0 <= k <= cells.len(),
            it@ == cells.skip(k),
            bitmap@ == apply_cells(start, cells.take(k), f),
            f == (|on: bool| switched(operation, on)),
            forall|a: int, b: int| 0 <= a < b < cells.len() ==> cells[a] < cells[b],
            forall|j: int| 0 <= j < cells.len() ==> 0 <= #[trigger] cells[j] < cell_count(range.max_point()),
        ensures
            bitmap.wf(),
            bitmap@ == apply_cells(start, cells, f),
        decreases cells.len() - k,
    {
        match it.next() {
            None => {
                assert(cells.take(k) =~= cells);
                break ;
            },
            Some(p) => {
                proof {
                    assert(cells.skip(k)[0] == cells[k]);
                    lemma_apply_step(start, cells, k, f);
                }
                match operation {
                    Operation::Toggle => bitmap.toggle_bit(p),
                    Operation::TurnOff => bitmap.reset_bit(p),
                    Operation::TurnOn => bitmap.set_bit(p),
                }
                proof {
                    assert(cells.skip(k).drop_first() =~= cells.skip(k + 1));
                    k = k + 1;
                }
            },
        }
    }
}

/// Applies `operation` to the brightness of each light of `range`.
pub fn do_brightness(brightness: &mut ByteMap, range: PointRange, operation: Operation)
    requires
        old(brightness).wf(),
        range.wf(),
        cell_count(range.max_point()) <= old(brightness)@.len(),
    ensures
        final(brightness).wf(),
        final(brightness)@ == apply_cells(old(brightness)@, range@, |v: u8| brightened(operation, v)),
{
    let ghost start = brightness@;
    let ghost cells = range@;
    let ghost f = |v: u8| brightened(operation, v);
    let ghost mut k: int = 0;
    let mut it = range;
    proof {
        range.lemma_remaining();
        assert(cells.take(0) =~= Seq::<int>::empty());
        assert(apply_cells(start, cells.take(0), f) =~= start);
        assert(cells.skip(0) =~= cells);
    }
    loop
        invariant
            brightness.wf(),
            brightness@.len() == start.len(),
            it.wf(),
            it.max_point() == range.max_point(),
            cell_count(range.max_point()) <= start.len(),
            0 <= k <= cells.len(),
            it@ == cells.skip(k),
            brightness@ == apply_cells(start, cells.take(k), f),
            f == (|v: u8| brightened(operation, v)),
            forall|a: int, b: int| 0 <= a < b < cells.len() ==> cells[a] < cells[b],
            forall|j: int| 0 <= j < cells.len() ==> 0 <= #[trigger] cells[j] < cell_count(range.max_point()),
        ensures
            brightness.wf(),
            brightness@ == apply_cells(start, cells, f),
        decreases cells.len() - k,
    {
        match it.next() {
            None => {
                assert(cells.take(k) =~= cells);
                break ;
            },
            Some(p) => {
                proof {
                    assert(cells.skip(k)[0] == cells[k]);
                    lemma_apply_step(start, cells, k, f);
                }
                match operation {
                    Operation::Toggle => brightness.inc_byte_by(p, 2),
                    Operation::TurnOff => brightness.dec_byte(p),
                    Operation::TurnOn => brightness.inc_byte(p),
                }
                proof {
                    assert(cells.skip(k).drop_first() =~= cells.skip(k + 1));
                    k = k + 1;
                }
            },
        }
    }
}

} // verus!
