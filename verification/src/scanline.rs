//! Telling inside from outside along one row of a raster, by the parity of
//! the outline crossings.
//!
//! Coordinates are given as keys: unsigned numbers in the order of the
//! coordinates they stand for. Only that order matters here.

use crate::sorted::{increasing, insert};
use vstd::prelude::*;

verus! {

/// The crossings of a row: the keys of `crossings` in increasing order, each
/// of them once.
pub fn scanline(crossings: &[u32]) -> (line: Vec<u32>)
    ensures
        increasing(line@),
        forall|k: u32| line@.contains(k) <==> crossings@.contains(k),
{
    let mut line: Vec<u32> = Vec::new();
    let mut i: usize = 0;
    while i < crossings.len()
        invariant
            i <= crossings@.len(),
            increasing(line@),
            forall|k: u32| line@.contains(k) <==> crossings@.take(i as int).contains(k),
        decreases crossings@.len() - i,
    {
        let ghost before = line@;
        insert(&mut line, crossings[i]);
        proof {
            let seen = crossings@.take(i as int);
            let more = crossings@.take(i + 1);
            assert(more =~= seen.push(crossings@[i as int]));
            assert forall|k: u32| line@.contains(k) <==> more.contains(k) by {
                if seen.contains(k) {
                    let j = choose|j: int| 0 <= j < seen.len() && seen[j] == k;
                    assert(more[j] == k);
                }
                if k == crossings@[i as int] {
                    assert(more[i as int] == k);
                }
                if more.contains(k) {
                    let j = choose|j: int| 0 <= j < more.len() && more[j] == k;
                    if j < i {
                        assert(seen[j] == k);
                    }
                }
            }
        }
        i = i + 1;
    }
    proof {
        assert(crossings@.take(crossings@.len() as int) =~= crossings@);
    }
    line
}

/// How many crossings of a row lie strictly before `x`.
pub open spec fn crossings_before(line: Seq<u32>, x: u32) -> nat
    decreases line.len(),
{
    if line.len() == 0 {
        0
    } else {
        crossings_before(line.drop_last(), x) + if line.last() < x {
            1nat
        } else {
            0nat
        }
    }
}

/// The position `x` of a row lies inside the outline: an odd number of
/// crossings lies strictly before it.
pub open spec fn is_inside(line: Seq<u32>, x: u32) -> bool {
    crossings_before(line, x) % 2 == 1
}

/// Whether the position `x` of a row with the crossings `line` lies inside
/// the outline.
pub fn scanline_scan(line: &[u32], x: u32) -> (inside: bool)
    ensures
        inside == is_inside(line@, x),
{
    let mut count: usize = 0;
    let mut i: usize = 0;
    proof {
        assert(line@.take(0) =~= Seq::<u32>::empty());
    }
    while i < line.len()
        invariant
            i <= line@.len(),
            count <= i,
            count == crossings_before(line@.take(i as int), x),
        decreases line@.len() - i,
    {
        proof {
            let more = line@.take(i + 1);
            assert(more.drop_last() =~= line@.take(i as int));
            assert(more.last() == line@[i as int]);
        }
        if line[i] < x {
            count = count + 1;
        }
        i = i + 1;
    }
    proof {
        assert(line@.take(line@.len() as int) =~= line@);
    }
    count % 2 == 1
}

/// A row that an outline crosses at `a` and at `b` is inside the outline
/// behind `a` up to `b`, and outside before and after: between the two sides
/// of a box the pixels are inside, left and right of it they are not.
pub proof fn lemma_two_crossings(a: u32, b: u32, x: u32)
    requires
        a < b,
    ensures
        is_inside(seq![a, b], x) <==> a < x <= b,
{
    let line = seq![a, b];
    assert(line.drop_last() =~= seq![a]);
    assert(seq![a].drop_last() =~= Seq::<u32>::empty());
    assert(crossings_before(Seq::<u32>::empty(), x) == 0);
    assert(crossings_before(seq![a], x) == if a < x {
        1nat
    } else {
        0nat
    }) by {
        assert(seq![a].last() == a);
    }
    assert(line.last() == b);
}

/// In a row of crossings in increasing order, the crossings strictly before a
/// position are those up to the first one that is not: a position is inside
/// the outline where an odd number of crossings has been passed, between the
/// first and the second of them, the third and the fourth, and so on.
pub proof fn lemma_crossings_passed(line: Seq<u32>, x: u32, passed: int)
    requires
        0 <= passed <= line.len(),
        forall|i: int| 0 <= i < passed ==> line[i] < x,
        forall|i: int| passed <= i < line.len() ==> line[i] >= x,
    ensures
        crossings_before(line, x) == passed,
        is_inside(line, x) <==> passed % 2 == 1,
    decreases line.len(),
{
    if line.len() > 0 {
        let rest = line.drop_last();
        if passed == line.len() {
            lemma_crossings_passed(rest, x, passed - 1);
        } else {
            lemma_crossings_passed(rest, x, passed);
        }
    }
}

} // verus!
