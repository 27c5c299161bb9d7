//! Solutions up to rotation of the whole cube.
//!
//! A solution is dropped when it is a rotation of a solution kept before
//! it. Fingerprints tell where to look: a solution can only be a rotation of
//! a kept solution that has its fingerprint in some orientation, and among
//! those the masks decide.

use std::collections::HashMap;
use vstd::prelude::*;
use crate::geometry::{Axis, NUM_PIECES};
use crate::placements::{lemma_orientation_wraps, oriented, reached};
use crate::search::Solution;
use crate::symmetry::{lemma_orientation_back, lemma_orientation_of_orientation};
use crate::transform::{rotate_piece_90, rotated};

verus! {

/// The mask `m` as it enters the fingerprint at position `p`.
pub open spec fn shifted(m: u64, p: int) -> u64 {
    m << (p as u64)
}

/// The fingerprint of the first `n` masks of `s`.
pub open spec fn fingerprint_below(s: Seq<u64>, n: nat) -> u64
    decreases n,
{
    if n == 0 {
        0
    } else {
        fingerprint_below(s, (n - 1) as nat) ^ shifted(s[n - 1], n - 1)
    }
}

/// The fingerprint of a solution: the masks of its pieces, each shifted left
/// by the number of its piece, combined by exclusive or.
pub open spec fn fingerprint(s: Seq<u64>) -> u64 {
    fingerprint_below(s, 13)
}

/// The solution `s` with each mask turned once about `axis`.
pub open spec fn rotated_solution(s: Seq<u64>, axis: Axis) -> Seq<u64> {
    Seq::new(s.len(), |p: int| rotated(s[p], axis))
}

/// The solution `s` with each mask in the orientation `(i, j, k)`.
pub open spec fn oriented_solution(s: Seq<u64>, i: nat, j: nat, k: nat) -> Seq<u64> {
    Seq::new(s.len(), |p: int| oriented(s[p], i, j, k))
}

/// The fingerprint of `s` in the orientation `(i, j, k)`.
pub open spec fn orbit_fingerprint(s: Seq<u64>, i: nat, j: nat, k: nat) -> u64 {
    fingerprint(oriented_solution(s, i, j, k))
}

/// Whether `s` is `rep` in one of its orientations.
pub open spec fn is_rotation(rep: Seq<u64>, s: Seq<u64>) -> bool {
    exists|i: nat, j: nat, k: nat|
        i < 4 && j < 4 && k < 4 && s == #[trigger] oriented_solution(rep, i, j, k)
}

/// Whether `s` is one of `reps` in one of its orientations.
pub open spec fn is_seen(reps: Seq<Solution>, s: Seq<u64>) -> bool {
    exists|r: int| 0 <= r < reps.len() && is_rotation(#[trigger] reps[r].0@, s)
}

/// The solutions of `sols` that are kept: each one that is no rotation of a
/// solution kept before it.
pub open spec fn unique_solutions(sols: Seq<Solution>) -> Seq<Solution>
    decreases sols.len(),
{
    if sols.len() == 0 {
        Seq::empty()
    } else {
        let kept = unique_solutions(sols.drop_last());
        if is_seen(kept, sols.last().0@) {
            kept
        } else {
            kept.push(sols.last())
        }
    }
}

/// A solution is a rotation of itself.
pub proof fn lemma_rotation_of_itself(s: Seq<u64>)
    ensures
        is_rotation(s, s),
{
    assert(oriented_solution(s, 0, 0, 0) =~= s);
}

/// A rotation of a rotation of a solution is a rotation of the solution.
pub proof fn lemma_rotation_transitive(a: Seq<u64>, b: Seq<u64>, c: Seq<u64>)
    requires
        is_rotation(a, b),
        is_rotation(b, c),
    ensures
        is_rotation(a, c),
{
    let (i, j, k) = choose|i: nat, j: nat, k: nat|
        i < 4 && j < 4 && k < 4 && b == #[trigger] oriented_solution(a, i, j, k);
    let (i2, j2, k2) = choose|i2: nat, j2: nat, k2: nat|
        i2 < 4 && j2 < 4 && k2 < 4 && c == #[trigger] oriented_solution(b, i2, j2, k2);
    let w = lemma_orientation_of_orientation(i, j, k, i2, j2, k2);
    assert(c =~= oriented_solution(a, w.0, w.1, w.2)) by {
        assert forall|p: int| 0 <= p < a.len() implies c[p] == oriented(a[p], w.0, w.1, w.2) by {
            assert(c[p] == oriented(oriented(a[p], i, j, k), i2, j2, k2));
        }
    }
}

/// A solution is a rotation of each of its rotations.
pub proof fn lemma_rotation_symmetric(a: Seq<u64>, b: Seq<u64>)
    requires
        is_rotation(a, b),
    ensures
        is_rotation(b, a),
{
    let (i, j, k) = choose|i: nat, j: nat, k: nat|
        i < 4 && j < 4 && k < 4 && b == #[trigger] oriented_solution(a, i, j, k);
    let w = lemma_orientation_back(i, j, k);
    assert(a =~= oriented_solution(b, w.0, w.1, w.2)) by {
        assert forall|p: int| 0 <= p < a.len() implies a[p] == oriented(b[p], w.0, w.1, w.2) by {
            assert(oriented(oriented(a[p], i, j, k), w.0, w.1, w.2) == a[p]);
        }
    }
}

/// What is seen with one more solution kept.
proof fn lemma_seen_push(kept: Seq<Solution>, sol: Solution)
    ensures
        forall|s: Seq<u64>| #[trigger]
            is_seen(kept.push(sol), s) <==> (is_seen(kept, s) || is_rotation(sol.0@, s)),
{
    let more = kept.push(sol);
    assert forall|s: Seq<u64>| #[trigger]
        is_seen(more, s) <==> (is_seen(kept, s) || is_rotation(sol.0@, s)) by {
        if is_seen(more, s) {
            let r = choose|r: int| 0 <= r < more.len() && is_rotation(#[trigger] more[r].0@, s);
            if r < kept.len() {
                assert(is_rotation(kept[r].0@, s));
            }
        }
        if is_seen(kept, s) {
            let r = choose|r: int| 0 <= r < kept.len() && is_rotation(#[trigger] kept[r].0@, s);
            assert(is_rotation(more[r].0@, s));
        }
        if is_rotation(sol.0@, s) {
            assert(is_rotation(more[kept.len() as int].0@, s));
        }
    }
}

/// A rotation of a kept solution, coming later, is dropped as a duplicate.
pub proof fn lemma_rotation_is_duplicate(
    sols: Seq<Solution>,
    r: int,
    i: nat,
    j: nat,
    k: nat,
    later: Solution,
)
    requires
        0 <= r < unique_solutions(sols).len(),
        i < 4,
        j < 4,
        k < 4,
        later.0@ == oriented_solution(unique_solutions(sols)[r].0@, i, j, k),
    ensures
        unique_solutions(sols.push(later)) == unique_solutions(sols),
{
    let kept = unique_solutions(sols);
    assert(sols.push(later).drop_last() =~= sols);
    assert(is_rotation(kept[r].0@, later.0@));
}

/// A solution that is no rotation of a kept solution is kept.
pub proof fn lemma_unrelated_is_kept(sols: Seq<Solution>, later: Solution)
    requires
        forall|r: int, i: nat, j: nat, k: nat|
            0 <= r < unique_solutions(sols).len() && i < 4 && j < 4 && k < 4
                ==> #[trigger] oriented_solution(unique_solutions(sols)[r].0@, i, j, k)
                != later.0@,
    ensures
        unique_solutions(sols.push(later)) == unique_solutions(sols).push(later),
{
    let kept = unique_solutions(sols);
    assert(sols.push(later).drop_last() =~= sols);
    if is_seen(kept, later.0@) {
        let r = choose|r: int| 0 <= r < kept.len() && is_rotation(#[trigger] kept[r].0@, later.0@);
        let (i, j, k) = choose|i: nat, j: nat, k: nat|
            i < 4 && j < 4 && k < 4 && later.0@ == #[trigger] oriented_solution(
                kept[r].0@,
                i,
                j,
                k,
            );
    }
}

/// Of two solutions that are not rotations of one another, both are kept.
pub proof fn lemma_two_unrelated_kept(a: Solution, b: Solution)
    requires
        forall|i: nat, j: nat, k: nat|
            i < 4 && j < 4 && k < 4 ==> #[trigger] oriented_solution(a.0@, i, j, k) != b.0@,
    ensures
        unique_solutions(seq![a, b]) == seq![a, b],
{
    let none = Seq::<Solution>::empty();
    assert(seq![a].drop_last() =~= none);
    assert(unique_solutions(none) =~= none);
    assert(!is_seen(none, a.0@));
    assert(unique_solutions(seq![a]) =~= seq![a]);
    assert(seq![a].push(b) =~= seq![a, b]);
    assert(unique_solutions(seq![a])[0] == a);
    lemma_unrelated_is_kept(seq![a], b);
}

/// What is kept of a list is kept of any longer list, in the same place.
pub proof fn lemma_kept_stays(sols: Seq<Solution>, n: int)
    requires
        0 <= n <= sols.len(),
    ensures
        unique_solutions(sols.take(n)).is_prefix_of(unique_solutions(sols)),
    decreases sols.len() - n,
{
    if n == sols.len() {
        assert(sols.take(n) =~= sols);
    } else {
        lemma_kept_stays(sols, n + 1);
        assert(sols.take(n + 1).drop_last() =~= sols.take(n));
    }
}

/// Every solution of a list is a rotation of one that is kept.
pub proof fn lemma_inputs_represented(sols: Seq<Solution>, n: int)
    requires
        0 <= n < sols.len(),
    ensures
        is_seen(unique_solutions(sols), sols[n].0@),
{
    let upto = sols.take(n + 1);
    let kept = unique_solutions(upto);
    let before = unique_solutions(upto.drop_last());
    let all = unique_solutions(sols);
    lemma_kept_stays(sols, n + 1);
    assert(upto.last() == sols[n]);
    if !is_seen(before, sols[n].0@) {
        lemma_seen_push(before, sols[n]);
        lemma_rotation_of_itself(sols[n].0@);
    }
    assert(is_seen(kept, sols[n].0@));
    let r = choose|r: int| 0 <= r < kept.len() && is_rotation(#[trigger] kept[r].0@, sols[n].0@);
    assert(all[r] == kept[r]);
    assert(is_rotation(all[r].0@, sols[n].0@));
}

/// A solution that is a rotation of an earlier one of the list is dropped.
pub proof fn lemma_rotation_of_input_dropped(sols: Seq<Solution>, i: int, j: int)
    requires
        0 <= i < j < sols.len(),
        is_rotation(sols[i].0@, sols[j].0@),
    ensures
        unique_solutions(sols.take(j + 1)) == unique_solutions(sols.take(j)),
{
    let before = sols.take(j);
    let kept = unique_solutions(before);
    assert(sols.take(j + 1).drop_last() =~= before);
    assert(sols.take(j + 1).last() == sols[j]);
    lemma_inputs_represented(before, i);
    assert(before[i] == sols[i]);
    let r = choose|r: int| 0 <= r < kept.len() && is_rotation(#[trigger] kept[r].0@, sols[i].0@);
    lemma_rotation_transitive(kept[r].0@, sols[i].0@, sols[j].0@);
    assert(is_rotation(kept[r].0@, sols[j].0@));
}

/// Two solutions that are rotations of one kept solution are rotations of
/// one another: solutions that are not are stood for by different kept solutions.
pub proof fn lemma_one_kept_for_related(kept: Seq<u64>, a: Seq<u64>, b: Seq<u64>)
    requires
        is_rotation(kept, a),
        is_rotation(kept, b),
    ensures
        is_rotation(a, b),
{
    lemma_rotation_symmetric(kept, a);
    lemma_rotation_transitive(a, kept, b);
}

/// No kept solution is a rotation of a solution kept before it.
pub proof fn lemma_kept_unrelated(sols: Seq<Solution>, a: int, b: int)
    requires
        0 <= a < b < unique_solutions(sols).len(),
    ensures
        !is_rotation(unique_solutions(sols)[a].0@, unique_solutions(sols)[b].0@),
    decreases sols.len(),
{
    let kept = unique_solutions(sols);
    if sols.len() > 0 {
        let before = unique_solutions(sols.drop_last());
        if b < before.len() {
            lemma_kept_unrelated(sols.drop_last(), a, b);
        } else if is_rotation(kept[a].0@, kept[b].0@) {
            assert(is_rotation(before[a].0@, sols.last().0@));
        }
    }
}

/// Quick and simple fingerprint of a solution.
pub fn hash_solution(solution: &Solution) -> (h: u64)
    ensures
        h == fingerprint(solution.0@),
{
    let mut h: u64 = 0;
    let mut p: usize = 0;
    while p < NUM_PIECES
        invariant
            p <= 13,
            h == fingerprint_below(solution.0@, p as nat),
        decreases 13 - p,
    {
        h ^= solution.0[p] << p;
        p += 1;
    }
    h
}

/// Turns every mask of `masks` once about `axis`.
pub fn rotate_all(masks: &mut [u64; NUM_PIECES], axis: Axis)
    ensures
        final(masks)@ == rotated_solution(old(masks)@, axis),
{
    let ghost before = masks@;
    let mut p: usize = 0;
    while p < NUM_PIECES
        invariant
            p <= 13,
            masks@.len() == 13,
            before.len() == 13,
            forall|q: int| 0 <= q < p ==> #[trigger] masks@[q] == rotated(before[q], axis),
            forall|q: int| p <= q < 13 ==> #[trigger] masks@[q] == before[q],
        decreases 13 - p,
    {
        masks[p] = rotate_piece_90(masks[p], axis);
        p += 1;
    }
    assert(masks@ =~= rotated_solution(before, axis));
}

/// Turning every mask once more gives the next orientation of the solution.
proof fn lemma_next_orientation(s: Seq<u64>, i: nat, j: nat, k: nat)
    ensures
        rotated_solution(oriented_solution(s, i, j, k), Axis::X) == oriented_solution(
            s,
            i + 1,
            j,
            k,
        ),
        rotated_solution(oriented_solution(s, 0, j, k), Axis::Y) == oriented_solution(
            s,
            0,
            j + 1,
            k,
        ),
        rotated_solution(oriented_solution(s, 0, 0, k), Axis::Z) == oriented_solution(
            s,
            0,
            0,
            k + 1,
        ),
{
    assert(rotated_solution(oriented_solution(s, i, j, k), Axis::X) =~= oriented_solution(
        s,
        i + 1,
        j,
        k,
    ));
    assert(rotated_solution(oriented_solution(s, 0, j, k), Axis::Y) =~= oriented_solution(
        s,
        0,
        j + 1,
        k,
    ));
    assert(rotated_solution(oriented_solution(s, 0, 0, k), Axis::Z) =~= oriented_solution(
        s,
        0,
        0,
        k + 1,
    ));
}

/// Orientations with a count of four turns are orientations with a count of none.
proof fn lemma_solution_wraps(s: Seq<u64>, i: nat, j: nat, k: nat)
    requires
        i <= 4,
        j <= 4,
        k <= 4,
    ensures
        oriented_solution(s, i, j, k) == oriented_solution(
            s,
            if i == 4 { 0 } else { i },
            if j == 4 { 0 } else { j },
            if k == 4 { 0 } else { k },
        ),
{
    let i0: nat = if i == 4 { 0 } else { i };
    let j0: nat = if j == 4 { 0 } else { j };
    let k0: nat = if k == 4 { 0 } else { k };
    assert forall|p: int| 0 <= p < s.len() implies oriented(s[p], i, j, k) == oriented(
        s[p],
        i0,
        j0,
        k0,
    ) by {
        lemma_orientation_wraps(s[p], i, j, k);
    }
    assert(oriented_solution(s, i, j, k) =~= oriented_solution(s, i0, j0, k0));
}

/// Whether `a` and `b` hold the same masks.
fn same_masks(a: &[u64; NUM_PIECES], b: &[u64; NUM_PIECES]) -> (r: bool)
    ensures
        r == (a@ == b@),
{
    let mut p: usize = 0;
    while p < NUM_PIECES
        invariant
            p <= 13,
            forall|q: int| 0 <= q < p ==> a@[q] == b@[q],
        decreases 13 - p,
    {
        if a[p] != b[p] {
            return false;
        }
        p += 1;
    }
    assert(a@ =~= b@);
    true
}

/// Whether the turning loops, standing at `k` turns about Z, `j` about Y and
/// `i` about X, are past the orientation `(i2, j2, k2)`.
spec fn passed(i2: nat, j2: nat, k2: nat, i: nat, j: nat, k: nat) -> bool {
    k2 < k || (k2 == k && (j2 < j || (j2 == j && i2 < i)))
}

/// `s` is none of the orientations of `rep` that the loops are past.
spec fn none_so_far(rep: Seq<u64>, s: Seq<u64>, i: nat, j: nat, k: nat) -> bool {
    forall|i2: nat, j2: nat, k2: nat|
        i2 < 4 && j2 < 4 && k2 < 4 && passed(i2, j2, k2, i, j, k) ==> s
            != #[trigger] oriented_solution(rep, i2, j2, k2)
}

/// Tells whether `solution` is `rep` in one of its orientations.
pub fn is_rotation_of(rep: &Solution, solution: &Solution) -> (r: bool)
    ensures
        r == is_rotation(rep.0@, solution.0@),
{
    let ghost base = rep.0@;
    let ghost s = solution.0@;
    let mut current: [u64; NUM_PIECES] = rep.0;
    proof {
        assert(current@ =~= oriented_solution(base, 0, 0, 0));
    }
    let mut k: usize = 0;
    while k < 4
        invariant
            k <= 4,
            base == rep.0@,
            s == solution.0@,
            current@ == oriented_solution(base, 0, 0, k as nat),
            none_so_far(base, s, 0, 0, k as nat),
        decreases 4 - k,
    {
        let mut j: usize = 0;
        while j < 4
            invariant
                k < 4,
                j <= 4,
                base == rep.0@,
                s == solution.0@,
                current@ == oriented_solution(base, 0, j as nat, k as nat),
                none_so_far(base, s, 0, j as nat, k as nat),
            decreases 4 - j,
        {
            let mut i: usize = 0;
            while i < 4
                invariant
                    k < 4,
                    j < 4,
                    i <= 4,
                    base == rep.0@,
                    s == solution.0@,
                    current@ == oriented_solution(base, i as nat, j as nat, k as nat),
                    none_so_far(base, s, i as nat, j as nat, k as nat),
                decreases 4 - i,
            {
                if same_masks(&current, &solution.0) {
                    assert(s == oriented_solution(base, i as nat, j as nat, k as nat));
                    return true;
                }
                rotate_all(&mut current, Axis::X);
                proof {
                    lemma_next_orientation(base, i as nat, j as nat, k as nat);
                }
                i += 1;
            }
            proof {
                lemma_solution_wraps(base, 4, j as nat, k as nat);
            }
            rotate_all(&mut current, Axis::Y);
            proof {
                lemma_next_orientation(base, 0, j as nat, k as nat);
            }
            j += 1;
        }
        proof {
            lemma_solution_wraps(base, 0, 4, k as nat);
        }
        rotate_all(&mut current, Axis::Z);
        proof {
            lemma_next_orientation(base, 0, 0, k as nat);
        }
        k += 1;
    }
    proof {
        assert forall|i: nat, j: nat, k2: nat| i < 4 && j < 4 && k2 < 4 implies s
            != #[trigger] oriented_solution(base, i, j, k2) by {
            assert(passed(i, j, k2, 0, 0, 4));
        }
    }
    false
}

/// Whether `known` lists the number `r` under the fingerprint `h`.
spec fn lists(known: Map<u64, Vec<usize>>, h: u64, r: int) -> bool {
    known.contains_key(h) && exists|n: int| 0 <= n < known[h]@.len() && #[trigger] known[h]@[n] == r
}

/// `known` lists each of `kept`, by its number, under its fingerprint in
/// each of its orientations.
spec fn fingerprints_known(known: Map<u64, Vec<usize>>, kept: Seq<Solution>) -> bool {
    forall|r: int, i: nat, j: nat, k: nat|
        0 <= r < kept.len() && i < 4 && j < 4 && k < 4 ==> lists(
            known,
            #[trigger] orbit_fingerprint(kept[r].0@, i, j, k),
            r,
        )
}

/// `known` lists each of `kept` under all its fingerprints, and the solution
/// `s`, by the number `n`, under its fingerprint in the orientations that
/// the turning loops have reached.
spec fn orbit_so_far(
    known: Map<u64, Vec<usize>>,
    kept: Seq<Solution>,
    s: Seq<u64>,
    n: int,
    i: nat,
    j: nat,
    k: nat,
) -> bool {
    &&& fingerprints_known(known, kept)
    &&& forall|i2: nat, j2: nat, k2: nat|
        i2 < 4 && j2 < 4 && k2 < 4 && reached(i2, j2, k2, i, j, k) ==> lists(
            known,
            #[trigger] orbit_fingerprint(s, i2, j2, k2),
            n,
        )
}

/// Lists the number `n` under the fingerprint `h`, beside what is listed.
fn note(known: &mut HashMap<u64, Vec<usize>>, h: u64, n: usize)
    ensures
        lists(final(known)@, h, n as int),
        forall|h2: u64, r: int| lists(old(known)@, h2, r) ==> lists(final(known)@, h2, r),
{
    broadcast use vstd::std_specs::hash::group_hash_axioms;

    let ghost before = known@;
    let mut list: Vec<usize> = match known.remove(&h) {
        Some(list) => list,
        None => Vec::new(),
    };
    let ghost listed = list@;
    let ghost between = known@;
    assert(between == before.remove(h));
    assert(before.contains_key(h) ==> before[h]@ == listed);
    if list.len() == 0 || list[list.len() - 1] != n {
        list.push(n);
    }
    let ghost after = list@;
    assert(after[after.len() - 1] == n);
    assert(forall|m: int| 0 <= m < listed.len() ==> after[m] == listed[m]);
    known.insert(h, list);
    proof {
        assert(known@ == between.insert(h, list));
        assert(known@.contains_key(h) && known@[h]@ == after);
        assert(known@[h]@[after.len() - 1] == n);
        assert forall|h2: u64, r: int| lists(before, h2, r) implies lists(known@, h2, r) by {
            let m = choose|m: int| 0 <= m < before[h2]@.len() && #[trigger] before[h2]@[m] == r;
            if h2 == h {
                assert(known@[h]@[m] == r);
            } else {
                assert(known@.contains_key(h2) && known@[h2] == before[h2]);
                assert(known@[h2]@[m] == r);
            }
        }
    }
}

/// Tells whether `solution` is one of `kept` in one of its orientations. It
/// looks at the kept solutions that `known` lists under the fingerprint of
/// `solution`, and compares their orientations with it mask by mask.
fn is_kept_rotation(
    known: &HashMap<u64, Vec<usize>>,
    kept: &Vec<Solution>,
    solution: &Solution,
) -> (r: bool)
    requires
        fingerprints_known(known@, kept@),
    ensures
        r == is_seen(kept@, solution.0@),
{
    broadcast use vstd::std_specs::hash::group_hash_axioms;

    let h: u64 = hash_solution(solution);
    let ghost s = solution.0@;
    let mut found: bool = false;
    match known.get(&h) {
        Some(list) => {
            let mut n: usize = 0;
            while n < list.len() && !found
                invariant
                    n <= list.len(),
                    found ==> is_seen(kept@, solution.0@),
                    !found ==> forall|m: int|
                        0 <= m < n && (#[trigger] list@[m]) < kept.len() ==> !is_rotation(
                            kept@[list@[m] as int].0@,
                            solution.0@,
                        ),
                decreases list.len() - n + (if found { 0int } else { 1int }),
            {
                let at: usize = list[n];
                if at < kept.len() && is_rotation_of(&kept[at], solution) {
                    found = true;
                } else {
                    n += 1;
                }
            }
            proof {
                if !found && is_seen(kept@, s) {
                    let r = choose|r: int|
                        0 <= r < kept@.len() && is_rotation(#[trigger] kept@[r].0@, s);
                    let (i, j, k) = choose|i: nat, j: nat, k: nat|
                        i < 4 && j < 4 && k < 4 && s == #[trigger] oriented_solution(
                            kept@[r].0@,
                            i,
                            j,
                            k,
                        );
                    assert(lists(known@, orbit_fingerprint(kept@[r].0@, i, j, k), r));
                    let m = choose|m: int|
                        0 <= m < known@[h]@.len() && #[trigger] known@[h]@[m] == r;
                    assert(list@[m] == r);
                }
            }
        },
        None => {
            proof {
                if is_seen(kept@, s) {
                    let r = choose|r: int|
                        0 <= r < kept@.len() && is_rotation(#[trigger] kept@[r].0@, s);
                    let (i, j, k) = choose|i: nat, j: nat, k: nat|
                        i < 4 && j < 4 && k < 4 && s == #[trigger] oriented_solution(
                            kept@[r].0@,
                            i,
                            j,
                            k,
                        );
                    assert(lists(known@, orbit_fingerprint(kept@[r].0@, i, j, k), r));
                }
            }
        },
    }
    found
}

/// Returns the solutions of `solutions` that are unique up to rotation: a
/// solution is dropped when it is a rotation of a solution kept before it.
pub fn filter_unique_solutions(solutions: &Vec<Solution>) -> (unique: Vec<Solution>)
    ensures
        unique@ == unique_solutions(solutions@),
{
    let mut unique: Vec<Solution> = Vec::new();
    // For each fingerprint, the kept solutions that have it in some orientation.
    let mut known: HashMap<u64, Vec<usize>> = HashMap::new();
    let mut n: usize = 0;
    assert(solutions@.take(0) =~= Seq::<Solution>::empty());
    while n < solutions.len()
        invariant
            n <= solutions.len(),
            unique@ == unique_solutions(solutions@.take(n as int)),
            fingerprints_known(known@, unique@),
        decreases solutions.len() - n,
    {
        let solution: Solution = solutions[n];
        let ghost kept = unique@;
        let ghost s = solution.0@;
        proof {
            assert(solutions@.take(n + 1).drop_last() =~= solutions@.take(n as int));
            assert(solutions@.take(n + 1).last() == solution);
        }
        if !is_kept_rotation(&known, &unique, &solution) {
            // Not seen before: keep it, and remember it in all its orientations.
            let number: usize = unique.len();
            unique.push(solution);
            let mut current: [u64; NUM_PIECES] = solution.0;
            proof {
                assert(current@ =~= oriented_solution(s, 0, 0, 0));
            }
            let mut k: usize = 0;
            while k < 4
                invariant
                    k <= 4,
                    s.len() == 13,
                    number == kept.len(),
                    current@ == oriented_solution(s, 0, 0, k as nat),
                    orbit_so_far(known@, kept, s, number as int, 0, 0, k as nat),
                decreases 4 - k,
            {
                let mut j: usize = 0;
                while j < 4
                    invariant
                        k < 4,
                        j <= 4,
                        s.len() == 13,
                        number == kept.len(),
                        current@ == oriented_solution(s, 0, j as nat, k as nat),
                        orbit_so_far(known@, kept, s, number as int, 0, j as nat, k as nat),
                    decreases 4 - j,
                {
                    let mut i: usize = 0;
                    while i < 4
                        invariant
                            k < 4,
                            j < 4,
                            i <= 4,
                            s.len() == 13,
                            number == kept.len(),
                            current@ == oriented_solution(s, i as nat, j as nat, k as nat),
                            orbit_so_far(
                                known@,
                                kept,
                                s,
                                number as int,
                                i as nat,
                                j as nat,
                                k as nat,
                            ),
                        decreases 4 - i,
                    {
                        rotate_all(&mut current, Axis::X);
                        proof {
                            lemma_next_orientation(s, i as nat, j as nat, k as nat);
                            lemma_solution_wraps(s, (i + 1) as nat, j as nat, k as nat);
                        }
                        note(&mut known, hash_solution(&Solution(current)), number);
                        i += 1;
                    }
                    proof {
                        lemma_solution_wraps(s, 4, j as nat, k as nat);
                    }
                    rotate_all(&mut current, Axis::Y);
                    proof {
                        lemma_next_orientation(s, 0, j as nat, k as nat);
                        lemma_solution_wraps(s, 0, (j + 1) as nat, k as nat);
                    }
                    note(&mut known, hash_solution(&Solution(current)), number);
                    j += 1;
                }
                proof {
                    lemma_solution_wraps(s, 0, 4, k as nat);
                }
                rotate_all(&mut current, Axis::Z);
                proof {
                    lemma_next_orientation(s, 0, 0, k as nat);
                    lemma_solution_wraps(s, 0, 0, (k + 1) as nat);
                }
                note(&mut known, hash_solution(&Solution(current)), number);
                k += 1;
            }
            proof {
                assert forall|r: int, i: nat, j: nat, k2: nat|
                    0 <= r < unique@.len() && i < 4 && j < 4 && k2 < 4 implies lists(
                    known@,
                    #[trigger] orbit_fingerprint(unique@[r].0@, i, j, k2),
                    r,
                ) by {
                    if r < kept.len() {
                        assert(unique@[r] == kept[r]);
                    } else {
                        assert(reached(i, j, k2, 0, 0, 4));
                    }
                }
            }
        }
        n += 1;
    }
    assert(solutions@.take(solutions.len() as int) =~= solutions@);
    unique
}

} // verus!
