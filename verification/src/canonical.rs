//! What holds of the normalization forms of every sequence.

use vstd::prelude::*;
use crate::normalise::{
    blocked, canonically_ordered, combined, composed, decomposed, decomposed_all,
    decomposed_parts, eligible, first_eligible, lemma_decomposed_parts, lemma_first_eligible,
    lemma_next_starter_bounds, misordered_at, next_starter, nfc, nfd, placed, reordered,
};
use crate::ucd::Ucd;

verus! {

/// Where a codepoint comes to stand when it is put in its place: behind
/// everything that it does not move past, and before the marks of higher
/// class that stood at the end.
pub proof fn lemma_placed_is_insert(ucd: &Ucd, ordered: Seq<u32>, code_point: u32) -> (at: int)
    ensures
        0 <= at <= ordered.len(),
        placed(ucd, ordered, code_point) == ordered.insert(at, code_point),
        at < ordered.len() ==> ucd.ccc(code_point) != 0,
        forall|j: int| at <= j < ordered.len() ==> ucd.ccc(#[trigger] ordered[j]) > ucd.ccc(code_point),
        at > 0 ==> ucd.ccc(code_point) == 0 || ucd.ccc(ordered[at - 1]) <= ucd.ccc(code_point),
    decreases ordered.len(),
{
    if ordered.len() > 0 && ucd.ccc(code_point) != 0 && ucd.ccc(ordered.last()) > ucd.ccc(
        code_point,
    ) {
        let front = ordered.drop_last();
        let at = lemma_placed_is_insert(ucd, front, code_point);
        assert forall|j: int| at <= j < ordered.len() implies ucd.ccc(#[trigger] ordered[j])
            > ucd.ccc(code_point) by {
            if j < front.len() {
                assert(front[j] == ordered[j]);
            }
        }
        if at > 0 {
            assert(front[at - 1] == ordered[at - 1]);
        }
        assert(front.insert(at, code_point).push(ordered.last()) =~= ordered.insert(
            at,
            code_point,
        ));
        at
    } else {
        assert(ordered.insert(ordered.len() as int, code_point) =~= ordered.push(code_point));
        ordered.len() as int
    }
}

/// Reordering moves codepoints and neither adds nor drops one; and it
/// moves no starter: a starter stands where it stood.
pub proof fn lemma_reordered_rearranges(ucd: &Ucd, code_points: Seq<u32>)
    ensures
        reordered(ucd, code_points).to_multiset() == code_points.to_multiset(),
        reordered(ucd, code_points).len() == code_points.len(),
        forall|i: int|
            0 <= i < code_points.len() && ucd.ccc(#[trigger] code_points[i]) == 0 ==> reordered(
                ucd,
                code_points,
            )[i] == code_points[i],
        forall|i: int|
            0 <= i < code_points.len() && ucd.ccc(#[trigger] reordered(ucd, code_points)[i]) == 0
                ==> reordered(ucd, code_points)[i] == code_points[i],
    decreases code_points.len(),
{
    if code_points.len() > 0 {
        let front = code_points.drop_last();
        let last = code_points.last();
        let inner = reordered(ucd, front);
        let out = reordered(ucd, code_points);
        lemma_reordered_rearranges(ucd, front);
        let at = lemma_placed_is_insert(ucd, inner, last);
        vstd::seq_lib::to_multiset_insert(inner, at, last);
        vstd::seq_lib::to_multiset_build(front, last);
        assert(front.push(last) =~= code_points);
        assert forall|i: int|
            0 <= i < code_points.len() && ucd.ccc(#[trigger] code_points[i]) == 0 implies out[i]
            == code_points[i] by {
            if i < front.len() {
                assert(front[i] == code_points[i]);
                assert(inner[i] == front[i]);
                assert(i < at) by {
                    if i >= at {
                        assert(ucd.ccc(inner[i]) > ucd.ccc(last));
                    }
                }
            }
        }
        assert forall|i: int|
            0 <= i < code_points.len() && ucd.ccc(#[trigger] out[i]) == 0 implies out[i]
            == code_points[i] by {
            if i < at {
                assert(out[i] == inner[i]);
                assert(inner[i] == front[i]);
            } else if i > at {
                assert(out[i] == inner[i - 1]);
                assert(ucd.ccc(inner[i - 1]) > ucd.ccc(last));
            }
        }
    } else {
        assert(reordered(ucd, code_points) =~= code_points);
    }
}

/// The codepoints of one class, in the order in which they come.
pub open spec fn of_class(ucd: &Ucd, code_points: Seq<u32>, class: u8) -> Seq<u32> {
    code_points.filter(|code_point: u32| ucd.ccc(code_point) == class)
}

/// Where no codepoint is of a class, the codepoints of that class are none.
proof fn lemma_none_of_class(ucd: &Ucd, code_points: Seq<u32>, class: u8)
    requires
        forall|i: int| 0 <= i < code_points.len() ==> ucd.ccc(#[trigger] code_points[i]) != class,
    ensures
        of_class(ucd, code_points, class) == Seq::<u32>::empty(),
    decreases code_points.len(),
{
    reveal(Seq::filter);
    if code_points.len() > 0 {
        let front = code_points.drop_last();
        assert forall|i: int| 0 <= i < front.len() implies ucd.ccc(#[trigger] front[i])
            != class by {
            assert(front[i] == code_points[i]);
        }
        lemma_none_of_class(ucd, front, class);
        assert(ucd.ccc(code_points[code_points.len() - 1]) != class);
    }
}

/// Putting a codepoint in its place does not change the order in which the
/// codepoints of any one class come.
pub proof fn lemma_placed_keeps_classes(ucd: &Ucd, ordered: Seq<u32>, code_point: u32, class: u8)
    ensures
        of_class(ucd, placed(ucd, ordered, code_point), class) == of_class(
            ucd,
            ordered.push(code_point),
            class,
        ),
{
    reveal(Seq::filter);
    let of = |c: u32| ucd.ccc(c) == class;
    let at = lemma_placed_is_insert(ucd, ordered, code_point);
    let head = ordered.subrange(0, at);
    let tail = ordered.subrange(at, ordered.len() as int);
    let one = seq![code_point];
    assert(ordered.insert(at, code_point) =~= head + one + tail);
    assert(ordered.push(code_point) =~= head + tail + one);
    Seq::filter_distributes_over_add(head, one, of);
    Seq::filter_distributes_over_add(head + one, tail, of);
    Seq::filter_distributes_over_add(head, tail, of);
    Seq::filter_distributes_over_add(head + tail, one, of);
    assert(one.drop_last() =~= Seq::<u32>::empty());
    if ucd.ccc(code_point) == class {
        assert forall|i: int| 0 <= i < tail.len() implies ucd.ccc(#[trigger] tail[i]) != class by {
            assert(tail[i] == ordered[at + i]);
        }
        lemma_none_of_class(ucd, tail, class);
        assert(head.filter(of) + one.filter(of) + tail.filter(of) =~= head.filter(of)
            + tail.filter(of) + one.filter(of));
    } else {
        assert(one.last() == code_point);
        assert(one.drop_last().filter(of) =~= Seq::<u32>::empty());
        assert(one.filter(of) =~= Seq::<u32>::empty());
        assert(head.filter(of) + one.filter(of) + tail.filter(of) =~= head.filter(of)
            + tail.filter(of) + one.filter(of));
    }
}

/// Reordering is stable: the codepoints of any one class come in the order
/// in which they came.
pub proof fn lemma_reordered_stable(ucd: &Ucd, code_points: Seq<u32>, class: u8)
    ensures
        of_class(ucd, reordered(ucd, code_points), class) == of_class(ucd, code_points, class),
    decreases code_points.len(),
{
    reveal(Seq::filter);
    if code_points.len() > 0 {
        let front = code_points.drop_last();
        let last = code_points.last();
        lemma_reordered_stable(ucd, front, class);
        lemma_placed_keeps_classes(ucd, reordered(ucd, front), last, class);
        let pushed = reordered(ucd, front).push(last);
        assert(pushed.drop_last() =~= reordered(ucd, front));
        assert(pushed.last() == last);
    }
}

/// Reordering moves nothing past a starter: what stands before a starter
/// afterwards is what stood before it, reordered.
pub proof fn lemma_reordered_keeps_runs(ucd: &Ucd, code_points: Seq<u32>, i: int)
    requires
        0 <= i < code_points.len(),
        ucd.ccc(code_points[i]) == 0,
    ensures
        reordered(ucd, code_points).take(i) == reordered(ucd, code_points.take(i)),
        reordered(ucd, code_points).take(i).to_multiset() == code_points.take(i).to_multiset(),
    decreases code_points.len(),
{
    let front = code_points.drop_last();
    let last = code_points.last();
    let inner = reordered(ucd, front);
    lemma_reordered_rearranges(ucd, front);
    lemma_reordered_rearranges(ucd, code_points.take(i));
    let at = lemma_placed_is_insert(ucd, inner, last);
    if i == code_points.len() - 1 {
        assert(at == inner.len());
        assert(code_points.take(i) =~= front);
        assert(inner.insert(at, last).take(i) =~= inner);
    } else {
        assert(front[i] == code_points[i]);
        lemma_reordered_keeps_runs(ucd, front, i);
        assert(inner[i] == front[i]);
        assert(i < at) by {
            if i >= at {
                assert(ucd.ccc(inner[i]) > ucd.ccc(last));
            }
        }
        assert(inner.insert(at, last).take(i) =~= inner.take(i));
        assert(front.take(i) =~= code_points.take(i));
    }
}

/// No codepoint of the sequence has a decomposition mapping.
pub open spec fn fully_decomposed(ucd: &Ucd, code_points: Seq<u32>) -> bool {
    forall|i: int| 0 <= i < code_points.len() ==> ucd.mapping(#[trigger] code_points[i]) is None
}

/// Decomposition goes codepoint by codepoint.
pub proof fn lemma_decomposed_all_concat(ucd: &Ucd, a: Seq<u32>, b: Seq<u32>)
    ensures
        decomposed_all(ucd, a + b) == decomposed_all(ucd, a) + decomposed_all(ucd, b),
    decreases b.len(),
{
    if b.len() == 0 {
        assert(a + b =~= a);
        assert(decomposed_all(ucd, a) + decomposed_all(ucd, b) =~= decomposed_all(ucd, a));
    } else {
        lemma_decomposed_all_concat(ucd, a, b.drop_last());
        assert((a + b).drop_last() =~= a + b.drop_last());
        assert((a + b).last() == b.last());
        assert(decomposed_all(ucd, a + b) =~= decomposed_all(ucd, a) + decomposed_all(ucd, b));
    }
}

/// A sequence of one codepoint decomposes as the codepoint does.
pub proof fn lemma_decomposed_all_one(ucd: &Ucd, code_point: u32)
    ensures
        decomposed_all(ucd, seq![code_point]) == decomposed(ucd, code_point),
{
    let one = seq![code_point];
    assert(one.drop_last() =~= Seq::<u32>::empty());
    assert(one.last() == code_point);
    assert(decomposed_all(ucd, one.drop_last()) =~= Seq::<u32>::empty());
    assert(decomposed_all(ucd, one) =~= decomposed(ucd, code_point));
}

/// The full decomposition of a codepoint cannot be decomposed further.
pub proof fn lemma_decomposed_is_full(ucd: &Ucd, code_point: u32)
    requires
        ucd.wf(),
    ensures
        fully_decomposed(ucd, decomposed(ucd, code_point)),
    decreases ucd.depth(code_point) + 1, 0nat,
{
    match ucd.mapping(code_point) {
        None => {},
        Some(parts) => {
            assert forall|i: int| 0 <= i < parts.len() implies ucd.depth(#[trigger] parts[i])
                < ucd.depth(code_point) by {
                ucd.lemma_mapping_depth(code_point, i);
            }
            lemma_decomposed_parts_are_full(ucd, parts, ucd.depth(code_point));
        },
    }
}

/// The full decomposition of the parts of a mapping cannot be decomposed
/// further.
pub proof fn lemma_decomposed_parts_are_full(ucd: &Ucd, parts: Seq<u32>, bound: nat)
    requires
        ucd.wf(),
        forall|i: int| 0 <= i < parts.len() ==> ucd.depth(#[trigger] parts[i]) < bound,
    ensures
        fully_decomposed(ucd, decomposed_parts(ucd, parts, bound)),
    decreases bound, parts.len(),
{
    if parts.len() > 0 {
        let front = parts.drop_last();
        assert forall|i: int| 0 <= i < front.len() implies ucd.depth(#[trigger] front[i])
            < bound by {
            assert(front[i] == parts[i]);
        }
        lemma_decomposed_parts_are_full(ucd, front, bound);
        assert(ucd.depth(parts[parts.len() - 1]) < bound);
        lemma_decomposed_is_full(ucd, parts.last());
    }
}

/// The full decomposition of a sequence cannot be decomposed further.
pub proof fn lemma_decomposed_all_is_full(ucd: &Ucd, code_points: Seq<u32>)
    requires
        ucd.wf(),
    ensures
        fully_decomposed(ucd, decomposed_all(ucd, code_points)),
    decreases code_points.len(),
{
    if code_points.len() > 0 {
        lemma_decomposed_all_is_full(ucd, code_points.drop_last());
        lemma_decomposed_is_full(ucd, code_points.last());
    }
}

/// Decomposing what cannot be decomposed changes nothing.
pub proof fn lemma_decomposed_all_of_full(ucd: &Ucd, code_points: Seq<u32>)
    requires
        fully_decomposed(ucd, code_points),
    ensures
        decomposed_all(ucd, code_points) == code_points,
    decreases code_points.len(),
{
    if code_points.len() > 0 {
        let front = code_points.drop_last();
        assert forall|i: int| 0 <= i < front.len() implies ucd.mapping(#[trigger] front[i])
            is None by {
            assert(front[i] == code_points[i]);
        }
        lemma_decomposed_all_of_full(ucd, front);
        assert(ucd.mapping(code_points[code_points.len() - 1]) is None);
        assert(front + seq![code_points.last()] =~= code_points);
    }
}

/// Putting a codepoint in its place keeps a sequence in canonical order
/// and adds nothing but that codepoint. The codepoint that comes last is
/// the new one, or the old last one if that is of higher class.
pub proof fn lemma_placed(ucd: &Ucd, ordered: Seq<u32>, code_point: u32)
    requires
        canonically_ordered(ucd, ordered),
    ensures
        canonically_ordered(ucd, placed(ucd, ordered, code_point)),
        placed(ucd, ordered, code_point).len() == ordered.len() + 1,
        placed(ucd, ordered, code_point).last() == code_point || (ordered.len() > 0 && placed(
            ucd,
            ordered,
            code_point,
        ).last() == ordered.last() && ucd.ccc(ordered.last()) > ucd.ccc(code_point)),
        fully_decomposed(ucd, ordered) && ucd.mapping(code_point) is None ==> fully_decomposed(
            ucd,
            placed(ucd, ordered, code_point),
        ),
    decreases ordered.len(),
{
    let out = placed(ucd, ordered, code_point);
    if ordered.len() > 0 && ucd.ccc(code_point) != 0 && ucd.ccc(ordered.last()) > ucd.ccc(
        code_point,
    ) {
        let front = ordered.drop_last();
        assert forall|i: int| 0 < i < front.len() implies !#[trigger] misordered_at(
            ucd,
            front,
            i,
        ) by {
            assert(!misordered_at(ucd, ordered, i));
        }
        lemma_placed(ucd, front, code_point);
        let inner = placed(ucd, front, code_point);
        assert forall|i: int| 0 < i < out.len() implies !#[trigger] misordered_at(ucd, out, i) by {
            if i < inner.len() {
                assert(!misordered_at(ucd, inner, i));
            } else {
                if inner.last() != code_point {
                    assert(!misordered_at(ucd, ordered, ordered.len() - 1));
                }
            }
        }
        if fully_decomposed(ucd, ordered) && ucd.mapping(code_point) is None {
            assert forall|i: int| 0 <= i < front.len() implies ucd.mapping(#[trigger] front[i])
                is None by {
                assert(front[i] == ordered[i]);
            }
            assert(ucd.mapping(ordered[ordered.len() - 1]) is None);
            assert forall|i: int| 0 <= i < out.len() implies ucd.mapping(#[trigger] out[i])
                is None by {
                if i < inner.len() {
                    assert(out[i] == inner[i]);
                }
            }
        }
    } else {
        assert forall|i: int| 0 < i < out.len() implies !#[trigger] misordered_at(ucd, out, i) by {
            if i < ordered.len() {
                assert(!misordered_at(ucd, ordered, i));
            }
        }
        if fully_decomposed(ucd, ordered) && ucd.mapping(code_point) is None {
            assert forall|i: int| 0 <= i < out.len() implies ucd.mapping(#[trigger] out[i])
                is None by {
                if i < ordered.len() {
                    assert(out[i] == ordered[i]);
                }
            }
        }
    }
}

/// Reordering puts every sequence in canonical order, and leaves it fully
/// decomposed if it was.
pub proof fn lemma_reordered(ucd: &Ucd, code_points: Seq<u32>)
    ensures
        canonically_ordered(ucd, reordered(ucd, code_points)),
        reordered(ucd, code_points).len() == code_points.len(),
        fully_decomposed(ucd, code_points) ==> fully_decomposed(ucd, reordered(ucd, code_points)),
    decreases code_points.len(),
{
    if code_points.len() > 0 {
        let front = code_points.drop_last();
        lemma_reordered(ucd, front);
        lemma_placed(ucd, reordered(ucd, front), code_points.last());
        if fully_decomposed(ucd, code_points) {
            assert forall|i: int| 0 <= i < front.len() implies ucd.mapping(#[trigger] front[i])
                is None by {
                assert(front[i] == code_points[i]);
            }
            assert(ucd.mapping(code_points[code_points.len() - 1]) is None);
        }
    }
}

/// Reordering leaves a sequence in canonical order as it is.
pub proof fn lemma_reordered_of_ordered(ucd: &Ucd, code_points: Seq<u32>)
    requires
        canonically_ordered(ucd, code_points),
    ensures
        reordered(ucd, code_points) == code_points,
    decreases code_points.len(),
{
    if code_points.len() > 0 {
        let front = code_points.drop_last();
        assert forall|i: int| 0 < i < front.len() implies !#[trigger] misordered_at(
            ucd,
            front,
            i,
        ) by {
            assert(!misordered_at(ucd, code_points, i));
        }
        lemma_reordered_of_ordered(ucd, front);
        if front.len() > 0 {
            assert(!misordered_at(ucd, code_points, code_points.len() - 1));
            assert(front.last() == code_points[code_points.len() - 2]);
        }
        assert(front.push(code_points.last()) =~= code_points);
    }
}

/// In the decomposed form of every sequence, no mark stands directly
/// behind a mark of higher class: within each run of a starter and the
/// marks that follow it, classes do not fall.
pub proof fn lemma_nfd_ordered(ucd: &Ucd, code_points: Seq<u32>)
    ensures
        canonically_ordered(ucd, nfd(ucd, code_points)),
        forall|i: int|
            0 < i < nfd(ucd, code_points).len() && ucd.ccc(#[trigger] nfd(ucd, code_points)[i])
                != 0 ==> ucd.ccc(nfd(ucd, code_points)[i - 1]) <= ucd.ccc(
                nfd(ucd, code_points)[i],
            ),
{
    lemma_reordered(ucd, decomposed_all(ucd, code_points));
    let out = nfd(ucd, code_points);
    assert forall|i: int| 0 < i < out.len() && ucd.ccc(#[trigger] out[i]) != 0 implies ucd.ccc(
        out[i - 1],
    ) <= ucd.ccc(out[i]) by {
        assert(!misordered_at(ucd, out, i));
    }
}

/// Decomposing a decomposed form changes nothing.
pub proof fn lemma_nfd_idempotent(ucd: &Ucd, code_points: Seq<u32>)
    requires
        ucd.wf(),
    ensures
        nfd(ucd, nfd(ucd, code_points)) == nfd(ucd, code_points),
{
    let flat = decomposed_all(ucd, code_points);
    let normal = nfd(ucd, code_points);
    lemma_decomposed_all_is_full(ucd, code_points);
    lemma_reordered(ucd, flat);
    lemma_decomposed_all_of_full(ucd, normal);
    lemma_reordered_of_ordered(ucd, normal);
}

/// The codepoints of `more` put in their places one after another.
pub open spec fn placed_all(ucd: &Ucd, ordered: Seq<u32>, more: Seq<u32>) -> Seq<u32>
    decreases more.len(),
{
    if more.len() == 0 {
        ordered
    } else {
        placed(ucd, placed_all(ucd, ordered, more.drop_last()), more.last())
    }
}

/// Reordering a sequence is reordering its front and putting the rest in
/// place.
pub proof fn lemma_reordered_concat(ucd: &Ucd, front: Seq<u32>, rest: Seq<u32>)
    ensures
        reordered(ucd, front + rest) == placed_all(ucd, reordered(ucd, front), rest),
    decreases rest.len(),
{
    if rest.len() == 0 {
        assert(front + rest =~= front);
    } else {
        lemma_reordered_concat(ucd, front, rest.drop_last());
        assert((front + rest).drop_last() =~= front + rest.drop_last());
        assert((front + rest).last() == rest.last());
    }
}

/// Putting codepoints in place one list after another is putting both
/// lists in place.
pub proof fn lemma_placed_all_concat(ucd: &Ucd, ordered: Seq<u32>, a: Seq<u32>, b: Seq<u32>)
    ensures
        placed_all(ucd, ordered, a + b) == placed_all(ucd, placed_all(ucd, ordered, a), b),
    decreases b.len(),
{
    if b.len() == 0 {
        assert(a + b =~= a);
    } else {
        lemma_placed_all_concat(ucd, ordered, a, b.drop_last());
        assert((a + b).drop_last() =~= a + b.drop_last());
        assert((a + b).last() == b.last());
    }
}

/// Putting a list of one codepoint in place is putting the codepoint in
/// place.
pub proof fn lemma_placed_all_one(ucd: &Ucd, ordered: Seq<u32>, code_point: u32)
    ensures
        placed_all(ucd, ordered, seq![code_point]) == placed(ucd, ordered, code_point),
{
    let one = seq![code_point];
    assert(one.drop_last() =~= Seq::<u32>::empty());
    assert(placed_all(ucd, ordered, one.drop_last()) == ordered);
}

/// Two marks of different classes can be put in place in either order.
pub proof fn lemma_placed_commutes(ucd: &Ucd, ordered: Seq<u32>, low: u32, high: u32)
    requires
        0 < ucd.ccc(low) < ucd.ccc(high),
    ensures
        placed(ucd, placed(ucd, ordered, high), low) == placed(
            ucd,
            placed(ucd, ordered, low),
            high,
        ),
    decreases ordered.len(),
{
    if ordered.len() == 0 {
        let only_high = ordered.push(high);
        assert(only_high.drop_last() =~= ordered);
        assert(only_high.last() == high);
        let only_low = ordered.push(low);
        assert(only_low.last() == low);
        assert(placed(ucd, ordered, low) == ordered.push(low));
        assert(placed(ucd, ordered, high) == ordered.push(high));
        assert(placed(ucd, only_high, low) == ordered.push(low).push(high));
        assert(placed(ucd, only_low, high) == ordered.push(low).push(high));
    } else {
        let last = ordered.last();
        let front = ordered.drop_last();
        if ucd.ccc(last) > ucd.ccc(high) {
            lemma_placed_commutes(ucd, front, low, high);
            let with_high = placed(ucd, front, high).push(last);
            assert(with_high.drop_last() =~= placed(ucd, front, high));
            assert(with_high.last() == last);
            let with_low = placed(ucd, front, low).push(last);
            assert(with_low.drop_last() =~= placed(ucd, front, low));
            assert(with_low.last() == last);
        } else if ucd.ccc(last) > ucd.ccc(low) {
            let with_high = ordered.push(high);
            assert(with_high.drop_last() =~= ordered);
            assert(with_high.last() == high);
            let with_low = placed(ucd, front, low).push(last);
            assert(with_low.last() == last);
        } else {
            let with_high = ordered.push(high);
            assert(with_high.drop_last() =~= ordered);
            assert(with_high.last() == high);
            let with_low = ordered.push(low);
            assert(with_low.last() == low);
        }
    }
}

/// A mark that stands before marks of lower classes comes to the same
/// place as if it stood behind them.
pub proof fn lemma_mark_moves_back(ucd: &Ucd, ordered: Seq<u32>, mark: u32, lower: Seq<u32>)
    requires
        forall|k: int| 0 <= k < lower.len() ==> 0 < ucd.ccc(#[trigger] lower[k]) < ucd.ccc(mark),
    ensures
        placed_all(ucd, placed(ucd, ordered, mark), lower) == placed(
            ucd,
            placed_all(ucd, ordered, lower),
            mark,
        ),
    decreases lower.len(),
{
    if lower.len() > 0 {
        let front = lower.drop_last();
        assert forall|k: int| 0 <= k < front.len() implies 0 < ucd.ccc(#[trigger] front[k])
            < ucd.ccc(mark) by {
            assert(front[k] == lower[k]);
        }
        lemma_mark_moves_back(ucd, ordered, mark, front);
        assert(0 < ucd.ccc(lower[lower.len() - 1]) < ucd.ccc(mark));
        lemma_placed_commutes(ucd, placed_all(ucd, ordered, front), lower.last(), mark);
    }
}

/// Reordering does not tell whether a mark stands before or behind marks
/// of lower classes.
pub proof fn lemma_reordered_swap(
    ucd: &Ucd,
    front: Seq<u32>,
    mark: u32,
    lower: Seq<u32>,
    rest: Seq<u32>,
)
    requires
        forall|k: int| 0 <= k < lower.len() ==> 0 < ucd.ccc(#[trigger] lower[k]) < ucd.ccc(mark),
    ensures
        reordered(ucd, front + seq![mark] + lower + rest) == reordered(
            ucd,
            front + lower + seq![mark] + rest,
        ),
{
    let start = reordered(ucd, front);
    lemma_reordered_concat(ucd, front, seq![mark] + lower + rest);
    lemma_reordered_concat(ucd, front, lower + seq![mark] + rest);
    assert(front + seq![mark] + lower + rest =~= front + (seq![mark] + lower + rest));
    assert(front + lower + seq![mark] + rest =~= front + (lower + seq![mark] + rest));
    lemma_placed_all_concat(ucd, start, seq![mark] + lower, rest);
    lemma_placed_all_concat(ucd, start, lower + seq![mark], rest);
    lemma_placed_all_concat(ucd, start, seq![mark], lower);
    lemma_placed_all_concat(ucd, start, lower, seq![mark]);
    lemma_placed_all_one(ucd, start, mark);
    lemma_placed_all_one(ucd, placed_all(ucd, start, lower), mark);
    lemma_mark_moves_back(ucd, start, mark, lower);
}

/// Combining an eligible codepoint into the one at `pos` does not change
/// the decomposed form, where everything behind `pos` is fully decomposed.
pub proof fn lemma_combined_keeps_nfd(ucd: &Ucd, buffer: Seq<u32>, pos: int, i: int)
    requires
        ucd.wf(),
        0 <= pos < i < buffer.len(),
        eligible(ucd, buffer, pos, i),
        forall|j: int| pos < j < i ==> ucd.ccc(#[trigger] buffer[j]) != 0,
        forall|j: int| pos < j < buffer.len() ==> ucd.mapping(#[trigger] buffer[j]) is None,
    ensures
        nfd(ucd, combined(ucd, buffer, pos, i)) == nfd(ucd, buffer),
{
    let len = buffer.len() as int;
    let first = buffer[pos];
    let second = buffer[i];
    let whole = ucd.composite(first, second)->Some_0;
    let before = buffer.subrange(0, pos);
    let between = buffer.subrange(pos + 1, i);
    let behind = buffer.subrange(i + 1, len);
    let after = combined(ucd, buffer, pos, i);
    assert(buffer =~= before + seq![first] + between + seq![second] + behind);
    assert(after =~= before + seq![whole] + between + behind);
    // the decomposition of the composite is that of its two parts
    ucd.lemma_composite_mapping(first, second);
    let pair = seq![first, second];
    assert(pair.take(2) =~= pair);
    lemma_decomposed_parts(ucd, whole, 2);
    assert(decomposed(ucd, whole) == decomposed_all(ucd, pair));
    assert(pair.drop_last() =~= seq![first]);
    assert(pair.last() == second);
    lemma_decomposed_all_one(ucd, first);
    lemma_decomposed_all_one(ucd, second);
    lemma_decomposed_all_one(ucd, whole);
    assert(ucd.mapping(second) is None);
    assert(decomposed_all(ucd, pair) =~= decomposed(ucd, first) + seq![second]);
    // what stands between the two is fully decomposed
    assert forall|k: int| 0 <= k < between.len() implies ucd.mapping(#[trigger] between[k])
        is None by {
        assert(between[k] == buffer[pos + 1 + k]);
    }
    lemma_decomposed_all_of_full(ucd, between);
    // both sequences, decomposed
    let lead = decomposed_all(ucd, before) + decomposed(ucd, first);
    let tail = decomposed_all(ucd, behind);
    lemma_decomposed_all_concat(ucd, before, seq![first]);
    lemma_decomposed_all_concat(ucd, before + seq![first], between);
    lemma_decomposed_all_concat(ucd, before + seq![first] + between, seq![second]);
    lemma_decomposed_all_concat(ucd, before + seq![first] + between + seq![second], behind);
    assert(decomposed_all(ucd, buffer) == lead + between + seq![second] + tail);
    lemma_decomposed_all_concat(ucd, before, seq![whole]);
    lemma_decomposed_all_concat(ucd, before + seq![whole], between);
    lemma_decomposed_all_concat(ucd, before + seq![whole] + between, behind);
    assert(decomposed_all(ucd, after) =~= lead + seq![second] + between + tail);
    // nothing between them is of the class of the second or higher
    assert forall|k: int| 0 <= k < between.len() implies 0 < ucd.ccc(#[trigger] between[k])
        < ucd.ccc(second) by {
        assert(between[k] == buffer[pos + 1 + k]);
        assert(ucd.ccc(buffer[pos + 1 + k]) != 0);
        if ucd.ccc(buffer[pos + 1 + k]) >= ucd.ccc(second) {
            assert(blocked(ucd, buffer, pos, i));
        }
    }
    lemma_reordered_swap(ucd, lead, second, between, tail);
}

/// Composition does not change the decomposed form, where everything
/// behind `pos` is fully decomposed.
pub proof fn lemma_composed_keeps_nfd(ucd: &Ucd, buffer: Seq<u32>, pos: int)
    requires
        ucd.wf(),
        0 <= pos,
        forall|j: int| pos < j < buffer.len() ==> ucd.mapping(#[trigger] buffer[j]) is None,
    ensures
        nfd(ucd, composed(ucd, buffer, pos)) == nfd(ucd, buffer),
    decreases buffer.len() - pos,
{
    if pos < buffer.len() {
        match first_eligible(ucd, buffer, pos, pos + 1) {
            Some(i) => {
                lemma_first_eligible(ucd, buffer, pos, pos + 1);
                lemma_combined_keeps_nfd(ucd, buffer, pos, i);
                let after = combined(ucd, buffer, pos, i);
                assert forall|j: int| pos < j < after.len() implies ucd.mapping(
                    #[trigger] after[j],
                ) is None by {
                    if j < i {
                        assert(after[j] == buffer[j]);
                    } else {
                        assert(after[j] == buffer[j + 1]);
                    }
                }
                lemma_composed_keeps_nfd(ucd, after, pos);
            },
            None => {
                lemma_next_starter_bounds(ucd, buffer, pos + 1);
                lemma_composed_keeps_nfd(ucd, buffer, next_starter(ucd, buffer, pos + 1));
            },
        }
    }
}

/// Composing does not change what a sequence decomposes to: the composed
/// form of every sequence has the same decomposed form as the sequence.
pub proof fn lemma_nfd_of_nfc(ucd: &Ucd, code_points: Seq<u32>)
    requires
        ucd.wf(),
    ensures
        nfd(ucd, nfc(ucd, code_points)) == nfd(ucd, code_points),
{
    let normal = nfd(ucd, code_points);
    lemma_decomposed_all_is_full(ucd, code_points);
    lemma_reordered(ucd, decomposed_all(ucd, code_points));
    lemma_composed_keeps_nfd(ucd, normal, 0);
    lemma_nfd_idempotent(ucd, code_points);
}

/// Composing a composed form changes nothing.
pub proof fn lemma_nfc_idempotent(ucd: &Ucd, code_points: Seq<u32>)
    requires
        ucd.wf(),
    ensures
        nfc(ucd, nfc(ucd, code_points)) == nfc(ucd, code_points),
{
    lemma_nfd_of_nfc(ucd, code_points);
}

} // verus!
