//! Chaining contour segments into polylines and smoothing them, for any point type: whether two
//! points coincide, and where a smoothing cut falls, are supplied by the caller.

use vstd::prelude::*;

verus! {

broadcast use {vstd::seq_lib::group_seq_properties, vstd::multiset::group_multiset_axioms};

/// `next` continues a chain that ends at `tail` through segment `s`: when `near` puts the first
/// end of `s` at `tail` the chain goes on to the second end; otherwise, when it puts the second
/// end there, to the first.
pub open spec fn extends<P, F: Fn(P, P) -> bool>(near: F, tail: P, s: (P, P), next: P) -> bool {
    ||| call_ensures(near, (s.0, tail), true) && next == s.1
    ||| call_ensures(near, (s.0, tail), false) && call_ensures(near, (s.1, tail), true) && next
        == s.0
}

/// `line` is the chain that the segments `segs` make, in order: it starts with both ends of the
/// first segment and each later segment adds one point.
pub open spec fn is_chain<P, F: Fn(P, P) -> bool>(near: F, line: Seq<P>, segs: Seq<(P, P)>) -> bool {
    &&& segs.len() >= 1
    &&& line.len() == segs.len() + 1
    &&& line[0] == segs[0].0
    &&& line[1] == segs[0].1
    &&& forall|k: int| 1 <= k < segs.len() ==> extends(near, line[k], #[trigger] segs[k], line[k + 1])
}

/// No segment of `rest` can be attached at `tail`: `near` puts neither of its ends there.
pub open spec fn blocked<P, F: Fn(P, P) -> bool>(near: F, tail: P, rest: Seq<(P, P)>) -> bool {
    forall|i: int|
        0 <= i < rest.len() ==> call_ensures(near, ((#[trigger] rest[i]).0, tail), false)
            && call_ensures(near, (rest[i].1, tail), false)
}

/// The segments of the groups, one group after the other.
pub open spec fn concat_all<P>(groups: Seq<Seq<(P, P)>>) -> Seq<(P, P)>
    decreases groups.len(),
{
    if groups.len() == 0 {
        seq![]
    } else {
        concat_all(groups.drop_last()) + groups.last()
    }
}

/// Polylines made from the segments `segs`: every segment is used exactly once, in a group of
/// its own polyline; each polyline is the chain of its group; and a polyline ends only where no
/// segment of a later polyline could be attached.
pub open spec fn stitched<P, F: Fn(P, P) -> bool>(
    near: F,
    segs: Seq<(P, P)>,
    lines: Seq<Seq<P>>,
    groups: Seq<Seq<(P, P)>>,
) -> bool {
    &&& groups.len() == lines.len()
    &&& concat_all(groups).to_multiset() == segs.to_multiset()
    &&& forall|i: int| 0 <= i < lines.len() ==> is_chain(near, #[trigger] lines[i], groups[i])
    &&& forall|i: int, j: int|
        0 <= i < j < lines.len() ==> blocked(near, (#[trigger] lines[i]).last(), #[trigger] groups[j])
}

/// The points of each polyline.
pub open spec fn line_views<P>(lines: Seq<Vec<P>>) -> Seq<Seq<P>> {
    lines.map_values(|l: Vec<P>| l@)
}

/// `near` answers the same for the same two points every time it is called.
pub open spec fn deterministic<P, F: Fn(P, P) -> bool>(near: F) -> bool {
    forall|a: P, b: P, r1: bool, r2: bool|
        #![trigger call_ensures(near, (a, b), r1), call_ensures(near, (a, b), r2)]
        call_ensures(near, (a, b), r1) && call_ensures(near, (a, b), r2) ==> r1 == r2
}

/// `near` puts the point `a` at `tail`.
pub open spec fn attaches<P, F: Fn(P, P) -> bool>(near: F, a: P, tail: P) -> bool {
    call_ensures(near, (a, tail), true)
}

/// The first segment of `rest`, from position `k` on, that can be attached at `tail`, with
/// whether it attaches through its first end (tried first) or its second.
pub open spec fn first_attachable<P, F: Fn(P, P) -> bool>(
    near: F,
    rest: Seq<(P, P)>,
    tail: P,
    k: int,
) -> Option<(int, bool)>
    decreases rest.len() - k,
{
    if k < 0 || k >= rest.len() {
        None
    } else if attaches(near, rest[k].0, tail) {
        Some((k, true))
    } else if attaches(near, rest[k].1, tail) {
        Some((k, false))
    } else {
        first_attachable(near, rest, tail, k + 1)
    }
}

/// `s` without its element at `i`, the last element taking its place (what `Vec::swap_remove`
/// leaves).
pub open spec fn swap_removed<A>(s: Seq<A>, i: int) -> Seq<A> {
    s.update(i, s.last()).drop_last()
}

/// Grows `line` at its end from the segments `rest`, as long as one can be attached: each time
/// the first attachable segment is taken out of `rest` (its place taken by the last one) and its
/// other end is added. Gives the grown line and the segments left.
pub open spec fn grow<P, F: Fn(P, P) -> bool>(near: F, line: Seq<P>, rest: Seq<(P, P)>) -> (
    Seq<P>,
    Seq<(P, P)>,
)
    decreases rest.len(),
{
    if line.len() == 0 {
        (line, rest)
    } else {
        match first_attachable(near, rest, line.last(), 0) {
            Some((i, first)) => if 0 <= i < rest.len() {
                let s = rest[i];
                grow(
                    near,
                    line.push(
                        if first {
                            s.1
                        } else {
                            s.0
                        },
                    ),
                    swap_removed(rest, i),
                )
            } else {
                (line, rest)
            },
            None => (line, rest),
        }
    }
}

/// Growing a line only takes segments away.
pub proof fn lemma_grow_len<P, F: Fn(P, P) -> bool>(near: F, line: Seq<P>, rest: Seq<(P, P)>)
    ensures
        grow(near, line, rest).1.len() <= rest.len(),
    decreases rest.len(),
{
    if line.len() > 0 {
        if let Some((i, first)) = first_attachable(near, rest, line.last(), 0) {
            if 0 <= i < rest.len() {
                let s = rest[i];
                lemma_grow_len(
                    near,
                    line.push(
                        if first {
                            s.1
                        } else {
                            s.0
                        },
                    ),
                    swap_removed(rest, i),
                );
            }
        }
    }
}

/// The polylines that `segments` make: the last segment starts a polyline, which grows (see
/// `grow`) from the segments before it; then the same with the segments left.
pub open spec fn stitch_all<P, F: Fn(P, P) -> bool>(near: F, segments: Seq<(P, P)>) -> Seq<Seq<P>>
    decreases segments.len(),
{
    if segments.len() == 0 {
        seq![]
    } else {
        let s = segments.last();
        let g = grow(near, seq![s.0, s.1], segments.drop_last());
        proof {
            lemma_grow_len(near, seq![s.0, s.1], segments.drop_last());
        }
        seq![g.0] + stitch_all(near, g.1)
    }
}

/// The first segment of `rest` that can be attached at `tail`, and whether through its first end.
fn find_attachable<P: Copy, F: Fn(P, P) -> bool>(rest: &Vec<(P, P)>, tail: P, near: &F) -> (r:
    Option<(usize, bool)>)
    requires
        forall|a: P, b: P| near.requires((a, b)),
    ensures
        r matches Some((i, first)) ==> i < rest.len() && (if first {
            call_ensures(*near, (rest@[i as int].0, tail), true)
        } else {
            call_ensures(*near, (rest@[i as int].0, tail), false) && call_ensures(
                *near,
                (rest@[i as int].1, tail),
                true,
            )
        }),
        r is None ==> blocked(*near, tail, rest@),
        deterministic(*near) ==> match r {
            Some((i, first)) => first_attachable(*near, rest@, tail, 0) == Some((i as int, first)),
            None => first_attachable(*near, rest@, tail, 0) is None,
        },
{
    let mut i: usize = 0;
    while i < rest.len()
        invariant
            forall|a: P, b: P| near.requires((a, b)),
            i <= rest.len(),
            blocked(*near, tail, rest@.take(i as int)),
            deterministic(*near) ==> first_attachable(*near, rest@, tail, 0) == first_attachable(
                *near,
                rest@,
                tail,
                i as int,
            ),
        decreases rest.len() - i,
    {
        let (s1, s2) = rest[i];
        let b1 = near(s1, tail);
        if b1 {
            return Some((i, true));
        }
        let b2 = near(s2, tail);
        if b2 {
            proof {
                if deterministic(*near) && attaches(*near, s1, tail) {
                    assert(call_ensures(*near, (s1, tail), false));
                }
            }
            return Some((i, false));
        }
        proof {
            if deterministic(*near) {
                if attaches(*near, s1, tail) {
                    assert(call_ensures(*near, (s1, tail), false));
                }
                if attaches(*near, s2, tail) {
                    assert(call_ensures(*near, (s2, tail), false));
                }
            }
        }
        assert(rest@.take(i + 1)[i as int] == rest@[i as int]);
        i = i + 1;
    }
    assert(rest@.take(rest.len() as int) =~= rest@);
    None
}

/// Chains `segments` into polylines, taking them from the back: each polyline starts with the
/// last segment left and grows at its end, taking each time the first attachable segment left
/// (`Vec::swap_remove` moves the last one into its place), until none is attachable. When `near`
/// answers the same for the same points, the polylines are exactly `stitch_all` of the segments
/// under its answers; whatever `near` does, every segment is used once and a polyline ends only
/// where no later segment could be attached.
pub fn stitch<P: Copy, F: Fn(P, P) -> bool>(segments: Vec<(P, P)>, near: &F) -> (lines: Vec<
    Vec<P>,
>)
    requires
        forall|a: P, b: P| near.requires((a, b)),
    ensures
        deterministic(*near) ==> line_views(lines@) == stitch_all(*near, segments@),
        exists|groups: Seq<Seq<(P, P)>>|
            #[trigger] stitched(*near, segments@, line_views(lines@), groups),
{
    let ghost original = segments@;
    let mut remaining = segments;
    let mut lines: Vec<Vec<P>> = Vec::new();
    let ghost mut groups: Seq<Seq<(P, P)>> = seq![];
    while remaining.len() > 0
        invariant
            forall|a: P, b: P| near.requires((a, b)),
            groups.len() == lines.len(),
            deterministic(*near) ==> line_views(lines@) + stitch_all(*near, remaining@)
                == stitch_all(*near, original),
            (concat_all(groups) + remaining@).to_multiset() == original.to_multiset(),
            forall|i: int| 0 <= i < lines.len() ==> is_chain(*near, #[trigger] lines@[i]@, groups[i]),
            forall|i: int, j: int|
                0 <= i < j < lines.len() ==> blocked(
                    *near,
                    (#[trigger] lines@[i])@.last(),
                    #[trigger] groups[j],
                ),
            forall|i: int| 0 <= i < lines.len() ==> blocked(*near, (#[trigger] lines@[i])@.last(), remaining@),
        decreases remaining.len(),
    {
        let ghost before = remaining@;
        let (p1, p2) = remaining.pop().unwrap();
        let ghost len0 = remaining.len();
        let ghost rem0 = remaining@;
        let mut line: Vec<P> = vec![p1, p2];
        let ghost line0 = line@;
        let ghost mut group: Seq<(P, P)> = seq![(p1, p2)];
        proof {
            assert(before =~= remaining@.push((p1, p2)));
            let done = concat_all(groups);
            vstd::seq_lib::to_multiset_build(remaining@, (p1, p2));
            vstd::seq_lib::lemma_multiset_commutative(done, before);
            vstd::seq_lib::lemma_multiset_commutative(done + group, remaining@);
            vstd::seq_lib::lemma_multiset_commutative(done, group);
            vstd::seq_lib::to_multiset_build(Seq::<(P, P)>::empty(), (p1, p2));
            assert(group =~= Seq::<(P, P)>::empty().push((p1, p2)));
            assert((done + group + remaining@).to_multiset() =~= (done + before).to_multiset());
            assert forall|i: int| 0 <= i < lines.len() implies blocked(
                *near,
                (#[trigger] lines@[i])@.last(),
                remaining@,
            ) && blocked(*near, lines@[i]@.last(), group) by {
                assert(forall|k: int| 0 <= k < remaining@.len() ==> remaining@[k] == before[k]);
                assert(group[0] == before[before.len() - 1]);
            }
        }
        loop
            invariant
                forall|a: P, b: P| near.requires((a, b)),
                groups.len() == lines.len(),
                line@.len() >= 2,
                remaining.len() <= len0,
                deterministic(*near) ==> grow(*near, line@, remaining@) == grow(*near, line0, rem0),
                is_chain(*near, line@, group),
                (concat_all(groups) + group + remaining@).to_multiset() == original.to_multiset(),
                forall|i: int| 0 <= i < lines.len() ==> blocked(
                    *near,
                    (#[trigger] lines@[i])@.last(),
                    remaining@,
                ) && blocked(*near, lines@[i]@.last(), group),
            ensures
                remaining.len() <= len0,
                deterministic(*near) ==> grow(*near, line0, rem0) == (line@, remaining@),
                is_chain(*near, line@, group),
                line@.len() >= 2,
                (concat_all(groups) + group + remaining@).to_multiset() == original.to_multiset(),
                blocked(*near, line@.last(), remaining@),
                forall|i: int| 0 <= i < lines.len() ==> blocked(
                    *near,
                    (#[trigger] lines@[i])@.last(),
                    remaining@,
                ) && blocked(*near, lines@[i]@.last(), group),
            decreases remaining.len(),
        {
            let tail = line[line.len() - 1];
            match find_attachable(&remaining, tail, near) {
                None => {
                    break;
                },
                Some((idx, first)) => {
                    let ghost old_rem = remaining@;
                    let ghost old_line = line@;
                    let ghost old_group = group;
                    let (s1, s2) = remaining.swap_remove(idx);
                    if first {
                        line.push(s2);
                    } else {
                        line.push(s1);
                    }
                    proof {
                        if deterministic(*near) {
                            assert(swap_removed(old_rem, idx as int) =~= remaining@);
                            assert(grow(*near, old_line, old_rem) == grow(*near, line@, remaining@));
                        }
                        group = group.push((s1, s2));
                        assert(line@ =~= old_line.push(line@.last()));
                        assert forall|k: int| 1 <= k < group.len() implies extends(
                            *near,
                            line@[k],
                            #[trigger] group[k],
                            line@[k + 1],
                        ) by {
                            if k < old_group.len() {
                                assert(group[k] == old_group[k]);
                            }
                        }
                        let s = old_rem.update(idx as int, old_rem.last());
                        assert(s.last() == old_rem.last());
                        assert(s =~= remaining@.push(s.last()));
                        assert(s.to_multiset() == old_rem.to_multiset().remove(old_rem[idx as int]).insert(old_rem.last()));
                        vstd::seq_lib::to_multiset_build(remaining@, old_rem.last());
                        assert(s == remaining@.push(old_rem.last()));
                        assert(s.to_multiset() == remaining@.to_multiset().insert(old_rem.last()));
                        assert forall|v: (P, P)| #[trigger] remaining@.to_multiset().count(v)
                            == old_rem.to_multiset().remove((s1, s2)).count(v) by {
                            assert(s.to_multiset().count(v) == remaining@.to_multiset().count(v) + if v == old_rem.last() { 1nat } else { 0 });
                            assert(s.to_multiset().count(v) == old_rem.to_multiset().remove((s1, s2)).count(v) + if v == old_rem.last() { 1nat } else { 0 });
                        }
                        assert(remaining@.to_multiset() =~= old_rem.to_multiset().remove((s1, s2)));
                        vstd::seq_lib::lemma_multiset_commutative(concat_all(groups) + group, remaining@);
                        vstd::seq_lib::lemma_multiset_commutative(concat_all(groups) + old_group, old_rem);
                        vstd::seq_lib::lemma_multiset_commutative(concat_all(groups) + old_group, seq![(s1, s2)]);
                        assert(concat_all(groups) + group =~= (concat_all(groups) + old_group) + seq![(s1, s2)]);
                        assert forall|i: int| 0 <= i < lines.len() implies blocked(
                            *near,
                            (#[trigger] lines@[i])@.last(),
                            remaining@,
                        ) && blocked(*near, lines@[i]@.last(), group) by {
                            assert forall|k: int| 0 <= k < remaining@.len() implies #[trigger] remaining@[k] == old_rem[k] || remaining@[k] == old_rem.last() by {
                                assert(remaining@[k] == s[k]);
                            }
                            assert forall|k: int| 0 <= k < group.len() implies #[trigger] group[k] == old_group[k] || group[k] == old_rem[idx as int] by {}
                        }
                    }
                },
            }
        }
        proof {
            if deterministic(*near) {
                assert(before.last() == (p1, p2));
                assert(before.drop_last() =~= rem0);
                assert(line0 =~= seq![p1, p2]);
                assert(stitch_all(*near, before) == seq![line@] + stitch_all(*near, remaining@));
            }
            let new_groups = groups.push(group);
            assert(new_groups.drop_last() =~= groups);
            assert(concat_all(new_groups) == concat_all(groups) + group);
        }
        let ghost old_lines = lines@;
        lines.push(line);
        proof {
            if deterministic(*near) {
                assert(line_views(lines@) =~= line_views(old_lines).push(line@));
                assert(line_views(lines@) + stitch_all(*near, remaining@) =~= line_views(old_lines)
                    + (seq![line@] + stitch_all(*near, remaining@)));
            }
            groups = groups.push(group);
            assert forall|i: int| 0 <= i < lines.len() implies is_chain(*near, #[trigger] lines@[i]@, groups[i]) by {
                if i < old_lines.len() {
                    assert(lines@[i] == old_lines[i]);
                }
            }
        }
    }
    proof {
        assert(line_views(lines@) + stitch_all(*near, remaining@) =~= line_views(lines@));
        assert(concat_all(groups) + remaining@ =~= concat_all(groups));
        let views = line_views(lines@);
        assert forall|i: int| 0 <= i < lines.len() implies is_chain(*near, #[trigger] views[i], groups[i]) by {
            assert(views[i] == lines@[i]@);
        }
        assert forall|i: int, j: int|
            0 <= i < j < lines.len() implies blocked(*near, (#[trigger] views[i]).last(), #[trigger] groups[j]) by {
            assert(views[i] == lines@[i]@);
        }
        assert(stitched(*near, original, views, groups));
    }
    lines
}

/// `after` is one round of corner cutting of `before`: a polyline of fewer than three points
/// stays as it is; a longer one keeps its two end points and replaces each of its `n - 1` spans
/// `a`, `b` by the two points `cut(a, b)` and `cut(b, a)`, so that it has `2 n` points.
pub open spec fn is_cut_of<P, F: Fn(P, P) -> P>(cut: F, before: Seq<P>, after: Seq<P>) -> bool {
    if before.len() < 3 {
        after == before
    } else {
        &&& after.len() == 2 * before.len()
        &&& after[0] == before[0]
        &&& after.last() == before.last()
        &&& forall|i: int|
            0 <= i < before.len() - 1 ==> call_ensures(cut, (before[i], before[i + 1]), #[trigger] after[2 * i + 1])
                && call_ensures(cut, (before[i + 1], before[i]), after[2 * i + 2])
    }
}

/// One round of corner cutting (Chaikin's scheme): `cut(a, b)` gives the point that replaces
/// the corner at `a` on the span from `a` to `b`.
pub fn chaikin_smooth<P: Copy, F: Fn(P, P) -> P>(points: Vec<P>, cut: &F) -> (out: Vec<P>)
    requires
        forall|a: P, b: P| cut.requires((a, b)),
    ensures
        is_cut_of(*cut, points@, out@),
{
    if points.len() < 3 {
        return points;
    }
    let n = points.len();
    let mut out: Vec<P> = Vec::new();
    out.push(points[0]);
    let mut i: usize = 0;
    while i < n - 1
        invariant
            forall|a: P, b: P| cut.requires((a, b)),
            n == points.len(),
            3 <= n,
            i <= n - 1,
            out.len() == 2 * i + 1,
            out@[0] == points@[0],
            forall|k: int|
                0 <= k < i ==> call_ensures(*cut, (points@[k], points@[k + 1]), #[trigger] out@[2 * k + 1])
                    && call_ensures(*cut, (points@[k + 1], points@[k]), out@[2 * k + 2]),
        decreases n - 1 - i,
    {
        let p0 = points[i];
        let p1 = points[i + 1];
        let a = cut(p0, p1);
        let b = cut(p1, p0);
        let ghost before = out@;
        out.push(a);
        out.push(b);
        proof {
            assert forall|k: int| 0 <= k < i + 1 implies call_ensures(
                *cut,
                (points@[k], points@[k + 1]),
                #[trigger] out@[2 * k + 1],
            ) && call_ensures(*cut, (points@[k + 1], points@[k]), out@[2 * k + 2]) by {
                if k < i {
                    assert(out@[2 * k + 1] == before[2 * k + 1]);
                    assert(out@[2 * k + 2] == before[2 * k + 2]);
                }
            }
        }
        i = i + 1;
    }
    out.push(points[n - 1]);
    proof {
        assert forall|k: int| 0 <= k < n - 1 implies call_ensures(
            *cut,
            (points@[k], points@[k + 1]),
            #[trigger] out@[2 * k + 1],
        ) && call_ensures(*cut, (points@[k + 1], points@[k]), out@[2 * k + 2]) by {
            assert(out@[2 * k + 1] == out@.drop_last()[2 * k + 1]);
            assert(out@[2 * k + 2] == out@.drop_last()[2 * k + 2]);
        }
    }
    out
}

/// `stages` records `rounds` rounds of corner cutting that lead from `first` to its last stage.
pub open spec fn cut_rounds<P, F: Fn(P, P) -> P>(cut: F, first: Seq<P>, stages: Seq<Seq<P>>, rounds: nat) -> bool {
    &&& stages.len() == rounds + 1
    &&& stages[0] == first
    &&& forall|j: int| 0 <= j < rounds ==> is_cut_of(cut, #[trigger] stages[j], stages[j + 1])
}

/// `rounds` rounds of corner cutting.
pub fn smooth<P: Copy, F: Fn(P, P) -> P>(points: Vec<P>, rounds: usize, cut: &F) -> (out: Vec<P>)
    requires
        forall|a: P, b: P| cut.requires((a, b)),
    ensures
        exists|stages: Seq<Seq<P>>| #[trigger] cut_rounds(*cut, points@, stages, rounds as nat) && stages.last() == out@,
{
    let mut current = points;
    let ghost mut stages: Seq<Seq<P>> = seq![current@];
    let mut r: usize = 0;
    while r < rounds
        invariant
            forall|a: P, b: P| cut.requires((a, b)),
            r <= rounds,
            cut_rounds(*cut, points@, stages, r as nat),
            stages.last() == current@,
        decreases rounds - r,
    {
        let next = chaikin_smooth(current, cut);
        proof {
            let old_stages = stages;
            stages = stages.push(next@);
            assert forall|j: int| 0 <= j < r + 1 implies is_cut_of(*cut, #[trigger] stages[j], stages[j + 1]) by {
                if j < r {
                    assert(stages[j] == old_stages[j]);
                    assert(stages[j + 1] == old_stages[j + 1]);
                }
            }
        }
        current = next;
        r = r + 1;
    }
    current
}

/// Corner cutting keeps a polyline's end points, and each round doubles the number of points of
/// a polyline of three or more (one of fewer is left as it is), whatever the cut.
pub proof fn lemma_cut_rounds_keep_ends<P, F: Fn(P, P) -> P>(
    cut: F,
    first: Seq<P>,
    stages: Seq<Seq<P>>,
    rounds: nat,
)
    requires
        cut_rounds(cut, first, stages, rounds),
        first.len() > 0,
    ensures
        stages.last().len() > 0,
        stages.last()[0] == first[0],
        stages.last().last() == first.last(),
        first.len() < 3 ==> stages.last() == first,
        first.len() >= 3 ==> stages.last().len() == first.len() * vstd::arithmetic::power2::pow2(rounds),
    decreases rounds,
{
    if rounds > 0 {
        let prev = stages.drop_last();
        assert forall|j: int| 0 <= j < rounds - 1 implies is_cut_of(cut, #[trigger] prev[j], prev[j + 1]) by {
            assert(is_cut_of(cut, stages[j], stages[j + 1]));
        }
        lemma_cut_rounds_keep_ends(cut, first, prev, (rounds - 1) as nat);
        assert(is_cut_of(cut, stages[rounds - 1], stages[rounds as int]));
        assert(stages[rounds - 1] == prev.last());
        vstd::arithmetic::power2::lemma_pow2_unfold(rounds);
        if first.len() >= 3 {
            let k = vstd::arithmetic::power2::pow2((rounds - 1) as nat);
            assert(k >= 1) by {
                vstd::arithmetic::power2::lemma_pow2_pos((rounds - 1) as nat);
            }
            assert(first.len() * k >= 3) by (nonlinear_arith)
                requires
                    first.len() >= 3,
                    k >= 1,
            ;
            assert(2 * (first.len() * k) == first.len() * (2 * k)) by (nonlinear_arith);
            assert(stages.last().len() == 2 * prev.last().len());
        }
    } else {
        vstd::arithmetic::power2::lemma2_to64();
    }
}

/// The first polyline starts with both ends of the last segment, in order, when `near` answers
/// the same for the same points; there are no more polylines than segments, and none without
/// segments.
pub proof fn lemma_first_line_starts_with_last_segment<P, F: Fn(P, P) -> bool>(
    near: F,
    segments: Seq<(P, P)>,
)
    ensures
        segments.len() == 0 <==> stitch_all(near, segments).len() == 0,
        segments.len() > 0 ==> stitch_all(near, segments)[0].len() >= 2 && stitch_all(near, segments)[0][0]
            == segments.last().0 && stitch_all(near, segments)[0][1] == segments.last().1,
{
    if segments.len() > 0 {
        let s = segments.last();
        lemma_grow_keeps_prefix(near, seq![s.0, s.1], segments.drop_last());
    }
}

/// Growing a line only adds points at its end.
pub proof fn lemma_grow_keeps_prefix<P, F: Fn(P, P) -> bool>(near: F, line: Seq<P>, rest: Seq<(P, P)>)
    ensures
        grow(near, line, rest).0.len() >= line.len(),
        forall|i: int| 0 <= i < line.len() ==> grow(near, line, rest).0[i] == #[trigger] line[i],
    decreases rest.len(),
{
    if line.len() > 0 {
        if let Some((i, first)) = first_attachable(near, rest, line.last(), 0) {
            if 0 <= i < rest.len() {
                let s = rest[i];
                let next = line.push(
                    if first {
                        s.1
                    } else {
                        s.0
                    },
                );
                lemma_grow_keeps_prefix(near, next, swap_removed(rest, i));
                assert forall|k: int| 0 <= k < line.len() implies grow(near, line, rest).0[k]
                    == #[trigger] line[k] by {
                    assert(next[k] == line[k]);
                }
            }
        }
    }
}

} // verus!
