//! The steps by which stored mappings are brought up to date.

use crate::database::{channels_differ, is_not_for, reordered, with_mapping, without_mapping};
use crate::rows::views;
use crate::tables::{ChannelMapping, ChannelMappingView};
use vstd::prelude::*;

verus! {

/// One step on stored mappings.
#[derive(Debug)]
pub enum RowStep {
    /// Writes the mapping of its physical channel anew, where it stands.
    Rewrite { mapping: ChannelMapping },
    /// Takes the mapping of a physical channel away.
    Delete { physical_channel: u8 },
    /// Writes a mapping behind all others.
    Insert { mapping: ChannelMapping },
}

/// What `RowStep` holds.
#[verifier::ext_equal]
pub enum RowStepView {
    Rewrite { mapping: ChannelMappingView },
    Delete { physical_channel: u8 },
    Insert { mapping: ChannelMappingView },
}

impl View for RowStep {
    type V = RowStepView;

    open spec fn view(&self) -> RowStepView {
        match *self {
            RowStep::Rewrite { mapping } => RowStepView::Rewrite { mapping: mapping@ },
            RowStep::Delete { physical_channel } => RowStepView::Delete { physical_channel },
            RowStep::Insert { mapping } => RowStepView::Insert { mapping: mapping@ },
        }
    }
}

/// The mappings after one step.
pub open spec fn after_step(rows: Seq<ChannelMappingView>, step: RowStepView) -> Seq<
    ChannelMappingView,
> {
    match step {
        RowStepView::Rewrite { mapping } => Seq::new(
            rows.len(),
            |i: int|
                if rows[i].physical_channel == mapping.physical_channel {
                    mapping
                } else {
                    rows[i]
                },
        ),
        RowStepView::Delete { physical_channel } => without_mapping(rows, physical_channel),
        RowStepView::Insert { mapping } => rows.push(mapping),
    }
}

/// The mappings after a list of steps.
pub open spec fn after_steps(rows: Seq<ChannelMappingView>, steps: Seq<RowStepView>) -> Seq<
    ChannelMappingView,
>
    decreases steps.len(),
{
    if steps.len() == 0 {
        rows
    } else {
        after_step(after_steps(rows, steps.drop_last()), steps.last())
    }
}

/// The physical channel whose mapping a step writes or takes away.
pub open spec fn step_channel(step: RowStepView) -> u8 {
    match step {
        RowStepView::Rewrite { mapping } => mapping.physical_channel,
        RowStepView::Delete { physical_channel } => physical_channel,
        RowStepView::Insert { mapping } => mapping.physical_channel,
    }
}

/// How many of the first `i` mappings of `old` keep their place on the way to `new`. A mapping
/// keeps its place where `new` goes on with one for the same channel, behind those of the mappings
/// before it that keep theirs.
pub open spec fn places_kept(
    old: Seq<ChannelMappingView>,
    new: Seq<ChannelMappingView>,
    i: nat,
) -> nat
    decreases i,
{
    if i == 0 {
        0
    } else {
        let before = places_kept(old, new, (i - 1) as nat);
        if keeps_place(old, new, before, (i - 1) as nat) {
            before + 1
        } else {
            before
        }
    }
}

/// Whether mapping `a` of `old` keeps its place, where `before` of those before it do.
pub open spec fn keeps_place(
    old: Seq<ChannelMappingView>,
    new: Seq<ChannelMappingView>,
    before: nat,
    a: nat,
) -> bool {
    before < new.len() && new[before as int].physical_channel == old[a as int].physical_channel
}

/// Whether mapping `a` of `old` keeps its place and is the same in `new`.
pub open spec fn is_untouched(
    old: Seq<ChannelMappingView>,
    new: Seq<ChannelMappingView>,
    a: nat,
) -> bool {
    let before = places_kept(old, new, a);
    keeps_place(old, new, before, a) && new[before as int] == old[a as int]
}

/// Whether a step is for a mapping among the first `i` of `old` that is touched.
spec fn is_for_touched(
    old: Seq<ChannelMappingView>,
    new: Seq<ChannelMappingView>,
    i: nat,
    step: RowStepView,
) -> bool {
    exists|b: nat|
        b < i && !(#[trigger] is_untouched(old, new, b)) && step_channel(step)
            == old[b as int].physical_channel
}

/// Whether a step is for a mapping of `new` from `from` on.
spec fn is_for_new(new: Seq<ChannelMappingView>, from: nat, step: RowStepView) -> bool {
    exists|j: int|
        from <= j < new.len() && step_channel(step) == (#[trigger] new[j]).physical_channel
}

proof fn lemma_places_kept(
    old: Seq<ChannelMappingView>,
    new: Seq<ChannelMappingView>,
    a: nat,
    i: nat,
)
    requires
        a < i,
    ensures
        places_kept(old, new, a) <= places_kept(old, new, i),
        is_untouched(old, new, a) ==> places_kept(old, new, a) < places_kept(old, new, i),
    decreases i,
{
    if a + 1 < i {
        lemma_places_kept(old, new, a, (i - 1) as nat);
    }
}

/// A step for a touched mapping, or for one that is written behind all others, is for no mapping
/// that is untouched.
proof fn lemma_step_spares(
    old: Seq<ChannelMappingView>,
    new: Seq<ChannelMappingView>,
    step: RowStepView,
    a: nat,
)
    requires
        channels_differ(old),
        channels_differ(new),
        a < old.len(),
        is_untouched(old, new, a),
        is_for_touched(old, new, old.len(), step) || is_for_new(
            new,
            places_kept(old, new, old.len()),
            step,
        ),
    ensures
        step_channel(step) != old[a as int].physical_channel,
{
    if is_for_touched(old, new, old.len(), step) {
        let b = choose|b: nat|
            b < old.len() && !(#[trigger] is_untouched(old, new, b)) && step_channel(step)
                == old[b as int].physical_channel;
        if a < b {
            assert(old[a as int].physical_channel != old[b as int].physical_channel);
        } else {
            assert(old[b as int].physical_channel != old[a as int].physical_channel);
        }
    } else {
        let j = choose|j: int|
            places_kept(old, new, old.len()) <= j < new.len() && step_channel(step) == (
            #[trigger] new[j]).physical_channel;
        lemma_places_kept(old, new, a, old.len());
        let x = places_kept(old, new, a) as int;
        assert(new[x].physical_channel != new[j].physical_channel);
    }
}

/// Taking a mapping away leaves the others as they stand.
proof fn lemma_without_one(rows: Seq<ChannelMappingView>, at: int)
    requires
        channels_differ(rows),
        0 <= at < rows.len(),
    ensures
        without_mapping(rows, rows[at].physical_channel) == rows.remove(at),
    decreases rows.len(),
{
    let p = rows[at].physical_channel;
    let kept_by = is_not_for(p);
    let init = rows.drop_last();
    reveal(Seq::filter);
    assert forall|i: int, j: int| 0 <= i < j < init.len() implies (
    #[trigger] init[i]).physical_channel != (#[trigger] init[j]).physical_channel by {
        assert(init[i] == rows[i] && init[j] == rows[j]);
    }
    if at == rows.len() - 1 {
        assert forall|i: int| 0 <= i < init.len() implies kept_by(#[trigger] init[i]) by {
            assert(init[i] == rows[i] && rows[i].physical_channel != rows[at].physical_channel);
        }
        lemma_keeps_all(init, kept_by);
        assert(rows.remove(at) =~= init);
    } else {
        assert(init[at] == rows[at]);
        lemma_without_one(init, at);
        assert(rows[at].physical_channel != rows[rows.len() - 1].physical_channel);
        assert(rows.remove(at) =~= init.remove(at).push(rows.last()));
    }
}

proof fn lemma_keeps_all(
    rows: Seq<ChannelMappingView>,
    kept_by: spec_fn(ChannelMappingView) -> bool,
)
    requires
        forall|i: int| 0 <= i < rows.len() ==> kept_by(#[trigger] rows[i]),
    ensures
        rows.filter(kept_by) == rows,
    decreases rows.len(),
{
    reveal(Seq::filter);
    if rows.len() > 0 {
        let init = rows.drop_last();
        assert forall|i: int| 0 <= i < init.len() implies kept_by(#[trigger] init[i]) by {
            assert(init[i] == rows[i]);
        }
        lemma_keeps_all(init, kept_by);
        assert(kept_by(rows[rows.len() - 1]));
        assert(init.push(rows.last()) =~= rows);
    } else {
        assert(rows.filter(kept_by) =~= rows);
    }
}

/// What stands in store while the first `i` of `old` are brought to the first `j` of `new`.
spec fn midway(
    old: Seq<ChannelMappingView>,
    new: Seq<ChannelMappingView>,
    i: int,
    j: int,
) -> Seq<ChannelMappingView> {
    new.take(j) + old.skip(i)
}

/// Whether one of the first `i` of `old` is for a channel.
spec fn is_among(old: Seq<ChannelMappingView>, i: int, physical_channel: u8) -> bool {
    exists|a: int| 0 <= a < i && (#[trigger] old[a]).physical_channel == physical_channel
}

/// Whether the first `j` of `new` are for channels of the first `i` of `old`.
spec fn matched(
    old: Seq<ChannelMappingView>,
    new: Seq<ChannelMappingView>,
    i: int,
    j: int,
) -> bool {
    forall|b: int| 0 <= b < j ==> is_among(old, i, (#[trigger] new[b]).physical_channel)
}

proof fn lemma_midway_differs(
    old: Seq<ChannelMappingView>,
    new: Seq<ChannelMappingView>,
    i: int,
    j: int,
)
    requires
        channels_differ(old),
        channels_differ(new),
        0 <= i <= old.len(),
        0 <= j <= new.len(),
        matched(old, new, i, j),
    ensures
        channels_differ(midway(old, new, i, j)),
{
    let m = midway(old, new, i, j);
    assert forall|x: int, y: int| 0 <= x < y < m.len() implies (#[trigger] m[x]).physical_channel
        != (#[trigger] m[y]).physical_channel by {
        if x < j {
            assert(m[x] == new[x]);
            if y < j {
                assert(m[y] == new[y]);
            } else {
                assert(m[y] == old[y - j + i]);
                assert(is_among(old, i, new[x].physical_channel));
                let a = choose|a: int|
                    0 <= a < i && (#[trigger] old[a]).physical_channel == new[x].physical_channel;
                assert(old[a].physical_channel != old[y - j + i].physical_channel);
            }
        } else {
            assert(m[x] == old[x - j + i]);
            assert(m[y] == old[y - j + i]);
        }
    }
}

proof fn lemma_matched(old: Seq<ChannelMappingView>, new: Seq<ChannelMappingView>, i: nat)
    requires
        i <= old.len(),
    ensures
        places_kept(old, new, i) <= i,
        places_kept(old, new, i) <= new.len(),
        matched(old, new, i as int, places_kept(old, new, i) as int),
    decreases i,
{
    if i > 0 {
        let a = (i - 1) as nat;
        let j = places_kept(old, new, a);
        lemma_matched(old, new, a);
        let next = places_kept(old, new, i);
        assert forall|b: int| 0 <= b < next implies is_among(
            old,
            i as int,
            (#[trigger] new[b]).physical_channel,
        ) by {
            if b < j {
                assert(is_among(old, a as int, new[b].physical_channel));
            } else {
                assert(old[a as int].physical_channel == new[b].physical_channel);
            }
        }
    }
}

/// What is done about mapping `i` of `old` leads on from what stands in store.
proof fn lemma_next(old: Seq<ChannelMappingView>, new: Seq<ChannelMappingView>, i: nat)
    requires
        channels_differ(old),
        channels_differ(new),
        i < old.len(),
    ensures
        ({
            let j = places_kept(old, new, i);
            let here = midway(old, new, i as int, j as int);
            let next = midway(old, new, (i + 1) as int, places_kept(old, new, i + 1) as int);
            let p = old[i as int].physical_channel;
            &&& keeps_place(old, new, j, i) && new[j as int] == old[i as int] ==> next == here
            &&& keeps_place(old, new, j, i) ==> next == after_step(
                here,
                RowStepView::Rewrite { mapping: new[j as int] },
            )
            &&& !keeps_place(old, new, j, i) ==> next == after_step(
                here,
                RowStepView::Delete { physical_channel: p },
            )
        }),
{
    let j = places_kept(old, new, i);
    let here = midway(old, new, i as int, j as int);
    lemma_matched(old, new, i);
    lemma_midway_differs(old, new, i as int, j as int);
    assert(here[j as int] == old[i as int]);
    if keeps_place(old, new, j, i) {
        let next = midway(old, new, (i + 1) as int, (j + 1) as int);
        let written = after_step(here, RowStepView::Rewrite { mapping: new[j as int] });
        assert forall|k: int| 0 <= k < here.len() implies #[trigger] written[k] == next[k] by {
            if k < j {
                assert(here[k].physical_channel != here[j as int].physical_channel);
                assert(here[k] == new[k]);
            } else if k > j {
                assert(here[j as int].physical_channel != here[k].physical_channel);
                assert(here[k] == old[k - j + i]);
            }
        }
        assert(written =~= next);
        if new[j as int] == old[i as int] {
            assert(here =~= next);
        }
    } else {
        lemma_without_one(here, j as int);
        assert(here.remove(j as int) =~= midway(old, new, (i + 1) as int, j as int));
    }
}

proof fn lemma_one_more_step(
    rows: Seq<ChannelMappingView>,
    steps: Seq<RowStep>,
    step: RowStep,
)
    ensures
        after_steps(rows, views(steps.push(step))) == after_step(
            after_steps(rows, views(steps)),
            step@,
        ),
{
    assert(views(steps.push(step)) =~= views(steps).push(step@));
    assert(views(steps.push(step)).drop_last() =~= views(steps));
}

/// Whether all steps so far are for touched mappings among the first `i` of `old`.
spec fn all_for_touched(
    old: Seq<ChannelMappingView>,
    new: Seq<ChannelMappingView>,
    i: nat,
    steps: Seq<RowStep>,
) -> bool {
    forall|k: int| 0 <= k < steps.len() ==> is_for_touched(old, new, i, (#[trigger] steps[k])@)
}

proof fn lemma_still_for_touched(
    old: Seq<ChannelMappingView>,
    new: Seq<ChannelMappingView>,
    i: nat,
    steps: Seq<RowStep>,
    step: RowStep,
)
    requires
        all_for_touched(old, new, i, steps),
    ensures
        all_for_touched(old, new, i + 1, steps),
        !is_untouched(old, new, i) && step_channel(step@) == old[i as int].physical_channel
            ==> all_for_touched(old, new, i + 1, steps.push(step)),
{
    assert forall|k: int| 0 <= k < steps.len() implies is_for_touched(
        old,
        new,
        i + 1,
        (#[trigger] steps[k])@,
    ) by {
        assert(is_for_touched(old, new, i, steps[k]@));
    }
    if !is_untouched(old, new, i) && step_channel(step@) == old[i as int].physical_channel {
        assert(is_for_touched(old, new, i + 1, step@));
        assert forall|k: int| 0 <= k < steps.push(step).len() implies is_for_touched(
            old,
            new,
            i + 1,
            (#[trigger] steps.push(step)[k])@,
        ) by {
            if k < steps.len() {
                assert(steps.push(step)[k] == steps[k]);
            }
        }
    }
}

proof fn lemma_nothing_touched(rows: Seq<ChannelMappingView>, i: nat)
    requires
        i <= rows.len(),
    ensures
        places_kept(rows, rows, i) == i,
    decreases i,
{
    if i > 0 {
        lemma_nothing_touched(rows, (i - 1) as nat);
    }
}

fn same_mapping(a: &ChannelMapping, b: &ChannelMapping) -> (r: bool)
    ensures
        r == (a@ == b@),
{
    a.physical_channel == b.physical_channel && a.logical_channel == b.logical_channel && a.name
        == b.name && a.enabled == b.enabled && a.order_index == b.order_index
}

/// The steps that bring stored mappings from `old` to `new`. No step is for a mapping that keeps
/// its place and is the same in `new`.
pub fn mapping_steps(old: &Vec<ChannelMapping>, new: &Vec<ChannelMapping>) -> (r: Vec<RowStep>)
    requires
        channels_differ(views(old@)),
        channels_differ(views(new@)),
    ensures
        after_steps(views(old@), views(r@)) == views(new@),
        forall|k: int, a: nat|
            0 <= k < r@.len() && a < old@.len() && #[trigger] is_untouched(
                views(old@),
                views(new@),
                a,
            ) ==> step_channel((#[trigger] r@[k])@) != old@[a as int].physical_channel,
        views(old@) == views(new@) ==> r@.len() == 0,
{
    let ghost o = views(old@);
    let ghost n = views(new@);
    let mut steps: Vec<RowStep> = Vec::new();
    let mut i: usize = 0;
    let mut j: usize = 0;
    proof {
        assert(midway(o, n, 0, 0) =~= o);
    }
    while i < old.len()
        invariant
            o == views(old@),
            n == views(new@),
            channels_differ(o),
            channels_differ(n),
            i <= old.len(),
            j <= new.len(),
            j == places_kept(o, n, i as nat),
            all_for_touched(o, n, i as nat, steps@),
            after_steps(o, views(steps@)) == midway(o, n, i as int, j as int),
            o == n ==> steps@.len() == 0,
        decreases old.len() - i,
    {
        let ghost held = steps@;
        let kept: bool = j < new.len() && new[j].physical_channel == old[i].physical_channel;
        proof {
            lemma_next(o, n, i as nat);
            assert(o[i as int] == old@[i as int]@);
            if j < new.len() {
                assert(n[j as int] == new@[j as int]@);
            }
            assert(kept == keeps_place(o, n, j as nat, i as nat));
            if o == n {
                lemma_nothing_touched(o, i as nat);
            }
        }
        if kept {
            let same: bool = same_mapping(&new[j], &old[i]);
            let step = RowStep::Rewrite { mapping: new[j].clone() };
            proof {
                lemma_still_for_touched(o, n, i as nat, held, step);
                lemma_one_more_step(o, held, step);
            }
            if !same {
                steps.push(step);
            }
            j += 1;
        } else {
            let step = RowStep::Delete { physical_channel: old[i].physical_channel };
            proof {
                lemma_still_for_touched(o, n, i as nat, held, step);
                lemma_one_more_step(o, held, step);
            }
            steps.push(step);
        }
        i += 1;
    }
    let ghost kept = places_kept(o, n, o.len());
    proof {
        assert(midway(o, n, i as int, j as int) =~= n.take(j as int));
        if o == n {
            lemma_nothing_touched(o, o.len());
        }
    }
    while j < new.len()
        invariant
            o == views(old@),
            n == views(new@),
            j <= new.len(),
            kept == places_kept(o, n, o.len()),
            kept <= j,
            forall|k: int|
                0 <= k < steps@.len() ==> is_for_touched(o, n, o.len(), (#[trigger] steps@[k])@)
                    || is_for_new(n, kept, steps@[k]@),
            after_steps(o, views(steps@)) == n.take(j as int),
            o == n ==> j == new.len() && steps@.len() == 0,
        decreases new.len() - j,
    {
        let ghost held = steps@;
        let step = RowStep::Insert { mapping: new[j].clone() };
        steps.push(step);
        proof {
            assert(step_channel(step@) == n[j as int].physical_channel);
            assert(is_for_new(n, kept, step@));
            assert forall|k: int| 0 <= k < held.len() implies is_for_touched(
                o,
                n,
                o.len(),
                (#[trigger] steps@[k])@,
            ) || is_for_new(n, kept, steps@[k]@) by {
                assert(steps@[k] == held[k]);
            }
            lemma_one_more_step(o, held, step);
            assert(n.take(j + 1) =~= n.take(j as int).push(n[j as int]));
        }
        j += 1;
    }
    assert(n.take(j as int) =~= n);
    proof {
        assert forall|k: int, a: nat|
            0 <= k < steps@.len() && a < old@.len() && #[trigger] is_untouched(
                o,
                n,
                a,
            ) implies step_channel((#[trigger] steps@[k])@) != old@[a as int].physical_channel by {
            lemma_step_spares(o, n, steps@[k]@, a);
            assert(o[a as int] == old@[a as int]@);
        }
    }
    steps
}

proof fn lemma_places_without(
    rows: Seq<ChannelMappingView>,
    tail: Seq<ChannelMappingView>,
    at: int,
    i: nat,
)
    requires
        channels_differ(rows),
        0 <= at < rows.len(),
        i <= rows.len(),
        tail.len() <= 1,
    ensures
        i <= at ==> places_kept(rows, rows.remove(at) + tail, i) == i,
        at < i < rows.len() ==> places_kept(rows, rows.remove(at) + tail, i) == i - 1,
    decreases i,
{
    let new = rows.remove(at) + tail;
    if i > 0 {
        let a = (i - 1) as nat;
        lemma_places_without(rows, tail, at, a);
        if a < at {
            assert(new[a as int] == rows[a as int]);
        } else if i < rows.len() {
            if a == at {
                assert(new[a as int] == rows[at + 1]);
                assert(rows[a as int].physical_channel != rows[at + 1].physical_channel);
            } else {
                assert(new[a - 1] == rows[a as int]);
            }
        }
    }
}

/// Writing or taking away the mapping of one channel leaves those of all others untouched.
pub proof fn law_other_mappings_are_untouched(
    rows: Seq<ChannelMappingView>,
    m: ChannelMappingView,
    a: nat,
)
    requires
        channels_differ(rows),
        a < rows.len(),
        rows[a as int].physical_channel != m.physical_channel,
    ensures
        is_untouched(rows, with_mapping(rows, m), a),
        is_untouched(rows, without_mapping(rows, m.physical_channel), a),
{
    let p = m.physical_channel;
    let none = Seq::<ChannelMappingView>::empty();
    let one = seq![m];
    if exists|at: int| 0 <= at < rows.len() && (#[trigger] rows[at]).physical_channel == p {
        let at = choose|at: int|
            0 <= at < rows.len() && (#[trigger] rows[at]).physical_channel == p;
        lemma_without_one(rows, at);
        assert(with_mapping(rows, m) =~= rows.remove(at) + one);
        assert(without_mapping(rows, p) =~= rows.remove(at) + none);
        lemma_places_without(rows, one, at, a);
        lemma_places_without(rows, none, at, a);
        if a < at {
            assert(rows.remove(at)[a as int] == rows[a as int]);
        } else {
            assert(rows.remove(at)[a - 1] == rows[a as int]);
        }
    } else {
        assert forall|i: int| 0 <= i < rows.len() implies is_not_for(p)(#[trigger] rows[i]) by {}
        lemma_keeps_all(rows, is_not_for(p));
        lemma_places_in_longer(rows, one, a);
        lemma_places_in_longer(rows, none, a);
        assert(with_mapping(rows, m) =~= rows + one);
        assert(without_mapping(rows, p) =~= rows + none);
    }
}

proof fn lemma_places_in_longer(
    rows: Seq<ChannelMappingView>,
    tail: Seq<ChannelMappingView>,
    i: nat,
)
    requires
        i <= rows.len(),
    ensures
        places_kept(rows, rows + tail, i) == i,
    decreases i,
{
    if i > 0 {
        lemma_places_in_longer(rows, tail, (i - 1) as nat);
        assert((rows + tail)[i - 1] == rows[i - 1]);
    }
}

/// A reordering touches only mappings whose place in the order changes.
pub proof fn law_reordering_touches_moved_mappings(
    rows: Seq<ChannelMappingView>,
    list: Seq<ChannelMappingView>,
    a: nat,
)
    requires
        a < rows.len(),
    ensures
        is_untouched(rows, reordered(rows, list), a) == (reordered(rows, list)[a as int]
            == rows[a as int]),
{
    lemma_places_of_reordered(rows, list, a);
}

proof fn lemma_places_of_reordered(
    rows: Seq<ChannelMappingView>,
    list: Seq<ChannelMappingView>,
    i: nat,
)
    requires
        i <= rows.len(),
    ensures
        places_kept(rows, reordered(rows, list), i) == i,
    decreases i,
{
    if i > 0 {
        lemma_places_of_reordered(rows, list, (i - 1) as nat);
    }
}

/// Whether mappings `b` are what becomes of mappings `a` by a step: one mapping is written anew where it
/// stands, or taken away, or written behind all others.
pub open spec fn follows(
    a: Seq<ChannelMappingView>,
    b: Seq<ChannelMappingView>,
    step: RowStepView,
) -> bool {
    match step {
        RowStepView::Rewrite { mapping } => b.len() == a.len() && forall|k: int|
            0 <= k < a.len() ==> #[trigger] b[k] == if a[k].physical_channel
                == mapping.physical_channel {
                mapping
            } else {
                a[k]
            },
        RowStepView::Delete { physical_channel } => b == a.filter(
            |m: ChannelMappingView| m.physical_channel != physical_channel,
        ),
        RowStepView::Insert { mapping } => b == a.push(mapping),
    }
}

proof fn lemma_follows(
    a: Seq<ChannelMappingView>,
    b: Seq<ChannelMappingView>,
    step: RowStepView,
)
    requires
        follows(a, b, step),
    ensures
        b == after_step(a, step),
{
    match step {
        RowStepView::Rewrite { mapping } => {
            assert(b =~= after_step(a, step));
        },
        RowStepView::Delete { physical_channel } => {
            assert(is_not_for(physical_channel)
                =~= |m: ChannelMappingView| m.physical_channel != physical_channel);
        },
        RowStepView::Insert { mapping } => {},
    }
}

proof fn lemma_states(
    rows: Seq<ChannelMappingView>,
    steps: Seq<RowStepView>,
    states: Seq<Seq<ChannelMappingView>>,
)
    requires
        states.len() == steps.len() + 1,
        states[0] == rows,
        forall|k: int|
            0 <= k < steps.len() ==> follows(states[k], states[k + 1], #[trigger] steps[k]),
    ensures
        states.last() == after_steps(rows, steps),
    decreases steps.len(),
{
    if steps.len() > 0 {
        let last = steps.len() - 1;
        let before = states.drop_last();
        let init = steps.drop_last();
        assert forall|k: int| 0 <= k < init.len() implies follows(
            before[k],
            before[k + 1],
            #[trigger] init[k],
        ) by {
            assert(init[k] == steps[k]);
        }
        lemma_states(rows, init, before);
        assert(follows(states[last], states[last + 1], steps[last]));
        lemma_follows(states[last], states[last + 1], steps[last]);
        assert(before.last() == states[last]);
    }
}

/// Whoever takes the steps one after the other, starting from the old mappings, ends with the new ones.
pub proof fn law_steps_lead_to_the_new_mappings(
    old: &Vec<ChannelMapping>,
    new: &Vec<ChannelMapping>,
    r: Vec<RowStep>,
    states: Seq<Seq<ChannelMappingView>>,
)
    requires
        channels_differ(views(old@)),
        channels_differ(views(new@)),
        call_ensures(mapping_steps, (old, new), r),
        states.len() == r@.len() + 1,
        states[0] == views(old@),
        forall|k: int|
            0 <= k < r@.len() ==> follows(states[k], states[k + 1], (#[trigger] r@[k])@),
    ensures
        states.last() == views(new@),
{
    let steps = views(r@);
    assert(steps.len() == r@.len());
    assert forall|k: int| 0 <= k < steps.len() implies follows(
        states[k],
        states[k + 1],
        #[trigger] steps[k],
    ) by {
        assert(steps[k] == r@[k]@);
    }
    lemma_states(views(old@), steps, states);
}

proof fn lemma_places_of_start(
    old: Seq<ChannelMappingView>,
    new: Seq<ChannelMappingView>,
    i: nat,
)
    requires
        i <= old.len(),
        i <= new.len(),
        forall|b: int| 0 <= b < i ==> #[trigger] old[b] == new[b],
    ensures
        places_kept(old, new, i) == i,
    decreases i,
{
    if i > 0 {
        lemma_places_of_start(old, new, (i - 1) as nat);
        assert(old[i - 1] == new[i - 1]);
    }
}

/// Mappings up to the first that differs are not touched, and nothing is where none differs.
pub proof fn law_same_mappings_are_spared(
    old: &Vec<ChannelMapping>,
    new: &Vec<ChannelMapping>,
    r: Vec<RowStep>,
    a: int,
    k: int,
)
    requires
        channels_differ(views(old@)),
        channels_differ(views(new@)),
        call_ensures(mapping_steps, (old, new), r),
        0 <= a < old@.len(),
        a < new@.len(),
        forall|b: int| 0 <= b <= a ==> (#[trigger] old@[b])@ == new@[b]@,
        0 <= k < r@.len(),
    ensures
        match r@[k] {
            RowStep::Rewrite { mapping } => mapping.physical_channel != old@[a].physical_channel,
            RowStep::Delete { physical_channel } => physical_channel != old@[a].physical_channel,
            RowStep::Insert { mapping } => mapping.physical_channel != old@[a].physical_channel,
        },
        views(old@) != views(new@),
{
    let o = views(old@);
    let n = views(new@);
    assert forall|b: int| 0 <= b <= a implies #[trigger] o[b] == n[b] by {
        assert(old@[b]@ == new@[b]@);
    }
    lemma_places_of_start(o, n, a as nat);
    assert(is_untouched(o, n, a as nat));
    assert(step_channel(r@[k]@) != old@[a].physical_channel);
}

} // verus!
