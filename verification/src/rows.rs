//! Lists of rows: what they hold, searching them and putting them in order.

use vstd::prelude::*;

verus! {

/// What each item of a list holds.
pub open spec fn views<T: View>(s: Seq<T>) -> Seq<T::V> {
    Seq::new(s.len(), |i: int| s[i]@)
}

/// The first item that `pred` holds of.
pub open spec fn first_where<A>(s: Seq<A>, pred: spec_fn(A) -> bool) -> Option<A>
    decreases s.len(),
{
    if s.len() == 0 {
        None
    } else if pred(s[0]) {
        Some(s[0])
    } else {
        first_where(s.skip(1), pred)
    }
}

/// Rows that are listed in the order of a number that each of them bears.
pub trait Ranked: View + Sized {
    spec fn rank(v: Self::V) -> int;

    fn rank_value(&self) -> (r: i64)
        ensures
            r == Self::rank(self@),
    ;
}

/// Whether a row bears the number `k`.
pub open spec fn has_rank<T: Ranked>(k: int) -> spec_fn(T::V) -> bool {
    |v: T::V| T::rank(v) == k
}

/// Whether the numbers of the rows nowhere go down.
pub open spec fn is_sorted<T: Ranked>(s: Seq<T::V>) -> bool {
    forall|i: int, j: int| 0 <= i <= j < s.len() ==> T::rank(s[i]) <= T::rank(s[j])
}

/// Whether `r` lists the rows of `s` in the order of their numbers, and rows with the same number
/// in the order in which they stand in `s`.
pub open spec fn lists_in_order<T: Ranked>(r: Seq<T::V>, s: Seq<T::V>) -> bool {
    &&& r.len() == s.len()
    &&& is_sorted::<T>(r)
    &&& forall|k: int| #[trigger] r.filter(has_rank::<T>(k)) == s.filter(has_rank::<T>(k))
}

/// The rows of `s` in the order of their numbers.
pub open spec fn in_order<T: Ranked>(s: Seq<T::V>) -> Seq<T::V> {
    choose|r: Seq<T::V>| #[trigger] lists_in_order::<T>(r, s)
}

pub proof fn lemma_filter_take<A>(s: Seq<A>, pred: spec_fn(A) -> bool, i: int)
    requires
        0 <= i < s.len(),
    ensures
        s.take(i + 1).filter(pred) == if pred(s[i]) {
            s.take(i).filter(pred).push(s[i])
        } else {
            s.take(i).filter(pred)
        },
{
    reveal(Seq::filter);
    assert(s.take(i + 1).drop_last() == s.take(i));
}

/// An item of the filtered list is an item of the list that the filter lets through.
pub proof fn lemma_filter_member<A>(s: Seq<A>, pred: spec_fn(A) -> bool, i: int)
    requires
        0 <= i < s.filter(pred).len(),
    ensures
        pred(s.filter(pred)[i]),
        s.contains(s.filter(pred)[i]),
{
    s.lemma_filter_pred(pred, i);
    assert(s.filter(pred).contains(s.filter(pred)[i]));
    s.lemma_filter_contains_rev(pred, s.filter(pred)[i]);
}

/// What the search finds is in the list, and what it does not find is not.
pub proof fn lemma_first_where<A>(s: Seq<A>, pred: spec_fn(A) -> bool)
    ensures
        match first_where(s, pred) {
            Some(a) => pred(a) && s.contains(a),
            None => forall|i: int| 0 <= i < s.len() ==> !pred(#[trigger] s[i]),
        },
    decreases s.len(),
{
    if s.len() > 0 {
        if pred(s[0]) {
            assert(s.contains(s[0]));
        } else {
            let rest = s.skip(1);
            lemma_first_where(rest, pred);
            match first_where(rest, pred) {
                Some(a) => {
                    let i = choose|i: int| 0 <= i < rest.len() && rest[i] == a;
                    assert(s[i + 1] == a);
                },
                None => {
                    assert forall|i: int| 0 <= i < s.len() implies !pred(#[trigger] s[i]) by {
                        if i > 0 {
                            assert(rest[i - 1] == s[i]);
                        }
                    }
                },
            }
        }
    }
}

/// Where only one item can be meant, the search finds it.
pub proof fn lemma_first_where_only<A>(s: Seq<A>, pred: spec_fn(A) -> bool, at: int)
    requires
        0 <= at < s.len(),
        pred(s[at]),
        forall|i: int| 0 <= i < s.len() && pred(#[trigger] s[i]) ==> i == at,
    ensures
        first_where(s, pred) == Some(s[at]),
    decreases s.len(),
{
    if at > 0 {
        let rest = s.skip(1);
        assert forall|i: int| 0 <= i < rest.len() && pred(#[trigger] rest[i]) implies i == at
            - 1 by {
            assert(rest[i] == s[i + 1]);
        }
        lemma_first_where_only(rest, pred, at - 1);
    }
}

proof fn lemma_filter_insert<T: Ranked>(s: Seq<T::V>, pos: int, v: T::V, k: int)
    requires
        0 <= pos <= s.len(),
        forall|i: int| pos <= i < s.len() ==> T::rank(#[trigger] s[i]) > T::rank(v),
    ensures
        s.insert(pos, v).filter(has_rank::<T>(k)) == s.push(v).filter(has_rank::<T>(k)),
{
    let p = has_rank::<T>(k);
    let a = s.take(pos);
    let b = s.skip(pos);
    let one = seq![v];
    assert(s.insert(pos, v) == a + one + b);
    assert(s.push(v) == a + b + one);
    Seq::filter_distributes_over_add(a + one, b, p);
    Seq::filter_distributes_over_add(a, one, p);
    Seq::filter_distributes_over_add(a + b, one, p);
    Seq::filter_distributes_over_add(a, b, p);
    if T::rank(v) == k {
        assert forall|i: int| 0 <= i < b.len() implies !p(#[trigger] b[i]) by {
            assert(b[i] == s[pos + i]);
        }
        b.lemma_all_neg_filter_empty(p);
        assert(b.filter(p) =~= Seq::empty());
    } else {
        reveal(Seq::filter);
        assert(one.drop_last().filter(p) =~= Seq::empty());
        assert(one.filter(p) =~= Seq::empty());
    }
    assert(s.insert(pos, v).filter(p) =~= s.push(v).filter(p));
}

/// A row that is put behind those with a number not above its own keeps the order.
proof fn lemma_insert_in_order<T: Ranked>(
    listed: Seq<T::V>,
    s: Seq<T::V>,
    pos: int,
    v: T::V,
)
    requires
        lists_in_order::<T>(listed, s),
        0 <= pos <= listed.len(),
        pos > 0 ==> T::rank(listed[pos - 1]) <= T::rank(v),
        forall|i: int| pos <= i < listed.len() ==> T::rank(#[trigger] listed[i]) > T::rank(v),
    ensures
        lists_in_order::<T>(listed.insert(pos, v), s.push(v)),
{
    let next = listed.insert(pos, v);
    assert forall|k: int| #[trigger]
        next.filter(has_rank::<T>(k)) == s.push(v).filter(has_rank::<T>(k)) by {
        lemma_filter_insert::<T>(listed, pos, v, k);
        assert(listed.filter(has_rank::<T>(k)) == s.filter(has_rank::<T>(k)));
        reveal(Seq::filter);
        assert(listed.push(v).drop_last() =~= listed);
        assert(s.push(v).drop_last() =~= s);
    }
    assert forall|i: int, j: int| 0 <= i <= j < next.len() implies T::rank(next[i]) <= T::rank(
        next[j],
    ) by {
        if j < pos {
            assert(next[i] == listed[i] && next[j] == listed[j]);
        } else if i < pos && j == pos {
            assert(next[i] == listed[i]);
            assert(T::rank(listed[i]) <= T::rank(listed[pos - 1]));
        } else if i < pos && j > pos {
            assert(next[i] == listed[i] && next[j] == listed[j - 1]);
        } else if i == pos && j > pos {
            assert(next[j] == listed[j - 1]);
        } else if i > pos {
            assert(next[i] == listed[i - 1] && next[j] == listed[j - 1]);
        }
    }
}

/// Behind how many rows of a sorted list a number belongs.
spec fn place_of<T: Ranked>(s: Seq<T::V>, k: int) -> int
    decreases s.len(),
{
    if s.len() == 0 || T::rank(s.last()) <= k {
        s.len() as int
    } else {
        place_of::<T>(s.drop_last(), k)
    }
}

proof fn lemma_place_of<T: Ranked>(s: Seq<T::V>, k: int)
    ensures
        0 <= place_of::<T>(s, k) <= s.len(),
        place_of::<T>(s, k) > 0 ==> T::rank(s[place_of::<T>(s, k) - 1]) <= k,
        forall|i: int| place_of::<T>(s, k) <= i < s.len() ==> T::rank(#[trigger] s[i]) > k,
    decreases s.len(),
{
    if s.len() > 0 && T::rank(s.last()) > k {
        lemma_place_of::<T>(s.drop_last(), k);
        let pos = place_of::<T>(s, k);
        assert forall|i: int| pos <= i < s.len() implies T::rank(#[trigger] s[i]) > k by {
            if i < s.len() - 1 {
                assert(s.drop_last()[i] == s[i]);
            }
        }
        if pos > 0 {
            assert(s.drop_last()[pos - 1] == s[pos - 1]);
        }
    }
}

/// All rows can be listed in order: `in_order` lists them so, and it lists each of them.
pub proof fn law_in_order<T: Ranked>(s: Seq<T::V>)
    ensures
        lists_in_order::<T>(in_order::<T>(s), s),
        forall|v: T::V| #[trigger] in_order::<T>(s).contains(v) == s.contains(v),
{
    let witness = lemma_order_exists::<T>(s);
    assert(lists_in_order::<T>(witness, s));
    let r = in_order::<T>(s);
    assert forall|v: T::V| #[trigger] r.contains(v) == s.contains(v) by {
        let p = has_rank::<T>(T::rank(v));
        assert(r.filter(p) == s.filter(p));
        if r.contains(v) {
            let i = r.index_of(v);
            r.lemma_filter_contains(p, i);
            s.lemma_filter_contains_rev(p, v);
        }
        if s.contains(v) {
            let i = s.index_of(v);
            s.lemma_filter_contains(p, i);
            r.lemma_filter_contains_rev(p, v);
        }
    }
}

proof fn lemma_order_exists<T: Ranked>(s: Seq<T::V>) -> (r: Seq<T::V>)
    ensures
        lists_in_order::<T>(r, s),
    decreases s.len(),
{
    if s.len() == 0 {
        s
    } else {
        let listed = lemma_order_exists::<T>(s.drop_last());
        let k = T::rank(s.last());
        lemma_place_of::<T>(listed, k);
        let pos = place_of::<T>(listed, k);
        lemma_insert_in_order::<T>(listed, s.drop_last(), pos, s.last());
        assert(s =~= s.drop_last().push(s.last()));
        listed.insert(pos, s.last())
    }
}

/// There is only one way to list rows in order.
pub proof fn law_order_is_unique<T: Ranked>(a: Seq<T::V>, b: Seq<T::V>, s: Seq<T::V>)
    requires
        lists_in_order::<T>(a, s),
        lists_in_order::<T>(b, s),
    ensures
        a == b,
{
    assert forall|k: int| #[trigger]
        a.filter(has_rank::<T>(k)) == b.filter(has_rank::<T>(k)) by {
        assert(a.filter(has_rank::<T>(k)) == s.filter(has_rank::<T>(k)));
        assert(b.filter(has_rank::<T>(k)) == s.filter(has_rank::<T>(k)));
    }
    lemma_same_ranks::<T>(a, b);
}

proof fn lemma_same_ranks<T: Ranked>(a: Seq<T::V>, b: Seq<T::V>)
    requires
        a.len() == b.len(),
        is_sorted::<T>(a),
        is_sorted::<T>(b),
        forall|k: int| #[trigger] a.filter(has_rank::<T>(k)) == b.filter(has_rank::<T>(k)),
    ensures
        a == b,
    decreases a.len(),
{
    if a.len() == 0 {
        assert(a =~= b);
    } else {
        let ka = T::rank(a.last());
        let kb = T::rank(b.last());
        lemma_last_of_rank::<T>(a, b);
        lemma_last_of_rank::<T>(b, a);
        assert(ka == kb);
        reveal(Seq::filter);
        let fa = a.filter(has_rank::<T>(ka));
        let fb = b.filter(has_rank::<T>(ka));
        assert(fa.last() == a.last());
        assert(fb.last() == b.last());
        assert forall|k: int| #[trigger]
            a.drop_last().filter(has_rank::<T>(k)) == b.drop_last().filter(has_rank::<T>(k)) by {
            let p = has_rank::<T>(k);
            assert(a.filter(p) == b.filter(p));
            if k == ka {
                assert(a.filter(p).drop_last() =~= a.drop_last().filter(p));
                assert(b.filter(p).drop_last() =~= b.drop_last().filter(p));
            }
        }
        lemma_same_ranks::<T>(a.drop_last(), b.drop_last());
        assert(a =~= a.drop_last().push(a.last()));
        assert(b =~= b.drop_last().push(b.last()));
    }
}

/// The last number of a sorted list is at least that of a list with the same rows.
proof fn lemma_last_of_rank<T: Ranked>(a: Seq<T::V>, b: Seq<T::V>)
    requires
        a.len() > 0,
        b.len() > 0,
        is_sorted::<T>(a),
        is_sorted::<T>(b),
        forall|k: int| #[trigger] a.filter(has_rank::<T>(k)) == b.filter(has_rank::<T>(k)),
    ensures
        T::rank(a.last()) <= T::rank(b.last()),
{
    let k = T::rank(a.last());
    let p = has_rank::<T>(k);
    reveal(Seq::filter);
    assert(a.filter(p).len() > 0);
    assert(b.filter(p).len() > 0);
    lemma_filter_member(b, p, 0);
    let i = b.index_of(b.filter(p)[0]);
    assert(T::rank(b[i]) <= T::rank(b[b.len() - 1]));
}

/// Puts rows in order.
pub fn put_in_order<T: Ranked>(rows: Vec<T>) -> (r: Vec<T>)
    ensures
        views(r@) == in_order::<T>(views(rows@)),
        lists_in_order::<T>(views(r@), views(rows@)),
{
    let mut rest: Vec<T> = rows;
    let mut out: Vec<T> = Vec::new();
    let ghost all = views(rows@);
    let ghost mut done: int = 0;
    proof {
        assert(all.take(0) =~= views(out@));
        assert(views(rest@) =~= all.skip(0));
    }
    while rest.len() > 0
        invariant
            0 <= done <= all.len(),
            views(rest@) == all.skip(done),
            lists_in_order::<T>(views(out@), all.take(done)),
        decreases rest.len(),
    {
        assert(views(rest@).len() == rest@.len());
        assert(rest@[0]@ == views(rest@)[0]);
        assert(all.skip(done)[0] == all[done]);
        let ghost before = rest@;
        let item: T = rest.remove(0);
        let rank: i64 = item.rank_value();
        let mut pos: usize = out.len();
        assert(item@ == all[done]);
        let ghost listed = views(out@);
        while pos > 0 && out[pos - 1].rank_value() > rank
            invariant
                pos <= out.len(),
                rank == T::rank(item@),
                listed == views(out@),
                forall|i: int| pos <= i < out.len() ==> T::rank(#[trigger] listed[i]) > rank,
            decreases pos,
        {
            assert(listed[pos - 1] == out@[pos - 1]@);
            pos -= 1;
        }
        proof {
            if pos > 0 {
                assert(listed[pos - 1] == out@[pos - 1]@);
            }
        }
        out.insert(pos, item);
        proof {
            assert(views(out@) =~= listed.insert(pos as int, item@));
            assert(all.take(done + 1) =~= all.take(done).push(item@));
            lemma_insert_in_order::<T>(listed, all.take(done), pos as int, item@);
            assert forall|i: int| 0 <= i < rest@.len() implies #[trigger] views(rest@)[i]
                == all.skip(done + 1)[i] by {
                assert(rest@[i] == before[i + 1]);
                assert(views(before)[i + 1] == all.skip(done)[i + 1]);
            }
            assert(views(rest@) =~= all.skip(done + 1));
            done = done + 1;
        }
    }
    assert(all.take(done) =~= all);
    proof {
        law_order_is_unique::<T>(views(out@), in_order::<T>(all), all);
    }
    out
}

/// Putting rows in order loses none and adds none, and their numbers nowhere go down.
pub proof fn law_rows_are_put_in_order<T: Ranked>(
    rows: Vec<T>,
    r: Vec<T>,
    v: T::V,
    i: int,
    j: int,
)
    requires
        call_ensures(put_in_order::<T>, (rows,), r),
    ensures
        r@.len() == rows@.len(),
        views(r@).contains(v) <==> views(rows@).contains(v),
        0 <= i <= j < r@.len() ==> T::rank(r@[i]@) <= T::rank(r@[j]@),
{
    let s = views(rows@);
    law_in_order::<T>(s);
    assert(views(r@).len() == r@.len());
    assert(in_order::<T>(s).contains(v) == s.contains(v));
    if 0 <= i <= j < r@.len() {
        assert(views(r@)[i] == r@[i]@ && views(r@)[j] == r@[j]@);
    }
}

} // verus!
