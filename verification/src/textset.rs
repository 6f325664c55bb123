//! Lists of texts in order.
use vstd::prelude::*;

use crate::text;

verus! {

/// Whether each text is less than those behind it.
pub open spec fn ascending(s: Seq<Seq<char>>) -> bool {
    forall|i: int, j: int| 0 <= i < j < s.len() ==> text::text_lt(#[trigger] s[i], #[trigger] s[j])
}

/// An ascending list with `t` in its place, unless it is there already.
pub open spec fn with_text(s: Seq<Seq<char>>, t: Seq<char>) -> Seq<Seq<char>>
    decreases s.len(),
{
    if s.len() == 0 || text::text_lt(s.last(), t) {
        s.push(t)
    } else if s.last() == t {
        s
    } else {
        with_text(s.drop_last(), t).push(s.last())
    }
}

/// The texts of a list, each once, in ascending order.
pub open spec fn set_of(ts: Seq<Seq<char>>) -> Seq<Seq<char>>
    decreases ts.len(),
{
    if ts.len() == 0 {
        Seq::empty()
    } else {
        with_text(set_of(ts.drop_last()), ts.last())
    }
}

proof fn lemma_with_text(s: Seq<Seq<char>>, t: Seq<char>)
    requires
        ascending(s),
    ensures
        ascending(with_text(s, t)),
        forall|u: Seq<char>| #[trigger] with_text(s, t).contains(u) <==> s.contains(u) || u == t,
    decreases s.len(),
{
    let r = with_text(s, t);
    if s.len() == 0 || text::text_lt(s.last(), t) {
        assert forall|i: int, j: int| 0 <= i < j < r.len() implies text::text_lt(#[trigger] r[i], #[trigger] r[j]) by {
            if j == s.len() && i < s.len() - 1 {
                text::lemma_lt_transitive(s[i], s[s.len() - 1], t);
            }
        }
        assert forall|u: Seq<char>| #[trigger] r.contains(u) <==> s.contains(u) || u == t by {
            if s.contains(u) {
                assert(r[s.index_of(u)] == u);
            }
            assert(r[s.len() as int] == t);
        }
    } else if s.last() == t {
        assert(s[s.len() - 1] == t);
    } else {
        let front = s.drop_last();
        let last = s.last();
        assert forall|i: int, j: int| 0 <= i < j < front.len() implies text::text_lt(
            #[trigger] front[i],
            #[trigger] front[j],
        ) by {
            assert(text::text_lt(s[i], s[j]));
        }
        lemma_with_text(front, t);
        let f = with_text(front, t);
        text::lemma_lt_total(t, last);
        assert forall|i: int, j: int| 0 <= i < j < r.len() implies text::text_lt(#[trigger] r[i], #[trigger] r[j]) by {
            if j == f.len() {
                assert(f.contains(f[i]));
                if f[i] != t {
                    let m = front.index_of(f[i]);
                    assert(s[m] == f[i]);
                    assert(text::text_lt(s[m], s[s.len() - 1]));
                }
            } else {
                assert(r[i] == f[i] && r[j] == f[j]);
            }
        }
        assert forall|u: Seq<char>| #[trigger] r.contains(u) <==> s.contains(u) || u == t by {
            if s.contains(u) {
                let m = s.index_of(u);
                if m < front.len() {
                    assert(front[m] == u);
                    assert(f.contains(u));
                }
            }
            if f.contains(u) {
                assert(r[f.index_of(u)] == u);
            }
            assert(r[f.len() as int] == last);
            assert(s[s.len() - 1] == last);
            if front.contains(u) {
                assert(s[front.index_of(u)] == u);
            }
            if r.contains(u) {
                let m = r.index_of(u);
                if m < f.len() {
                    assert(f[m] == u);
                }
            }
        }
    }
}

/// A set is in ascending order, without duplicates, and holds exactly the texts
/// of the list.
pub proof fn law_set_is_ascending(ts: Seq<Seq<char>>)
    ensures
        ascending(set_of(ts)),
        set_of(ts).no_duplicates(),
        forall|u: Seq<char>| #[trigger] set_of(ts).contains(u) <==> ts.contains(u),
    decreases ts.len(),
{
    if ts.len() > 0 {
        let front = ts.drop_last();
        law_set_is_ascending(front);
        lemma_with_text(set_of(front), ts.last());
        assert forall|u: Seq<char>| #[trigger] set_of(ts).contains(u) <==> ts.contains(u) by {
            if ts.contains(u) {
                let m = ts.index_of(u);
                if m < front.len() {
                    assert(front[m] == u);
                }
            }
            if front.contains(u) {
                assert(ts[front.index_of(u)] == u);
            }
            assert(ts[ts.len() - 1] == ts.last());
        }
    }
    let s = set_of(ts);
    assert forall|i: int, j: int| 0 <= i < s.len() && 0 <= j < s.len() && i != j implies s[i] != s[j] by {
        text::lemma_lt_irreflexive(s[i]);
        if i < j {
            assert(text::text_lt(s[i], s[j]));
        } else {
            assert(text::text_lt(s[j], s[i]));
        }
    }
}

/// Puts a text in its place in an ascending list, unless it is there already.
pub fn add_text(s: &mut Vec<String>, t: String)
    requires
        ascending(text::texts(old(s)@)),
    ensures
        text::texts(final(s)@) == with_text(text::texts(old(s)@), t@),
        ascending(text::texts(final(s)@)),
{
    let ghost was = text::texts(s@);
    proof {
        lemma_with_text(was, t@);
    }
    let mut at: usize = s.len();
    let ghost mut behind = Seq::<Seq<char>>::empty();
    assert(was.take(at as int) =~= was);
    assert(with_text(was, t@) =~= with_text(was.take(at as int), t@) + behind);
    while at > 0 && text::text_less(t.as_str(), s[at - 1].as_str())
        invariant
            text::texts(s@) == was,
            at <= s.len(),
            behind == was.skip(at as int),
            with_text(was, t@) == with_text(was.take(at as int), t@) + behind,
        decreases at,
    {
        proof {
            let now = was.take(at as int);
            let less = was.take(at - 1);
            let last = was[at - 1];
            assert(last == s@[at - 1]@);
            assert(now.last() == last);
            assert(now.drop_last() =~= less);
            if text::text_lt(last, t@) {
                text::lemma_lt_transitive(t@, last, t@);
                text::lemma_lt_irreflexive(t@);
            }
            text::lemma_lt_irreflexive(t@);
            assert(with_text(now, t@) == with_text(less, t@).push(last));
            assert(with_text(less, t@).push(last) + behind =~= with_text(less, t@) + (seq![last] + behind));
            assert(was.skip(at - 1) =~= seq![last] + behind);
            behind = seq![last] + behind;
        }
        at = at - 1;
    }
    if at > 0 && text::same_text(t.as_str(), s[at - 1].as_str()) {
        proof {
            let now = was.take(at as int);
            assert(now.last() == s@[at - 1]@);
            text::lemma_lt_irreflexive(t@);
            assert(with_text(now, t@) == now);
            assert(now + behind =~= was);
        }
        return ;
    }
    proof {
        let now = was.take(at as int);
        if at > 0 {
            assert(now.last() == s@[at - 1]@);
            text::lemma_lt_total(now.last(), t@);
        }
        assert(with_text(now, t@) == now.push(t@));
        assert(text::texts(s@.insert(at as int, t)) =~= now.push(t@) + behind);
    }
    s.insert(at, t);
}

/// A sorted list with `t` behind every text that is not greater.
pub open spec fn placed(s: Seq<Seq<char>>, t: Seq<char>) -> Seq<Seq<char>>
    decreases s.len(),
{
    if s.len() == 0 || !text::text_lt(t, s.last()) {
        s.push(t)
    } else {
        placed(s.drop_last(), t).push(s.last())
    }
}

/// The texts of a list in order.
pub open spec fn sorted(ts: Seq<Seq<char>>) -> Seq<Seq<char>>
    decreases ts.len(),
{
    if ts.len() == 0 {
        Seq::empty()
    } else {
        placed(sorted(ts.drop_last()), ts.last())
    }
}

proof fn lemma_placed(s: Seq<Seq<char>>, t: Seq<char>)
    requires
        forall|i: int, j: int| 0 <= i < j < s.len() ==> !text::text_lt(#[trigger] s[j], #[trigger] s[i]),
    ensures
        placed(s, t).to_multiset() == s.to_multiset().insert(t),
        forall|u: Seq<char>| #[trigger] placed(s, t).contains(u) ==> s.contains(u) || u == t,
        forall|i: int, j: int|
            0 <= i < j < placed(s, t).len() ==> !text::text_lt(#[trigger] placed(s, t)[j], #[trigger] placed(s, t)[i]),
    decreases s.len(),
{
    broadcast use vstd::seq_lib::group_to_multiset_ensures;

    let r = placed(s, t);
    if s.len() == 0 || !text::text_lt(t, s.last()) {
        assert forall|i: int, j: int| 0 <= i < j < r.len() implies !text::text_lt(#[trigger] r[j], #[trigger] r[i]) by {
            if j == s.len() && i < s.len() - 1 && text::text_lt(t, s[i]) {
                text::lemma_lt_total(s[i], s[s.len() - 1]);
                if text::text_lt(s[i], s[s.len() - 1]) {
                    text::lemma_lt_transitive(t, s[i], s[s.len() - 1]);
                }
            }
        }
    } else {
        let front = s.drop_last();
        let last = s.last();
        assert forall|i: int, j: int| 0 <= i < j < front.len() implies !text::text_lt(
            #[trigger] front[j],
            #[trigger] front[i],
        ) by {
            assert(!text::text_lt(s[j], s[i]));
        }
        lemma_placed(front, t);
        let f = placed(front, t);
        assert(front.push(last) =~= s);
        assert(r.to_multiset() =~= s.to_multiset().insert(t));
        assert forall|u: Seq<char>| #[trigger] r.contains(u) implies s.contains(u) || u == t by {
            let m = r.index_of(u);
            if m < f.len() {
                assert(f[m] == u);
                assert(f.contains(u));
                if front.contains(u) {
                    assert(s[front.index_of(u)] == u);
                }
            } else {
                assert(s[s.len() - 1] == u);
            }
        }
        assert forall|i: int, j: int| 0 <= i < j < r.len() implies !text::text_lt(#[trigger] r[j], #[trigger] r[i]) by {
            if j == f.len() {
                assert(f.contains(f[i]));
                if f[i] == t {
                    if text::text_lt(last, t) {
                        text::lemma_lt_transitive(t, last, t);
                        text::lemma_lt_irreflexive(t);
                    }
                } else {
                    let m = front.index_of(f[i]);
                    assert(s[m] == f[i]);
                    assert(!text::text_lt(s[s.len() - 1], s[m]));
                }
            } else {
                assert(r[i] == f[i] && r[j] == f[j]);
            }
        }
    }
}

/// Sorting changes the order alone, and puts no text behind a greater one.
pub proof fn law_sorted_is_in_order(ts: Seq<Seq<char>>)
    ensures
        sorted(ts).to_multiset() == ts.to_multiset(),
        forall|i: int, j: int|
            0 <= i < j < sorted(ts).len() ==> !text::text_lt(#[trigger] sorted(ts)[j], #[trigger] sorted(ts)[i]),
    decreases ts.len(),
{
    broadcast use vstd::seq_lib::group_to_multiset_ensures;

    if ts.len() > 0 {
        law_sorted_is_in_order(ts.drop_last());
        lemma_placed(sorted(ts.drop_last()), ts.last());
        assert(ts.drop_last().push(ts.last()) =~= ts);
    } else {
        assert(ts =~= Seq::<Seq<char>>::empty());
    }
}

fn place(s: &mut Vec<String>, t: String)
    ensures
        text::texts(final(s)@) == placed(text::texts(old(s)@), t@),
{
    let ghost was = text::texts(s@);
    let mut at: usize = s.len();
    let ghost mut behind = Seq::<Seq<char>>::empty();
    assert(was.take(at as int) =~= was);
    assert(placed(was, t@) =~= placed(was.take(at as int), t@) + behind);
    while at > 0 && text::text_less(t.as_str(), s[at - 1].as_str())
        invariant
            text::texts(s@) == was,
            at <= s.len(),
            behind == was.skip(at as int),
            placed(was, t@) == placed(was.take(at as int), t@) + behind,
        decreases at,
    {
        proof {
            let now = was.take(at as int);
            let less = was.take(at - 1);
            let last = was[at - 1];
            assert(last == s@[at - 1]@);
            assert(now.drop_last() =~= less);
            assert(placed(now, t@) == placed(less, t@).push(last));
            assert(placed(less, t@).push(last) + behind =~= placed(less, t@) + (seq![last] + behind));
            assert(was.skip(at - 1) =~= seq![last] + behind);
            behind = seq![last] + behind;
        }
        at = at - 1;
    }
    proof {
        let now = was.take(at as int);
        if at > 0 {
            assert(now.last() == s@[at - 1]@);
        }
        assert(placed(now, t@) == now.push(t@));
        assert(text::texts(s@.insert(at as int, t)) =~= now.push(t@) + behind);
    }
    s.insert(at, t);
}

/// The texts of a list in order.
pub fn sort(ts: &Vec<String>) -> (r: Vec<String>)
    ensures
        text::texts(r@) == sorted(text::texts(ts@)),
{
    let ghost all = text::texts(ts@);
    let mut out: Vec<String> = Vec::new();
    let mut i: usize = 0;
    assert(text::texts(out@) =~= sorted(all.take(0)));
    while i < ts.len()
        invariant
            i <= ts.len(),
            all == text::texts(ts@),
            text::texts(out@) == sorted(all.take(i as int)),
        decreases ts.len() - i,
    {
        assert(all.take(i + 1).drop_last() =~= all.take(i as int));
        assert(all.take(i + 1).last() == ts@[i as int]@);
        place(&mut out, ts[i].clone());
        i = i + 1;
    }
    assert(all.take(i as int) =~= all);
    out
}

} // verus!
