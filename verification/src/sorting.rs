//! Stable insertion sort over the items of a category, for the two orders
//! the shell offers: ascending by title and newest-first by creation
//! timestamp. The specification pins the exact (stable) result; ordering
//! and permutation facts are proved on top of it.
use vstd::prelude::*;
use vstd::seq_lib::lemma_multiset_commutative;

use crate::model::{rerank, with_order, Category, Item, ItemModel};
use crate::strutil::{lemma_lex_le_total, lex_le, str_le};

verus! {

/// Ascending lexicographic order of the titles.
pub open spec fn title_le(a: ItemModel, b: ItemModel) -> bool {
    lex_le(a.title, b.title)
}

/// Newest first: `a` comes before `b` when `b`'s timestamp is no later.
pub open spec fn date_ge(a: ItemModel, b: ItemModel) -> bool {
    lex_le(b.created_at, a.created_at)
}

/// The title order as a first-class comparison.
pub open spec fn title_le_fn() -> spec_fn(ItemModel, ItemModel) -> bool {
    |a: ItemModel, b: ItemModel| title_le(a, b)
}

/// The newest-first order as a first-class comparison.
pub open spec fn date_ge_fn() -> spec_fn(ItemModel, ItemModel) -> bool {
    |a: ItemModel, b: ItemModel| date_ge(a, b)
}

/// `x` inserted after every leading element that satisfies `leq(_, x)`:
/// the stable insertion step.
pub open spec fn insert_by(
    leq: spec_fn(ItemModel, ItemModel) -> bool,
    s: Seq<ItemModel>,
    x: ItemModel,
) -> Seq<ItemModel>
    decreases s.len(),
{
    if s.len() == 0 {
        seq![x]
    } else if leq(s[0], x) {
        seq![s[0]] + insert_by(leq, s.drop_first(), x)
    } else {
        seq![x] + s
    }
}

/// Stable insertion sort, element by element from the left.
pub open spec fn sort_by_ins(
    leq: spec_fn(ItemModel, ItemModel) -> bool,
    s: Seq<ItemModel>,
) -> Seq<ItemModel>
    decreases s.len(),
{
    if s.len() == 0 {
        Seq::empty()
    } else {
        insert_by(leq, sort_by_ins(leq, s.drop_last()), s.last())
    }
}

/// Every adjacent pair is ordered.
pub open spec fn ordered_by(leq: spec_fn(ItemModel, ItemModel) -> bool, s: Seq<ItemModel>) -> bool {
    forall|i: int| 0 <= i && i + 1 < s.len() ==> leq(#[trigger] s[i], s[i + 1])
}

/// The insertion step lands exactly at the first position whose element
/// does not satisfy `leq(_, x)`.
proof fn lemma_insert_by_at(
    leq: spec_fn(ItemModel, ItemModel) -> bool,
    s: Seq<ItemModel>,
    x: ItemModel,
    j: int,
)
    requires
        0 <= j <= s.len(),
        forall|k: int| 0 <= k < j ==> leq(#[trigger] s[k], x),
        j < s.len() ==> !leq(s[j], x),
    ensures
        insert_by(leq, s, x) == s.take(j) + seq![x] + s.skip(j),
    decreases s.len(),
{
    if s.len() == 0 {
        assert(insert_by(leq, s, x) =~= s.take(j) + seq![x] + s.skip(j));
    } else if j == 0 {
        assert(insert_by(leq, s, x) =~= s.take(0) + seq![x] + s.skip(0));
    } else {
        assert(leq(s[0], x));
        lemma_insert_by_at(leq, s.drop_first(), x, j - 1);
        assert(s.drop_first().take(j - 1) =~= s.take(j).drop_first());
        assert(s.drop_first().skip(j - 1) =~= s.skip(j));
        assert(seq![s[0]] + (s.drop_first().take(j - 1) + seq![x] + s.drop_first().skip(j - 1))
            =~= s.take(j) + seq![x] + s.skip(j));
    }
}

/// Inserting adds exactly one occurrence of `x` to the contents.
proof fn lemma_insert_by_multiset(
    leq: spec_fn(ItemModel, ItemModel) -> bool,
    s: Seq<ItemModel>,
    x: ItemModel,
)
    ensures
        insert_by(leq, s, x).to_multiset() == s.to_multiset().insert(x),
    decreases s.len(),
{
    broadcast use vstd::seq_lib::group_to_multiset_ensures;

    if s.len() == 0 {
        assert(seq![x] =~= Seq::<ItemModel>::empty().push(x));
        assert(insert_by(leq, s, x).to_multiset() =~= s.to_multiset().insert(x));
    } else if leq(s[0], x) {
        lemma_insert_by_multiset(leq, s.drop_first(), x);
        lemma_multiset_commutative(seq![s[0]], insert_by(leq, s.drop_first(), x));
        lemma_multiset_commutative(seq![s[0]], s.drop_first());
        assert(seq![s[0]] + s.drop_first() =~= s);
        assert(insert_by(leq, s, x).to_multiset() =~= s.to_multiset().insert(x));
    } else {
        lemma_multiset_commutative(seq![x], s);
        assert(insert_by(leq, s, x).to_multiset() =~= s.to_multiset().insert(x));
    }
}

/// Sorting permutes the items: the contents as a multiset are unchanged.
pub proof fn lemma_sort_by_ins_permutes(leq: spec_fn(ItemModel, ItemModel) -> bool, s: Seq<ItemModel>)
    ensures
        sort_by_ins(leq, s).to_multiset() == s.to_multiset(),
    decreases s.len(),
{
    broadcast use vstd::seq_lib::group_to_multiset_ensures;

    if s.len() > 0 {
        lemma_sort_by_ins_permutes(leq, s.drop_last());
        lemma_insert_by_multiset(leq, sort_by_ins(leq, s.drop_last()), s.last());
        assert(s =~= s.drop_last().push(s.last()));
        assert(s.drop_last().push(s.last()).to_multiset() =~= s.drop_last().to_multiset().insert(
            s.last(),
        ));
    }
}

/// Inserting keeps the length bookkeeping straight.
proof fn lemma_insert_by_len(leq: spec_fn(ItemModel, ItemModel) -> bool, s: Seq<ItemModel>, x: ItemModel)
    ensures
        insert_by(leq, s, x).len() == s.len() + 1,
    decreases s.len(),
{
    if s.len() > 0 && leq(s[0], x) {
        lemma_insert_by_len(leq, s.drop_first(), x);
    }
}

/// Inserting into an adjacently ordered sequence keeps it ordered, for a
/// total `leq`.
proof fn lemma_insert_by_ordered(
    leq: spec_fn(ItemModel, ItemModel) -> bool,
    s: Seq<ItemModel>,
    x: ItemModel,
)
    requires
        forall|a: ItemModel, b: ItemModel| #[trigger] leq(a, b) || leq(b, a),
        ordered_by(leq, s),
    ensures
        ordered_by(leq, insert_by(leq, s, x)),
    decreases s.len(),
{
    if s.len() == 0 {
    } else if leq(s[0], x) {
        let d = s.drop_first();
        assert forall|i: int| 0 <= i && i + 1 < d.len() implies leq(#[trigger] d[i], d[i + 1]) by {
            assert(d[i] == s[i + 1]);
            assert(d[i + 1] == s[i + 2]);
            assert(leq(s[i + 1], s[i + 2]));
        }
        lemma_insert_by_ordered(leq, d, x);
        lemma_insert_by_len(leq, d, x);
        let b = insert_by(leq, d, x);
        let t = seq![s[0]] + b;
        assert forall|i: int| 0 <= i && i + 1 < t.len() implies leq(#[trigger] t[i], t[i + 1]) by {
            if i == 0 {
                assert(t[0] == s[0]);
                assert(t[1] == b[0]);
                if d.len() == 0 {
                    assert(b[0] == x);
                    assert(leq(s[0], x));
                } else if leq(d[0], x) {
                    assert(b[0] == d[0]);
                    assert(d[0] == s[1]);
                    assert(leq(s[0], s[1]));
                } else {
                    assert(b[0] == x);
                    assert(leq(s[0], x));
                }
            } else {
                assert(t[i] == b[i - 1]);
                assert(t[i + 1] == b[i]);
                assert(leq(b[i - 1], b[i]));
            }
        }
    } else {
        assert(leq(x, s[0]));
        let t = seq![x] + s;
        assert forall|i: int| 0 <= i && i + 1 < t.len() implies leq(#[trigger] t[i], t[i + 1]) by {
            if i > 0 {
                assert(t[i] == s[i - 1]);
            }
        }
    }
}

/// Insertion sort yields an adjacently ordered sequence, for a total `leq`.
pub proof fn lemma_sort_by_ins_ordered(leq: spec_fn(ItemModel, ItemModel) -> bool, s: Seq<ItemModel>)
    requires
        forall|a: ItemModel, b: ItemModel| #[trigger] leq(a, b) || leq(b, a),
    ensures
        ordered_by(leq, sort_by_ins(leq, s)),
    decreases s.len(),
{
    if s.len() > 0 {
        lemma_sort_by_ins_ordered(leq, s.drop_last());
        lemma_insert_by_ordered(leq, sort_by_ins(leq, s.drop_last()), s.last());
    }
}

/// The title order is total.
pub proof fn lemma_title_le_total()
    ensures
        forall|a: ItemModel, b: ItemModel| #[trigger] title_le(a, b) || title_le(b, a),
{
    assert forall|a: ItemModel, b: ItemModel| #[trigger] title_le(a, b) || title_le(b, a) by {
        lemma_lex_le_total(a.title, b.title);
    }
}

/// The newest-first order is total.
pub proof fn lemma_date_ge_total()
    ensures
        forall|a: ItemModel, b: ItemModel| #[trigger] date_ge(a, b) || date_ge(b, a),
{
    assert forall|a: ItemModel, b: ItemModel| #[trigger] date_ge(a, b) || date_ge(b, a) by {
        lemma_lex_le_total(a.created_at, b.created_at);
    }
}

/// Re-ranking rewrites only the ranks, so an order that ignores them is
/// kept.
pub proof fn lemma_rerank_keeps_order(leq: spec_fn(ItemModel, ItemModel) -> bool, s: Seq<ItemModel>)
    requires
        forall|a: ItemModel, b: ItemModel, oa: nat, ob: nat| #[trigger] leq(
            with_order(a, oa),
            with_order(b, ob),
        ) == leq(a, b),
        ordered_by(leq, s),
    ensures
        ordered_by(leq, rerank(s)),
{
    assert forall|i: int| 0 <= i && i + 1 < rerank(s).len() implies leq(
        #[trigger] rerank(s)[i],
        rerank(s)[i + 1],
    ) by {
        assert(rerank(s).len() == s.len());
        assert(leq(s[i], s[i + 1]));
        assert(rerank(s)[i] == with_order(s[i], i as nat));
        assert(rerank(s)[i + 1] == with_order(s[i + 1], (i + 1) as nat));
        assert(leq(with_order(s[i], i as nat), with_order(s[i + 1], (i + 1) as nat)) == leq(
            s[i],
            s[i + 1],
        ));
    }
}

/// Inserts `x` into an accumulating vector at the stable position for the
/// title order.
fn insert_sorted_title(sorted: &mut Vec<Item>, x: Item)
    ensures
        final(sorted).deep_view() == insert_by(title_le_fn(), old(sorted).deep_view(), x@),
{
    let mut j: usize = 0;
    while j < sorted.len() && str_le(sorted[j].title.as_str(), x.title.as_str())
        invariant
            *sorted == *old(sorted),
            j <= sorted.len(),
            forall|k: int| 0 <= k < j ==> title_le(#[trigger] sorted.deep_view()[k], x@),
        decreases sorted.len() - j,
    {
        j += 1;
    }
    let ghost pre = sorted.deep_view();
    proof {
        lemma_insert_by_at(title_le_fn(), pre, x@, j as int);
    }
    sorted.insert(j, x);
    proof {
        assert(sorted.deep_view() =~= pre.take(j as int) + seq![x@] + pre.skip(j as int));
    }
}

/// Inserts `x` into an accumulating vector at the stable position for the
/// newest-first order.
fn insert_sorted_date(sorted: &mut Vec<Item>, x: Item)
    ensures
        final(sorted).deep_view() == insert_by(date_ge_fn(), old(sorted).deep_view(), x@),
{
    let mut j: usize = 0;
    while j < sorted.len() && str_le(x.created_at.as_str(), sorted[j].created_at.as_str())
        invariant
            *sorted == *old(sorted),
            j <= sorted.len(),
            forall|k: int| 0 <= k < j ==> date_ge(#[trigger] sorted.deep_view()[k], x@),
        decreases sorted.len() - j,
    {
        j += 1;
    }
    let ghost pre = sorted.deep_view();
    proof {
        lemma_insert_by_at(date_ge_fn(), pre, x@, j as int);
    }
    sorted.insert(j, x);
    proof {
        assert(sorted.deep_view() =~= pre.take(j as int) + seq![x@] + pre.skip(j as int));
    }
}

impl Category {
    /// Ascending lexicographic sort on the titles (stable), then re-rank.
    pub fn sort_by_title(&mut self)
        ensures
            final(self)@.name == old(self)@.name,
            final(self)@.items == rerank(sort_by_ins(title_le_fn(), old(self)@.items)),
            final(self).wf(),
    {
        let n = self.items.len();
        let mut sorted: Vec<Item> = Vec::new();
        let mut i: usize = 0;
        proof {
            assert(sorted.deep_view() =~= sort_by_ins(title_le_fn(), old(self)@.items.take(0)));
        }
        while i < n
            invariant
                n == self.items.len(),
                self@ == old(self)@,
                i <= n,
                sorted.deep_view() == sort_by_ins(title_le_fn(), old(self)@.items.take(i as int)),
            decreases n - i,
        {
            insert_sorted_title(&mut sorted, self.items[i].clone());
            proof {
                assert(old(self)@.items.take(i + 1).drop_last() =~= old(self)@.items.take(i as int));
                assert(old(self)@.items.take(i + 1).last() == old(self)@.items[i as int]);
            }
            i += 1;
        }
        proof {
            assert(old(self)@.items.take(n as int) =~= old(self)@.items);
        }
        self.items = sorted;
        self.reorder_items();
    }

    /// Newest-first sort on the creation timestamps (stable), then re-rank.
    pub fn sort_by_date(&mut self)
        ensures
            final(self)@.name == old(self)@.name,
            final(self)@.items == rerank(sort_by_ins(date_ge_fn(), old(self)@.items)),
            final(self).wf(),
    {
        let n = self.items.len();
        let mut sorted: Vec<Item> = Vec::new();
        let mut i: usize = 0;
        proof {
            assert(sorted.deep_view() =~= sort_by_ins(date_ge_fn(), old(self)@.items.take(0)));
        }
        while i < n
            invariant
                n == self.items.len(),
                self@ == old(self)@,
                i <= n,
                sorted.deep_view() == sort_by_ins(date_ge_fn(), old(self)@.items.take(i as int)),
            decreases n - i,
        {
            insert_sorted_date(&mut sorted, self.items[i].clone());
            proof {
                assert(old(self)@.items.take(i + 1).drop_last() =~= old(self)@.items.take(i as int));
                assert(old(self)@.items.take(i + 1).last() == old(self)@.items[i as int]);
            }
            i += 1;
        }
        proof {
            assert(old(self)@.items.take(n as int) =~= old(self)@.items);
        }
        self.items = sorted;
        self.reorder_items();
    }
}


/// The title sort is correct: the result is ordered by title and is a
/// permutation of the input (the re-ranking then only rewrites the ranks).
pub proof fn lemma_sort_by_title_correct(items: Seq<ItemModel>)
    ensures
        ordered_by(title_le_fn(), rerank(sort_by_ins(title_le_fn(), items))),
        sort_by_ins(title_le_fn(), items).to_multiset() == items.to_multiset(),
{
    lemma_title_le_total();
    assert forall|a: ItemModel, b: ItemModel| #[trigger] title_le_fn()(a, b) || title_le_fn()(
        b,
        a,
    ) by {
        assert(title_le(a, b) || title_le(b, a));
    }
    lemma_sort_by_ins_ordered(title_le_fn(), items);
    assert forall|a: ItemModel, b: ItemModel, oa: nat, ob: nat| #[trigger] title_le_fn()(
        with_order(a, oa),
        with_order(b, ob),
    ) == title_le_fn()(a, b) by {
        assert(with_order(a, oa).title == a.title);
        assert(with_order(b, ob).title == b.title);
    }
    lemma_rerank_keeps_order(title_le_fn(), sort_by_ins(title_le_fn(), items));
    lemma_sort_by_ins_permutes(title_le_fn(), items);
}

/// The date sort is correct: the result is ordered newest-first and is a
/// permutation of the input.
pub proof fn lemma_sort_by_date_correct(items: Seq<ItemModel>)
    ensures
        ordered_by(date_ge_fn(), rerank(sort_by_ins(date_ge_fn(), items))),
        sort_by_ins(date_ge_fn(), items).to_multiset() == items.to_multiset(),
{
    lemma_date_ge_total();
    assert forall|a: ItemModel, b: ItemModel| #[trigger] date_ge_fn()(a, b) || date_ge_fn()(
        b,
        a,
    ) by {
        assert(date_ge(a, b) || date_ge(b, a));
    }
    lemma_sort_by_ins_ordered(date_ge_fn(), items);
    assert forall|a: ItemModel, b: ItemModel, oa: nat, ob: nat| #[trigger] date_ge_fn()(
        with_order(a, oa),
        with_order(b, ob),
    ) == date_ge_fn()(a, b) by {
        assert(with_order(a, oa).created_at == a.created_at);
        assert(with_order(b, ob).created_at == b.created_at);
    }
    lemma_rerank_keeps_order(date_ge_fn(), sort_by_ins(date_ge_fn(), items));
    lemma_sort_by_ins_permutes(date_ge_fn(), items);
}


/// Descending lexicographic order of the titles.
pub open spec fn title_ge_fn() -> spec_fn(ItemModel, ItemModel) -> bool {
    |a: ItemModel, b: ItemModel| title_le(b, a)
}

/// Reversing an ascending-by-title sequence (as `reverse_items` does,
/// re-ranking as it goes) yields the descending order.
pub proof fn lemma_reverse_flips_title_order(s: Seq<ItemModel>, r: Seq<ItemModel>)
    requires
        ordered_by(title_le_fn(), s),
        r.len() == s.len(),
        forall|i: int| 0 <= i < s.len() ==> #[trigger] r[i] == with_order(
            s[s.len() - 1 - i],
            i as nat,
        ),
    ensures
        ordered_by(title_ge_fn(), r),
{
    assert forall|i: int| 0 <= i && i + 1 < r.len() implies title_ge_fn()(
        #[trigger] r[i],
        r[i + 1],
    ) by {
        let n = s.len();
        assert(r[i] == with_order(s[n - 1 - i], i as nat));
        assert(r[i + 1] == with_order(s[n - 2 - i], (i + 1) as nat));
        assert(title_le(s[n - 2 - i], s[n - 1 - i]));
        assert(with_order(s[n - 1 - i], i as nat).title == s[n - 1 - i].title);
        assert(with_order(s[n - 2 - i], (i + 1) as nat).title == s[n - 2 - i].title);
    }
}

} // verus!
