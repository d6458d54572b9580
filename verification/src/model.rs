//! The data model: items, categories, and the whole document, together with
//! the mutation operations the GUI shell drives. The central invariant is
//! that within a category the `order` fields are exactly the positions
//! `0 .. len - 1`.
use vstd::prelude::*;

use crate::ext::{new_id, now_stamp};

verus! {

/// Mathematical view of an item: every field as a plain value.
#[verifier::ext_equal]
pub struct ItemModel {
    pub id: Seq<char>,
    pub title: Seq<char>,
    pub comment: Seq<char>,
    pub order: nat,
    pub created_at: Seq<char>,
}

/// A single record: identity, display title, free-text comment, dense rank
/// within its category, and the creation timestamp.
pub struct Item {
    pub id: String,
    pub title: String,
    pub comment: String,
    pub order: usize,
    pub created_at: String,
}

impl View for Item {
    type V = ItemModel;

    open spec fn view(&self) -> ItemModel {
        ItemModel {
            id: self.id@,
            title: self.title@,
            comment: self.comment@,
            order: self.order as nat,
            created_at: self.created_at@,
        }
    }
}

impl DeepView for Item {
    type V = ItemModel;

    open spec fn deep_view(&self) -> ItemModel {
        self@
    }
}

impl Clone for Item {
    fn clone(&self) -> (r: Item)
        ensures
            r@ == self@,
    {
        Item {
            id: self.id.clone(),
            title: self.title.clone(),
            comment: self.comment.clone(),
            order: self.order,
            created_at: self.created_at.clone(),
        }
    }
}

/// Mathematical view of a category.
#[verifier::ext_equal]
pub struct CategoryModel {
    pub name: Seq<char>,
    pub items: Seq<ItemModel>,
}

/// An ordered, named collection of items.
pub struct Category {
    pub name: String,
    pub items: Vec<Item>,
}

impl View for Category {
    type V = CategoryModel;

    open spec fn view(&self) -> CategoryModel {
        CategoryModel { name: self.name@, items: self.items.deep_view() }
    }
}

impl DeepView for Category {
    type V = CategoryModel;

    open spec fn deep_view(&self) -> CategoryModel {
        self@
    }
}

/// Mathematical view of the whole document.
#[verifier::ext_equal]
pub struct DocumentModel {
    pub categories: Seq<CategoryModel>,
}

/// The complete persisted state: an ordered sequence of categories.
pub struct Document {
    pub categories: Vec<Category>,
}

impl View for Document {
    type V = DocumentModel;

    open spec fn view(&self) -> DocumentModel {
        DocumentModel { categories: self.categories.deep_view() }
    }
}

/// The ranks are dense: `items[i].order == i` for every position.
pub open spec fn ranked(items: Seq<ItemModel>) -> bool {
    forall|i: int| 0 <= i < items.len() ==> (#[trigger] items[i].order) == i
}

/// The same item with its rank replaced.
pub open spec fn with_order(it: ItemModel, order: nat) -> ItemModel {
    ItemModel { order, ..it }
}

/// Every item re-ranked to its position.
pub open spec fn rerank(items: Seq<ItemModel>) -> Seq<ItemModel> {
    Seq::new(items.len(), |i: int| with_order(items[i], i as nat))
}

/// The items whose identifier differs from `id`, in their original order.
pub open spec fn without_id(items: Seq<ItemModel>, id: Seq<char>) -> Seq<ItemModel>
    decreases items.len(),
{
    if items.len() == 0 {
        Seq::empty()
    } else if items.last().id == id {
        without_id(items.drop_last(), id)
    } else {
        without_id(items.drop_last(), id).push(items.last())
    }
}

/// Removing an identifier that no item carries keeps the sequence intact.
pub proof fn lemma_without_id_absent(items: Seq<ItemModel>, id: Seq<char>)
    requires
        forall|i: int| 0 <= i < items.len() ==> (#[trigger] items[i].id) != id,
    ensures
        without_id(items, id) == items,
    decreases items.len(),
{
    if items.len() > 0 {
        lemma_without_id_absent(items.drop_last(), id);
        assert(without_id(items, id) =~= items);
    }
}

/// Re-ranking a sequence whose ranks are already dense changes nothing.
pub proof fn lemma_rerank_ranked(items: Seq<ItemModel>)
    requires
        ranked(items),
    ensures
        rerank(items) == items,
{
    assert forall|i: int| 0 <= i < items.len() implies rerank(items)[i] == items[i] by {
        assert(items[i].order == i);
        assert(with_order(items[i], i as nat) =~= items[i]);
    }
    assert(rerank(items) =~= items);
}

/// Removing an identifier that no item carries is a no-op: on a category
/// with dense ranks, `remove_item` with an absent identifier leaves the
/// items exactly as they were.
pub proof fn lemma_remove_absent(items: Seq<ItemModel>, id: Seq<char>)
    requires
        ranked(items),
        forall|i: int| 0 <= i < items.len() ==> (#[trigger] items[i].id) != id,
    ensures
        rerank(without_id(items, id)) == items,
{
    lemma_without_id_absent(items, id);
    lemma_rerank_ranked(items);
}

/// The index of the first item carrying `id`, or `-1` if there is none.
pub open spec fn find_id(items: Seq<ItemModel>, id: Seq<char>) -> int
    decreases items.len(),
{
    if items.len() == 0 {
        -1
    } else if items.first().id == id {
        0
    } else {
        let r = find_id(items.drop_first(), id);
        if r == -1 {
            -1
        } else {
            r + 1
        }
    }
}

/// `find_id` agrees with a left-to-right scan that has found no match
/// before position `i`.
proof fn lemma_find_id_from(items: Seq<ItemModel>, id: Seq<char>, i: int)
    requires
        0 <= i <= items.len(),
        forall|j: int| 0 <= j < i ==> (#[trigger] items[j].id) != id,
    ensures
        i == items.len() ==> find_id(items, id) == -1,
        i < items.len() && items[i].id == id ==> find_id(items, id) == i,
    decreases i,
{
    if i > 0 {
        assert(items.first().id != id);
        lemma_find_id_from(items.drop_first(), id, i - 1);
        assert(i < items.len() ==> items.drop_first()[i - 1] == items[i]);
    }
}

/// The item at `from` taken out and reinserted before position `to` of the
/// original list, in the usual list-reorder convention: once the item is
/// out, positions after `from` have shifted down by one.
pub open spec fn move_seq(items: Seq<ItemModel>, from: int, to: int) -> Seq<ItemModel> {
    let it = items[from];
    let rest = items.remove(from);
    let at = if to > from {
        to - 1
    } else {
        to
    };
    rest.insert(at, it)
}

/// Taking an element out and putting it back in the same place is the
/// identity.
pub proof fn lemma_move_seq_same(items: Seq<ItemModel>, i: int)
    requires
        0 <= i < items.len(),
    ensures
        move_seq(items, i, i) == items,
{
    assert(move_seq(items, i, i) =~= items);
}

impl Category {
    /// Dense ranks: the structural invariant every mutation re-establishes.
    pub open spec fn wf(&self) -> bool {
        ranked(self@.items)
    }

    /// A fresh category with the given name and no items.
    pub fn new(name: &str) -> (r: Category)
        ensures
            r@.name == name@,
            r@.items == Seq::<ItemModel>::empty(),
            r.wf(),
    {
        let r = Category { name: name.to_owned(), items: Vec::new() };
        proof {
            assert(r@.items =~= Seq::<ItemModel>::empty());
        }
        r
    }

    /// Appends a new item ranked at the end. The identifier and the
    /// timestamp are drawn at creation and are not pinned down here. An
    /// empty title is the caller's to reject, at the input boundary.
    pub fn add_item(&mut self, title: String, comment: String)
        requires
            title@.len() > 0,
        ensures
            final(self)@.name == old(self)@.name,
            final(self)@.items == old(self)@.items.push(final(self)@.items.last()),
            final(self)@.items.last().title == title@,
            final(self)@.items.last().comment == comment@,
            final(self)@.items.last().order == old(self)@.items.len(),
            old(self).wf() ==> final(self).wf(),
    {
        let order = self.items.len();
        let item = Item { id: new_id(), title, comment, order, created_at: now_stamp() };
        self.items.push(item);
        proof {
            assert(self@.items =~= old(self)@.items.push(self@.items.last()));
        }
    }

    /// Rewrites every rank to the item's current position.
    pub fn reorder_items(&mut self)
        ensures
            final(self)@.name == old(self)@.name,
            final(self)@.items == rerank(old(self)@.items),
            final(self).wf(),
    {
        let n = self.items.len();
        let mut i: usize = 0;
        while i < n
            invariant
                n == self.items.len(),
                i <= n,
                self@.name == old(self)@.name,
                forall|j: int| i <= j < n ==> self@.items[j] == old(self)@.items[j],
                forall|j: int| 0 <= j < i ==> self@.items[j] == with_order(old(self)@.items[j], j as nat),
            decreases n - i,
        {
            let ghost prev = self@.items;
            let it = &mut self.items[i];
            it.order = i;
            proof {
                assert forall|j: int| 0 <= j <= i implies self@.items[j] == with_order(
                    old(self)@.items[j],
                    j as nat,
                ) by {
                    if j < i {
                        assert(self@.items[j] == prev[j]);
                        assert(prev[j] == with_order(old(self)@.items[j], j as nat));
                    } else {
                        assert(self@.items[i as int] == with_order(
                            old(self)@.items[i as int],
                            i as nat,
                        ));
                    }
                }
                assert forall|j: int| i + 1 <= j < n implies self@.items[j] == old(
                    self,
                )@.items[j] by {
                    assert(self@.items[j] == prev[j]);
                }
            }
            i += 1;
        }
        proof {
            assert(self@.items =~= rerank(old(self)@.items));
        }
    }

    /// Deletes every item with the given identifier (a no-op if none
    /// carries it) and closes the gap in the ranks.
    pub fn remove_item(&mut self, id: &str)
        ensures
            final(self)@.name == old(self)@.name,
            final(self)@.items == rerank(without_id(old(self)@.items, id@)),
            final(self).wf(),
    {
        let n = self.items.len();
        let mut kept: Vec<Item> = Vec::new();
        let mut i: usize = 0;
        proof {
            assert(kept.deep_view() =~= without_id(old(self)@.items.take(0), id@));
        }
        while i < n
            invariant
                n == self.items.len(),
                self@ == old(self)@,
                i <= n,
                kept.deep_view() == without_id(old(self)@.items.take(i as int), id@),
            decreases n - i,
        {
            let ghost pre = kept.deep_view();
            if !crate::strutil::str_eq(self.items[i].id.as_str(), id) {
                kept.push(self.items[i].clone());
                proof {
                    assert(kept.deep_view() =~= pre.push(old(self)@.items[i as int]));
                }
            }
            proof {
                assert(old(self)@.items.take(i + 1).drop_last() =~= old(self)@.items.take(
                    i as int,
                ));
                assert(kept.deep_view() =~= without_id(old(self)@.items.take(i + 1), id@));
            }
            i += 1;
        }
        proof {
            assert(old(self)@.items.take(n as int) =~= old(self)@.items);
        }
        self.items = kept;
        self.reorder_items();
    }

    /// The position of the first item with the given identifier.
    pub fn find_item(&self, id: &str) -> (r: Option<usize>)
        ensures
            find_id(self@.items, id@) == -1 <==> r is None,
            r is Some ==> r.unwrap() as int == find_id(self@.items, id@) && r.unwrap()
                < self@.items.len() && self@.items[r.unwrap() as int].id == id@,
    {
        let n = self.items.len();
        let mut i: usize = 0;
        while i < n
            invariant
                n == self.items.len(),
                i <= n,
                forall|j: int| 0 <= j < i ==> (#[trigger] self@.items[j].id) != id@,
            decreases n - i,
        {
            if crate::strutil::str_eq(self.items[i].id.as_str(), id) {
                proof {
                    lemma_find_id_from(self@.items, id@, i as int);
                }
                return Some(i);
            }
            i += 1;
        }
        proof {
            lemma_find_id_from(self@.items, id@, n as int);
        }
        None
    }

    /// Rewrites the title and the comment of the first item with the given
    /// identifier; a no-op if none carries it. Identity, rank and creation
    /// timestamp stay as they are.
    pub fn edit_item(&mut self, id: &str, title: String, comment: String)
        ensures
            final(self)@.name == old(self)@.name,
            find_id(old(self)@.items, id@) == -1 ==> final(self)@ == old(self)@,
            find_id(old(self)@.items, id@) >= 0 ==> final(self)@.items == old(self)@.items.update(
                find_id(old(self)@.items, id@),
                ItemModel {
                    title: title@,
                    comment: comment@,
                    ..old(self)@.items[find_id(old(self)@.items, id@)]
                },
            ),
            old(self).wf() ==> final(self).wf(),
    {
        let found = self.find_item(id);
        match found {
            None => {},
            Some(i) => {
                let it = &mut self.items[i];
                it.title = title;
                it.comment = comment;
                proof {
                    assert(self@.items =~~= old(self)@.items.update(
                        i as int,
                        ItemModel {
                            title: title@,
                            comment: comment@,
                            ..old(self)@.items[i as int]
                        },
                    ));
                }
            },
        }
    }

    /// Takes the item at `from` out and reinserts it before position `to`
    /// of the original list, then re-ranks. Out-of-range positions make the
    /// call a no-op.
    pub fn move_item(&mut self, from: usize, to: usize)
        ensures
            final(self)@.name == old(self)@.name,
            from < old(self)@.items.len() && to <= old(self)@.items.len() ==> final(self)@.items
                == rerank(move_seq(old(self)@.items, from as int, to as int)) && final(self).wf(),
            !(from < old(self)@.items.len() && to <= old(self)@.items.len()) ==> final(self)@
                == old(self)@,
            old(self).wf() && from == to ==> final(self)@ == old(self)@,
    {
        if from < self.items.len() && to <= self.items.len() {
            let item = self.items.remove(from);
            let insert_at = if to > from {
                to - 1
            } else {
                to
            };
            self.items.insert(insert_at, item);
            proof {
                assert(self@.items =~= move_seq(old(self)@.items, from as int, to as int));
            }
            self.reorder_items();
            proof {
                if old(self).wf() && from == to {
                    lemma_move_seq_same(old(self)@.items, from as int);
                    lemma_rerank_ranked(old(self)@.items);
                    assert(self@ =~= old(self)@);
                }
            }
        }
    }

    /// Reverses the items and re-ranks: the affordance that turns an
    /// ascending title sort into the descending one.
    pub fn reverse_items(&mut self)
        ensures
            final(self)@.name == old(self)@.name,
            final(self)@.items.len() == old(self)@.items.len(),
            forall|i: int| 0 <= i < old(self)@.items.len() ==> final(self)@.items[i] == with_order(
                old(self)@.items[old(self)@.items.len() - 1 - i],
                i as nat,
            ),
            final(self).wf(),
    {
        let n = self.items.len();
        let mut rev: Vec<Item> = Vec::new();
        while rev.len() < n
            invariant
                n == self.items.len(),
                self@ == old(self)@,
                rev.len() <= n,
                forall|i: int| 0 <= i < rev.len() ==> rev.deep_view()[i] == old(self)@.items[n - 1
                    - i],
            decreases n - rev.len(),
        {
            let ghost pre = rev.deep_view();
            let k = rev.len();
            rev.push(self.items[n - 1 - k].clone());
            proof {
                assert(rev.deep_view() =~= pre.push(old(self)@.items[n - 1 - k]));
            }
        }
        self.items = rev;
        self.reorder_items();
    }
}

/// A document holds a fixed roster of categories; the three below are the
/// roster a fresh installation starts with.
impl Document {
    /// How many categories the document holds.
    pub fn len(&self) -> (r: usize)
        ensures
            r == self@.categories.len(),
    {
        self.categories.len()
    }

    /// Mutable access to one category, for the shell to drive the
    /// operations above.
    pub fn category_mut(&mut self, i: usize) -> (r: &mut Category)
        requires
            i < old(self)@.categories.len(),
        ensures
            *r == old(self).categories@[i as int],
            final(self).categories@ == old(self).categories@.update(i as int, *final(r)),
    {
        &mut self.categories[i]
    }

    /// Read access to one category.
    pub fn category(&self, i: usize) -> (r: &Category)
        requires
            i < self@.categories.len(),
        ensures
            *r == self.categories@[i as int],
    {
        &self.categories[i]
    }

    /// Dense ranks in every category.
    pub open spec fn wf(&self) -> bool {
        forall|i: int| 0 <= i < self@.categories.len() ==> ranked(
            #[trigger] self@.categories[i].items,
        )
    }
}

/// The model of a fresh document: three named, empty categories.
pub open spec fn default_document() -> DocumentModel {
    DocumentModel {
        categories: seq![
            CategoryModel { name: "拡張機能"@, items: Seq::empty() },
            CategoryModel { name: "Webアプリ"@, items: Seq::empty() },
            CategoryModel { name: "Windowsアプリ"@, items: Seq::empty() },
        ],
    }
}

impl Default for Document {
    /// The document a fresh installation (or a failed load) starts from.
    fn default() -> (r: Document)
        ensures
            r@ == default_document(),
            r.wf(),
    {
        let mut categories: Vec<Category> = Vec::new();
        categories.push(Category::new("拡張機能"));
        categories.push(Category::new("Webアプリ"));
        categories.push(Category::new("Windowsアプリ"));
        let r = Document { categories };
        proof {
            assert(r@.categories =~= default_document().categories);
            assert(r@ =~= default_document());
        }
        r
    }
}

} // verus!
