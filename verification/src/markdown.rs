//! The Markdown rendering of a category: a level-1 heading with the name,
//! then one block per item in the current order.
use vstd::prelude::*;
use vstd::string::StringExecFns;

use crate::model::{Category, CategoryModel, ItemModel};

verus! {

/// The rendering of one item: a level-2 heading with the title, the comment
/// paragraph (omitted when the comment is empty), and the creation line
/// followed by a horizontal rule.
pub open spec fn item_markdown(it: ItemModel) -> Seq<char> {
    "## "@ + it.title + "\n\n"@ + (if it.comment.len() == 0 {
        Seq::<char>::empty()
    } else {
        it.comment + "\n\n"@
    }) + "*Created: "@ + it.created_at + "*\n\n---\n\n"@
}

/// The renderings of the items, concatenated in order.
pub open spec fn items_markdown(items: Seq<ItemModel>) -> Seq<char>
    decreases items.len(),
{
    if items.len() == 0 {
        Seq::empty()
    } else {
        items_markdown(items.drop_last()) + item_markdown(items.last())
    }
}

/// The full document for one category.
pub open spec fn category_markdown(c: CategoryModel) -> Seq<char> {
    "# "@ + c.name + "\n\n"@ + items_markdown(c.items)
}

impl Category {
    /// Renders the category as a Markdown document: a pure function of the
    /// current state.
    pub fn to_markdown(&self) -> (r: String)
        ensures
            r@ == category_markdown(self@),
    {
        let mut md = String::new();
        md.append("# ");
        md.append(self.name.as_str());
        md.append("\n\n");
        let n = self.items.len();
        let mut i: usize = 0;
        proof {
            assert(md@ =~= "# "@ + self@.name + "\n\n"@ + items_markdown(self@.items.take(0)));
        }
        while i < n
            invariant
                n == self.items.len(),
                i <= n,
                md@ == "# "@ + self@.name + "\n\n"@ + items_markdown(self@.items.take(i as int)),
            decreases n - i,
        {
            let it = &self.items[i];
            md.append("## ");
            md.append(it.title.as_str());
            md.append("\n\n");
            if !it.comment.as_str().is_empty() {
                md.append(it.comment.as_str());
                md.append("\n\n");
            }
            md.append("*Created: ");
            md.append(it.created_at.as_str());
            md.append("*\n\n---\n\n");
            proof {
                assert(self@.items.take(i + 1).drop_last() =~= self@.items.take(i as int));
                assert(self@.items.take(i + 1).last() == self@.items[i as int]);
                assert(md@ =~= "# "@ + self@.name + "\n\n"@ + items_markdown(
                    self@.items.take(i + 1),
                ));
            }
            i += 1;
        }
        proof {
            assert(self@.items.take(n as int) =~= self@.items);
        }
        md
    }
}

} // verus!
