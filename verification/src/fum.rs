//! What a diagram of a path shows: a comment and a field of cells for each
//! placement.

use crate::finesse::finesse_short;
use crate::ren::PathItem;
use crate::text::{chars_of, push_chars};
use vstd::prelude::*;

verus! {

/// Columns of a diagram.
pub const PAGE_WIDTH: usize = 10;

/// Rows of a diagram.
pub const PAGE_HEIGHT: usize = 23;

/// One page of a diagram: a comment and 23 rows of 10 cells, row 0 first,
/// `true` for a grey cell.
pub struct Page {
    pub comment: String,
    pub field: Vec<Vec<bool>>,
}

/// The comment of the page of a placement: the kind and the short text of
/// the keys, as in `T cw,sd`.
pub open spec fn page_comment(item: PathItem) -> Seq<char> {
    seq![item.1 as char, ' '] + finesse_short(item.2@)
}

/// Whether `page` shows `item`: its comment, and the cells of the board after
/// the placement, grey where they are set.
pub open spec fn shows(page: Page, item: PathItem) -> bool {
    &&& page.comment@ == page_comment(item)
    &&& page.field@.len() == 23
    &&& forall|y: int|
        0 <= y < 23 ==> (#[trigger] page.field@[y])@.len() == 10 && forall|x: int|
            0 <= x < 10 ==> page.field@[y]@[x] == item.0.cell(x, y)
}

/// The page of a placement.
pub fn page_of(item: &PathItem) -> (page: Page)
    ensures
        shows(page, *item),
{
    let mut comment = String::new();
    comment.push(item.1 as char);
    comment.push(' ');
    let short = chars_of(item.2.short().as_str());
    push_chars(&mut comment, short.as_slice());
    assert(comment@ =~= page_comment(*item));
    let mut field: Vec<Vec<bool>> = Vec::new();
    let mut y: usize = 0;
    while y < 23
        invariant
            y <= 23,
            field@.len() == y,
            forall|j: int|
                0 <= j < y ==> (#[trigger] field@[j])@.len() == 10 && forall|x: int|
                    0 <= x < 10 ==> field@[j]@[x] == item.0.cell(x, j),
        decreases 23 - y,
    {
        let mut row: Vec<bool> = Vec::new();
        let mut x: usize = 0;
        while x < 10
            invariant
                x <= 10,
                y < 23,
                row@.len() == x,
                forall|i: int| 0 <= i < x ==> row@[i] == item.0.cell(i, y as int),
            decreases 10 - x,
        {
            row.push(item.0.get(x, y));
            x = x + 1;
        }
        field.push(row);
        y = y + 1;
    }
    Page { comment, field }
}

/// The pages of a path, one for each placement, in their order.
pub fn pages_of(path: &Vec<PathItem>) -> (pages: Vec<Page>)
    ensures
        pages@.len() == path@.len(),
        forall|i: int| 0 <= i < path@.len() ==> shows(#[trigger] pages@[i], path@[i]),
{
    let mut pages: Vec<Page> = Vec::new();
    let mut i: usize = 0;
    while i < path.len()
        invariant
            i <= path@.len(),
            pages@.len() == i,
            forall|j: int| 0 <= j < i ==> shows(#[trigger] pages@[j], path@[j]),
        decreases path@.len() - i,
    {
        pages.push(page_of(&path[i]));
        i = i + 1;
    }
    pages
}

} // verus!
