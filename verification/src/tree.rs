//! The links of a page tree that a page deletion walks: each node's
//! `/Parent` and `/Count`, and whether the walk from a page up to the root
//! ends.

use vstd::prelude::*;
use crate::ids::id_key;
use crate::merge::PageEntry;

verus! {

/// The page-tree entries of one object of a document.
pub struct TreeLink {
    /// The object's id.
    pub id: (u32, u16),
    /// The object is a dictionary whose `/Parent` is a reference: that id.
    pub parent: Option<(u32, u16)>,
    /// The object is a dictionary whose `/Count` is an integer: that value.
    pub count: Option<i64>,
}

/// The ids of `links` strictly ascend.
pub open spec fn links_ascending(links: Seq<TreeLink>) -> bool {
    forall|i: int, j: int| 0 <= i < j < links.len() ==> id_key(#[trigger] links[i].id) < id_key(#[trigger] links[j].id)
}

/// The `/Parent` of the object with this id, if it has one.
pub open spec fn tree_parent(links: Seq<TreeLink>, id: (u32, u16)) -> Option<(u32, u16)> {
    if exists|i: int| 0 <= i < links.len() && links[i].id == id {
        links[choose|i: int| 0 <= i < links.len() && links[i].id == id].parent
    } else {
        None
    }
}

/// Following `/Parent` from `id` reaches, within `fuel` steps, an object
/// that has none (or no object at all).
pub open spec fn chain_ends(links: Seq<TreeLink>, id: (u32, u16), fuel: nat) -> bool
    decreases fuel,
{
    match tree_parent(links, id) {
        None => true,
        Some(p) => fuel > 0 && chain_ends(links, p, (fuel - 1) as nat),
    }
}

/// Deleting the pages numbered (from 1) in `numbers` ends and does not
/// overflow: from each such page the `/Parent` chain ends within as many
/// steps as there are objects, and each `/Count` can be lowered once per
/// number.
pub open spec fn deletion_safe(links: Seq<TreeLink>, pages: Seq<PageEntry>, numbers: Seq<u32>) -> bool {
    &&& forall|k: int|
        0 <= k < numbers.len() && 1 <= #[trigger] numbers[k] <= pages.len() ==> chain_ends(
            links,
            pages[numbers[k] - 1].id,
            links.len(),
        )
    &&& forall|i: int|
        0 <= i < links.len() ==> ((#[trigger] links[i]).count matches Some(c) ==> c >= i64::MIN
            + numbers.len())
}

/// The `/Parent` of the object with id `id`.
fn parent_in(links: &Vec<TreeLink>, id: (u32, u16)) -> (r: Option<(u32, u16)>)
    requires
        links_ascending(links@),
    ensures
        r == tree_parent(links@, id),
{
    let mut i: usize = 0;
    while i < links.len()
        invariant
            i <= links@.len(),
            links_ascending(links@),
            forall|k: int| 0 <= k < i ==> links@[k].id != id,
        decreases links.len() - i,
    {
        let l = &links[i];
        if l.id.0 == id.0 && l.id.1 == id.1 {
            proof {
                let j = choose|j: int| 0 <= j < links@.len() && links@[j].id == id;
                if j != i {
                    if j < i {
                        assert(id_key(links@[j].id) < id_key(links@[i as int].id));
                    } else {
                        assert(id_key(links@[i as int].id) < id_key(links@[j].id));
                    }
                }
            }
            return l.parent;
        }
        i = i + 1;
    }
    None
}

/// Whether the `/Parent` chain from `id` ends within `fuel` steps.
fn chain_ends_within(links: &Vec<TreeLink>, id: (u32, u16), fuel: usize) -> (r: bool)
    requires
        links_ascending(links@),
    ensures
        r == chain_ends(links@, id, fuel as nat),
{
    let mut current = id;
    let mut left = fuel;
    loop
        invariant
            links_ascending(links@),
            chain_ends(links@, id, fuel as nat) == chain_ends(links@, current, left as nat),
        decreases left,
    {
        match parent_in(links, current) {
            None => return true,
            Some(p) => {
                if left == 0 {
                    return false;
                }
                current = p;
                left = left - 1;
            },
        }
    }
}

/// Whether deleting the pages numbered in `numbers` ends and does not
/// overflow (see `deletion_safe`).
pub fn deletion_is_safe(links: &Vec<TreeLink>, pages: &Vec<PageEntry>, numbers: &Vec<u32>) -> (r: bool)
    requires
        links_ascending(links@),
    ensures
        r == deletion_safe(links@, pages@, numbers@),
{
    let mut k: usize = 0;
    while k < numbers.len()
        invariant
            k <= numbers@.len(),
            links_ascending(links@),
            forall|j: int|
                0 <= j < k && 1 <= #[trigger] numbers@[j] <= pages@.len() ==> chain_ends(
                    links@,
                    pages@[numbers@[j] - 1].id,
                    links@.len(),
                ),
        decreases numbers.len() - k,
    {
        let n = numbers[k];
        if 1 <= n && (n as usize) <= pages.len() {
            if !chain_ends_within(links, pages[(n - 1) as usize].id, links.len()) {
                return false;
            }
        }
        k = k + 1;
    }
    let mut i: usize = 0;
    while i < links.len()
        invariant
            i <= links@.len(),
            forall|j: int|
                0 <= j < i ==> ((#[trigger] links@[j]).count matches Some(c) ==> c >= i64::MIN
                    + numbers@.len()),
        decreases links.len() - i,
    {
        match links[i].count {
            Some(c) => {
                if (c as i128) < (i64::MIN as i128) + (numbers.len() as i128) {
                    return false;
                }
            },
            None => {},
        }
        i = i + 1;
    }
    true
}

} // verus!
