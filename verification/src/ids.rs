//! Object ids and the ascending union of id lists, where the last list
//! that holds an id is the one it is taken from.

use vstd::prelude::*;

verus! {

/// Total order key of an object id `(number, generation)`: ids compare by
/// number first, then by generation.
pub open spec fn id_key(id: (u32, u16)) -> int {
    id.0 * 65536 + id.1
}

/// `a` comes strictly before `b` in object-id order.
pub fn id_less(a: (u32, u16), b: (u32, u16)) -> (r: bool)
    ensures
        r == (id_key(a) < id_key(b)),
{
    a.0 < b.0 || (a.0 == b.0 && a.1 < b.1)
}

/// Distinct ids have distinct keys.
pub proof fn lemma_id_key_injective(a: (u32, u16), b: (u32, u16))
    ensures
        id_key(a) == id_key(b) <==> a == b,
{
}

/// The key of the bound below which every id has been handled (`None`:
/// nothing handled yet).
pub open spec fn bound_key(b: Option<(u32, u16)>) -> int {
    match b {
        None => -1,
        Some(id) => id_key(id),
    }
}

/// Index of the last list among the first `n` of `lists` that holds `id`,
/// or -1 when none does.
pub open spec fn last_holder(lists: Seq<Seq<(u32, u16)>>, id: (u32, u16), n: int) -> int
    decreases n,
{
    if n <= 0 {
        -1
    } else if lists[n - 1].contains(id) {
        n - 1
    } else {
        last_holder(lists, id, n - 1)
    }
}

/// `id` appears in at least one of the lists.
pub open spec fn in_some_list(lists: Seq<Seq<(u32, u16)>>, id: (u32, u16)) -> bool {
    exists|d: int| 0 <= d < lists.len() && #[trigger] lists[d].contains(id)
}

/// The ids in the first components of `s` are strictly increasing.
pub open spec fn keys_ascending<T>(s: Seq<((u32, u16), T)>) -> bool {
    forall|i: int, j: int| 0 <= i < j < s.len() ==> id_key(#[trigger] s[i].0) < id_key(#[trigger] s[j].0)
}

/// The last holder is -1 exactly when no list holds the id, and no later
/// list holds it.
pub proof fn lemma_last_holder_range(lists: Seq<Seq<(u32, u16)>>, id: (u32, u16), n: int)
    requires
        0 <= n <= lists.len(),
    ensures
        -1 <= last_holder(lists, id, n) < n,
        last_holder(lists, id, n) >= 0 ==> lists[last_holder(lists, id, n)].contains(id),
        last_holder(lists, id, n) >= 0 <==> exists|d: int| 0 <= d < n && #[trigger] lists[d].contains(id),
        forall|d: int| last_holder(lists, id, n) < d < n ==> !(#[trigger] lists[d].contains(id)),
    decreases n,
{
    if n > 0 {
        lemma_last_holder_range(lists, id, n - 1);
    }
}

/// Whether `list` holds `id`.
fn list_holds(list: &Vec<(u32, u16)>, id: (u32, u16)) -> (r: bool)
    ensures
        r == list@.contains(id),
{
    let mut j: usize = 0;
    while j < list.len()
        invariant
            j <= list.len(),
            forall|k: int| 0 <= k < j ==> list@[k] != id,
        decreases list.len() - j,
    {
        if list[j].0 == id.0 && list[j].1 == id.1 {
            assert(list@[j as int] == id);
            return true;
        }
        j = j + 1;
    }
    false
}

/// Index of the last list that holds `id`, which some list does.
fn find_last_holder(lists: &Vec<Vec<(u32, u16)>>, id: (u32, u16)) -> (r: usize)
    requires
        in_some_list(lists@.map_values(|l: Vec<(u32, u16)>| l@), id),
    ensures
        r as int == last_holder(lists@.map_values(|l: Vec<(u32, u16)>| l@), id, lists.len() as int),
{
    let ghost views = lists@.map_values(|l: Vec<(u32, u16)>| l@);
    proof {
        lemma_last_holder_range(views, id, views.len() as int);
    }
    let mut n: usize = lists.len();
    while n > 0
        invariant
            n <= lists.len(),
            views == lists@.map_values(|l: Vec<(u32, u16)>| l@),
            last_holder(views, id, lists.len() as int) == last_holder(views, id, n as int),
            last_holder(views, id, n as int) >= 0,
        decreases n,
    {
        if list_holds(&lists[n - 1], id) {
            return n - 1;
        }
        n = n - 1;
    }
    proof {
        lemma_last_holder_range(views, id, 0);
    }
    0
}

/// Some first component of `s` is `id`.
pub open spec fn key_listed<T>(s: Seq<((u32, u16), T)>, id: (u32, u16)) -> bool {
    exists|i: int| 0 <= i < s.len() && id_key((#[trigger] s[i]).0) == id_key(id)
}

/// The id sequences held by a vector of id vectors.
pub open spec fn list_views(lists: Seq<Vec<(u32, u16)>>) -> Seq<Seq<(u32, u16)>> {
    lists.map_values(|l: Vec<(u32, u16)>| l@)
}

/// The smallest id above `bound` among all the lists, if any.
fn min_above(lists: &Vec<Vec<(u32, u16)>>, bound: Option<(u32, u16)>) -> (r: Option<(u32, u16)>)
    ensures
        match r {
            None => forall|d: int, j: int|
                0 <= d < lists.len() && 0 <= j < lists@[d]@.len() ==> id_key(
                    #[trigger] lists@[d]@[j],
                ) <= bound_key(bound),
            Some(m) => {
                &&& id_key(m) > bound_key(bound)
                &&& in_some_list(list_views(lists@), m)
                &&& forall|d: int, j: int|
                    0 <= d < lists.len() && 0 <= j < lists@[d]@.len() && id_key(
                        #[trigger] lists@[d]@[j],
                    ) > bound_key(bound) ==> id_key(m) <= id_key(lists@[d]@[j])
            },
        },
{
    let mut best: Option<(u32, u16)> = None;
    let mut d: usize = 0;
    while d < lists.len()
        invariant
            d <= lists.len(),
            match best {
                None => forall|e: int, j: int|
                    0 <= e < d && 0 <= j < lists@[e]@.len() ==> id_key(#[trigger] lists@[e]@[j])
                        <= bound_key(bound),
                Some(m) => {
                    &&& id_key(m) > bound_key(bound)
                    &&& in_some_list(list_views(lists@), m)
                    &&& forall|e: int, j: int|
                        0 <= e < d && 0 <= j < lists@[e]@.len() && id_key(
                            #[trigger] lists@[e]@[j],
                        ) > bound_key(bound) ==> id_key(m) <= id_key(lists@[e]@[j])
                },
            },
        decreases lists.len() - d,
    {
        let list = &lists[d];
        let mut j: usize = 0;
        while j < list.len()
            invariant
                d < lists.len(),
                list == lists@[d as int],
                j <= list.len(),
                match best {
                    None => {
                        &&& forall|e: int, k: int|
                            0 <= e < d && 0 <= k < lists@[e]@.len() ==> id_key(
                                #[trigger] lists@[e]@[k],
                            ) <= bound_key(bound)
                        &&& forall|k: int| 0 <= k < j ==> id_key(#[trigger] list@[k]) <= bound_key(bound)
                    },
                    Some(m) => {
                        &&& id_key(m) > bound_key(bound)
                        &&& in_some_list(list_views(lists@), m)
                        &&& forall|e: int, k: int|
                            0 <= e < d && 0 <= k < lists@[e]@.len() && id_key(
                                #[trigger] lists@[e]@[k],
                            ) > bound_key(bound) ==> id_key(m) <= id_key(lists@[e]@[k])
                        &&& forall|k: int|
                            0 <= k < j && id_key(#[trigger] list@[k]) > bound_key(bound) ==> id_key(m)
                                <= id_key(list@[k])
                    },
                },
            decreases list.len() - j,
        {
            let id = list[j];
            let above = match bound {
                None => true,
                Some(b) => id_less(b, id),
            };
            if above {
                let better = match best {
                    None => true,
                    Some(m) => id_less(id, m),
                };
                if better {
                    proof {
                        assert(list_views(lists@)[d as int] == list@);
                        assert(list_views(lists@)[d as int].contains(id));
                    }
                    best = Some(id);
                }
            }
            j = j + 1;
        }
        d = d + 1;
    }
    best
}

/// The union of the lists in ascending id order, each id paired with the
/// index of the last list that holds it.
pub fn ascending_union(lists: &Vec<Vec<(u32, u16)>>) -> (r: Vec<((u32, u16), usize)>)
    ensures
        keys_ascending(r@),
        forall|i: int|
            0 <= i < r@.len() ==> (#[trigger] r@[i]).1 as int == last_holder(
                list_views(lists@),
                r@[i].0,
                lists.len() as int,
            ) && r@[i].1 < lists.len(),
        forall|d: int, j: int|
            0 <= d < lists.len() && 0 <= j < lists@[d]@.len() ==> key_listed(r@, #[trigger] lists@[d]@[j]),
{
    let mut out: Vec<((u32, u16), usize)> = Vec::new();
    let mut bound: Option<(u32, u16)> = None;
    let mut done = false;
    while !done
        invariant
            keys_ascending(out@),
            bound is None <==> out@.len() == 0,
            out@.len() > 0 ==> bound == Some(out@.last().0),
            forall|i: int|
                0 <= i < out@.len() ==> (#[trigger] out@[i]).1 as int == last_holder(
                    list_views(lists@),
                    out@[i].0,
                    lists.len() as int,
                ) && out@[i].1 < lists.len(),
            forall|d: int, j: int|
                0 <= d < lists.len() && 0 <= j < lists@[d]@.len() && id_key(
                    #[trigger] lists@[d]@[j],
                ) <= bound_key(bound) ==> exists|i: int|
                    0 <= i < out@.len() && id_key((#[trigger] out@[i]).0) == id_key(lists@[d]@[j]),
            done ==> forall|d: int, j: int|
                0 <= d < lists.len() && 0 <= j < lists@[d]@.len() ==> id_key(
                    #[trigger] lists@[d]@[j],
                ) <= bound_key(bound),
        decreases (if done { 0int } else { 1int }), 281474976710656 - bound_key(bound),
    {
        let ghost old_out = out@;
        let ghost old_bound = bound;
        match min_above(lists, bound) {
            None => {
                done = true;
            },
            Some(m) => {
                let holder = find_last_holder(lists, m);
                proof {
                    lemma_last_holder_range(list_views(lists@), m, lists.len() as int);
                }
                out.push((m, holder));
                bound = Some(m);
                proof {
                    assert forall|i: int, j: int|
                        0 <= i < j < out@.len() implies id_key(#[trigger] out@[i].0) < id_key(
                        #[trigger] out@[j].0,
                    ) by {
                        assert(out@[i] == old_out[i]);
                        if j < out@.len() - 1 {
                            assert(out@[j] == old_out[j]);
                        } else if i < old_out.len() - 1 {
                            assert(id_key(old_out[i].0) < id_key(old_out[old_out.len() - 1].0));
                        }
                    }
                    assert forall|d: int, j: int|
                        0 <= d < lists.len() && 0 <= j < lists@[d]@.len() && id_key(
                            #[trigger] lists@[d]@[j],
                        ) <= bound_key(bound) implies exists|i: int|
                        0 <= i < out@.len() && id_key((#[trigger] out@[i]).0) == id_key(lists@[d]@[j]) by {
                        if id_key(lists@[d]@[j]) <= bound_key(old_bound) {
                            let i = choose|i: int| 0 <= i < old_out.len() && id_key((#[trigger] old_out[i]).0) == id_key(lists@[d]@[j]);
                            assert(out@[i] == old_out[i]);
                        } else {
                            lemma_id_key_injective(m, lists@[d]@[j]);
                            assert(out@[out@.len() - 1].0 == lists@[d]@[j]);
                        }
                    }
                }
            },
        }
    }
    assert forall|d: int, j: int|
        0 <= d < lists.len() && 0 <= j < lists@[d]@.len() implies key_listed(out@, #[trigger] lists@[d]@[j]) by {
        assert(id_key(lists@[d]@[j]) <= bound_key(bound));
    }
    out
}

} // verus!
