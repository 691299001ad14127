use vstd::prelude::*;
use vstd::string::StringExecFns;

verus! {

/// Hands out item ids: each call returns the next unused value, so ids are
/// never reused by one generator.
pub struct IdGen {
    pub next: usize,
}

impl IdGen {
    /// A generator whose first id is 1.
    pub fn new() -> (r: IdGen)
        ensures
            r.next == 1,
    {
        IdGen { next: 1 }
    }

    /// Returns a fresh id and moves past it.
    pub fn get_id(&mut self) -> (r: usize)
        requires
            old(self).next < usize::MAX,
        ensures
            r == old(self).next,
            final(self).next == old(self).next + 1,
    {
        let r = self.next;
        self.next = self.next + 1;
        r
    }
}

/// One node of the tree: a stable id, a display title, whether its children
/// are shown, and its children in display order.
pub struct Item {
    pub id: usize,
    pub title: String,
    pub is_open: bool,
    pub children: Vec<Item>,
}

impl Item {
    /// A node with the given id, title and children; it starts open exactly
    /// when it has children.
    pub fn new(id: usize, title: &str, children: Vec<Item>) -> (r: Item)
        ensures
            r.id == id,
            r.title@ == title@,
            r.is_open == (children@.len() > 0),
            r.children@ == children@,
    {
        let open = children.len() > 0;
        Item { id, title: String::from_str(title), is_open: open, children }
    }
}

/// The ids of `item`'s tree in display order: its own, then its children's
/// trees one after another.
pub open spec fn preorder_ids(item: Item) -> Seq<usize>
    decreases item, 1int,
{
    seq![item.id] + forest_ids(item.children@)
}

/// The ids of the forest `items` in display order, tree after tree.
pub open spec fn forest_ids(items: Seq<Item>) -> Seq<usize>
    decreases items, 0int,
{
    if items.len() == 0 {
        seq![]
    } else {
        forest_ids(items.drop_last()) + preorder_ids(items.last())
    }
}

/// No two nodes of `item`'s tree share an id.
pub open spec fn ids_unique(item: Item) -> bool {
    preorder_ids(item).no_duplicates()
}

/// Every id in `s` is below `bound`.
pub open spec fn all_below(s: Seq<usize>, bound: int) -> bool {
    forall|k: int| 0 <= k < s.len() ==> #[trigger] s[k] < bound
}

/// A node whose id is fresh for its children's unique ids has unique ids.
proof fn lemma_unique_over(id: usize, below: Seq<usize>, bound: int)
    requires
        below.no_duplicates(),
        all_below(below, bound),
        id >= bound,
    ensures
        (seq![id] + below).no_duplicates(),
        all_below(seq![id] + below, id + 1),
{
    let s = seq![id] + below;
    assert forall|i: int, j: int| 0 <= i < s.len() && 0 <= j < s.len() && i != j implies s[i]
        != s[j] by {
        if i > 0 && j > 0 {
            assert(s[i] == below[i - 1] && s[j] == below[j - 1]);
        } else if i == 0 {
            assert(s[j] == below[j - 1]);
        } else {
            assert(s[i] == below[i - 1]);
        }
    }
    assert forall|k: int| 0 <= k < s.len() implies #[trigger] s[k] < id + 1 by {
        if k > 0 {
            assert(s[k] == below[k - 1]);
        }
    }
}

/// A leaf with a fresh id.
pub fn item_leaf(ids: &mut IdGen, title: &str) -> (r: Item)
    requires
        old(ids).next < usize::MAX,
    ensures
        r.id == old(ids).next,
        final(ids).next == old(ids).next + 1,
        r.title@ == title@,
        !r.is_open,
        r.children@.len() == 0,
        preorder_ids(r) == seq![r.id],
        ids_unique(r),
{
    let r = item_with_children(ids, title, Vec::new());
    assert(preorder_ids(r) =~= seq![r.id]);
    r
}

/// A node with a fresh id over the given children; open when it has any.
pub fn item_with_children(ids: &mut IdGen, title: &str, children: Vec<Item>) -> (r: Item)
    requires
        old(ids).next < usize::MAX,
    ensures
        r.id == old(ids).next,
        final(ids).next == old(ids).next + 1,
        r.title@ == title@,
        r.is_open == (children@.len() > 0),
        r.children@ == children@,
        preorder_ids(r) == seq![r.id] + forest_ids(children@),
        forest_ids(children@).no_duplicates() && all_below(forest_ids(children@), old(ids).next as int)
            ==> ids_unique(r) && all_below(preorder_ids(r), final(ids).next as int),
{
    let id = ids.get_id();
    proof {
        if forest_ids(children@).no_duplicates() && all_below(forest_ids(children@), id as int) {
            lemma_unique_over(id, forest_ids(children@), id as int);
        }
    }
    Item::new(id, title, children)
}

/// Appending to titles leaves a tree's ids, in order, as they were.
pub proof fn lemma_appended_ids(old: Item, new: Item, id: usize, suffix: Seq<char>)
    requires
        appended(old, new, id, suffix),
    ensures
        preorder_ids(new) == preorder_ids(old),
    decreases old, 1int,
{
    lemma_appended_forest_ids(old.children@, new.children@, id, suffix);
}

/// Appending to titles leaves a forest's ids, in order, as they were.
pub proof fn lemma_appended_forest_ids(
    old: Seq<Item>,
    new: Seq<Item>,
    id: usize,
    suffix: Seq<char>,
)
    requires
        appended_forest(old, new, id, suffix),
    ensures
        forest_ids(new) == forest_ids(old),
    decreases old, 0int,
{
    if old.len() > 0 {
        assert forall|i: int| 0 <= i < old.drop_last().len() implies appended(
            #[trigger] old.drop_last()[i],
            new.drop_last()[i],
            id,
            suffix,
        ) by {
            assert(appended(old[i], new[i], id, suffix));
        }
        lemma_appended_forest_ids(old.drop_last(), new.drop_last(), id, suffix);
        assert(appended(old[old.len() - 1], new[old.len() - 1], id, suffix));
        lemma_appended_ids(old.last(), new.last(), id, suffix);
    }
}

/// `n` lies somewhere below `item`, open or closed.
pub open spec fn node_in(item: Item, n: Item) -> bool
    decreases item,
{
    exists|i: int|
        0 <= i < item.children@.len() && (#[trigger] item.children@[i] == n || node_in(
            item.children@[i],
            n,
        ))
}

/// `n` is one of `items` or lies below one of them.
pub open spec fn in_forest(items: Seq<Item>, n: Item) -> bool {
    exists|i: int| 0 <= i < items.len() && (#[trigger] items[i] == n || node_in(items[i], n))
}

/// Some node of the forest `items`, at any depth, carries `id`.
pub open spec fn forest_has_id(items: Seq<Item>, id: usize) -> bool {
    exists|n: Item| #[trigger] in_forest(items, n) && n.id == id
}

/// `new` is `old` with `suffix` appended to the title of each node whose id
/// is `id`; every id, open flag and the shape of the tree stay as they were.
pub open spec fn appended(old: Item, new: Item, id: usize, suffix: Seq<char>) -> bool
    decreases old,
{
    &&& new.id == old.id
    &&& new.is_open == old.is_open
    &&& new.title@ == if old.id == id {
        old.title@ + suffix
    } else {
        old.title@
    }
    &&& new.children@.len() == old.children@.len()
    &&& forall|i: int|
        0 <= i < old.children@.len() ==> appended(
            #[trigger] old.children@[i],
            new.children@[i],
            id,
            suffix,
        )
}

/// `appended` on each tree of a forest.
pub open spec fn appended_forest(
    old: Seq<Item>,
    new: Seq<Item>,
    id: usize,
    suffix: Seq<char>,
) -> bool {
    &&& new.len() == old.len()
    &&& forall|i: int| 0 <= i < old.len() ==> appended(#[trigger] old[i], new[i], id, suffix)
}

/// `n` is `item` or lies below it.
pub open spec fn in_tree(item: Item, n: Item) -> bool {
    item == n || node_in(item, n)
}

/// Searches the whole forest `items`, closed branches included, depth first,
/// for a node with `id`.
pub fn find_item(items: &Vec<Item>, id: usize) -> (r: Option<&Item>)
    ensures
        r.is_some() == forest_has_id(items@, id),
        r matches Some(n) ==> n.id == id && in_forest(items@, *n),
    decreases items@,
{
    let mut i: usize = 0;
    while i < items.len()
        invariant
            0 <= i <= items@.len(),
            forall|j: int, n: Item|
                0 <= j < i && #[trigger] in_tree(items@[j], n) ==> n.id != id,
        decreases items@.len() - i,
    {
        let item = &items[i];
        if item.id == id {
            assert(in_forest(items@, *item));
            return Some(item);
        }
        match find_item(&item.children, id) {
            Some(n) => {
                let ghost k = choose|k: int|
                    0 <= k < item.children@.len() && (#[trigger] item.children@[k] == *n
                        || node_in(item.children@[k], *n));
                assert(node_in(*item, *n));
                assert(in_forest(items@, *n));
                return Some(n);
            },
            None => {
                assert forall|n: Item| #[trigger] in_tree(items@[i as int], n) implies n.id
                    != id by {
                    if n != *item {
                        let k = choose|k: int|
                            0 <= k < item.children@.len() && (#[trigger] item.children@[k] == n
                                || node_in(item.children@[k], n));
                        assert(in_forest(item.children@, n));
                    }
                }
            },
        }
        i = i + 1;
    }
    proof {
        assert forall|n: Item| #[trigger] in_forest(items@, n) implies n.id != id by {
            let k = choose|k: int|
                0 <= k < items.len() && (#[trigger] items@[k] == n || node_in(items@[k], n));
            assert(in_tree(items@[k], n));
        }
    }
    None
}

/// Appends `suffix` to the title of every node of `item`'s tree, `item`
/// included, whose id is `id`.
fn append_title_in(item: &mut Item, id: usize, suffix: &str)
    ensures
        appended(*old(item), *final(item), id, suffix@),
    decreases *old(item),
{
    if item.id == id {
        item.title.append(suffix);
    }
    let n = item.children.len();
    let mut i: usize = 0;
    while i < n
        invariant
            n == old(item).children@.len(),
            0 <= i <= n,
            item.children@.len() == n,
            item.id == old(item).id,
            item.is_open == old(item).is_open,
            item.title@ == if old(item).id == id {
                old(item).title@ + suffix@
            } else {
                old(item).title@
            },
            forall|j: int|
                0 <= j < i ==> appended(
                    #[trigger] old(item).children@[j],
                    item.children@[j],
                    id,
                    suffix@,
                ),
            forall|j: int| i <= j < n ==> #[trigger] item.children@[j] == old(item).children@[j],
        decreases n - i,
    {
        append_title_in(&mut item.children[i], id, suffix);
        i = i + 1;
    }
}

/// Appends `suffix` to the title of the node with `id` below `root`, looking
/// through closed branches too. The id must be present: ids are internal and
/// a missing one is a programming error.
pub fn append_title_on_root(root: &mut Item, id: usize, suffix: &str)
    requires
        forest_has_id(old(root).children@, id),
    ensures
        final(root).id == old(root).id,
        final(root).title@ == old(root).title@,
        final(root).is_open == old(root).is_open,
        appended_forest(old(root).children@, final(root).children@, id, suffix@),
        preorder_ids(*final(root)) == preorder_ids(*old(root)),
{
    let n = root.children.len();
    let mut i: usize = 0;
    while i < n
        invariant
            n == old(root).children@.len(),
            0 <= i <= n,
            root.children@.len() == n,
            root.id == old(root).id,
            root.is_open == old(root).is_open,
            root.title@ == old(root).title@,
            forall|j: int|
                0 <= j < i ==> appended(
                    #[trigger] old(root).children@[j],
                    root.children@[j],
                    id,
                    suffix@,
                ),
            forall|j: int| i <= j < n ==> #[trigger] root.children@[j] == old(root).children@[j],
        decreases n - i,
    {
        append_title_in(&mut root.children[i], id, suffix);
        i = i + 1;
    }
    proof {
        lemma_appended_forest_ids(old(root).children@, root.children@, id, suffix@);
    }
}

/// `n` is shown under `item`: it is one of the children of an open node
/// reached from `item` through open nodes only (`item` itself included).
pub open spec fn visible_node(item: Item, n: Item) -> bool
    decreases item,
{
    item.is_open && exists|i: int|
        0 <= i < item.children@.len() && (#[trigger] item.children@[i] == n || visible_node(
            item.children@[i],
            n,
        ))
}

/// Some node shown under `item` carries `id`.
pub open spec fn visible_id(item: Item, id: usize) -> bool {
    exists|n: Item| #[trigger] visible_node(item, n) && n.id == id
}

/// Finds the node with `id` among the nodes shown under `item`, together with
/// its parent. Closed branches are not entered.
pub fn find_item_with_parent(item: &Item, id: usize) -> (r: Option<(&Item, &Item)>)
    ensures
        r.is_some() == visible_id(*item, id),
        r matches Some((p, c)) ==> {
            &&& c.id == id
            &&& visible_node(*item, *c)
            &&& p.is_open
            &&& p.children@.contains(*c)
            &&& (*p == *item || visible_node(*item, *p))
        },
    decreases item,
{
    if !item.is_open {
        return None;
    }
    let mut i: usize = 0;
    while i < item.children.len()
        invariant
            item.is_open,
            0 <= i <= item.children@.len(),
            forall|j: int|
                0 <= j < i ==> (#[trigger] item.children@[j]).id != id && !visible_id(
                    item.children@[j],
                    id,
                ),
        decreases item.children@.len() - i,
    {
        let child = &item.children[i];
        assert(visible_node(*item, *child));
        if child.id == id {
            return Some((item, child));
        } else if child.is_open {
            match find_item_with_parent(child, id) {
                Some((p, c)) => {
                    assert(visible_node(*item, *c));
                    assert(*p == *child ==> visible_node(*item, *p));
                    assert(visible_node(*child, *p) ==> visible_node(*item, *p));
                    return Some((p, c));
                },
                None => {},
            }
        }
        i = i + 1;
    }
    proof {
        assert forall|n: Item| visible_node(*item, n) implies n.id != id by {
            let k = choose|k: int|
                0 <= k < item.children@.len() && (#[trigger] item.children@[k] == n
                    || visible_node(item.children@[k], n));
            if item.children@[k] != n {
                assert(visible_node(item.children@[k], n));
            }
        }
    }
    None
}

} // verus!
