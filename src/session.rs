use vstd::prelude::*;
use vstd::string::StringExecFns;
use crate::frame::{forest_height, renders_all, rows, traverse, Line};
use crate::item::{
    find_item_with_parent, forest_ids, ids_unique, item_leaf, preorder_ids,
    visible_id, visible_node, IdGen, Item,
};

verus! {

/// The tree on screen: its root, which is never shown itself, and the id of
/// the highlighted node.
pub struct Tree {
    pub root: Item,
    pub selected_item: usize,
}

/// The keys the widget reacts to; every other input is `Other`.
#[derive(Clone, Copy, Debug, PartialEq, Eq, Structural)]
pub enum Key {
    Quit,
    Down,
    Up,
    DescribeParent,
    Other,
}

/// The selection after `key`: down adds one (up to the largest id), up takes
/// one away unless it is already 0, any other key leaves it.
pub open spec fn step(selected: usize, key: Key) -> usize {
    match key {
        Key::Down => if selected < usize::MAX {
            (selected + 1) as usize
        } else {
            selected
        },
        Key::Up => if selected > 0 {
            (selected - 1) as usize
        } else {
            selected
        },
        _ => selected,
    }
}

/// The selection after the keys `keys`, pressed in order from `selected`.
pub open spec fn walk(selected: usize, keys: Seq<Key>) -> usize
    decreases keys.len(),
{
    if keys.len() == 0 {
        selected
    } else {
        walk(step(selected, keys[0]), keys.drop_first())
    }
}

/// How many of `keys` are `Up`.
pub open spec fn ups(keys: Seq<Key>) -> int
    decreases keys.len(),
{
    if keys.len() == 0 {
        0
    } else {
        (if keys[0] == Key::Up {
            1int
        } else {
            0
        }) + ups(keys.drop_first())
    }
}

/// Navigation never drops the selection below 0, and each up key lowers it
/// by at most one: after any keys it is at least the start less the number
/// of up keys.
pub proof fn lemma_selection_floor(selected: usize, keys: Seq<Key>)
    ensures
        walk(selected, keys) >= 0,
        walk(selected, keys) >= selected - ups(keys),
    decreases keys.len(),
{
    if keys.len() > 0 {
        lemma_selection_floor(step(selected, keys[0]), keys.drop_first());
    }
}

/// `m` is the diagnostic line for the selection `id` under `root`: the titles
/// of the shown node with that id and of its parent, or "Not Found".
pub open spec fn describes(root: Item, id: usize, m: Seq<char>) -> bool {
    if visible_id(root, id) {
        exists|p: Item, c: Item|
            #![trigger p.children@.contains(c)]
            c.id == id && visible_node(root, c) && p.is_open && p.children@.contains(c) && (p
                == root || visible_node(root, p)) && m == p.title@ + " - "@ + c.title@
    } else {
        m == "Not Found"@
    }
}

impl Tree {
    /// Well-formed: no two nodes share an id, so an id names one node.
    pub open spec fn wf(&self) -> bool {
        ids_unique(self.root)
    }

    /// A tree over `root` with its first child selected.
    pub fn new(root: Item) -> (r: Tree)
        requires
            root.children@.len() > 0,
        ensures
            r.root == root,
            r.wf() == ids_unique(root),
            r.selected_item == root.children@[0].id,
    {
        let first_id = root.children[0].id;
        Tree { root, selected_item: first_id }
    }

    /// The frame for this tree: one row per shown node, depth first, the
    /// selected one highlighted.
    pub fn render(&self) -> (r: Vec<Line>)
        requires
            forest_height(self.root.children@) <= usize::MAX / 2,
        ensures
            renders_all(r@, rows(self.root.children@, 0), self.selected_item),
    {
        traverse(&self.root.children, 0, self.selected_item)
    }

    /// The diagnostic line for the current selection.
    pub fn describe_selected(&self) -> (r: String)
        ensures
            describes(self.root, self.selected_item, r@),
    {
        match find_item_with_parent(&self.root, self.selected_item) {
            Some((parent, child)) => {
                let mut msg = parent.title.clone();
                msg.append(" - ");
                msg.append(child.title.as_str());
                proof {
                    reveal_strlit(" - ");
                    lemma_describes_found(self.root, *parent, *child, self.selected_item, msg@);
                }
                msg
            },
            None => {
                proof {
                    reveal_strlit("Not Found");
                }
                String::from_str("Not Found")
            },
        }
    }
}

/// The widget's state between two key presses: the tree and the diagnostic
/// lines shown below it, oldest first.
pub struct Session {
    pub tree: Tree,
    pub extra_messages: Vec<String>,
}

impl Session {
    /// A session over `tree` with no diagnostic lines yet.
    pub fn new(tree: Tree) -> (r: Session)
        ensures
            r.tree == tree,
            r.extra_messages@.len() == 0,
    {
        Session { tree, extra_messages: Vec::new() }
    }

    /// Applies one key press. Returns whether the session ends. The tree's
    /// nodes never change; only the selection moves, and the describe key
    /// adds one diagnostic line.
    pub fn handle_key(&mut self, key: Key) -> (quit: bool)
        ensures
            quit == (key == Key::Quit),
            final(self).tree.root == old(self).tree.root,
            final(self).tree.wf() == old(self).tree.wf(),
            final(self).tree.selected_item == step(old(self).tree.selected_item, key),
            key == Key::DescribeParent ==> {
                &&& final(self).extra_messages@.len() == old(self).extra_messages@.len() + 1
                &&& final(self).extra_messages@.drop_last() == old(self).extra_messages@
                &&& describes(
                    old(self).tree.root,
                    old(self).tree.selected_item,
                    final(self).extra_messages@.last()@,
                )
            },
            key != Key::DescribeParent ==> final(self).extra_messages@ == old(
                self,
            ).extra_messages@,
    {
        match key {
            Key::Quit => {
                return true;
            },
            Key::Down => {
                if self.tree.selected_item < usize::MAX {
                    self.tree.selected_item = self.tree.selected_item + 1;
                }
            },
            Key::Up => {
                if self.tree.selected_item > 0 {
                    self.tree.selected_item = self.tree.selected_item - 1;
                }
            },
            Key::DescribeParent => {
                let msg = self.tree.describe_selected();
                self.extra_messages.push(msg);
                assert(self.extra_messages@.drop_last() =~= old(self).extra_messages@);
            },
            Key::Other => {},
        }
        false
    }
}

/// The demo tree: Root over Item 1 (over Item 1.1, Item 1.2 over Item 1.2.1
/// to Item 1.2.4, and Item 1.3) and Item 2 to Item 6. Ids are handed out in
/// display order, starting with Root, and Item 1 is selected.
pub fn sample_tree(ids: &mut IdGen) -> (r: Tree)
    requires
        old(ids).next <= usize::MAX - 15,
    ensures
        final(ids).next == old(ids).next + 14,
        r.root.id == old(ids).next,
        r.root.title@ == "Root"@,
        r.root.is_open,
        r.root.children@.len() == 6,
        r.root.children@[0].id == old(ids).next + 1,
        r.root.children@[0].title@ == "Item 1"@,
        r.root.children@[0].children@.len() == 3,
        r.root.children@[0].children@[0].id == old(ids).next + 2,
        r.root.children@[0].children@[0].title@ == "Item 1.1"@,
        r.selected_item == r.root.children@[0].id,
        preorder_ids(r.root) == Seq::new(14, |k: int| (old(ids).next + k) as usize),
        r.wf(),
{
    let root_id = ids.get_id();
    let item1_id = ids.get_id();
    let item11 = item_leaf(ids, "Item 1.1");
    let item12_id = ids.get_id();
    let item121 = item_leaf(ids, "Item 1.2.1");
    let item122 = item_leaf(ids, "Item 1.2.2");
    let item123 = item_leaf(ids, "Item 1.2.3");
    let item124 = item_leaf(ids, "Item 1.2.4");
    let item12 = Item::new(item12_id, "Item 1.2", vec![item121, item122, item123, item124]);
    let item13 = item_leaf(ids, "Item 1.3");
    let item1 = Item::new(item1_id, "Item 1", vec![item11, item12, item13]);
    let item2 = item_leaf(ids, "Item 2");
    let item3 = item_leaf(ids, "Item 3");
    let item4 = item_leaf(ids, "Item 4");
    let item5 = item_leaf(ids, "Item 5");
    let item6 = item_leaf(ids, "Item 6");
    let root = Item::new(root_id, "Root", vec![item1, item2, item3, item4, item5, item6]);
    proof {
        let b = root_id as int;
        let l = seq![item121, item122, item123, item124];
        assert(l.drop_last().drop_last().drop_last() =~= seq![item121]);
        assert(seq![item121].drop_last() =~= Seq::<Item>::empty());
        assert(forest_ids(Seq::<Item>::empty()) =~= seq![]);
        assert(forest_ids(seq![item121]) =~= seq![(b + 4) as usize]);
        assert(forest_ids(l.drop_last().drop_last()) =~= Seq::new(2, |k: int| (b + 4 + k) as usize));
        assert(forest_ids(l.drop_last()) =~= Seq::new(3, |k: int| (b + 4 + k) as usize));
        assert(forest_ids(l) =~= Seq::new(4, |k: int| (b + 4 + k) as usize));
        assert(preorder_ids(item12) =~= Seq::new(5, |k: int| (b + 3 + k) as usize));
        let m = seq![item11, item12, item13];
        assert(m.drop_last().drop_last() =~= seq![item11]);
        assert(seq![item11].drop_last() =~= Seq::<Item>::empty());
        assert(forest_ids(seq![item11]) =~= seq![(b + 2) as usize]);
        assert(forest_ids(m.drop_last()) =~= Seq::new(6, |k: int| (b + 2 + k) as usize));
        assert(forest_ids(m) =~= Seq::new(7, |k: int| (b + 2 + k) as usize));
        assert(preorder_ids(item1) =~= Seq::new(8, |k: int| (b + 1 + k) as usize));
        let t = seq![item1, item2, item3, item4, item5, item6];
        assert(t.drop_last().drop_last().drop_last().drop_last().drop_last() =~= seq![item1]);
        assert(seq![item1].drop_last() =~= Seq::<Item>::empty());
        assert(forest_ids(seq![item1]) =~= Seq::new(8, |k: int| (b + 1 + k) as usize));
        assert(forest_ids(t.drop_last().drop_last().drop_last().drop_last()) =~= Seq::new(
            9,
            |k: int| (b + 1 + k) as usize,
        ));
        assert(forest_ids(t.drop_last().drop_last().drop_last()) =~= Seq::new(
            10,
            |k: int| (b + 1 + k) as usize,
        ));
        assert(forest_ids(t.drop_last().drop_last()) =~= Seq::new(
            11,
            |k: int| (b + 1 + k) as usize,
        ));
        assert(forest_ids(t.drop_last()) =~= Seq::new(12, |k: int| (b + 1 + k) as usize));
        assert(forest_ids(t) =~= Seq::new(13, |k: int| (b + 1 + k) as usize));
        assert(preorder_ids(root) =~= Seq::new(14, |k: int| (b + k) as usize));
    }
    Tree::new(root)
}

proof fn lemma_describes_found(root: Item, p: Item, c: Item, id: usize, m: Seq<char>)
    requires
        c.id == id,
        visible_node(root, c),
        p.is_open,
        p.children@.contains(c),
        p == root || visible_node(root, p),
        m == p.title@ + " - "@ + c.title@,
    ensures
        describes(root, id, m),
{
    assert(visible_node(root, c) && c.id == id);
}

} // verus!
