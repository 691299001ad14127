use vstd::prelude::*;
use vstd::string::StringExecFns;
use crate::item::Item;

verus! {

/// One row of a frame: its text and whether it carries the selection
/// highlight.
pub struct Line {
    pub text: String,
    pub highlighted: bool,
}

/// The rows shown for the forest `items` at `depth`, depth first, each with
/// its depth: every tree in order, via `subtree_rows`.
pub open spec fn rows(items: Seq<Item>, depth: int) -> Seq<(int, Item)>
    decreases items, 0int,
{
    if items.len() == 0 {
        seq![]
    } else {
        rows(items.drop_last(), depth) + subtree_rows(items.last(), depth)
    }
}

/// The rows shown for `item` at `depth`: its own, then, only when it is open,
/// those of its children one level deeper.
pub open spec fn subtree_rows(item: Item, depth: int) -> Seq<(int, Item)>
    decreases item, 1int,
{
    seq![(depth, item)] + if item.is_open {
        rows(item.children@, depth + 1)
    } else {
        seq![]
    }
}

/// `n` blank characters.
pub open spec fn spaces(n: int) -> Seq<char> {
    Seq::new(n as nat, |i: int| ' ')
}

/// The glyph in front of a title: filled for a node with children, hollow for
/// a leaf.
pub open spec fn marker(item: Item) -> Seq<char> {
    if item.children@.len() > 0 {
        seq!['●']
    } else {
        seq!['○']
    }
}

/// Blank characters after the title, so that a highlight spans the row.
pub const PAD: usize = 60;

/// The text of the row of `item` at `depth`: a space, two spaces per level,
/// the glyph, a space, the title and the padding.
pub open spec fn line_text(depth: int, item: Item) -> Seq<char> {
    seq![' '] + spaces(2 * depth) + marker(item) + seq![' '] + item.title@ + spaces(PAD as int)
}

/// `line` renders the row `row` with `selected` as the selection.
pub open spec fn renders(line: Line, row: (int, Item), selected: usize) -> bool {
    &&& line.text@ == line_text(row.0, row.1)
    &&& line.highlighted == (row.1.id == selected)
}

/// `lines` renders `rs` row for row.
pub open spec fn renders_all(lines: Seq<Line>, rs: Seq<(int, Item)>, selected: usize) -> bool {
    &&& lines.len() == rs.len()
    &&& forall|k: int| 0 <= k < rs.len() ==> renders(#[trigger] lines[k], rs[k], selected)
}

fn push_spaces(s: &mut String, n: usize)
    ensures
        final(s)@ == old(s)@ + spaces(n as int),
{
    let mut k: usize = 0;
    while k < n
        invariant
            k <= n,
            s@ == old(s)@ + spaces(k as int),
        decreases n - k,
    {
        proof {
            reveal_strlit(" ");
        }
        s.append(" ");
        assert(s@ =~= old(s)@ + spaces(k + 1));
        k = k + 1;
    }
}

/// The row of `item` at depth `level`.
pub fn render_line(item: &Item, level: usize, selected: usize) -> (r: Line)
    requires
        2 * level <= usize::MAX,
    ensures
        renders(r, (level as int, *item), selected),
{
    let mut text = String::from_str(" ");
    push_spaces(&mut text, 2 * level);
    if item.children.len() > 0 {
        proof {
            reveal_strlit("●");
        }
        text.append("●");
    } else {
        proof {
            reveal_strlit("○");
        }
        text.append("○");
    }
    proof {
        reveal_strlit(" ");
    }
    text.append(" ");
    text.append(item.title.as_str());
    push_spaces(&mut text, PAD);
    proof {
        assert(text@ =~= line_text(level as int, *item));
    }
    Line { text, highlighted: item.id == selected }
}

/// How many levels the forest `items` spans (0 when empty).
pub open spec fn forest_height(items: Seq<Item>) -> nat
    decreases items, 0int,
{
    if items.len() == 0 {
        0
    } else {
        let a = forest_height(items.drop_last());
        let b = tree_height(items.last());
        if a >= b {
            a
        } else {
            b
        }
    }
}

/// How many levels the tree of `item` spans, `item` included.
pub open spec fn tree_height(item: Item) -> nat
    decreases item, 1int,
{
    1 + forest_height(item.children@)
}

/// Rendering is a depth-first walk in child order: a closed node gives its
/// own row alone, an open one its row followed at once by the rows of its
/// children one level deeper, and a forest gives the rows of its trees in
/// order, so that splitting it anywhere splits its rows there.
pub proof fn lemma_render_order(item: Item, depth: int, a: Seq<Item>, b: Seq<Item>)
    ensures
        !item.is_open ==> subtree_rows(item, depth) == seq![(depth, item)],
        item.is_open ==> subtree_rows(item, depth) == seq![(depth, item)] + rows(
            item.children@,
            depth + 1,
        ),
        rows(a + b, depth) == rows(a, depth) + rows(b, depth),
    decreases b.len(),
{
    if !item.is_open {
        assert(subtree_rows(item, depth) =~= seq![(depth, item)]);
    }
    if b.len() == 0 {
        assert(a + b =~= a);
        assert(rows(a, depth) + rows(b, depth) =~= rows(a, depth));
    } else {
        lemma_render_order(item, depth, a, b.drop_last());
        assert((a + b).drop_last() =~= a + b.drop_last());
        assert((a + b).last() == b.last());
        assert(rows(a + b, depth) =~= rows(a, depth) + rows(b, depth));
    }
}

proof fn lemma_renders_concat(
    a: Seq<Line>,
    b: Seq<Line>,
    ra: Seq<(int, Item)>,
    rb: Seq<(int, Item)>,
    selected: usize,
)
    requires
        renders_all(a, ra, selected),
        renders_all(b, rb, selected),
    ensures
        renders_all(a + b, ra + rb, selected),
{
    assert forall|k: int| 0 <= k < (ra + rb).len() implies renders(
        #[trigger] (a + b)[k],
        (ra + rb)[k],
        selected,
    ) by {
        if k < ra.len() {
            assert(renders(a[k], ra[k], selected));
        } else {
            assert(renders(b[k - ra.len()], rb[k - ra.len()], selected));
        }
    }
}

proof fn lemma_height_prefix(items: Seq<Item>, i: int)
    requires
        0 <= i < items.len(),
    ensures
        tree_height(items[i]) <= forest_height(items),
        forest_height(items.subrange(0, i)) <= forest_height(items),
    decreases items.len(),
{
    if i < items.len() - 1 {
        lemma_height_prefix(items.drop_last(), i);
        assert(items.drop_last().subrange(0, i) =~= items.subrange(0, i));
        assert(items.drop_last()[i] == items[i]);
    } else {
        assert(items.drop_last() =~= items.subrange(0, i));
    }
}

/// The rows of the forest `items` at depth `level`, depth first, with the
/// node whose id is `selected` highlighted.
pub fn traverse(items: &Vec<Item>, level: usize, selected: usize) -> (r: Vec<Line>)
    requires
        level + forest_height(items@) <= usize::MAX / 2,
    ensures
        renders_all(r@, rows(items@, level as int), selected),
    decreases items@,
{
    let mut out: Vec<Line> = Vec::new();
    let mut i: usize = 0;
    while i < items.len()
        invariant
            0 <= i <= items@.len(),
            level + forest_height(items@) <= usize::MAX / 2,
            renders_all(out@, rows(items@.subrange(0, i as int), level as int), selected),
        decreases items@.len() - i,
    {
        let item = &items[i];
        proof {
            lemma_height_prefix(items@, i as int);
        }
        let line = render_line(item, level, selected);
        let mut lines: Vec<Line> = vec![line];
        let ghost head = seq![(level as int, *item)];
        assert(renders_all(lines@, head, selected));
        if item.is_open {
            let mut below = traverse(&item.children, level + 1, selected);
            proof {
                lemma_renders_concat(
                    lines@,
                    below@,
                    head,
                    rows(item.children@, level + 1),
                    selected,
                );
            }
            lines.append(&mut below);
        }
        assert(subtree_rows(*item, level as int) =~= head + if item.is_open {
            rows(item.children@, level + 1)
        } else {
            seq![]
        });
        proof {
            lemma_renders_concat(
                out@,
                lines@,
                rows(items@.subrange(0, i as int), level as int),
                subtree_rows(*item, level as int),
                selected,
            );
            let pre = items@.subrange(0, i + 1);
            assert(pre.drop_last() =~= items@.subrange(0, i as int));
            assert(pre.last() == *item);
        }
        out.append(&mut lines);
        i = i + 1;
    }
    assert(items@.subrange(0, items@.len() as int) =~= items@);
    out
}

} // verus!
