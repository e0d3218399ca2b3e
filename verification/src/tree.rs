//! The document set against the tree itself. A tree is written by going
//! through it depth first: a node's open, then its children in order, then
//! its close. The serialiser sees the tree as a flat sequence of visits
//! only, and writes the same.

use crate::node::AstNode;
use crate::serializer::{
    document_events, entry_of, events_from, excluded, open_of, parent_is_open, root_entry,
    stack_from, well_formed_from, well_formed_traversal, Visit,
};
use crate::stack::{
    close_of, lemma_kept_for_topmost, lemma_unwind_in_two_steps, unwind, Ancestor,
};
use crate::writer::{open_event, XmlEvent};
use vstd::prelude::*;

verus! {

/// A syntax tree: a node and the trees of its children, in order.
pub struct Tree {
    pub node: AstNode,
    pub children: Seq<Tree>,
}

/// The visits that the traversal makes of a forest, the trees of which are
/// the children of `parent`: each tree in order, its root first, then the
/// forest of its children in the same way.
pub open spec fn forest_visits(parent: u64, forest: Seq<Tree>) -> Seq<Visit>
    decreases forest,
{
    if forest.len() == 0 {
        Seq::empty()
    } else {
        let last = forest.last();
        forest_visits(parent, forest.drop_last()) + seq![Visit { current: last.node, parent }]
            + forest_visits(last.node.id, last.children)
    }
}

/// A forest written depth first: each tree in order, as the open of its
/// root, the forest of its children, and the close of its root. A root
/// without an element leaves its children where its own element would be.
pub open spec fn forest_events(skip_non_main_file: bool, forest: Seq<Tree>) -> Seq<XmlEvent>
    decreases forest,
{
    if forest.len() == 0 {
        Seq::empty()
    } else {
        let last = forest.last();
        forest_events(skip_non_main_file, forest.drop_last()) + open_of(
            skip_non_main_file,
            last.node,
        ) + forest_events(skip_non_main_file, last.children) + close_of(
            entry_of(skip_non_main_file, last.node),
        )
    }
}

/// A tree written depth first. Its root always has an element.
pub open spec fn tree_events(skip_non_main_file: bool, tree: Tree) -> Seq<XmlEvent> {
    seq![open_event(tree.node)] + forest_events(skip_non_main_file, tree.children)
        + seq![XmlEvent::Close]
}

/// Whether some node of the forest has this identity.
pub open spec fn forest_has(forest: Seq<Tree>, id: u64) -> bool
    decreases forest,
{
    forest.len() > 0 && (forest_has(forest.drop_last(), id) || forest.last().node.id == id
        || forest_has(forest.last().children, id))
}

/// Whether every node of the forest can be told from its descendants: none
/// of them has its identity.
pub open spec fn told_apart(forest: Seq<Tree>) -> bool
    decreases forest,
{
    forest.len() == 0 || (told_apart(forest.drop_last()) && !forest_has(
        forest.last().children,
        forest.last().node.id,
    ) && told_apart(forest.last().children))
}

/// Whether every node of the tree can be told from its descendants.
pub open spec fn tree_told_apart(tree: Tree) -> bool {
    !forest_has(tree.children, tree.node.id) && told_apart(tree.children)
}

/// Skipping is transparent. A tree whose root has no element is written as
/// the forest of its children alone, in the place where the tree stands;
/// a tree whose root has one is written as that element around them.
pub proof fn lemma_skipped_root_leaves_its_children(skip_non_main_file: bool, forest: Seq<Tree>)
    requires
        forest.len() > 0,
    ensures
        excluded(skip_non_main_file, forest.last().node) ==> forest_events(
            skip_non_main_file,
            forest,
        ) == forest_events(skip_non_main_file, forest.drop_last()) + forest_events(
            skip_non_main_file,
            forest.last().children,
        ),
        !excluded(skip_non_main_file, forest.last().node) ==> forest_events(
            skip_non_main_file,
            forest,
        ) == forest_events(skip_non_main_file, forest.drop_last()) + seq![
            open_event(forest.last().node),
        ] + forest_events(skip_non_main_file, forest.last().children) + seq![XmlEvent::Close],
{
    let last = forest.last();
    let earlier = forest_events(skip_non_main_file, forest.drop_last());
    let below = forest_events(skip_non_main_file, last.children);
    if excluded(skip_non_main_file, last.node) {
        assert(earlier + Seq::<XmlEvent>::empty() + below + Seq::<XmlEvent>::empty() =~= earlier
            + below);
    }
}

/// Visits made one after the other: the later ones go on from the path
/// that the earlier ones leave.
pub proof fn lemma_visits_add(
    start: Seq<Ancestor>,
    skip_non_main_file: bool,
    a: Seq<Visit>,
    b: Seq<Visit>,
)
    ensures
        stack_from(start, skip_non_main_file, a + b) == stack_from(
            stack_from(start, skip_non_main_file, a),
            skip_non_main_file,
            b,
        ),
        events_from(start, skip_non_main_file, a + b) == events_from(start, skip_non_main_file, a)
            + events_from(stack_from(start, skip_non_main_file, a), skip_non_main_file, b),
    decreases b.len(),
{
    if b.len() == 0 {
        assert(a + b =~= a);
        assert(events_from(start, skip_non_main_file, a + b) =~= events_from(
            start,
            skip_non_main_file,
            a,
        ) + events_from(stack_from(start, skip_non_main_file, a), skip_non_main_file, b));
    } else {
        lemma_visits_add(start, skip_non_main_file, a, b.drop_last());
        assert((a + b).drop_last() =~= a + b.drop_last());
        assert((a + b).last() == b.last());
        assert(events_from(start, skip_non_main_file, a + b) =~= events_from(
            start,
            skip_non_main_file,
            a,
        ) + events_from(stack_from(start, skip_non_main_file, a), skip_non_main_file, b));
    }
}

/// Visits made one after the other find their parents on the path where
/// each part does.
pub proof fn lemma_well_formed_add(
    start: Seq<Ancestor>,
    skip_non_main_file: bool,
    a: Seq<Visit>,
    b: Seq<Visit>,
)
    requires
        well_formed_from(start, skip_non_main_file, a),
        well_formed_from(stack_from(start, skip_non_main_file, a), skip_non_main_file, b),
    ensures
        well_formed_from(start, skip_non_main_file, a + b),
{
    let middle = stack_from(start, skip_non_main_file, a);
    assert forall|k: int| 0 <= k < (a + b).len() implies #[trigger] parent_is_open(
        start,
        skip_non_main_file,
        a + b,
        k,
    ) by {
        if k < a.len() {
            assert((a + b).take(k) =~= a.take(k));
            assert(parent_is_open(start, skip_non_main_file, a, k));
        } else {
            let j = k - a.len();
            assert((a + b).take(k) =~= a + b.take(j));
            lemma_visits_add(start, skip_non_main_file, a, b.take(j));
            assert(parent_is_open(middle, skip_non_main_file, b, j));
        }
    }
}

/// One visit to a child of the node on top of the path, when nothing above
/// that node has its identity.
proof fn lemma_one_visit(
    stack: Seq<Ancestor>,
    skip_non_main_file: bool,
    visit: Visit,
    keep: int,
)
    requires
        0 < keep <= stack.len(),
        stack[keep - 1].id == visit.parent,
        forall|j: int| keep <= j < stack.len() ==> stack[j].id != visit.parent,
    ensures
        well_formed_from(stack, skip_non_main_file, seq![visit]),
        stack_from(stack, skip_non_main_file, seq![visit]) == stack.take(keep).push(
            entry_of(skip_non_main_file, visit.current),
        ),
        events_from(stack, skip_non_main_file, seq![visit]) == unwind(stack, keep as nat) + open_of(
            skip_non_main_file,
            visit.current,
        ),
{
    let one = seq![visit];
    lemma_kept_for_topmost(stack, visit.parent, keep);
    assert(one.drop_last() =~= Seq::empty());
    assert(one.last() == visit);
    assert(stack_from(stack, skip_non_main_file, Seq::empty()) == stack);
    assert(events_from(stack, skip_non_main_file, Seq::empty()) =~= Seq::empty());
    assert(events_from(stack, skip_non_main_file, one) =~= unwind(stack, keep as nat) + open_of(
        skip_non_main_file,
        visit.current,
    ));
    assert forall|k: int| 0 <= k < one.len() implies #[trigger] parent_is_open(
        stack,
        skip_non_main_file,
        one,
        k,
    ) by {
        assert(one.take(0) =~= Seq::empty());
        assert(stack[keep - 1].id == visit.parent);
    }
}

/// The visits of a forest, made from a path whose top is the parent of the
/// forest: each finds its parent on the path; the path they leave is the
/// old one with nodes of the forest on top; and what they write, together
/// with the closes still owed for those nodes, is the forest written depth
/// first.
pub proof fn lemma_forest_is_written_depth_first(
    start: Seq<Ancestor>,
    skip_non_main_file: bool,
    forest: Seq<Tree>,
)
    requires
        start.len() > 0,
        !forest_has(forest, start.last().id),
        told_apart(forest),
    ensures
        well_formed_from(start, skip_non_main_file, forest_visits(start.last().id, forest)),
        start.len() <= stack_from(
            start,
            skip_non_main_file,
            forest_visits(start.last().id, forest),
        ).len(),
        stack_from(start, skip_non_main_file, forest_visits(start.last().id, forest)).take(
            start.len() as int,
        ) == start,
        forall|j: int|
            start.len() <= j < stack_from(
                start,
                skip_non_main_file,
                forest_visits(start.last().id, forest),
            ).len() ==> forest_has(
                forest,
                #[trigger] stack_from(
                    start,
                    skip_non_main_file,
                    forest_visits(start.last().id, forest),
                )[j].id,
            ),
        events_from(start, skip_non_main_file, forest_visits(start.last().id, forest)) + unwind(
            stack_from(start, skip_non_main_file, forest_visits(start.last().id, forest)),
            start.len(),
        ) == forest_events(skip_non_main_file, forest),
    decreases forest,
{
    let skip = skip_non_main_file;
    let parent = start.last().id;
    let n = start.len() as int;
    if forest.len() == 0 {
        assert(stack_from(start, skip, forest_visits(parent, forest)).take(n) =~= start);
        assert(events_from(start, skip, forest_visits(parent, forest)) + unwind(start, n as nat)
            =~= forest_events(skip, forest));
    } else {
        let earlier = forest.drop_last();
        let tree = forest.last();
        let entry = entry_of(skip, tree.node);
        let visit = Visit { current: tree.node, parent };
        let visits_earlier = forest_visits(parent, earlier);
        let visits_below = forest_visits(tree.node.id, tree.children);
        // The trees before the last one.
        lemma_forest_is_written_depth_first(start, skip, earlier);
        let stack_earlier = stack_from(start, skip, visits_earlier);
        let events_earlier = events_from(start, skip, visits_earlier);
        // The visit to the root of the last tree cuts the path back to `start`.
        assert(stack_earlier[n - 1] == stack_earlier.take(n)[n - 1]);
        assert forall|j: int| n <= j < stack_earlier.len() implies stack_earlier[j].id
            != parent by {
            assert(forest_has(earlier, stack_earlier[j].id));
        }
        lemma_one_visit(stack_earlier, skip, visit, n);
        lemma_visits_add(start, skip, visits_earlier, seq![visit]);
        lemma_well_formed_add(start, skip, visits_earlier, seq![visit]);
        let visits_entered = visits_earlier + seq![visit];
        let stack_entered = start.push(entry);
        assert(stack_earlier.take(n).push(entry) =~= stack_entered);
        assert(stack_from(start, skip, visits_entered) == stack_entered);
        // The children of the last tree.
        lemma_forest_is_written_depth_first(stack_entered, skip, tree.children);
        lemma_visits_add(start, skip, visits_entered, visits_below);
        lemma_well_formed_add(start, skip, visits_entered, visits_below);
        let visits = forest_visits(parent, forest);
        assert(visits == visits_entered + visits_below);
        let stack = stack_from(start, skip, visits);
        let events_below = events_from(stack_entered, skip, visits_below);
        assert(stack == stack_from(stack_entered, skip, visits_below));
        assert(stack.take(n) =~= stack.take(n + 1).take(n));
        assert(stack.take(n) =~= start);
        assert forall|j: int| n <= j < stack.len() implies forest_has(
            forest,
            #[trigger] stack[j].id,
        ) by {
            if j == n {
                assert(stack[n] == stack.take(n + 1)[n]);
            } else {
                assert(forest_has(tree.children, stack[j].id));
            }
        }
        // What is still owed: the closes above the last root, then its own.
        lemma_unwind_in_two_steps(stack, (n + 1) as nat, n as nat);
        assert(stack_entered.drop_last() =~= start);
        assert(unwind(start, n as nat) =~= Seq::empty());
        assert(unwind(stack_entered, n as nat) =~= close_of(entry));
        assert(events_from(start, skip, visits) + unwind(stack, n as nat) =~= (events_earlier
            + unwind(stack_earlier, n as nat)) + open_of(skip, tree.node) + (events_below + unwind(
            stack,
            (n + 1) as nat,
        )) + close_of(entry));
    }
}

/// The serialiser writes a tree as going through it depth first does. Given
/// the visits that the traversal makes of a tree in which every node can be
/// told from its descendants, each visit finds its parent on the path, and
/// the events of the document are the root's open, the forest of its
/// children written depth first, and the root's close. So an element is
/// closed after all that lies inside it, and the element of a node lies
/// inside that of its nearest ancestor that has one.
pub proof fn lemma_document_mirrors_tree(tree: Tree, skip_non_main_file: bool)
    requires
        tree_told_apart(tree),
    ensures
        well_formed_traversal(tree.node, forest_visits(tree.node.id, tree.children)),
        document_events(tree.node, skip_non_main_file, forest_visits(tree.node.id, tree.children))
            == tree_events(skip_non_main_file, tree),
{
    let skip = skip_non_main_file;
    let start = seq![root_entry(tree.node)];
    let visits = forest_visits(tree.node.id, tree.children);
    let stack = stack_from(start, skip, visits);
    lemma_forest_is_written_depth_first(start, false, tree.children);
    lemma_forest_is_written_depth_first(start, skip, tree.children);
    lemma_unwind_in_two_steps(stack, 1, 0);
    assert(start.drop_last() =~= Seq::empty());
    assert(unwind(Seq::<Ancestor>::empty(), 0) =~= Seq::empty());
    assert(unwind(start, 0) =~= seq![XmlEvent::Close]);
    assert(document_events(tree.node, skip, visits) =~= seq![open_event(tree.node)] + (events_from(
        start,
        skip,
        visits,
    ) + unwind(stack, 1)) + seq![XmlEvent::Close]);
}

} // verus!
