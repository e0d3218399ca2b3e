//! The stack of open ancestors: the path from the root to the node whose
//! element was opened last, outermost first.

use crate::writer::XmlEvent;
use vstd::prelude::*;

verus! {

/// One node on the path: which node it is, and whether it goes without an
/// element of its own.
#[derive(Debug, Clone, Copy, PartialEq, Eq, Structural)]
pub struct Ancestor {
    pub id: u64,
    pub excluded: bool,
}

/// Whether a node is on the path.
pub open spec fn is_open(stack: Seq<Ancestor>, id: u64) -> bool {
    exists|i: int| 0 <= i < stack.len() && #[trigger] stack[i].id == id
}

/// How many entries stay when the path is cut back to `parent`: all up to
/// the topmost entry of that node. None stays where the node is not on the
/// path.
pub open spec fn kept_for(stack: Seq<Ancestor>, parent: u64) -> nat
    decreases stack.len(),
{
    if stack.len() == 0 {
        0
    } else if stack.last().id == parent {
        stack.len()
    } else {
        kept_for(stack.drop_last(), parent)
    }
}

/// What leaving one entry writes: a close, unless the entry has no element.
pub open spec fn close_of(entry: Ancestor) -> Seq<XmlEvent> {
    if entry.excluded {
        Seq::empty()
    } else {
        seq![XmlEvent::Close]
    }
}

/// What cutting the path back to its first `keep` entries writes: the
/// closes of the entries that leave, innermost first.
pub open spec fn unwind(stack: Seq<Ancestor>, keep: nat) -> Seq<XmlEvent>
    decreases stack.len(),
{
    if stack.len() <= keep {
        Seq::empty()
    } else {
        close_of(stack.last()) + unwind(stack.drop_last(), keep)
    }
}

/// How many entries of a path have an element.
pub open spec fn elements_on(stack: Seq<Ancestor>) -> nat
    decreases stack.len(),
{
    if stack.len() == 0 {
        0
    } else {
        elements_on(stack.drop_last()) + if stack.last().excluded {
            0nat
        } else {
            1nat
        }
    }
}

/// The path after a visit to a child of `parent`: cut back to `parent`,
/// then one longer by the child.
pub open spec fn descended(stack: Seq<Ancestor>, parent: u64, entry: Ancestor) -> Seq<Ancestor> {
    stack.take(kept_for(stack, parent) as int).push(entry)
}

/// Cutting back to a node on the path keeps that node on top, and no entry
/// above it is that node.
pub proof fn lemma_kept_for(stack: Seq<Ancestor>, parent: u64)
    requires
        is_open(stack, parent),
    ensures
        0 < kept_for(stack, parent) <= stack.len(),
        stack[kept_for(stack, parent) - 1].id == parent,
        forall|j: int| kept_for(stack, parent) <= j < stack.len() ==> stack[j].id != parent,
    decreases stack.len(),
{
    let i = choose|i: int| 0 <= i < stack.len() && #[trigger] stack[i].id == parent;
    if stack.last().id != parent {
        let rest = stack.drop_last();
        assert(rest[i].id == parent);
        lemma_kept_for(rest, parent);
        assert forall|j: int| kept_for(stack, parent) <= j < stack.len() implies stack[j].id
            != parent by {
            if j < rest.len() {
                assert(rest[j].id != parent);
            }
        }
    }
}

/// Cutting a path back never keeps more than the path has.
pub proof fn lemma_kept_for_bound(stack: Seq<Ancestor>, parent: u64)
    ensures
        kept_for(stack, parent) <= stack.len(),
    decreases stack.len(),
{
    if stack.len() > 0 && stack.last().id != parent {
        lemma_kept_for_bound(stack.drop_last(), parent);
    }
}

/// The topmost entry of a node is where cutting back to it stops.
pub proof fn lemma_kept_for_topmost(stack: Seq<Ancestor>, parent: u64, n: int)
    requires
        0 < n <= stack.len(),
        stack[n - 1].id == parent,
        forall|j: int| n <= j < stack.len() ==> stack[j].id != parent,
    ensures
        kept_for(stack, parent) == n,
    decreases stack.len(),
{
    if stack.len() > n {
        lemma_kept_for_topmost(stack.drop_last(), parent, n);
    }
}

/// After a visit the child is on top of the path with its parent right
/// under it, and the bottom of the path is what it was: the path never runs
/// empty while visits find their parents on it.
pub proof fn lemma_descended(stack: Seq<Ancestor>, parent: u64, entry: Ancestor)
    requires
        is_open(stack, parent),
    ensures
        descended(stack, parent, entry).len() >= 2,
        descended(stack, parent, entry).last() == entry,
        descended(stack, parent, entry)[descended(stack, parent, entry).len() - 2].id == parent,
        descended(stack, parent, entry)[0] == stack[0],
        is_open(descended(stack, parent, entry), parent),
        is_open(descended(stack, parent, entry), entry.id),
{
    lemma_kept_for(stack, parent);
    let after = descended(stack, parent, entry);
    assert(after[after.len() - 2].id == parent);
    assert(after[after.len() - 1].id == entry.id);
}

/// Whether two paths hold the same nodes, whatever they say of their
/// elements.
pub open spec fn same_nodes(a: Seq<Ancestor>, b: Seq<Ancestor>) -> bool {
    a.len() == b.len() && forall|i: int| 0 <= i < a.len() ==> a[i].id == b[i].id
}

/// Where a path is cut back depends on its nodes alone.
pub proof fn lemma_same_nodes_cut_alike(a: Seq<Ancestor>, b: Seq<Ancestor>, parent: u64)
    requires
        same_nodes(a, b),
    ensures
        kept_for(a, parent) == kept_for(b, parent),
        is_open(a, parent) == is_open(b, parent),
    decreases a.len(),
{
    if a.len() > 0 && a.last().id != parent {
        assert(b.last().id == a.last().id);
        lemma_same_nodes_cut_alike(a.drop_last(), b.drop_last(), parent);
    }
    if is_open(a, parent) {
        let i = choose|i: int| 0 <= i < a.len() && #[trigger] a[i].id == parent;
        assert(b[i].id == parent);
    }
    if is_open(b, parent) {
        let i = choose|i: int| 0 <= i < b.len() && #[trigger] b[i].id == parent;
        assert(a[i].id == parent);
    }
}

/// Cutting back by one entry more writes that entry's close last.
pub proof fn lemma_unwind_one_more(stack: Seq<Ancestor>, keep: nat)
    requires
        0 < keep <= stack.len(),
    ensures
        unwind(stack, (keep - 1) as nat) == unwind(stack, keep) + close_of(stack[keep - 1]),
    decreases stack.len(),
{
    if stack.len() > keep {
        lemma_unwind_one_more(stack.drop_last(), keep);
        assert(unwind(stack, (keep - 1) as nat) =~= unwind(stack, keep) + close_of(
            stack[keep - 1],
        ));
    } else {
        assert(unwind(stack.drop_last(), (keep - 1) as nat) =~= Seq::empty());
        assert(unwind(stack, (keep - 1) as nat) =~= unwind(stack, keep) + close_of(
            stack[keep - 1],
        ));
    }
}

/// Cutting back writes one close for each entry with an element that
/// leaves: as many as the path has elements more than what is kept.
pub proof fn lemma_unwind_len(stack: Seq<Ancestor>, keep: nat)
    requires
        keep <= stack.len(),
    ensures
        unwind(stack, keep).len() + elements_on(stack.take(keep as int)) == elements_on(stack),
    decreases stack.len(),
{
    if stack.len() > keep {
        lemma_unwind_len(stack.drop_last(), keep);
        assert(stack.drop_last().take(keep as int) =~= stack.take(keep as int));
    } else {
        assert(stack.take(keep as int) =~= stack);
    }
}

/// One entry more on a path is one element more, unless the entry has
/// none.
pub proof fn lemma_elements_on_push(stack: Seq<Ancestor>, entry: Ancestor)
    ensures
        elements_on(stack.push(entry)) == elements_on(stack) + if entry.excluded {
            0nat
        } else {
            1nat
        },
{
    assert(stack.push(entry).drop_last() =~= stack);
}

/// Cutting back writes closes only, at most one for each entry that leaves.
pub proof fn lemma_unwind_is_closes(stack: Seq<Ancestor>, keep: nat)
    ensures
        unwind(stack, keep).len() + keep <= stack.len() || unwind(stack, keep).len() == 0,
        forall|i: int| 0 <= i < unwind(stack, keep).len() ==> unwind(stack, keep)[i] == XmlEvent::Close,
    decreases stack.len(),
{
    if stack.len() > keep {
        lemma_unwind_is_closes(stack.drop_last(), keep);
    }
}

/// Cutting back in two steps writes what cutting back at once writes.
pub proof fn lemma_unwind_in_two_steps(stack: Seq<Ancestor>, middle: nat, keep: nat)
    requires
        keep <= middle <= stack.len(),
    ensures
        unwind(stack, keep) == unwind(stack, middle) + unwind(stack.take(middle as int), keep),
    decreases stack.len(),
{
    if stack.len() > middle {
        lemma_unwind_in_two_steps(stack.drop_last(), middle, keep);
        assert(stack.drop_last().take(middle as int) =~= stack.take(middle as int));
        assert(unwind(stack, keep) =~= unwind(stack, middle) + unwind(
            stack.take(middle as int),
            keep,
        ));
    } else {
        assert(stack.take(middle as int) =~= stack);
        assert(unwind(stack, keep) =~= unwind(stack, middle) + unwind(
            stack.take(middle as int),
            keep,
        ));
    }
}

/// The stack of open ancestors.
pub struct AncestorStack {
    entries: Vec<Ancestor>,
}

impl View for AncestorStack {
    type V = Seq<Ancestor>;

    closed spec fn view(&self) -> Seq<Ancestor> {
        self.entries@
    }
}

impl AncestorStack {
    /// The path that holds the root alone. The root always has an element.
    pub fn new(root: u64) -> (stack: AncestorStack)
        ensures
            stack@ == seq![Ancestor { id: root, excluded: false }],
    {
        let mut entries = Vec::new();
        entries.push(Ancestor { id: root, excluded: false });
        AncestorStack { entries }
    }

    /// How many nodes are on the path.
    pub fn len(&self) -> (n: usize)
        ensures
            n == self@.len(),
    {
        self.entries.len()
    }

    /// Whether a node is on the path.
    pub fn is_open(&self, id: u64) -> (open: bool)
        ensures
            open == is_open(self@, id),
    {
        let mut i: usize = 0;
        while i < self.entries.len()
            invariant
                i <= self.entries@.len(),
                forall|j: int| 0 <= j < i ==> self.entries@[j].id != id,
            decreases self.entries@.len() - i,
        {
            if self.entries[i].id == id {
                return true;
            }
            i += 1;
        }
        false
    }

    /// Cuts the path back to `parent` and puts `entry`, a child of it, on
    /// top. Returns how many elements that closes.
    pub fn descend(&mut self, parent: u64, entry: Ancestor) -> (closes: usize)
        requires
            is_open(old(self)@, parent),
        ensures
            final(self)@ == descended(old(self)@, parent, entry),
            closes == unwind(old(self)@, kept_for(old(self)@, parent)).len(),
    {
        let ghost before = self.entries@;
        let mut closes: usize = 0;
        proof {
            lemma_kept_for(before, parent);
            assert(before.len() == self.entries.len());
        }
        while self.entries[self.entries.len() - 1].id != parent
            invariant
                kept_for(before, parent) <= self.entries@.len() <= before.len(),
                0 < kept_for(before, parent),
                before[kept_for(before, parent) - 1].id == parent,
                self.entries@ == before.take(self.entries@.len() as int),
                closes == unwind(before, self.entries@.len() as nat).len(),
                closes + self.entries@.len() <= before.len() <= usize::MAX,
            decreases self.entries@.len(),
        {
            let ghost n = self.entries@.len();
            let top = self.entries.pop().unwrap();
            proof {
                lemma_unwind_one_more(before, n as nat);
                assert(self.entries@ =~= before.take(n - 1));
            }
            if !top.excluded {
                closes += 1;
            }
        }
        proof {
            assert(self.entries@.len() == kept_for(before, parent));
        }
        self.entries.push(entry);
        closes
    }

    /// Takes every node off the path. Returns how many elements that
    /// closes.
    pub fn drain(&mut self) -> (closes: usize)
        ensures
            final(self)@ == Seq::<Ancestor>::empty(),
            closes == unwind(old(self)@, 0).len(),
    {
        let ghost before = self.entries@;
        let mut closes: usize = 0;
        proof {
            assert(before.len() == self.entries.len());
        }
        while self.entries.len() > 0
            invariant
                self.entries@.len() <= before.len(),
                self.entries@ == before.take(self.entries@.len() as int),
                closes == unwind(before, self.entries@.len() as nat).len(),
                closes + self.entries@.len() <= before.len() <= usize::MAX,
            decreases self.entries@.len(),
        {
            let ghost n = self.entries@.len();
            let top = self.entries.pop().unwrap();
            proof {
                lemma_unwind_one_more(before, n as nat);
                assert(self.entries@ =~= before.take(n - 1));
            }
            if !top.excluded {
                closes += 1;
            }
        }
        assert(self.entries@ =~= Seq::<Ancestor>::empty());
        closes
    }
}

} // verus!
