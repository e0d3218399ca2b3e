//! The tree serialiser. The tree comes as a root and a flat sequence of
//! visits, one for each descendant in pre-order, each with the node and the
//! identity of its direct parent. Nothing says when a subtree ends or how
//! deep a node lies: the serialiser keeps the path of open ancestors and
//! cuts it back to the parent at each visit.

use crate::error::AstXmlError;
use crate::node::AstNode;
use crate::option::AstXmlOption;
use crate::stack::{
    descended, elements_on, is_open, kept_for, lemma_descended, lemma_elements_on_push,
    lemma_kept_for_bound, lemma_same_nodes_cut_alike, lemma_unwind_is_closes, lemma_unwind_len,
    same_nodes, unwind, Ancestor, AncestorStack,
};
use crate::writer::{
    create_end_xml_event_from_entry, create_start_xml_event_from_entry, document_text, grown,
    handed, lemma_handed_add, lemma_handed_nothing, lemma_prefix_transitive, open_event, took,
    XmlEvent, XmlSink,
};
use xml::writer::Error as XmlError;
use vstd::prelude::*;

verus! {

/// One step of the traversal: a node, and the identity of its direct parent.
pub struct Visit {
    pub current: AstNode,
    pub parent: u64,
}

/// What the traversal is told after a visit.
#[derive(Debug, Clone, Copy, PartialEq, Eq, Structural)]
pub enum VisitDirective {
    /// Go on into the children of the node.
    Recurse,
    /// Stop at once.
    Break,
}

/// Whether a node goes without an element of its own: it lies outside the
/// primary input file and such nodes are to be skipped.
pub open spec fn excluded(skip_non_main_file: bool, node: AstNode) -> bool {
    skip_non_main_file && !node.in_main_file
}

/// The entry that a visited node gets on the path.
pub open spec fn entry_of(skip_non_main_file: bool, node: AstNode) -> Ancestor {
    Ancestor { id: node.id, excluded: excluded(skip_non_main_file, node) }
}

/// The entry of the root. The root always has an element.
pub open spec fn root_entry(root: AstNode) -> Ancestor {
    Ancestor { id: root.id, excluded: false }
}

/// What entering a node writes: its open, unless the node has no element.
pub open spec fn open_of(skip_non_main_file: bool, node: AstNode) -> Seq<XmlEvent> {
    if excluded(skip_non_main_file, node) {
        Seq::empty()
    } else {
        seq![open_event(node)]
    }
}

/// What one visit writes: the closes of the entries above the parent,
/// innermost first, then the open of the node.
pub open spec fn visit_events(
    stack: Seq<Ancestor>,
    skip_non_main_file: bool,
    current: AstNode,
    parent: u64,
) -> Seq<XmlEvent> {
    unwind(stack, kept_for(stack, parent)) + open_of(skip_non_main_file, current)
}

/// The path after these visits, begun at the path `start`.
pub open spec fn stack_from(start: Seq<Ancestor>, skip_non_main_file: bool, visits: Seq<Visit>) -> Seq<
    Ancestor,
>
    decreases visits.len(),
{
    if visits.len() == 0 {
        start
    } else {
        descended(
            stack_from(start, skip_non_main_file, visits.drop_last()),
            visits.last().parent,
            entry_of(skip_non_main_file, visits.last().current),
        )
    }
}

/// What these visits write, begun at the path `start`: the events of each
/// visit in turn.
pub open spec fn events_from(
    start: Seq<Ancestor>,
    skip_non_main_file: bool,
    visits: Seq<Visit>,
) -> Seq<XmlEvent>
    decreases visits.len(),
{
    if visits.len() == 0 {
        Seq::empty()
    } else {
        events_from(start, skip_non_main_file, visits.drop_last()) + visit_events(
            stack_from(start, skip_non_main_file, visits.drop_last()),
            skip_non_main_file,
            visits.last().current,
            visits.last().parent,
        )
    }
}

/// Whether the parent of visit `k` is on the path when that visit comes.
pub open spec fn parent_is_open(
    start: Seq<Ancestor>,
    skip_non_main_file: bool,
    visits: Seq<Visit>,
    k: int,
) -> bool {
    is_open(stack_from(start, skip_non_main_file, visits.take(k)), visits[k].parent)
}

/// Whether each of the visits, begun at the path `start`, names a parent
/// that is on the path when the visit comes.
pub open spec fn well_formed_from(
    start: Seq<Ancestor>,
    skip_non_main_file: bool,
    visits: Seq<Visit>,
) -> bool {
    forall|k: int|
        0 <= k < visits.len() ==> #[trigger] parent_is_open(start, skip_non_main_file, visits, k)
}

/// The path after the root and these visits.
pub open spec fn stack_after(root: AstNode, skip_non_main_file: bool, visits: Seq<Visit>) -> Seq<
    Ancestor,
> {
    stack_from(seq![root_entry(root)], skip_non_main_file, visits)
}

/// What the root and these visits write: the open of the root, then the
/// events of each visit in turn.
pub open spec fn traversal_events(
    root: AstNode,
    skip_non_main_file: bool,
    visits: Seq<Visit>,
) -> Seq<XmlEvent> {
    seq![open_event(root)] + events_from(seq![root_entry(root)], skip_non_main_file, visits)
}

/// The events of the whole document: those of the traversal, then the
/// closes of all that is still open, the root's last.
pub open spec fn document_events(
    root: AstNode,
    skip_non_main_file: bool,
    visits: Seq<Visit>,
) -> Seq<XmlEvent> {
    traversal_events(root, skip_non_main_file, visits) + unwind(
        stack_after(root, skip_non_main_file, visits),
        0,
    )
}

/// Whether the visits can come from a tree under `root`: each names a
/// parent that is on the path when the visit comes. Which nodes are
/// skipped has no part in it.
pub open spec fn well_formed_traversal(root: AstNode, visits: Seq<Visit>) -> bool {
    well_formed_from(seq![root_entry(root)], false, visits)
}

/// So many closes in a row.
pub open spec fn closes(n: nat) -> Seq<XmlEvent> {
    Seq::new(n, |i: int| XmlEvent::Close)
}

/// The failure of a run whose writer was asked to close an element where
/// none was open.
pub open spec fn nothing_to_close() -> AstXmlError {
    AstXmlError::Xml(XmlError::LastElementNameNotAvailable)
}

/// Which nodes are on the path after some visits does not depend on which
/// of them are skipped.
pub proof fn lemma_skip_keeps_the_nodes(
    first: Seq<Ancestor>,
    second: Seq<Ancestor>,
    skip_first: bool,
    skip_second: bool,
    visits: Seq<Visit>,
)
    requires
        same_nodes(first, second),
    ensures
        same_nodes(
            stack_from(first, skip_first, visits),
            stack_from(second, skip_second, visits),
        ),
    decreases visits.len(),
{
    if visits.len() > 0 {
        let rest = visits.drop_last();
        lemma_skip_keeps_the_nodes(first, second, skip_first, skip_second, rest);
        let a = stack_from(first, skip_first, rest);
        let b = stack_from(second, skip_second, rest);
        let parent = visits.last().parent;
        lemma_same_nodes_cut_alike(a, b, parent);
        lemma_kept_for_bound(a, parent);
        let after_a = stack_from(first, skip_first, visits);
        let after_b = stack_from(second, skip_second, visits);
        assert forall|i: int| 0 <= i < after_a.len() implies after_a[i].id == after_b[i].id by {
            if i < kept_for(a, parent) {
                assert(after_a[i] == a[i]);
                assert(after_b[i] == b[i]);
            }
        }
    }
}

/// Whether visits find their parents on the path does not depend on which
/// nodes are skipped.
pub proof fn lemma_well_formed_whatever_is_skipped(
    start: Seq<Ancestor>,
    skip_first: bool,
    skip_second: bool,
    visits: Seq<Visit>,
)
    requires
        well_formed_from(start, skip_first, visits),
    ensures
        well_formed_from(start, skip_second, visits),
{
    assert forall|k: int| 0 <= k < visits.len() implies #[trigger] parent_is_open(
        start,
        skip_second,
        visits,
        k,
    ) by {
        assert(parent_is_open(start, skip_first, visits, k));
        lemma_skip_keeps_the_nodes(start, start, skip_first, skip_second, visits.take(k));
        lemma_same_nodes_cut_alike(
            stack_from(start, skip_first, visits.take(k)),
            stack_from(start, skip_second, visits.take(k)),
            visits[k].parent,
        );
    }
}

/// While visits find their parents on the path, the path never runs empty:
/// the root stays at its bottom.
pub proof fn lemma_root_stays_open(root: AstNode, skip_non_main_file: bool, visits: Seq<Visit>)
    requires
        well_formed_traversal(root, visits),
    ensures
        stack_after(root, skip_non_main_file, visits).len() >= 1,
        stack_after(root, skip_non_main_file, visits)[0] == root_entry(root),
    decreases visits.len(),
{
    let start = seq![root_entry(root)];
    lemma_well_formed_whatever_is_skipped(start, false, skip_non_main_file, visits);
    if visits.len() > 0 {
        let rest = visits.drop_last();
        let k = visits.len() - 1;
        assert(visits.take(k) =~= rest);
        assert(parent_is_open(start, skip_non_main_file, visits, k));
        assert forall|j: int| 0 <= j < rest.len() implies #[trigger] parent_is_open(
            start,
            false,
            rest,
            j,
        ) by {
            assert(parent_is_open(start, false, visits, j));
            assert(rest.take(j) =~= visits.take(j));
        }
        lemma_root_stays_open(root, skip_non_main_file, rest);
        lemma_descended(
            stack_from(start, skip_non_main_file, rest),
            visits.last().parent,
            entry_of(skip_non_main_file, visits.last().current),
        );
    }
}

/// One run of the serialiser: the path of open ancestors, whether nodes
/// outside the primary input file are skipped, and the first failure.
pub struct Session {
    stack: AncestorStack,
    skip_non_main_file: bool,
    failure: Option<AstXmlError>,
}

impl Session {
    /// The path of open ancestors, outermost first.
    pub closed spec fn ancestors(&self) -> Seq<Ancestor> {
        self.stack@
    }

    /// Whether nodes outside the primary input file go without an element.
    pub closed spec fn skips(&self) -> bool {
        self.skip_non_main_file
    }

    /// The first failure of the run, if there was one.
    pub closed spec fn failure(&self) -> Option<AstXmlError> {
        self.failure
    }

    /// Whether the run has failed.
    pub open spec fn failed(&self) -> bool {
        self.failure() is Some
    }

    /// Whether the run has failed.
    pub fn has_failed(&self) -> (failed: bool)
        ensures
            failed == self.failed(),
    {
        self.failure.is_some()
    }

    /// Whether a node is on the path of open ancestors.
    pub fn is_open(&self, id: u64) -> (open: bool)
        ensures
            open == is_open(self.ancestors(), id),
    {
        self.stack.is_open(id)
    }

    /// What the traversal is told now: to stop once the run has failed, to
    /// go on otherwise.
    pub fn directive(&self) -> (directive: VisitDirective)
        ensures
            directive == if self.failed() {
                VisitDirective::Break
            } else {
                VisitDirective::Recurse
            },
    {
        if self.failure.is_some() {
            VisitDirective::Break
        } else {
            VisitDirective::Recurse
        }
    }

    /// Takes note of how one piece of outside work ended. The first failure
    /// stays the failure of the run; a later one is dropped.
    pub fn record(&mut self, outcome: Result<(), AstXmlError>) -> (directive: VisitDirective)
        ensures
            final(self).ancestors() == old(self).ancestors(),
            final(self).skips() == old(self).skips(),
            final(self).failure() == match old(self).failure() {
                Some(first) => Some(first),
                None => match outcome {
                    Ok(_) => None,
                    Err(e) => Some(e),
                },
            },
            directive == if final(self).failed() {
                VisitDirective::Break
            } else {
                VisitDirective::Recurse
            },
    {
        if self.failure.is_none() {
            match outcome {
                Ok(_) => {},
                Err(e) => {
                    self.failure = Some(e);
                },
            }
        }
        self.directive()
    }

    /// Starts a run at `root`: the root is on the path and its open is
    /// handed to the writer, which takes it.
    pub fn begin(root: &AstNode, option: &AstXmlOption, sink: &mut XmlSink) -> (session: Session)
        ensures
            session.ancestors() == seq![root_entry(*root)],
            session.skips() == option.skip_non_main_file,
            !session.failed(),
            took(*old(sink), *final(sink), seq![open_event(*root)]),
            final(sink).depth() == old(sink).depth() + 1,
            grown(old(sink).bytes(), final(sink).bytes()),
    {
        let mut session = Session {
            stack: AncestorStack::new(root.id),
            skip_non_main_file: option.skip_non_main_file,
            failure: None,
        };
        session.open_element(sink, root);
        session
    }

    /// Hands the open of `node` to the writer, unless the run has failed.
    /// The writer takes it.
    fn open_element(&mut self, sink: &mut XmlSink, node: &AstNode)
        ensures
            final(self).ancestors() == old(self).ancestors(),
            final(self).skips() == old(self).skips(),
            final(self).failure() == old(self).failure(),
            old(self).failed() ==> *final(sink) == *old(sink),
            !old(self).failed() ==> took(*old(sink), *final(sink), seq![open_event(*node)])
                && final(sink).depth() == old(sink).depth() + 1 && grown(
                old(sink).bytes(),
                final(sink).bytes(),
            ),
    {
        if self.failure.is_none() {
            let outcome = match create_start_xml_event_from_entry(node, sink) {
                Ok(_) => Ok(()),
                Err(e) => Err(AstXmlError::from(e)),
            };
            self.record(outcome);
        }
    }

    /// Hands `count` closes to the writer, unless the run has failed. The
    /// writer takes a close while an element is open. Where it has fewer
    /// open than `count`, it refuses the first close too many: that is the
    /// failure of the run, and no close is handed over after it.
    fn close_elements(&mut self, sink: &mut XmlSink, count: usize)
        ensures
            final(self).ancestors() == old(self).ancestors(),
            final(self).skips() == old(self).skips(),
            old(self).failed() ==> *final(sink) == *old(sink) && final(self).failure() == old(
                self,
            ).failure(),
            !old(self).failed() && old(sink).depth() >= count ==> !final(self).failed() && took(
                *old(sink),
                *final(sink),
                closes(count as nat),
            ) && final(sink).depth() == old(sink).depth() - count,
            !old(self).failed() && old(sink).depth() < count ==> final(self).failure() == Some(
                nothing_to_close(),
            ) && handed(
                *old(sink),
                *final(sink),
                closes(old(sink).depth() + 1),
                closes(old(sink).depth()),
            ) && final(sink).depth() == 0,
            old(sink).bytes().is_prefix_of(final(sink).bytes()),
    {
        let ghost sink_before = *sink;
        let ghost depth_before = sink.depth();
        let mut done: usize = 0;
        proof {
            lemma_handed_nothing(*sink);
            assert(closes(0) =~= Seq::empty());
        }
        while done < count && self.failure.is_none()
            invariant
                done <= count,
                self.ancestors() == old(self).ancestors(),
                self.skips() == old(self).skips(),
                old(self).failed() ==> *sink == *old(sink) && self.failure() == old(self).failure(),
                !old(self).failed() && !self.failed() ==> done <= depth_before && sink.depth()
                    == depth_before - done && took(sink_before, *sink, closes(done as nat)),
                !old(self).failed() && self.failed() ==> done == depth_before + 1 && sink.depth()
                    == 0 && self.failure() == Some(nothing_to_close()) && handed(
                    sink_before,
                    *sink,
                    closes(depth_before + 1),
                    closes(depth_before),
                ),
                sink_before == *old(sink),
                depth_before == old(sink).depth(),
                sink_before.bytes().is_prefix_of(sink.bytes()),
            decreases count - done, if self.failed() { 0int } else { 1int },
        {
            let ghost sink_now = *sink;
            let outcome = match create_end_xml_event_from_entry(sink) {
                Ok(_) => Ok(()),
                Err(e) => Err(AstXmlError::from(e)),
            };
            self.record(outcome);
            proof {
                assert(closes(done as nat) + seq![XmlEvent::Close] =~= closes((done + 1) as nat));
                assert(closes(done as nat) + Seq::<XmlEvent>::empty() =~= closes(done as nat));
                if self.failed() {
                    lemma_handed_add(
                        sink_before,
                        sink_now,
                        *sink,
                        closes(done as nat),
                        closes(done as nat),
                        seq![XmlEvent::Close],
                        Seq::empty(),
                    );
                } else {
                    lemma_handed_add(
                        sink_before,
                        sink_now,
                        *sink,
                        closes(done as nat),
                        closes(done as nat),
                        seq![XmlEvent::Close],
                        seq![XmlEvent::Close],
                    );
                    lemma_prefix_transitive(sink_before.bytes(), sink_now.bytes(), sink.bytes());
                }
            }
            done += 1;
        }
    }

    /// One visit of the traversal. The path is cut back to `parent` and
    /// `current` is put on top. The closes of what left the path and then
    /// the open of `current` are handed to the writer. The writer takes
    /// them all where it has as many elements open as are to be closed;
    /// where it has fewer, it refuses the first close too many, the run
    /// has failed, and nothing more is handed over. Once the run has
    /// failed the writer is left alone.
    pub fn visit(&mut self, sink: &mut XmlSink, current: &AstNode, parent: u64) -> (directive:
        VisitDirective)
        requires
            is_open(old(self).ancestors(), parent),
        ensures
            final(self).ancestors() == descended(
                old(self).ancestors(),
                parent,
                entry_of(old(self).skips(), *current),
            ),
            final(self).skips() == old(self).skips(),
            old(self).failed() ==> *final(sink) == *old(sink) && final(self).failure() == old(
                self,
            ).failure(),
            !old(self).failed() ==> final(self).failed() == (old(sink).depth() < closes_of_visit(
                old(self).ancestors(),
                parent,
            )),
            !old(self).failed() && !final(self).failed() ==> took(
                *old(sink),
                *final(sink),
                visit_events(old(self).ancestors(), old(self).skips(), *current, parent),
            ) && final(sink).depth() == old(sink).depth() - closes_of_visit(
                old(self).ancestors(),
                parent,
            ) + open_of(old(self).skips(), *current).len(),
            !old(self).failed() && final(self).failed() ==> final(self).failure() == Some(
                nothing_to_close(),
            ) && handed(
                *old(sink),
                *final(sink),
                visit_events(old(self).ancestors(), old(self).skips(), *current, parent).take(
                    old(sink).depth() + 1 as int,
                ),
                visit_events(old(self).ancestors(), old(self).skips(), *current, parent).take(
                    old(sink).depth() as int,
                ),
            ) && final(sink).depth() == 0,
            old(sink).bytes().is_prefix_of(final(sink).bytes()),
            directive == if final(self).failed() {
                VisitDirective::Break
            } else {
                VisitDirective::Recurse
            },
    {
        let ghost stack_before = self.stack@;
        let ghost sink_before = *sink;
        let ghost depth_before = sink.depth();
        let ghost left = unwind(stack_before, kept_for(stack_before, parent));
        let ghost entered = open_of(self.skips(), *current);
        let is_excluded = self.skip_non_main_file && !current.in_main_file;
        let count = self.stack.descend(parent, Ancestor { id: current.id, excluded: is_excluded });
        proof {
            lemma_unwind_is_closes(stack_before, kept_for(stack_before, parent));
            assert(left =~= closes(count as nat));
        }
        self.close_elements(sink, count);
        let ghost sink_closed = *sink;
        if !is_excluded {
            self.open_element(sink, current);
        }
        proof {
            if sink_closed != *sink {
                lemma_prefix_transitive(sink_before.bytes(), sink_closed.bytes(), sink.bytes());
            }
            if !old(self).failed() {
                if self.failed() {
                    assert((left + entered).take(depth_before + 1 as int) =~= closes(
                        (depth_before + 1) as nat,
                    ));
                    assert((left + entered).take(depth_before as int) =~= closes(depth_before));
                } else {
                    if is_excluded {
                        lemma_handed_nothing(*sink);
                    }
                    lemma_handed_add(
                        sink_before,
                        sink_closed,
                        *sink,
                        left,
                        left,
                        entered,
                        entered,
                    );
                }
            }
        }
        self.directive()
    }

    /// Ends the run. Every node leaves the path. The closes of those that
    /// have an element are handed to the writer, the root's last; the
    /// writer takes them all where it has as many elements open, and
    /// refuses the first close too many where it has fewer. A run that has
    /// failed leaves the writer alone. The outcome is the first failure of
    /// the run, if there was one.
    pub fn finish(self, sink: &mut XmlSink) -> (outcome: Result<(), AstXmlError>)
        ensures
            self.failed() ==> *final(sink) == *old(sink) && outcome == Err::<(), AstXmlError>(
                self.failure()->0,
            ),
            !self.failed() ==> outcome is Ok == (old(sink).depth() >= elements_on(
                self.ancestors(),
            )),
            !self.failed() && outcome is Ok ==> took(
                *old(sink),
                *final(sink),
                unwind(self.ancestors(), 0),
            ) && final(sink).depth() == old(sink).depth() - elements_on(self.ancestors()),
            !self.failed() && outcome is Err ==> outcome == Err::<(), AstXmlError>(
                nothing_to_close(),
            ) && handed(
                *old(sink),
                *final(sink),
                unwind(self.ancestors(), 0).take(old(sink).depth() + 1 as int),
                unwind(self.ancestors(), 0).take(old(sink).depth() as int),
            ) && final(sink).depth() == 0,
            old(sink).bytes().is_prefix_of(final(sink).bytes()),
    {
        let mut session = self;
        let ghost stack_before = session.stack@;
        let ghost depth_before = sink.depth();
        let count = session.stack.drain();
        proof {
            lemma_unwind_is_closes(stack_before, 0);
            lemma_unwind_len(stack_before, 0);
            assert(stack_before.take(0) =~= Seq::empty());
            assert(unwind(stack_before, 0) =~= closes(count as nat));
        }
        session.close_elements(sink, count);
        proof {
            if !self.failed() && session.failed() {
                assert(closes(count as nat).take(depth_before + 1 as int) =~= closes(
                    (depth_before + 1) as nat,
                ));
                assert(closes(count as nat).take(depth_before as int) =~= closes(depth_before));
            }
        }
        match session.failure {
            Some(e) => Err(e),
            None => Ok(()),
        }
    }
}

/// How many closes a visit to a child of `parent` hands to the writer: one
/// for each entry with an element above the parent.
pub open spec fn closes_of_visit(stack: Seq<Ancestor>, parent: u64) -> nat {
    unwind(stack, kept_for(stack, parent)).len()
}

/// Whether the visits can come from a tree under `root`.
pub fn is_well_formed_traversal(root: &AstNode, visits: &Vec<Visit>) -> (ok: bool)
    ensures
        ok == well_formed_traversal(*root, visits@),
{
    let mut stack = AncestorStack::new(root.id);
    let mut i: usize = 0;
    assert(visits@.take(0) =~= Seq::empty());
    while i < visits.len()
        invariant
            i <= visits@.len(),
            stack@ == stack_after(*root, false, visits@.take(i as int)),
            forall|k: int|
                0 <= k < i ==> #[trigger] parent_is_open(seq![root_entry(*root)], false, visits@, k),
        decreases visits@.len() - i,
    {
        let visit = &visits[i];
        if !stack.is_open(visit.parent) {
            assert(!parent_is_open(seq![root_entry(*root)], false, visits@, i as int));
            return false;
        }
        stack.descend(visit.parent, Ancestor { id: visit.current.id, excluded: false });
        proof {
            assert(visits@.take(i + 1).drop_last() =~= visits@.take(i as int));
        }
        i += 1;
    }
    true
}

/// Serialises the tree under `root`, given as the visits of its
/// descendants in pre-order. The events of the document are handed to the
/// writer in order and it takes them all: every close finds the element
/// that this run opened. The writer has as many elements open afterwards
/// as before.
pub fn parse_translation_unit(
    root: &AstNode,
    visits: &Vec<Visit>,
    writer: &mut XmlSink,
    option: &AstXmlOption,
) -> (outcome: Result<(), AstXmlError>)
    requires
        well_formed_traversal(*root, visits@),
    ensures
        outcome is Ok,
        took(
            *old(writer),
            *final(writer),
            document_events(*root, option.skip_non_main_file, visits@),
        ),
        final(writer).depth() == old(writer).depth(),
        grown(old(writer).bytes(), final(writer).bytes()),
{
    let ghost skip = option.skip_non_main_file;
    let ghost start = seq![root_entry(*root)];
    let ghost sink_before = *writer;
    let ghost depth_before = writer.depth();
    let mut session = Session::begin(root, option, writer);
    let mut directive = session.directive();
    let mut i: usize = 0;
    proof {
        lemma_well_formed_whatever_is_skipped(start, false, skip, visits@);
        assert(visits@.take(0) =~= Seq::empty());
        assert(traversal_events(*root, skip, visits@.take(0)) =~= seq![open_event(*root)]);
        lemma_elements_on_push(Seq::empty(), root_entry(*root));
        assert(Seq::<Ancestor>::empty().push(root_entry(*root)) =~= start);
    }
    while i < visits.len() && directive == VisitDirective::Recurse
        invariant
            i <= visits@.len(),
            skip == option.skip_non_main_file,
            start == seq![root_entry(*root)],
            well_formed_from(start, skip, visits@),
            session.skips() == skip,
            !session.failed(),
            directive == VisitDirective::Recurse,
            session.ancestors() == stack_from(start, skip, visits@.take(i as int)),
            took(sink_before, *writer, traversal_events(*root, skip, visits@.take(i as int))),
            writer.depth() == depth_before + elements_on(session.ancestors()),
            grown(sink_before.bytes(), writer.bytes()),
        decreases visits@.len() - i,
    {
        let ghost sink_now = *writer;
        let ghost stack_now = session.ancestors();
        let ghost written = traversal_events(*root, skip, visits@.take(i as int));
        let visit = &visits[i];
        proof {
            assert(parent_is_open(start, skip, visits@, i as int));
            lemma_kept_for_bound(stack_now, visit.parent);
            lemma_unwind_len(stack_now, kept_for(stack_now, visit.parent));
            lemma_elements_on_push(
                stack_now.take(kept_for(stack_now, visit.parent) as int),
                entry_of(skip, visit.current),
            );
        }
        directive = session.visit(writer, &visit.current, visit.parent);
        proof {
            let step = visit_events(stack_now, skip, visit.current, visit.parent);
            assert(visits@.take(i + 1).drop_last() =~= visits@.take(i as int));
            assert(visits@.take(i + 1).last() == visits@[i as int]);
            lemma_prefix_transitive(sink_before.bytes(), sink_now.bytes(), writer.bytes());
            assert(traversal_events(*root, skip, visits@.take(i + 1)) =~= written + step);
            lemma_handed_add(sink_before, sink_now, *writer, written, written, step, step);
        }
        i += 1;
    }
    let ghost sink_now = *writer;
    let ghost stack_now = session.ancestors();
    let outcome = session.finish(writer);
    proof {
        assert(visits@.take(i as int) =~= visits@);
        lemma_prefix_transitive(sink_before.bytes(), sink_now.bytes(), writer.bytes());
        lemma_handed_add(
            sink_before,
            sink_now,
            *writer,
            traversal_events(*root, skip, visits@),
            traversal_events(*root, skip, visits@),
            unwind(stack_now, 0),
            unwind(stack_now, 0),
        );
    }
    outcome
}

/// Serialises the tree under `root` into a writer of its own and gives the
/// writer back. It took the events of the whole document, in order, after
/// the declaration; its text is the text of that document; no element is
/// left open. This never fails.
pub fn process_astxml(root: &AstNode, visits: &Vec<Visit>, option: &AstXmlOption) -> (outcome:
    Result<XmlSink, AstXmlError>)
    requires
        well_formed_traversal(*root, visits@),
    ensures
        outcome matches Ok(sink) && sink.trace() == document_events(
            *root,
            option.skip_non_main_file,
            visits@,
        ) && sink.bytes() == document_text(
            document_events(*root, option.skip_non_main_file, visits@),
        ) && sink.depth() == 0,
{
    let mut sink = XmlSink::new();
    match parse_translation_unit(root, visits, &mut sink, option) {
        Ok(_) => {
            assert(sink.trace() =~= document_events(*root, option.skip_non_main_file, visits@));
            Ok(sink)
        },
        Err(e) => Err(e),
    }
}

/// Serialising is repeatable. Two writers that hold the same text and
/// remember the same, and then take the events of the same tree under the
/// same setting of the skip, hold the same text afterwards, byte for byte,
/// and remember the same. Two new writers are such a pair.
pub proof fn lemma_same_tree_same_text(
    root: AstNode,
    skip_non_main_file: bool,
    visits: Seq<Visit>,
    first_before: XmlSink,
    first_after: XmlSink,
    second_before: XmlSink,
    second_after: XmlSink,
)
    requires
        first_before.bytes() == second_before.bytes(),
        first_before.layout() == second_before.layout(),
        took(first_before, first_after, document_events(root, skip_non_main_file, visits)),
        took(second_before, second_after, document_events(root, skip_non_main_file, visits)),
    ensures
        first_after.bytes() == second_after.bytes(),
        first_after.layout() == second_after.layout(),
{
}

} // verus!
