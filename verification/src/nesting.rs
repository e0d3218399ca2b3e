//! What holds of the events of every document: each open has its close,
//! no close comes before its open, and the elements come in the order of
//! the visits.

use crate::node::AstNode;
use crate::serializer::{
    document_events, entry_of, events_from, excluded, open_of, root_entry, stack_from,
    traversal_events, visit_events, Visit,
};
use crate::stack::{close_of, elements_on, kept_for, lemma_kept_for_bound, unwind, Ancestor};
use crate::writer::{open_event, XmlEvent};
use vstd::prelude::*;

verus! {

/// How many of the events are opens.
pub open spec fn open_count(events: Seq<XmlEvent>) -> nat
    decreases events.len(),
{
    if events.len() == 0 {
        0
    } else {
        open_count(events.drop_last()) + if events.last() is Open {
            1nat
        } else {
            0nat
        }
    }
}

/// How many of the events are closes.
pub open spec fn close_count(events: Seq<XmlEvent>) -> nat
    decreases events.len(),
{
    if events.len() == 0 {
        0
    } else {
        close_count(events.drop_last()) + if events.last() is Close {
            1nat
        } else {
            0nat
        }
    }
}

/// Whether no close comes before its open: at every point the opens so far
/// are at least as many as the closes so far.
pub open spec fn well_nested(events: Seq<XmlEvent>) -> bool {
    forall|k: int|
        0 <= k <= events.len() ==> open_count(#[trigger] events.take(k)) >= close_count(
            events.take(k),
        )
}

/// Whether the events are well nested and each open has its close.
pub open spec fn balanced(events: Seq<XmlEvent>) -> bool {
    well_nested(events) && open_count(events) == close_count(events)
}

/// The opens among the events, in their order.
pub open spec fn opens_of(events: Seq<XmlEvent>) -> Seq<XmlEvent> {
    events.filter(|e: XmlEvent| e is Open)
}

/// The opens of the visited nodes that have an element, in the order of
/// the visits.
pub open spec fn elements_in_order(skip_non_main_file: bool, visits: Seq<Visit>) -> Seq<XmlEvent>
    decreases visits.len(),
{
    if visits.len() == 0 {
        Seq::empty()
    } else {
        elements_in_order(skip_non_main_file, visits.drop_last()) + open_of(
            skip_non_main_file,
            visits.last().current,
        )
    }
}

/// One event counts as what it is.
pub proof fn lemma_counts_of_one(e: XmlEvent)
    ensures
        open_count(Seq::<XmlEvent>::empty()) == 0,
        close_count(Seq::<XmlEvent>::empty()) == 0,
        open_count(seq![e]) == if e is Open {
            1nat
        } else {
            0nat
        },
        close_count(seq![e]) == if e is Close {
            1nat
        } else {
            0nat
        },
{
    assert(seq![e].drop_last() =~= Seq::empty());
    assert(seq![e].last() == e);
}

/// The opens among no events are none; one event is among the opens
/// exactly when it is an open.
pub proof fn lemma_opens_of_one(e: XmlEvent)
    ensures
        opens_of(Seq::<XmlEvent>::empty()) == Seq::<XmlEvent>::empty(),
        opens_of(seq![e]) == if e is Open {
            seq![e]
        } else {
            Seq::<XmlEvent>::empty()
        },
{
    reveal_with_fuel(Seq::filter, 2);
    let keep = |e: XmlEvent| e is Open;
    assert(seq![e].drop_last() =~= Seq::empty());
    assert(Seq::<XmlEvent>::empty().filter(keep) =~= Seq::empty());
    assert(seq![e].filter(keep) =~= if e is Open {
        seq![e]
    } else {
        Seq::<XmlEvent>::empty()
    });
}

/// The opens among events go piece by piece.
pub proof fn lemma_opens_of_add(a: Seq<XmlEvent>, b: Seq<XmlEvent>)
    ensures
        opens_of(a + b) == opens_of(a) + opens_of(b),
{
    Seq::filter_distributes_over_add(a, b, |e: XmlEvent| e is Open);
}

/// Counting opens and closes goes piece by piece.
pub proof fn lemma_counts_add(a: Seq<XmlEvent>, b: Seq<XmlEvent>)
    ensures
        open_count(a + b) == open_count(a) + open_count(b),
        close_count(a + b) == close_count(a) + close_count(b),
    decreases b.len(),
{
    if b.len() == 0 {
        assert(a + b =~= a);
    } else {
        lemma_counts_add(a, b.drop_last());
        assert((a + b).drop_last() =~= a + b.drop_last());
    }
}

/// Events that never let the closes overtake the opens of what came before
/// keep a well nested sequence well nested.
pub proof fn lemma_well_nested_add(a: Seq<XmlEvent>, b: Seq<XmlEvent>)
    requires
        well_nested(a),
        forall|k: int|
            0 <= k <= b.len() ==> open_count(a) + open_count(#[trigger] b.take(k)) >= close_count(
                a,
            ) + close_count(b.take(k)),
    ensures
        well_nested(a + b),
{
    assert forall|k: int| 0 <= k <= (a + b).len() implies open_count(#[trigger] (a + b).take(k))
        >= close_count((a + b).take(k)) by {
        if k <= a.len() {
            assert((a + b).take(k) =~= a.take(k));
        } else {
            let j = k - a.len();
            assert((a + b).take(k) =~= a + b.take(j));
            lemma_counts_add(a, b.take(j));
        }
    }
}

/// Cutting a path back writes closes only: one for each entry with an
/// element that leaves.
pub proof fn lemma_unwind_counts(stack: Seq<Ancestor>, keep: nat)
    requires
        keep <= stack.len(),
    ensures
        open_count(unwind(stack, keep)) == 0,
        close_count(unwind(stack, keep)) == unwind(stack, keep).len(),
        unwind(stack, keep).len() + elements_on(stack.take(keep as int)) == elements_on(stack),
        opens_of(unwind(stack, keep)) == Seq::<XmlEvent>::empty(),
    decreases stack.len(),
{
    lemma_counts_of_one(XmlEvent::Close);
    lemma_opens_of_one(XmlEvent::Close);
    if stack.len() > keep {
        let rest = stack.drop_last();
        let leaving = close_of(stack.last());
        lemma_unwind_counts(rest, keep);
        assert(rest.take(keep as int) =~= stack.take(keep as int));
        lemma_counts_add(leaving, unwind(rest, keep));
        lemma_opens_of_add(leaving, unwind(rest, keep));
        assert(opens_of(leaving) + opens_of(unwind(rest, keep)) =~= Seq::empty());
    } else {
        assert(stack.take(keep as int) =~= stack);
    }
}

/// The first events of a run of closes are closes.
proof fn lemma_unwind_take(stack: Seq<Ancestor>, keep: nat, k: int)
    requires
        0 <= k <= unwind(stack, keep).len(),
    ensures
        open_count(unwind(stack, keep).take(k)) == 0,
        close_count(unwind(stack, keep).take(k)) == k,
    decreases k,
{
    let run = unwind(stack, keep);
    crate::stack::lemma_unwind_is_closes(stack, keep);
    if k > 0 {
        lemma_unwind_take(stack, keep, k - 1);
        assert(run.take(k).drop_last() =~= run.take(k - 1));
        assert(run.take(k).last() == run[k - 1]);
    }
}

/// After any visits, the elements that are open are those of the path:
/// what was written is well nested, and its opens exceed its closes by the
/// number of entries that have an element.
pub proof fn lemma_open_elements_match_path(
    before: Seq<XmlEvent>,
    start: Seq<Ancestor>,
    skip_non_main_file: bool,
    visits: Seq<Visit>,
)
    requires
        well_nested(before),
        open_count(before) == close_count(before) + elements_on(start),
    ensures
        well_nested(before + events_from(start, skip_non_main_file, visits)),
        open_count(before + events_from(start, skip_non_main_file, visits)) == close_count(
            before + events_from(start, skip_non_main_file, visits),
        ) + elements_on(stack_from(start, skip_non_main_file, visits)),
    decreases visits.len(),
{
    if visits.len() == 0 {
        assert(before + events_from(start, skip_non_main_file, visits) =~= before);
    } else {
        let rest = visits.drop_last();
        let current = visits.last().current;
        let parent = visits.last().parent;
        lemma_open_elements_match_path(before, start, skip_non_main_file, rest);
        let written = before + events_from(start, skip_non_main_file, rest);
        let stack = stack_from(start, skip_non_main_file, rest);
        let keep = kept_for(stack, parent);
        let left = unwind(stack, keep);
        let entered = open_of(skip_non_main_file, current);
        let step = visit_events(stack, skip_non_main_file, current, parent);
        lemma_kept_for_bound(stack, parent);
        lemma_unwind_counts(stack, keep);
        assert(before + events_from(start, skip_non_main_file, visits) =~= written + step);
        lemma_counts_of_one(open_event(current));
        lemma_counts_add(left, entered);
        assert forall|k: int| 0 <= k <= step.len() implies open_count(written) + open_count(
            #[trigger] step.take(k),
        ) >= close_count(written) + close_count(step.take(k)) by {
            if k <= left.len() {
                assert(step.take(k) =~= left.take(k));
                lemma_unwind_take(stack, keep, k);
            } else {
                assert(step.take(k) =~= step);
            }
        }
        lemma_well_nested_add(written, step);
        lemma_counts_add(written, step);
        let kept = stack.take(keep as int);
        let entry = entry_of(skip_non_main_file, current);
        assert(kept.push(entry).drop_last() =~= kept);
        assert(kept.push(entry).last() == entry);
        assert(stack_from(start, skip_non_main_file, visits) == kept.push(entry));
    }
}

/// Every document is balanced: it has as many closes as opens, and at no
/// point more closes than opens. This holds of every root, every sequence
/// of visits and either setting of the skip.
pub proof fn lemma_document_is_balanced(
    root: AstNode,
    skip_non_main_file: bool,
    visits: Seq<Visit>,
)
    ensures
        balanced(document_events(root, skip_non_main_file, visits)),
{
    let first = seq![open_event(root)];
    let start = seq![root_entry(root)];
    lemma_counts_of_one(open_event(root));
    assert(start.drop_last() =~= Seq::empty());
    assert(elements_on(Seq::<Ancestor>::empty()) == 0);
    assert(elements_on(start) == 1);
    assert(well_nested(first)) by {
        assert forall|k: int| 0 <= k <= first.len() implies open_count(#[trigger] first.take(k))
            >= close_count(first.take(k)) by {
            if k == 0 {
                assert(first.take(0) =~= Seq::empty());
            } else {
                assert(first.take(1) =~= first);
            }
        }
    }
    lemma_open_elements_match_path(first, start, skip_non_main_file, visits);
    let written = traversal_events(root, skip_non_main_file, visits);
    let stack = stack_from(start, skip_non_main_file, visits);
    let last = unwind(stack, 0);
    lemma_unwind_counts(stack, 0);
    assert(stack.take(0) =~= Seq::empty());
    assert forall|k: int| 0 <= k <= last.len() implies open_count(written) + open_count(
        #[trigger] last.take(k),
    ) >= close_count(written) + close_count(last.take(k)) by {
        lemma_unwind_take(stack, 0, k);
    }
    lemma_well_nested_add(written, last);
    lemma_counts_add(written, last);
}

/// The opens that some visits write are those of the visited nodes that
/// have an element, in the order of the visits, whatever the path was.
pub proof fn lemma_opens_follow_visits(
    start: Seq<Ancestor>,
    skip_non_main_file: bool,
    visits: Seq<Visit>,
)
    ensures
        opens_of(events_from(start, skip_non_main_file, visits)) == elements_in_order(
            skip_non_main_file,
            visits,
        ),
    decreases visits.len(),
{
    if visits.len() > 0 {
        let rest = visits.drop_last();
        let current = visits.last().current;
        let parent = visits.last().parent;
        let stack = stack_from(start, skip_non_main_file, rest);
        let left = unwind(stack, kept_for(stack, parent));
        let entered = open_of(skip_non_main_file, current);
        lemma_opens_follow_visits(start, skip_non_main_file, rest);
        lemma_kept_for_bound(stack, parent);
        lemma_unwind_counts(stack, kept_for(stack, parent));
        lemma_opens_of_one(open_event(current));
        lemma_opens_of_add(events_from(start, skip_non_main_file, rest), left + entered);
        lemma_opens_of_add(left, entered);
        assert(opens_of(left + entered) =~= entered);
    } else {
        lemma_opens_of_one(open_event(visits[0].current));
    }
}

/// The elements of a document come in the order of the traversal: first
/// the root, then each visited node that has an element, in the order of
/// the visits. A node without an element has no open in the document.
pub proof fn lemma_elements_in_traversal_order(
    root: AstNode,
    skip_non_main_file: bool,
    visits: Seq<Visit>,
)
    ensures
        opens_of(document_events(root, skip_non_main_file, visits)) == seq![open_event(root)]
            + elements_in_order(skip_non_main_file, visits),
{
    let first = seq![open_event(root)];
    let start = seq![root_entry(root)];
    let middle = events_from(start, skip_non_main_file, visits);
    let stack = stack_from(start, skip_non_main_file, visits);
    let last = unwind(stack, 0);
    lemma_opens_follow_visits(start, skip_non_main_file, visits);
    lemma_unwind_counts(stack, 0);
    lemma_opens_of_one(open_event(root));
    lemma_opens_of_add(first + middle, last);
    lemma_opens_of_add(first, middle);
    assert(opens_of(document_events(root, skip_non_main_file, visits)) =~= first
        + elements_in_order(skip_non_main_file, visits));
}

} // verus!
