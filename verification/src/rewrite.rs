//! The edit made to a stream of XML events, stated over sequences: where the
//! substitute element goes, which events give way to it, and what holds of the
//! result.

use crate::events::{element_name, EventKind, EventView};
use vstd::prelude::*;

verus! {

/// A self-closing element whose qualified name is `target`.
pub open spec fn is_target(ev: EventView, target: Seq<u8>) -> bool {
    ev.kind == EventKind::Empty && element_name(ev.content) == target
}

/// An opening tag whose qualified name is `root`.
pub open spec fn is_root_start(ev: EventView, root: Seq<u8>) -> bool {
    ev.kind == EventKind::Start && element_name(ev.content) == root
}

/// An event at which the substitute element may be written: a target element,
/// or the opening tag of the root.
pub open spec fn is_anchor(ev: EventView, root: Seq<u8>, target: Seq<u8>) -> bool {
    is_target(ev, target) || is_root_start(ev, root)
}

/// The index of the first anchor in `evs`, or the length of `evs` where it has
/// none.
pub open spec fn anchor(evs: Seq<EventView>, root: Seq<u8>, target: Seq<u8>) -> int
    decreases evs.len(),
{
    if evs.len() == 0 || is_anchor(evs[0], root, target) {
        0
    } else {
        1 + anchor(evs.drop_first(), root, target)
    }
}

/// The predicate "is a target element", as a value.
pub open spec fn targets(target: Seq<u8>) -> spec_fn(EventView) -> bool {
    |ev: EventView| is_target(ev, target)
}

/// The predicate "is not a target element", as a value.
pub open spec fn others(target: Seq<u8>) -> spec_fn(EventView) -> bool {
    |ev: EventView| !is_target(ev, target)
}

/// The self-closing element with the given content.
pub open spec fn substitute(content: Seq<u8>) -> EventView {
    EventView { kind: EventKind::Empty, content }
}

/// The events of a document after the edit.
///
/// A stream without an anchor is left as it is. Otherwise the events before
/// the first anchor stay; the anchor stays if it is the root's opening tag and
/// goes if it is a target element; the substitute follows; and of what comes
/// after the anchor every event stays but the target elements.
pub open spec fn rewritten(
    evs: Seq<EventView>,
    root: Seq<u8>,
    target: Seq<u8>,
    content: Seq<u8>,
) -> Seq<EventView> {
    let a = anchor(evs, root, target);
    if a >= evs.len() {
        evs
    } else {
        let kept = if is_target(evs[a], target) {
            Seq::empty()
        } else {
            seq![evs[a]]
        };
        evs.take(a) + kept + seq![substitute(content)] + evs.skip(a + 1).filter(others(target))
    }
}

/// `anchor` is the least index of an anchor, or the length.
pub proof fn lemma_anchor(evs: Seq<EventView>, root: Seq<u8>, target: Seq<u8>)
    ensures
        0 <= anchor(evs, root, target) <= evs.len(),
        forall|k: int|
            0 <= k < anchor(evs, root, target) ==> !is_anchor(#[trigger] evs[k], root, target),
        anchor(evs, root, target) < evs.len() ==> is_anchor(
            evs[anchor(evs, root, target)],
            root,
            target,
        ),
    decreases evs.len(),
{
    if evs.len() == 0 || is_anchor(evs[0], root, target) {
    } else {
        let rest = evs.drop_first();
        lemma_anchor(rest, root, target);
        assert forall|k: int| 0 <= k < anchor(evs, root, target) implies !is_anchor(
            #[trigger] evs[k],
            root,
            target,
        ) by {
            if k > 0 {
                assert(evs[k] == rest[k - 1]);
            }
        }
    }
}

/// An index with no anchor before it, which is the length or holds an anchor,
/// is `anchor`.
pub proof fn lemma_anchor_is(evs: Seq<EventView>, root: Seq<u8>, target: Seq<u8>, i: int)
    requires
        0 <= i <= evs.len(),
        forall|k: int| 0 <= k < i ==> !is_anchor(#[trigger] evs[k], root, target),
        i < evs.len() ==> is_anchor(evs[i], root, target),
    ensures
        anchor(evs, root, target) == i,
{
    lemma_anchor(evs, root, target);
    let a = anchor(evs, root, target);
    if a < i {
        assert(!is_anchor(evs[a], root, target));
    } else if i < a {
        assert(!is_anchor(evs[i], root, target));
    }
}

/// Filtering keeps a sequence whose every element passes.
proof fn lemma_filter_keeps(s: Seq<EventView>, pred: spec_fn(EventView) -> bool)
    requires
        forall|k: int| 0 <= k < s.len() ==> pred(#[trigger] s[k]),
    ensures
        s.filter(pred) == s,
    decreases s.len(),
{
    reveal(Seq::filter);
    if s.len() > 0 {
        lemma_filter_keeps(s.drop_last(), pred);
        assert(s.drop_last().push(s.last()) =~= s);
    }
}

/// Filtering empties a sequence none of whose elements passes.
proof fn lemma_filter_drops(s: Seq<EventView>, pred: spec_fn(EventView) -> bool)
    requires
        forall|k: int| 0 <= k < s.len() ==> !pred(#[trigger] s[k]),
    ensures
        s.filter(pred) == Seq::<EventView>::empty(),
    decreases s.len(),
{
    reveal(Seq::filter);
    if s.len() > 0 {
        lemma_filter_drops(s.drop_last(), pred);
    }
}

/// Filtering a sequence made of three parts filters each part.
proof fn lemma_filter_three(
    head: Seq<EventView>,
    middle: Seq<EventView>,
    tail: Seq<EventView>,
    pred: spec_fn(EventView) -> bool,
)
    ensures
        (head + middle + tail).filter(pred) == head.filter(pred) + middle.filter(pred)
            + tail.filter(pred),
{
    Seq::filter_distributes_over_add(head + middle, tail, pred);
    Seq::filter_distributes_over_add(head, middle, pred);
}

/// Filtering a sequence with one more element at its end.
pub proof fn lemma_filter_push(s: Seq<EventView>, ev: EventView, pred: spec_fn(EventView) -> bool)
    ensures
        s.push(ev).filter(pred) == if pred(ev) {
            s.filter(pred).push(ev)
        } else {
            s.filter(pred)
        },
{
    reveal(Seq::filter);
    assert(s.push(ev).drop_last() =~= s);
}

/// What the edit makes of a stream with one more event at its end.
pub proof fn lemma_rewritten_push(
    evs: Seq<EventView>,
    ev: EventView,
    root: Seq<u8>,
    target: Seq<u8>,
    content: Seq<u8>,
)
    ensures
        anchor(evs.push(ev), root, target) == if anchor(evs, root, target) < evs.len() {
            anchor(evs, root, target)
        } else if is_anchor(ev, root, target) {
            evs.len() as int
        } else {
            evs.len() as int + 1
        },
        rewritten(evs.push(ev), root, target, content) == if anchor(evs, root, target)
            < evs.len() {
            if is_target(ev, target) {
                rewritten(evs, root, target, content)
            } else {
                rewritten(evs, root, target, content).push(ev)
            }
        } else if is_target(ev, target) {
            evs.push(substitute(content))
        } else if is_root_start(ev, root) {
            evs.push(ev).push(substitute(content))
        } else {
            evs.push(ev)
        },
{
    lemma_anchor(evs, root, target);
    let a = anchor(evs, root, target);
    let more = evs.push(ev);
    let n = evs.len() as int;
    if a < evs.len() {
        assert forall|k: int| 0 <= k < a implies !is_anchor(#[trigger] more[k], root, target) by {
            assert(more[k] == evs[k]);
        }
        assert(more[a] == evs[a]);
        lemma_anchor_is(more, root, target, a);
        assert(more.take(a) =~= evs.take(a));
        assert(more.skip(a + 1) =~= evs.skip(a + 1).push(ev));
        lemma_filter_push(evs.skip(a + 1), ev, others(target));
        let kept = if is_target(evs[a], target) {
            Seq::empty()
        } else {
            seq![evs[a]]
        };
        let head = evs.take(a) + kept + seq![substitute(content)];
        let tail = evs.skip(a + 1).filter(others(target));
        if is_target(ev, target) {
            assert(rewritten(more, root, target, content) =~= head + tail);
        } else {
            assert(rewritten(more, root, target, content) =~= (head + tail).push(ev));
        }
    } else {
        assert forall|k: int| 0 <= k < evs.len() implies !is_anchor(
            #[trigger] more[k],
            root,
            target,
        ) by {
            assert(more[k] == evs[k]);
        }
        if is_anchor(ev, root, target) {
            lemma_anchor_is(more, root, target, n);
            assert(more.take(n) =~= evs);
            assert(more.skip(n + 1) =~= Seq::<EventView>::empty());
            lemma_filter_drops(more.skip(n + 1), others(target));
            if is_target(ev, target) {
                assert(rewritten(more, root, target, content) =~= evs.push(substitute(content)));
            } else {
                assert(rewritten(more, root, target, content) =~= evs.push(ev).push(
                    substitute(content),
                ));
            }
        } else {
            lemma_anchor_is(more, root, target, n + 1);
        }
    }
}

/// The number of events that an edited stream has before the substitute: those
/// before the anchor, and the anchor where it is the root's opening tag.
pub open spec fn lead(evs: Seq<EventView>, root: Seq<u8>, target: Seq<u8>) -> int {
    let a = anchor(evs, root, target);
    if is_target(evs[a], target) {
        a
    } else {
        a + 1
    }
}

/// The parts of an edited stream that has an anchor.
proof fn lemma_rewritten_parts(
    evs: Seq<EventView>,
    root: Seq<u8>,
    target: Seq<u8>,
    content: Seq<u8>,
)
    requires
        element_name(content) == target,
        anchor(evs, root, target) < evs.len(),
    ensures
        ({
            let a = anchor(evs, root, target);
            let out = rewritten(evs, root, target, content);
            let lead = lead(evs, root, target);
            let tail = evs.skip(a + 1).filter(others(target));
            &&& 0 <= a < evs.len()
            &&& a <= lead <= a + 1
            &&& out.len() > lead
            &&& out.take(lead) == evs.take(lead)
            &&& out[lead] == substitute(content)
            &&& out.skip(lead + 1) == tail
            &&& forall|k: int| 0 <= k < a ==> !is_anchor(#[trigger] evs[k], root, target)
            &&& is_anchor(evs[a], root, target)
            &&& is_target(substitute(content), target)
            &&& forall|k: int| 0 <= k < tail.len() ==> !is_target(#[trigger] tail[k], target)
        }),
{
    lemma_anchor(evs, root, target);
    let a = anchor(evs, root, target);
    let out = rewritten(evs, root, target, content);
    let tail = evs.skip(a + 1).filter(others(target));
    if is_target(evs[a], target) {
        assert(out =~= evs.take(a) + seq![substitute(content)] + tail);
        assert(out.take(a) =~= evs.take(a));
        assert(out.skip(a + 1) =~= tail);
    } else {
        assert(out =~= evs.take(a) + seq![evs[a]] + seq![substitute(content)] + tail);
        assert(out.take(a + 1) =~= evs.take(a + 1));
        assert(out.skip(a + 2) =~= tail);
    }
    assert forall|k: int| 0 <= k < tail.len() implies !is_target(#[trigger] tail[k], target) by {
        evs.skip(a + 1).lemma_filter_pred(others(target), k);
    }
}

/// After the edit exactly one target element exists, it is the substitute, and
/// the other events are those of the input, in their order.
///
/// This holds of every stream that has an anchor (an opening tag of the root,
/// or a target element), whatever the number of target elements in it, as long
/// as the substitute carries the target's name.
pub proof fn exactly_one_target(
    evs: Seq<EventView>,
    root: Seq<u8>,
    target: Seq<u8>,
    content: Seq<u8>,
)
    requires
        element_name(content) == target,
        anchor(evs, root, target) < evs.len(),
    ensures
        rewritten(evs, root, target, content).filter(targets(target)) == seq![substitute(content)],
        rewritten(evs, root, target, content).filter(others(target)) == evs.filter(
            others(target),
        ),
{
    lemma_rewritten_parts(evs, root, target, content);
    let a = anchor(evs, root, target);
    let out = rewritten(evs, root, target, content);
    let sub = substitute(content);
    let lead = lead(evs, root, target);
    let head = evs.take(lead);
    let tail = evs.skip(a + 1).filter(others(target));
    let gone = evs.subrange(lead, a + 1);
    assert(out == head + seq![sub] + tail) by {
        assert(out =~= out.take(lead) + seq![out[lead]] + out.skip(lead + 1));
    }
    assert(evs == head + gone + evs.skip(a + 1)) by {
        assert(evs =~= head + gone + evs.skip(a + 1));
    }
    assert forall|k: int| 0 <= k < head.len() implies !is_target(#[trigger] head[k], target) by {
        assert(head[k] == evs[k]);
        if k < a {
            assert(!is_anchor(evs[k], root, target));
        }
    }
    assert forall|k: int| 0 <= k < gone.len() implies is_target(#[trigger] gone[k], target) by {
        assert(gone[k] == evs[a]);
    }
    assert(out.filter(targets(target)) == seq![sub]) by {
        lemma_filter_three(head, seq![sub], tail, targets(target));
        lemma_filter_drops(head, targets(target));
        lemma_filter_drops(tail, targets(target));
        lemma_filter_keeps(seq![sub], targets(target));
        assert(Seq::<EventView>::empty() + seq![sub] + Seq::<EventView>::empty() =~= seq![sub]);
    }
    assert(out.filter(others(target)) == head + tail) by {
        lemma_filter_three(head, seq![sub], tail, others(target));
        lemma_filter_keeps(head, others(target));
        lemma_filter_keeps(tail, others(target));
        lemma_filter_drops(seq![sub], others(target));
        assert(head + Seq::<EventView>::empty() + tail =~= head + tail);
    }
    assert(evs.filter(others(target)) == head + tail) by {
        lemma_filter_three(head, gone, evs.skip(a + 1), others(target));
        lemma_filter_keeps(head, others(target));
        lemma_filter_drops(gone, others(target));
        assert(head + Seq::<EventView>::empty() + tail =~= head + tail);
    }
}

/// Editing an edited stream changes nothing.
///
/// This holds of every stream of events, as long as the substitute carries the
/// target's name.
pub proof fn rewrite_is_idempotent(
    evs: Seq<EventView>,
    root: Seq<u8>,
    target: Seq<u8>,
    content: Seq<u8>,
)
    requires
        element_name(content) == target,
    ensures
        rewritten(rewritten(evs, root, target, content), root, target, content) == rewritten(
            evs,
            root,
            target,
            content,
        ),
{
    lemma_anchor(evs, root, target);
    let a = anchor(evs, root, target);
    let out = rewritten(evs, root, target, content);
    if a < evs.len() {
        lemma_rewritten_parts(evs, root, target, content);
        let sub = substitute(content);
        let lead = lead(evs, root, target);
        assert forall|k: int| 0 <= k < a implies !is_anchor(#[trigger] out[k], root, target) by {
            assert(out[k] == out.take(lead)[k]);
            assert(out[k] == evs[k]);
        }
        if is_target(evs[a], target) {
            assert(out[a] == sub);
        } else {
            assert(out[a] == out.take(lead)[a]);
            assert(out[a] == evs[a]);
        }
        lemma_anchor_is(out, root, target, a);
        let tail = out.skip(lead + 1);
        lemma_filter_keeps(tail, others(target));
        if is_target(evs[a], target) {
            assert(out.take(a) =~= evs.take(a));
            assert(rewritten(out, root, target, content) =~= out.take(a) + seq![sub] + tail);
            assert(out =~= out.take(a) + seq![out[a]] + out.skip(a + 1));
        } else {
            assert(out.skip(a + 1) =~= seq![sub] + tail);
            Seq::filter_distributes_over_add(seq![sub], tail, others(target));
            lemma_filter_drops(seq![sub], others(target));
            assert(out.skip(a + 1).filter(others(target)) =~= tail);
            assert(rewritten(out, root, target, content) =~= out.take(a) + seq![out[a]] + seq![
                sub,
            ] + tail);
            assert(out =~= out.take(a) + seq![out[a]] + seq![out[a + 1]] + out.skip(a + 2));
        }
    }
}

/// Where the input has no target element but has an opening tag of the root,
/// the substitute becomes the first child of the first such tag, nothing else
/// changes, and the result holds exactly one target element, also after a
/// second edit.
pub proof fn absent_target_becomes_first_child(
    evs: Seq<EventView>,
    root: Seq<u8>,
    target: Seq<u8>,
    content: Seq<u8>,
)
    requires
        element_name(content) == target,
        forall|k: int| 0 <= k < evs.len() ==> !is_target(#[trigger] evs[k], target),
        exists|k: int| 0 <= k < evs.len() && is_root_start(#[trigger] evs[k], root),
    ensures
        ({
            let a = anchor(evs, root, target);
            let out = rewritten(evs, root, target, content);
            &&& 0 <= a < evs.len()
            &&& is_root_start(evs[a], root)
            &&& forall|k: int| 0 <= k < a ==> !is_root_start(#[trigger] evs[k], root)
            &&& out == evs.take(a + 1) + seq![substitute(content)] + evs.skip(a + 1)
            &&& out.filter(targets(target)) == seq![substitute(content)]
            &&& rewritten(out, root, target, content) == out
        }),
{
    lemma_anchor(evs, root, target);
    let a = anchor(evs, root, target);
    let witness = choose|k: int| 0 <= k < evs.len() && is_root_start(#[trigger] evs[k], root);
    if a >= evs.len() {
        assert(!is_anchor(evs[witness], root, target));
    }
    assert(!is_target(evs[a], target));
    assert forall|k: int| 0 <= k < a implies !is_root_start(#[trigger] evs[k], root) by {
        assert(!is_anchor(evs[k], root, target));
    }
    let tail = evs.skip(a + 1);
    assert forall|k: int| 0 <= k < tail.len() implies others(target)(#[trigger] tail[k]) by {
        assert(tail[k] == evs[a + 1 + k]);
    }
    lemma_filter_keeps(tail, others(target));
    assert(evs.take(a) + seq![evs[a]] =~= evs.take(a + 1));
    exactly_one_target(evs, root, target, content);
    rewrite_is_idempotent(evs, root, target, content);
}

} // verus!
