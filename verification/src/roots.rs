//! The grouping of events into root-level blocks.
use crate::event;
use crate::event::{EventModel, MarkdownEvent, RangedEvent, RangedModel};
use std::ops::Range;
use vstd::prelude::*;

verus! {

/// The events pushed so far, with a `RootStart` and a `RootEnd` around every root-level block.
pub struct ParseState {
    events: Vec<RangedEvent>,
    root_block_starts: Vec<usize>,
    depth: usize,
}

/// The model of a [`ParseState`].
pub struct RootModel {
    pub events: Seq<RangedModel>,
    /// Where each root-level block starts in the source.
    pub starts: Seq<usize>,
    /// How many elements are open.
    pub depth: int,
}

/// Nothing pushed yet.
pub open spec fn no_events() -> RootModel {
    RootModel { events: Seq::empty(), starts: Seq::empty(), depth: 0 }
}

/// What pushing an event does. An element that starts while none is open starts a root-level
/// block, which ends with it; a rule outside of all elements is a root-level block of its own.
pub open spec fn pushed(m: RootModel, range: Range<usize>, event: EventModel) -> RootModel {
    match event {
        EventModel::Start(_) => if m.depth == 0 {
            RootModel {
                events: m.events.push((range, EventModel::RootStart)).push((range, event)),
                starts: m.starts.push(range.start),
                depth: 1,
            }
        } else {
            RootModel { events: m.events.push((range, event)), depth: m.depth + 1, ..m }
        },
        EventModel::End(_) => if m.depth == 1 {
            RootModel {
                events: m.events.push((range, event)).push(
                    (range, EventModel::RootEnd((m.starts.len() - 1) as usize)),
                ),
                depth: 0,
                ..m
            }
        } else {
            RootModel {
                events: m.events.push((range, event)),
                depth: if m.depth > 0 {
                    m.depth - 1
                } else {
                    0
                },
                ..m
            }
        },
        EventModel::Rule => if m.depth == 0 && range.start < range.end {
            RootModel {
                events: m.events.push((range, EventModel::RootStart)).push((range, event)).push(
                    (range, EventModel::RootEnd(m.starts.len() as usize)),
                ),
                starts: m.starts.push(range.start),
                ..m
            }
        } else {
            RootModel { events: m.events.push((range, event)), ..m }
        },
        _ => RootModel { events: m.events.push((range, event)), ..m },
    }
}

/// What pushing a list of events, one after the other, leaves.
pub open spec fn grouped(events: Seq<RangedModel>) -> RootModel
    decreases events.len(),
{
    if events.len() == 0 {
        no_events()
    } else {
        pushed(grouped(events.drop_last()), events.last().0, events.last().1)
    }
}

/// Grouping goes event by event.
pub broadcast proof fn lemma_grouped_push(events: Seq<RangedModel>, event: RangedModel)
    ensures
        #[trigger] grouped(events.push(event)) == pushed(grouped(events), event.0, event.1),
{
    assert(events.push(event).drop_last() =~= events);
}

impl View for ParseState {
    type V = RootModel;

    closed spec fn view(&self) -> RootModel {
        RootModel {
            events: event::models(self.events@),
            starts: self.root_block_starts@,
            depth: self.depth as int,
        }
    }
}

impl ParseState {
    /// No more elements are open than events were pushed, and an open element lies in a
    /// root-level block.
    pub closed spec fn wf(&self) -> bool {
        &&& self.depth <= self.events@.len()
        &&& self.root_block_starts@.len() <= self.events@.len()
        &&& self.depth > 0 ==> self.root_block_starts@.len() > 0
    }

    pub fn new() -> (r: Self)
        ensures
            r.wf(),
            r@ == no_events(),
    {
        let r = ParseState { events: Vec::new(), root_block_starts: Vec::new(), depth: 0 };
        assert(event::models(r.events@) =~= Seq::empty());
        r
    }

    /// Pushes an event, and the start and end of the root-level block that it opens or closes.
    pub fn push_event(&mut self, range: Range<usize>, event: MarkdownEvent)
        requires
            old(self).wf(),
        ensures
            final(self).wf(),
            final(self)@ == pushed(old(self)@, range, event@),
    {
        broadcast use event::lemma_models_push;

        let ghost model = event@;
        match &event {
            MarkdownEvent::Start(_) => {
                if self.depth == 0 {
                    self.root_block_starts.push(range.start);
                    self.events.push((range.start..range.end, MarkdownEvent::RootStart));
                }
                self.events.push((range, event));
                let bound = self.events.len();
                assert(self.depth < bound);
                self.depth += 1;
            },
            MarkdownEvent::End(_) => {
                self.events.push((range.start..range.end, event));
                if self.depth > 0 {
                    self.depth -= 1;
                    if self.depth == 0 {
                        let root_block_index = self.root_block_starts.len() - 1;
                        self.events.push((range, MarkdownEvent::RootEnd(root_block_index)));
                    }
                }
            },
            MarkdownEvent::Rule => {
                if self.depth == 0 && range.start < range.end {
                    self.root_block_starts.push(range.start);
                    let root_block_index = self.root_block_starts.len() - 1;
                    self.events.push((range.start..range.end, MarkdownEvent::RootStart));
                    self.events.push((range.start..range.end, event));
                    self.events.push((range, MarkdownEvent::RootEnd(root_block_index)));
                } else {
                    self.events.push((range, event));
                }
            },
            _ => {
                self.events.push((range, event));
            },
        }
        assert(self@.events =~= pushed(old(self)@, range, model).events);
        assert(self@.starts =~= pushed(old(self)@, range, model).starts);
    }

    /// The events, and where the root-level blocks start.
    pub fn into_parts(self) -> (r: (Vec<RangedEvent>, Vec<usize>))
        ensures
            event::models(r.0@) == self@.events,
            r.1@ == self@.starts,
    {
        (self.events, self.root_block_starts)
    }
}

/// The event marks the start or the end of a root-level block.
pub open spec fn is_root_marker(event: EventModel) -> bool {
    event is RootStart || event is RootEnd
}

/// The events that were pushed, without the marks of root-level blocks.
pub open spec fn without_markers(events: Seq<RangedModel>) -> Seq<RangedModel>
    decreases events.len(),
{
    if events.len() == 0 {
        Seq::empty()
    } else if is_root_marker(events.last().1) {
        without_markers(events.drop_last())
    } else {
        without_markers(events.drop_last()).push(events.last())
    }
}

/// Where the `RootStart` events start, in order.
pub open spec fn root_starts(events: Seq<RangedModel>) -> Seq<usize>
    decreases events.len(),
{
    if events.len() == 0 {
        Seq::empty()
    } else if events.last().1 is RootStart {
        root_starts(events.drop_last()).push(events.last().0.start)
    } else {
        root_starts(events.drop_last())
    }
}

/// The indices that the `RootEnd` events hold, in order.
pub open spec fn root_ends(events: Seq<RangedModel>) -> Seq<int>
    decreases events.len(),
{
    if events.len() == 0 {
        Seq::empty()
    } else {
        match events.last().1 {
            EventModel::RootEnd(index) => root_ends(events.drop_last()).push(index as int),
            _ => root_ends(events.drop_last()),
        }
    }
}

/// No mark of a root-level block is among the events.
pub open spec fn unmarked(events: Seq<RangedModel>) -> bool {
    forall|i: int| 0 <= i < events.len() ==> !is_root_marker((#[trigger] events[i]).1)
}

proof fn lemma_push_views(events: Seq<RangedModel>, e: RangedModel)
    ensures
        without_markers(events.push(e)) == (if is_root_marker(e.1) {
            without_markers(events)
        } else {
            without_markers(events).push(e)
        }),
        root_starts(events.push(e)) == (if e.1 is RootStart {
            root_starts(events).push(e.0.start)
        } else {
            root_starts(events)
        }),
        root_ends(events.push(e)) == (match e.1 {
            EventModel::RootEnd(index) => root_ends(events).push(index as int),
            _ => root_ends(events),
        }),
{
    assert(events.push(e).drop_last() =~= events);
}

/// Grouping only adds the marks of root-level blocks: without them, what was pushed is left, in
/// order.
pub proof fn law_grouping_keeps_events(events: Seq<RangedModel>)
    requires
        unmarked(events),
    ensures
        without_markers(grouped(events).events) == events,
    decreases events.len(),
{
    if events.len() > 0 {
        let init = events.drop_last();
        let e = events.last();
        assert(unmarked(init)) by {
            assert forall|i: int| 0 <= i < init.len() implies !is_root_marker(
                (#[trigger] init[i]).1,
            ) by {
                assert(init[i] == events[i]);
            }
        }
        law_grouping_keeps_events(init);
        assert(!is_root_marker(events[events.len() - 1].1));
        let m = grouped(init);
        let start = (e.0, EventModel::RootStart);
        lemma_push_views(m.events, start);
        lemma_push_views(m.events, e);
        lemma_push_views(m.events.push(start), e);
        lemma_push_views(
            m.events.push(e),
            (e.0, EventModel::RootEnd((m.starts.len() - 1) as usize)),
        );
        lemma_push_views(
            m.events.push(start).push(e),
            (e.0, EventModel::RootEnd(m.starts.len() as usize)),
        );
        assert(events =~= init.push(e));
    } else {
        assert(events =~= Seq::empty());
    }
}

/// The root-level blocks are numbered in order: the list of their starts is where the `RootStart`
/// events start, and the `RootEnd` events hold the indices 0, 1, 2, ... with one less of them than
/// blocks while an element is open.
pub proof fn law_root_blocks_are_numbered(events: Seq<RangedModel>)
    requires
        unmarked(events),
        events.len() <= usize::MAX,
    ensures
        root_starts(grouped(events).events) == grouped(events).starts,
        grouped(events).starts.len() <= events.len(),
        grouped(events).depth >= 0,
        grouped(events).depth > 0 ==> grouped(events).starts.len() > 0,
        root_ends(grouped(events).events) == Seq::new(
            (grouped(events).starts.len() - (if grouped(events).depth > 0 {
                1int
            } else {
                0
            })) as nat,
            |i: int| i,
        ),
    decreases events.len(),
{
    if events.len() > 0 {
        let init = events.drop_last();
        let e = events.last();
        assert(unmarked(init)) by {
            assert forall|i: int| 0 <= i < init.len() implies !is_root_marker(
                (#[trigger] init[i]).1,
            ) by {
                assert(init[i] == events[i]);
            }
        }
        law_root_blocks_are_numbered(init);
        assert(!is_root_marker(events[events.len() - 1].1));
        let m = grouped(init);
        let start = (e.0, EventModel::RootStart);
        lemma_push_views(m.events, start);
        lemma_push_views(m.events, e);
        lemma_push_views(m.events.push(start), e);
        lemma_push_views(
            m.events.push(e),
            (e.0, EventModel::RootEnd((m.starts.len() - 1) as usize)),
        );
        lemma_push_views(
            m.events.push(start).push(e),
            (e.0, EventModel::RootEnd(m.starts.len() as usize)),
        );
        let n = grouped(events);
        assert(root_ends(n.events) =~= Seq::new(
            (n.starts.len() - (if n.depth > 0 {
                1int
            } else {
                0
            })) as nat,
            |i: int| i,
        ));
    } else {
        assert(root_ends(grouped(events).events) =~= Seq::new(0, |i: int| i));
    }
}

/// Each event of a grouping is the mark of a root-level block or one of the events that were pushed.
pub proof fn lemma_grouped_events(events: Seq<RangedModel>, i: int)
    requires
        0 <= i < grouped(events).events.len(),
    ensures
        is_root_marker(grouped(events).events[i].1) || events.contains(grouped(events).events[i]),
    decreases events.len(),
{
    let init = events.drop_last();
    let before = grouped(init).events;
    if i < before.len() {
        lemma_grouped_events(init, i);
        assert(grouped(events).events[i] == before[i]);
        if init.contains(before[i]) {
            let k = choose|k: int| 0 <= k < init.len() && init[k] == before[i];
            assert(events[k] == before[i]);
        }
    } else {
        assert(events[events.len() - 1] == events.last());
    }
}

/// Each event that was pushed is in the grouping.
pub proof fn lemma_events_are_grouped(events: Seq<RangedModel>, i: int)
    requires
        0 <= i < events.len(),
    ensures
        grouped(events).events.contains(events[i]),
    decreases events.len(),
{
    let init = events.drop_last();
    let before = grouped(init).events;
    let after = grouped(events).events;
    if i < init.len() {
        lemma_events_are_grouped(init, i);
        let k = choose|k: int| 0 <= k < before.len() && before[k] == init[i];
        assert(after[k] == before[k]);
    } else {
        let e = events.last();
        let at = before.len() as int;
        assert(after[at] == e || (at + 1 < after.len() && after[at + 1] == e));
    }
}

} // verus!
