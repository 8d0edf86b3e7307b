//! Where the footnotes of a document are defined.
use crate::event;
use crate::event::{EventModel, MarkdownEvent, MarkdownTag, MarkdownTagEnd, RangedEvent, RangedModel, TagModel};
use crate::offsets::Offsets;
use vstd::prelude::*;

verus! {

/// The definitions found so far, and the label of the open one while it has no text yet.
pub struct FootnoteFlow {
    pub definitions: Map<Seq<char>, usize>,
    pub label: Option<Seq<char>>,
}

/// With one more event. The first text of a definition is where it stands, and the first
/// definition of a label counts.
pub open spec fn footnote_step(f: FootnoteFlow, event: RangedModel) -> FootnoteFlow {
    match (event.1, f.label) {
        (EventModel::Start(TagModel::FootnoteDefinition(label)), _) => FootnoteFlow {
            label: Some(label),
            ..f
        },
        (EventModel::End(MarkdownTagEnd::FootnoteDefinition), _) => FootnoteFlow {
            label: None,
            ..f
        },
        (EventModel::Text, Some(label)) => FootnoteFlow {
            definitions: if f.definitions.contains_key(label) {
                f.definitions
            } else {
                f.definitions.insert(label, event.0.start)
            },
            label: None,
        },
        _ => f,
    }
}

/// The footnotes of a list of events.
pub open spec fn footnote_flow(events: Seq<RangedModel>) -> FootnoteFlow
    decreases events.len(),
{
    if events.len() == 0 {
        FootnoteFlow { definitions: Map::empty(), label: None }
    } else {
        footnote_step(footnote_flow(events.drop_last()), events.last())
    }
}

/// Where each footnote is defined, by its label: see [`footnote_flow`].
pub fn build_footnote_definitions(events: &Vec<RangedEvent>) -> (r: Offsets)
    ensures
        r@ == footnote_flow(event::models(events@)).definitions,
{
    let ghost models = event::models(events@);
    let mut definitions: Offsets = Offsets::new();
    let mut current_label: Option<String> = None;
    assert(models.take(0).len() == 0);
    for i in 0..events.len()
        invariant
            models == event::models(events@),
            footnote_flow(models.take(i as int)) == (FootnoteFlow {
                definitions: definitions@,
                label: event::optional_chars(current_label),
            }),
    {
        proof {
            assert(models.take(i + 1).drop_last() =~= models.take(i as int));
            assert(models[i as int] == event::ranged_model(events@[i as int]));
        }
        match &events[i].1 {
            MarkdownEvent::Start(MarkdownTag::FootnoteDefinition(label)) => {
                current_label = Some(label.clone());
            },
            MarkdownEvent::End(MarkdownTagEnd::FootnoteDefinition) => {
                current_label = None;
            },
            MarkdownEvent::Text => {
                if let Some(label) = current_label.take() {
                    if !definitions.contains_key(label.as_str()) {
                        definitions.insert(label, events[i].0.start);
                    }
                }
            },
            _ => {},
        }
    }
    assert(models.take(models.len() as int) =~= models);
    definitions
}

/// The first definition of a label counts: what a label leads to does not change with the events
/// behind it.
pub proof fn law_first_definition_counts(events: Seq<RangedModel>, i: int)
    requires
        0 <= i <= events.len(),
    ensures
        footnote_flow(events.take(i)).definitions.submap_of(footnote_flow(events).definitions),
    decreases events.len() - i,
{
    if i == events.len() {
        assert(events.take(i) =~= events);
    } else {
        law_first_definition_counts(events, i + 1);
        assert(events.take(i + 1).drop_last() =~= events.take(i));
        let before = footnote_flow(events.take(i)).definitions;
        let after = footnote_flow(events.take(i + 1)).definitions;
        assert(before.submap_of(after));
        let all = footnote_flow(events).definitions;
        assert forall|label: Seq<char>| #[trigger] before.dom().contains(label) implies all.dom().contains(
            label,
        ) && before[label] == all[label] by {
            assert(after.dom().contains(label));
        }
    }
}

} // verus!
