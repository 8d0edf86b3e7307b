//! Headings, the slugs that they are linked by, and footnotes.
use super::blocks;
use crate::cmark::RangedSourceModel;
use crate::event::{EventModel, RangedModel, TagModel};
use crate::footnotes;
use crate::headings;
use crate::headings::{HeadingModel, SlugFlow};
use crate::parse;
use vstd::prelude::*;
use vstd::utf8::*;

verus! {

/// The event starts or ends a heading.
pub open spec fn is_heading_event(event: EventModel) -> bool {
    match event {
        EventModel::Start(tag) => tag is Heading,
        EventModel::End(tag) => tag is Heading,
        _ => false,
    }
}

/// A heading starts at `s` and ends at `e`.
pub open spec fn is_heading(events: Seq<RangedModel>, s: int, e: int) -> bool {
    &&& 0 <= s < e < events.len()
    &&& events[s].1 matches EventModel::Start(tag) && tag is Heading
    &&& events[e].1 matches EventModel::End(tag) && tag is Heading
    &&& forall|k: int| s < k < e ==> !is_heading_event((#[trigger] events[k]).1)
}

/// The event shows something in a heading.
pub open spec fn is_words(event: EventModel) -> bool {
    event is Text || event is Code || event is SubstitutedText || event is SubstitutedCode
}

/// The text is what the event adds to a heading: text and code as they stand in the source, or what
/// is substituted for them.
pub open spec fn adds_to_heading(b: Seq<u8>, event: RangedModel, words: Seq<char>) -> bool {
    match event.1 {
        EventModel::Text | EventModel::Code => b.subrange(
            event.0.start as int,
            event.0.end as int,
        ) == encode_utf8(words),
        EventModel::SubstitutedText(substituted) => words == substituted,
        EventModel::SubstitutedCode(substituted) => words == substituted,
        _ => words == ""@,
    }
}

/// Where the first of the events from `s` to `k` stands that shows something.
pub open spec fn first_words(events: Seq<RangedModel>, s: int, k: int) -> Option<usize>
    decreases k - s,
{
    if k <= s + 1 {
        None
    } else {
        match first_words(events, s, k - 1) {
            Some(start) => Some(start),
            None => if is_words(events[k - 1].1) {
                Some(events[k - 1].0.start)
            } else {
                None
            },
        }
    }
}

proof fn lemma_heading_open(
    b: Seq<u8>,
    events: Seq<RangedModel>,
    s: int,
    e: int,
    words: Seq<Seq<char>>,
    k: int,
)
    requires
        is_heading(events, s, e),
        s < k <= e,
        headings::heading_flow(b, events.take(k)) is Some,
        words.len() == e - s - 1,
        forall|i: int|
            s < i < e ==> adds_to_heading(b, #[trigger] events[i], words[i - s - 1]),
    ensures
        (headings::heading_flow(b, events.take(k))->0).open == Some(
            (blocks::run_together(words.take(k - s - 1)), first_words(events, s, k)),
        ),
    decreases k,
{
    assert(events.take(k).drop_last() =~= events.take(k - 1));
    assert(events.take(k).last() == events[k - 1]);
    if k == s + 1 {
        assert(words.take(0) =~= Seq::empty());
    } else {
        lemma_heading_open(b, events, s, e, words, k - 1);
        let w = words[k - 1 - s - 1];
        assert(adds_to_heading(b, events[k - 1], w));
        assert(!is_heading_event(events[k - 1].1));
        assert(words.take(k - s - 1).drop_last() =~= words.take(k - 1 - s - 1));
        assert(words.take(k - s - 1).last() == w);
        encode_utf8_decode_utf8(w);
        reveal_strlit("");
        if !is_words(events[k - 1].1) {
            assert(w =~= Seq::empty());
            let before = blocks::run_together(words.take(k - 1 - s - 1));
            assert(before + w =~= before);
        }
    }
}

proof fn lemma_headings_stay(b: Seq<u8>, events: Seq<RangedModel>, k: int)
    requires
        0 <= k <= events.len(),
        headings::heading_flow(b, events) is Some,
    ensures
        headings::heading_flow(b, events.take(k)) is Some,
        (headings::heading_flow(b, events.take(k))->0).done.is_prefix_of(
            (headings::heading_flow(b, events)->0).done,
        ),
    decreases events.len() - k,
{
    if k < events.len() {
        lemma_headings_stay(b, events, k + 1);
        assert(events.take(k + 1).drop_last() =~= events.take(k));
        let x = (headings::heading_flow(b, events.take(k))->0).done;
        let y = (headings::heading_flow(b, events.take(k + 1))->0).done;
        let z = (headings::heading_flow(b, events)->0).done;
        assert(forall|i: int| 0 <= i < x.len() ==> x[i] == y[i]);
        assert(forall|i: int| 0 <= i < y.len() ==> y[i] == z[i]);
        assert(x =~= z.subrange(0, x.len() as int));
    } else {
        assert(events.take(k) =~= events);
        let x = (headings::heading_flow(b, events)->0).done;
        assert(x =~= x.subrange(0, x.len() as int));
    }
}

/// Each heading is found, with its text, which is what its events show run together, and with where
/// the first of them stands; without any, with where it ends.
pub proof fn law_headings_are_found(
    b: Seq<u8>,
    events: Seq<RangedModel>,
    s: int,
    e: int,
    words: Seq<Seq<char>>,
)
    requires
        headings::heading_flow(b, events) is Some,
        is_heading(events, s, e),
        words.len() == e - s - 1,
        forall|i: int|
            s < i < e ==> adds_to_heading(b, #[trigger] events[i], words[i - s - 1]),
    ensures
        (headings::heading_flow(b, events)->0).done.contains(
            HeadingModel {
                text: blocks::run_together(words),
                source_offset: match first_words(events, s, e) {
                    Some(start) => start,
                    None => events[e].0.start,
                },
            },
        ),
{
    lemma_headings_stay(b, events, e + 1);
    lemma_headings_stay(b, events, e);
    lemma_heading_open(b, events, s, e, words, e);
    assert(words.take(e - s - 1) =~= words);
    assert(events.take(e + 1).drop_last() =~= events.take(e));
    assert(events.take(e + 1).last() == events[e]);
    let f = headings::heading_flow(b, events.take(e))->0;
    let g = headings::heading_flow(b, events.take(e + 1))->0;
    let all = (headings::heading_flow(b, events)->0).done;
    let k = f.done.len() as int;
    assert(g.done[k] == all[k]);
}

/// How many of the first `n` events end a heading that was open.
pub open spec fn headings_ended(events: Seq<RangedModel>, n: int) -> (nat, bool)
    decreases n,
{
    if n <= 0 {
        (0, false)
    } else {
        let (count, open) = headings_ended(events, n - 1);
        match events[n - 1].1 {
            EventModel::Start(tag) if tag is Heading => (count, true),
            EventModel::End(tag) if tag is Heading => (if open {
                count + 1
            } else {
                count
            }, false),
            _ => (count, open),
        }
    }
}

/// There are as many headings as end.
pub proof fn law_headings_are_counted(b: Seq<u8>, events: Seq<RangedModel>, n: int)
    requires
        0 <= n <= events.len(),
        headings::heading_flow(b, events.take(n)) is Some,
    ensures
        (headings::heading_flow(b, events.take(n))->0).done.len() == headings_ended(events, n).0,
        (headings::heading_flow(b, events.take(n))->0).open is Some == headings_ended(events, n).1,
    decreases n,
{
    if n > 0 {
        assert(events.take(n).drop_last() =~= events.take(n - 1));
        assert(events.take(n).last() == events[n - 1]);
        law_headings_are_counted(b, events, n - 1);
    }
}

/// The number that decimal digits stand for.
pub open spec fn value_of(digits: Seq<char>) -> int
    decreases digits.len(),
{
    if digits.len() == 0 {
        0
    } else {
        10 * value_of(digits.drop_last()) + (digits.last() as int - '0' as int)
    }
}

/// A number is written in digits that stand for it.
pub proof fn law_numbers_are_decimal(n: nat)
    ensures
        value_of(headings::decimal(n)) == n,
        headings::decimal(n).len() > 0,
        forall|i: int|
            0 <= i < headings::decimal(n).len() ==> '0' <= #[trigger] headings::decimal(n)[i]
                <= '9',
        n > 0 ==> headings::decimal(n)[0] != '0',
    decreases n,
{
    let digits = headings::decimal(n);
    if n < 10 {
        assert(digits.drop_last() =~= Seq::empty());
        assert(value_of(digits.drop_last()) == 0);
    } else {
        law_numbers_are_decimal(n / 10);
        let before = headings::decimal(n / 10);
        assert(digits.drop_last() =~= before);
        assert forall|i: int| 0 <= i < digits.len() implies '0' <= #[trigger] digits[i] <= '9' by {
            if i < before.len() {
                assert(digits[i] == before[i]);
            }
        }
        assert(digits[0] == before[0]);
    }
}

/// A slug with a number behind it is the slug, a dash and the number. Different numbers make
/// different slugs.
pub proof fn law_numbered_slugs(base: Seq<char>, m: nat, n: nat)
    ensures
        headings::numbered(base, n) == base + "-"@ + headings::decimal(n),
        headings::numbered(base, n) != base,
        headings::numbered(base, m) == headings::numbered(base, n) ==> m == n,
{
    reveal_strlit("-");
    assert("-"@ =~= seq!['-']);
    law_numbers_are_decimal(m);
    law_numbers_are_decimal(n);
    assert(headings::numbered(base, n).len() > base.len());
    if headings::numbered(base, m) == headings::numbered(base, n) {
        let x = headings::numbered(base, m);
        let y = headings::numbered(base, n);
        assert(headings::decimal(m) =~= x.subrange(base.len() as int + 1, x.len() as int));
        assert(headings::decimal(n) =~= y.subrange(base.len() as int + 1, y.len() as int));
    }
}

proof fn lemma_same_slugs(headings: Seq<HeadingModel>, bases: Seq<Seq<char>>, base: Seq<char>, n: int)
    requires
        0 <= n <= headings.len(),
        bases.len() == headings.len(),
        base.len() > 0,
        forall|i: int| 0 <= i < bases.len() ==> #[trigger] bases[i] == base,
    ensures
        ({
            let f = headings::slug_flow(headings.take(n), bases);
            &&& headings::count_of(f.counts, base) == n
            &&& n > 0 ==> f.slugs.contains_key(base) && f.slugs[base] == headings[0].source_offset
            &&& n == 0 ==> !f.slugs.contains_key(base)
            &&& forall|k: nat|
                0 < k < n ==> f.slugs.contains_key(#[trigger] headings::numbered(base, k))
                    && f.slugs[headings::numbered(base, k)] == headings[k as int].source_offset
            &&& forall|k: nat|
                k == 0 || k >= n ==> !f.slugs.contains_key(#[trigger] headings::numbered(base, k))
        }),
    decreases n,
{
    if n > 0 {
        lemma_same_slugs(headings, bases, base, n - 1);
        assert(headings.take(n).drop_last() =~= headings.take(n - 1));
        assert(headings.take(n).last() == headings[n - 1]);
        assert(bases[n - 1] == base);
        let before = headings::slug_flow(headings.take(n - 1), bases);
        let after = headings::slug_flow(headings.take(n), bases);
        let slug = if n == 1 {
            base
        } else {
            headings::numbered(base, (n - 1) as nat)
        };
        law_numbered_slugs(base, 0, (n - 1) as nat);
        assert(!before.slugs.contains_key(slug));
        assert(after.slugs == before.slugs.insert(slug, headings[n - 1].source_offset));
        assert forall|k: nat| 0 < k < n implies after.slugs.contains_key(
            #[trigger] headings::numbered(base, k),
        ) && after.slugs[headings::numbered(base, k)] == headings[k as int].source_offset by {
            law_numbered_slugs(base, k, (n - 1) as nat);
            law_numbered_slugs(base, (n - 1) as nat, k);
        }
        assert forall|k: nat| k == 0 || k >= n implies !after.slugs.contains_key(
            #[trigger] headings::numbered(base, k),
        ) by {
            law_numbered_slugs(base, k, (n - 1) as nat);
            law_numbered_slugs(base, (n - 1) as nat, k);
        }
    }
}

/// Headings of one base slug get it in order: the first one as it is, the others with the numbers
/// from 1 on behind it. Each slug leads to its heading.
pub proof fn law_repeated_headings_are_numbered(
    headings: Seq<HeadingModel>,
    bases: Seq<Seq<char>>,
    base: Seq<char>,
    k: int,
)
    requires
        bases.len() == headings.len(),
        base.len() > 0,
        forall|i: int| 0 <= i < bases.len() ==> #[trigger] bases[i] == base,
        0 <= k < headings.len(),
    ensures
        ({
            let slugs = headings::slug_flow(headings, bases).slugs;
            let slug = if k == 0 {
                base
            } else {
                headings::numbered(base, k as nat)
            };
            slugs.contains_key(slug) && slugs[slug] == headings[k].source_offset
        }),
{
    let n = headings.len() as int;
    lemma_same_slugs(headings, bases, base, n);
    assert(headings.take(n) =~= headings);
    if k > 0 {
        let slugs = headings::slug_flow(headings, bases).slugs;
        assert(slugs.contains_key(headings::numbered(base, k as nat)));
    }
}

/// The slug that the search comes to is the first one that is free: the ones before it are taken.
/// There is none if all of them up to the number 127 are taken.
pub proof fn law_the_first_free_slug_is_given(
    slugs: Map<Seq<char>, usize>,
    base: Seq<char>,
    slug: Seq<char>,
    count: nat,
)
    requires
        slug.len() > 0,
    ensures
        ({
            let (found, _) = headings::free_slug(slugs, base, slug, count);
            &&& found.len() > 0 ==> !slugs.contains_key(found)
            &&& !slugs.contains_key(slug) ==> found == slug
            &&& slugs.contains_key(slug) && found.len() > 0 ==> exists|n: nat|
                count <= n < 128 && found == #[trigger] headings::numbered(base, n) && forall|m: nat|
                    count <= m < n ==> slugs.contains_key(#[trigger] headings::numbered(base, m))
            &&& found.len() == 0 <==> slugs.contains_key(slug) && forall|m: nat|
                count <= m < 128 ==> slugs.contains_key(#[trigger] headings::numbered(base, m))
        }),
    decreases 128 - count,
{
    if slugs.contains_key(slug) && count < 128 {
        let next = headings::numbered(base, count);
        law_numbered_slugs(base, count, count);
        law_the_first_free_slug_is_given(slugs, base, next, count + 1);
        let (found, _) = headings::free_slug(slugs, base, slug, count);
        assert(found == headings::free_slug(slugs, base, next, count + 1).0);
        if found.len() > 0 {
            if slugs.contains_key(next) {
                let n = choose|n: nat|
                    count + 1 <= n < 128 && found == #[trigger] headings::numbered(base, n)
                        && forall|m: nat|
                        count + 1 <= m < n ==> slugs.contains_key(
                            #[trigger] headings::numbered(base, m),
                        );
                assert forall|m: nat| count <= m < n implies slugs.contains_key(
                    #[trigger] headings::numbered(base, m),
                ) by {
                    if m == count {
                    }
                }
                assert(found == headings::numbered(base, n));
            } else {
                assert(found == headings::numbered(base, count));
            }
        } else {
            assert forall|m: nat| count <= m < 128 implies slugs.contains_key(
                #[trigger] headings::numbered(base, m),
            ) by {
                if m == count {
                }
            }
        }
        if forall|m: nat|
            count <= m < 128 ==> slugs.contains_key(#[trigger] headings::numbered(base, m)) {
            assert(slugs.contains_key(headings::numbered(base, count)));
        }
    }
}

/// The search for a slug starts with the base slug if no heading before had it, and else with the
/// number of headings behind it that had it. The slug leads to its heading, and what other slugs
/// lead to does not change.
pub proof fn law_slugs_lead_to_their_headings(f: SlugFlow, base: Seq<char>, source_offset: usize)
    ensures
        ({
            let count = headings::count_of(f.counts, base);
            let first = if count == 0 {
                base
            } else {
                headings::numbered(base, count)
            };
            let (slug, _) = headings::free_slug(f.slugs, base, first, count + 1);
            let after = headings::slug_step(f, base, source_offset);
            &&& slug.len() > 0 ==> after.slugs == f.slugs.insert(slug, source_offset)
            &&& slug.len() == 0 ==> after.slugs == f.slugs
            &&& headings::count_of(after.counts, base) > count
            &&& forall|other: Seq<char>|
                other != base ==> #[trigger] headings::count_of(after.counts, other)
                    == headings::count_of(f.counts, other)
        }),
{
    let count = headings::count_of(f.counts, base);
    let first = if count == 0 {
        base
    } else {
        headings::numbered(base, count)
    };
    lemma_count_grows(f.slugs, base, first, count + 1);
}

proof fn lemma_count_grows(
    slugs: Map<Seq<char>, usize>,
    base: Seq<char>,
    slug: Seq<char>,
    count: nat,
)
    ensures
        headings::free_slug(slugs, base, slug, count).1 >= count,
    decreases 128 - count,
{
    if slugs.contains_key(slug) && count < 128 {
        lemma_count_grows(slugs, base, headings::numbered(base, count), count + 1);
    }
}

/// The event starts or ends the definition of a footnote.
pub open spec fn is_footnote_event(event: EventModel) -> bool {
    match event {
        EventModel::Start(tag) => tag is FootnoteDefinition,
        EventModel::End(tag) => tag is FootnoteDefinition,
        _ => false,
    }
}

/// The definition of a footnote that starts at `s` has its first text at `t`.
pub open spec fn defines(events: Seq<RangedModel>, label: Seq<char>, s: int, t: int) -> bool {
    &&& 0 <= s < t < events.len()
    &&& events[s].1 == EventModel::Start(TagModel::FootnoteDefinition(label))
    &&& events[t].1 is Text
    &&& forall|k: int|
        s < k < t ==> !((#[trigger] events[k]).1 is Text) && !is_footnote_event(events[k].1)
}

spec fn awaits_text(events: Seq<RangedModel>, label: Seq<char>, s: int) -> bool {
    &&& 0 <= s < events.len()
    &&& events[s].1 == EventModel::Start(TagModel::FootnoteDefinition(label))
    &&& forall|k: int|
        s < k < events.len() ==> !((#[trigger] events[k]).1 is Text) && !is_footnote_event(
            events[k].1,
        )
}

proof fn lemma_footnotes(events: Seq<RangedModel>, label: Seq<char>)
    ensures
        ({
            let f = footnotes::footnote_flow(events);
            &&& f.label == Some(label) <==> exists|s: int| #[trigger] awaits_text(events, label, s)
            &&& f.definitions.contains_key(label) <==> exists|s: int, t: int|
                #[trigger] defines(events, label, s, t)
            &&& f.definitions.contains_key(label) ==> exists|s: int, t: int|
                #[trigger] defines(events, label, s, t) && f.definitions[label]
                    == events[t].0.start && forall|r: int, u: int|
                    #[trigger] defines(events, label, r, u) ==> t <= u
        }),
    decreases events.len(),
{
    if events.len() > 0 {
        let init = events.drop_last();
        let n = init.len() as int;
        lemma_footnotes(init, label);
        let f = footnotes::footnote_flow(init);
        let g = footnotes::footnote_flow(events);
        assert(forall|k: int| 0 <= k < n ==> #[trigger] init[k] == events[k]);
        assert forall|s: int, t: int| t < n implies (#[trigger] defines(events, label, s, t)
            == defines(init, label, s, t)) by {
            if defines(init, label, s, t) {
                assert forall|k: int| s < k < t implies !((#[trigger] events[k]).1 is Text)
                    && !is_footnote_event(events[k].1) by {
                    assert(init[k] == events[k]);
                }
            }
            if defines(events, label, s, t) {
                assert forall|k: int| s < k < t implies !((#[trigger] init[k]).1 is Text)
                    && !is_footnote_event(init[k].1) by {
                    assert(init[k] == events[k]);
                }
            }
        }
        assert forall|s: int| s < n implies (#[trigger] awaits_text(events, label, s) == (
        awaits_text(init, label, s) && !(events[n].1 is Text) && !is_footnote_event(
            events[n].1,
        ))) by {
            if awaits_text(events, label, s) {
                assert(!(events[n].1 is Text));
                assert forall|k: int| s < k < n implies !((#[trigger] init[k]).1 is Text)
                    && !is_footnote_event(init[k].1) by {
                    assert(init[k] == events[k]);
                }
            }
            if awaits_text(init, label, s) && !(events[n].1 is Text) && !is_footnote_event(
                events[n].1,
            ) {
                assert forall|k: int| s < k < events.len() implies !((#[trigger] events[k]).1
                    is Text) && !is_footnote_event(events[k].1) by {
                    if k < n {
                        assert(init[k] == events[k]);
                    }
                }
                assert(init[s] == events[s]);
            }
        }
        assert forall|s: int| s < n implies (#[trigger] defines(events, label, s, n) == (
        awaits_text(init, label, s) && events[n].1 is Text)) by {
            if defines(events, label, s, n) {
                assert forall|k: int| s < k < n implies !((#[trigger] init[k]).1 is Text)
                    && !is_footnote_event(init[k].1) by {
                    assert(init[k] == events[k]);
                }
            }
            if awaits_text(init, label, s) && events[n].1 is Text {
                assert forall|k: int| s < k < n implies !((#[trigger] events[k]).1 is Text)
                    && !is_footnote_event(events[k].1) by {
                    assert(init[k] == events[k]);
                }
            }
        }
        // The label that is open.
        if g.label == Some(label) {
            if events[n].1 == EventModel::Start(TagModel::FootnoteDefinition(label)) {
                assert(awaits_text(events, label, n));
            } else {
                assert(f.label == Some(label));
                let s = choose|s: int| #[trigger] awaits_text(init, label, s);
                assert(awaits_text(events, label, s));
            }
        }
        if exists|s: int| #[trigger] awaits_text(events, label, s) {
            let s = choose|s: int| #[trigger] awaits_text(events, label, s);
            if s < n {
                assert(awaits_text(init, label, s));
            }
        }
        // The definitions.
        if f.definitions.contains_key(label) {
            let (s, t) = choose|s: int, t: int|
                #[trigger] defines(init, label, s, t) && f.definitions[label] == init[t].0.start
                    && forall|r: int, u: int| #[trigger] defines(init, label, r, u) ==> t <= u;
            assert(defines(events, label, s, t));
            assert forall|r: int, u: int| #[trigger] defines(events, label, r, u) implies t <= u by {
                if u < n {
                    assert(defines(init, label, r, u));
                }
            }
            assert(events[t] == init[t]);
        } else if g.definitions.contains_key(label) {
            assert(events[n].1 is Text && f.label == Some(label));
            let s = choose|s: int| #[trigger] awaits_text(init, label, s);
            assert(defines(events, label, s, n));
            assert forall|r: int, u: int| #[trigger] defines(events, label, r, u) implies n <= u by {
                if u < n {
                    assert(defines(init, label, r, u));
                }
            }
        }
        if exists|s: int, t: int| #[trigger] defines(events, label, s, t) {
            let (s, t) = choose|s: int, t: int| #[trigger] defines(events, label, s, t);
            if t < n {
                assert(defines(init, label, s, t));
            } else {
                assert(awaits_text(init, label, s));
            }
        }
    }
}

/// A footnote leads to the first text of its definition. If there are several definitions of it
/// with text, it leads to the first one; if there is none, it leads nowhere.
pub proof fn law_footnotes_lead_to_their_first_text(
    events: Seq<RangedModel>,
    label: Seq<char>,
)
    ensures
        ({
            let definitions = footnotes::footnote_flow(events).definitions;
            &&& definitions.contains_key(label) <==> exists|s: int, t: int|
                #[trigger] defines(events, label, s, t)
            &&& definitions.contains_key(label) ==> exists|s: int, t: int|
                #[trigger] defines(events, label, s, t) && definitions[label]
                    == events[t].0.start && forall|r: int, u: int|
                    #[trigger] defines(events, label, r, u) ==> t <= u
        }),
{
    lemma_footnotes(events, label);
}

/// A document holds the headings of its events if they are asked for, and else none; and it holds
/// the footnotes of its events in any case.
pub proof fn law_documents_hold_their_headings_and_footnotes(
    b: Seq<u8>,
    events: Seq<RangedSourceModel>,
    parse_html: bool,
    parse_heading_slugs: bool,
    parse_metadata_blocks: bool,
    html: Seq<usize>,
)
    requires
        parse::document(
            b,
            events,
            parse_html,
            parse_heading_slugs,
            parse_metadata_blocks,
            html,
        ) is Some,
    ensures
        ({
            let d = parse::document(
                b,
                events,
                parse_html,
                parse_heading_slugs,
                parse_metadata_blocks,
                html,
            )->0;
            &&& d.footnote_definitions == footnotes::footnote_flow(d.events).definitions
            &&& parse_heading_slugs ==> headings::heading_flow(b, d.events) is Some && d.headings
                == (headings::heading_flow(b, d.events)->0).done
            &&& !parse_heading_slugs ==> d.headings.len() == 0
        }),
{
}

} // verus!
