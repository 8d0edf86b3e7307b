//! The headings of a document and the slugs that they are linked by.
use crate::autolink;
use crate::event;
use crate::event::{EventModel, MarkdownEvent, MarkdownTag, MarkdownTagEnd, RangedEvent, RangedModel, TagModel};
use crate::offsets::Offsets;
use crate::span;
use vstd::prelude::*;
use vstd::string::StringExecFns;
use vstd::string::StringSliceAdditionalSpecFns;

verus! {

/// Up to this number a slug is numbered on until it is free.
pub const MAX_DUPLICATE_HEADING_SLUGS: usize = 128;

/// A heading: its text, and where the text starts in the source.
#[derive(Debug, PartialEq)]
pub struct HeadingText {
    pub text: String,
    pub source_offset: usize,
}

/// The model of a [`HeadingText`].
pub struct HeadingModel {
    pub text: Seq<char>,
    pub source_offset: usize,
}

impl View for HeadingText {
    type V = HeadingModel;

    open spec fn view(&self) -> HeadingModel {
        HeadingModel { text: self.text@, source_offset: self.source_offset }
    }
}

/// The model of a list of headings.
pub open spec fn heading_models(headings: Seq<HeadingText>) -> Seq<HeadingModel> {
    headings.map_values(|h: HeadingText| h@)
}

/// The headings that have ended, and the one that is open: its text so far, and where it starts
/// once there is some.
pub struct HeadingFlow {
    pub done: Seq<HeadingModel>,
    pub open: Option<(Seq<char>, Option<usize>)>,
}

/// The text that an event shows in a heading, if it shows any; `None` if the event has no place in
/// the source.
pub open spec fn heading_piece(b: Seq<u8>, event: RangedModel) -> Option<Option<Seq<char>>> {
    let range = event.0;
    match event.1 {
        EventModel::Text | EventModel::Code => if span::is_slice(
            b,
            range.start as int,
            range.end as int,
        ) {
            Some(Some(span::chars_of(b, range.start as int, range.end as int)))
        } else {
            None
        },
        EventModel::SubstitutedText(text) | EventModel::SubstitutedCode(text) => Some(Some(text)),
        _ => Some(None),
    }
}

/// With one more event. `None` if a heading shows text that has no place in the source.
pub open spec fn heading_step(b: Seq<u8>, f: HeadingFlow, event: RangedModel) -> Option<HeadingFlow> {
    match (event.1, f.open) {
        (EventModel::Start(TagModel::Heading { .. }), _) => Some(
            HeadingFlow { open: Some((Seq::empty(), None)), ..f },
        ),
        (EventModel::End(MarkdownTagEnd::Heading(_)), Some((text, start))) => Some(
            HeadingFlow {
                done: f.done.push(
                    HeadingModel {
                        text,
                        source_offset: match start {
                            Some(start) => start,
                            None => event.0.start,
                        },
                    },
                ),
                open: None,
            },
        ),
        (_, Some((text, start))) => match heading_piece(b, event) {
            Some(Some(piece)) => Some(
                HeadingFlow {
                    open: Some(
                        (
                            text + piece,
                            match start {
                                Some(start) => Some(start),
                                None => Some(event.0.start),
                            },
                        ),
                    ),
                    ..f
                },
            ),
            Some(None) => Some(f),
            None => None,
        },
        (_, None) => Some(f),
    }
}

/// The headings of a list of events.
pub open spec fn heading_flow(b: Seq<u8>, events: Seq<RangedModel>) -> Option<HeadingFlow>
    decreases events.len(),
{
    if events.len() == 0 {
        Some(HeadingFlow { done: Seq::empty(), open: None })
    } else {
        match heading_flow(b, events.drop_last()) {
            Some(f) => heading_step(b, f, events.last()),
            None => None,
        }
    }
}

proof fn lemma_heading_flow_none(b: Seq<u8>, events: Seq<RangedModel>, i: int)
    requires
        0 <= i <= events.len(),
        heading_flow(b, events.take(i)) is None,
    ensures
        heading_flow(b, events) is None,
    decreases events.len() - i,
{
    if i < events.len() {
        assert(events.take(i + 1).drop_last() =~= events.take(i));
        lemma_heading_flow_none(b, events, i + 1);
    } else {
        assert(events.take(i) =~= events);
    }
}

/// The text that an event shows in a heading: see [`heading_piece`].
fn piece_shown(source: &str, event: &RangedEvent) -> (r: Option<Option<String>>)
    ensures
        match heading_piece(source.spec_bytes(), event::ranged_model(*event)) {
            Some(Some(piece)) => r is Some && r->0 is Some && (r->0)->0@ == piece,
            Some(None) => r == Some(None::<String>),
            None => r is None,
        },
{
    let (range, event) = event;
    match event {
        MarkdownEvent::Text | MarkdownEvent::Code => {
            if span::can_slice(source, range.start, range.end) {
                Some(Some(span::slice(source, range.start, range.end).to_owned()))
            } else {
                None
            }
        },
        MarkdownEvent::SubstitutedText(text) => Some(Some(text.clone())),
        MarkdownEvent::SubstitutedCode(code) => Some(Some(code.clone())),
        _ => Some(None),
    }
}

/// The headings of a document: see [`heading_flow`]. `None` if a heading shows text that has no
/// place in the source.
pub fn heading_texts(source: &str, events: &Vec<RangedEvent>) -> (r: Option<Vec<HeadingText>>)
    ensures
        match heading_flow(source.spec_bytes(), event::models(events@)) {
            Some(f) => r is Some && heading_models(r->0@) == f.done,
            None => r is None,
        },
{
    let ghost b = source.spec_bytes();
    let ghost models = event::models(events@);
    let mut done: Vec<HeadingText> = Vec::new();
    let mut inside_heading = false;
    let mut heading_text = String::new();
    let mut heading_source_start: Option<usize> = None;
    proof {
        assert(heading_models(done@) =~= Seq::empty());
        assert(models.take(0).len() == 0);
    }
    for i in 0..events.len()
        invariant
            b == source.spec_bytes(),
            models == event::models(events@),
            heading_flow(b, models.take(i as int)) == Some(
                HeadingFlow {
                    done: heading_models(done@),
                    open: if inside_heading {
                        Some((heading_text@, heading_source_start))
                    } else {
                        None
                    },
                },
            ),
    {
        let ghost before = heading_models(done@);
        proof {
            assert(models.take(i + 1).drop_last() =~= models.take(i as int));
            assert(models[i as int] == event::ranged_model(events@[i as int]));
        }
        match &events[i].1 {
            MarkdownEvent::Start(MarkdownTag::Heading { .. }) => {
                inside_heading = true;
                heading_text = String::new();
                heading_source_start = None;
                assert(heading_text@ =~= Seq::empty());
            },
            MarkdownEvent::End(MarkdownTagEnd::Heading(_)) => {
                if inside_heading {
                    let source_offset = match heading_source_start {
                        Some(start) => start,
                        None => events[i].0.start,
                    };
                    let heading = HeadingText { text: heading_text, source_offset };
                    proof {
                        assert(heading_models(done@.push(heading)) =~= before.push(heading@));
                    }
                    done.push(heading);
                    heading_text = String::new();
                    inside_heading = false;
                }
            },
            _ => {
                if inside_heading {
                    match piece_shown(source, &events[i]) {
                        Some(Some(piece)) => {
                            if heading_source_start.is_none() {
                                heading_source_start = Some(events[i].0.start);
                            }
                            heading_text.append(piece.as_str());
                        },
                        Some(None) => {},
                        None => {
                            proof {
                                lemma_heading_flow_none(b, models, i + 1);
                            }
                            return None;
                        },
                    }
                }
            },
        }
    }
    assert(models.take(models.len() as int) =~= models);
    Some(done)
}

/// The digit for a number below ten.
pub open spec fn digit(n: nat) -> char {
    (48 + n) as char
}

/// A number in decimal digits.
pub open spec fn decimal(n: nat) -> Seq<char>
    decreases n,
{
    if n < 10 {
        seq![digit(n)]
    } else {
        decimal(n / 10).push(digit(n % 10))
    }
}

/// A slug with a number behind it.
pub open spec fn numbered(base: Seq<char>, n: nat) -> Seq<char> {
    base + seq!['-'] + decimal(n)
}

/// The slugs given so far with the offsets of their headings, and how far the numbers behind each
/// base slug have got.
pub struct SlugFlow {
    pub slugs: Map<Seq<char>, usize>,
    pub counts: Map<Seq<char>, nat>,
}

/// How far the numbers behind a base slug have got.
pub open spec fn count_of(counts: Map<Seq<char>, nat>, base: Seq<char>) -> nat {
    if counts.contains_key(base) {
        counts[base]
    } else {
        0
    }
}

/// The slug itself if it is free, else the base slug with the first number from `count` on that
/// makes it free; no slug if the numbers reach their limit. With it, how far the numbers have got.
pub open spec fn free_slug(
    slugs: Map<Seq<char>, usize>,
    base: Seq<char>,
    slug: Seq<char>,
    count: nat,
) -> (Seq<char>, nat)
    decreases MAX_DUPLICATE_HEADING_SLUGS - count,
{
    if !slugs.contains_key(slug) {
        (slug, count)
    } else if count >= MAX_DUPLICATE_HEADING_SLUGS {
        (Seq::empty(), count)
    } else {
        free_slug(slugs, base, numbered(base, count), count + 1)
    }
}

/// The slug for the next heading with this base slug, and how far the numbers then have got. The
/// first heading gets the base slug itself.
pub open spec fn next_slug(f: SlugFlow, base: Seq<char>) -> (Seq<char>, nat) {
    let count = count_of(f.counts, base);
    free_slug(
        f.slugs,
        base,
        if count == 0 {
            base
        } else {
            numbered(base, count)
        },
        count + 1,
    )
}

/// With one more heading. It gets no slug if that would be empty.
pub open spec fn slug_step(f: SlugFlow, base: Seq<char>, source_offset: usize) -> SlugFlow {
    let (slug, count) = next_slug(f, base);
    SlugFlow {
        slugs: if slug.len() > 0 {
            f.slugs.insert(slug, source_offset)
        } else {
            f.slugs
        },
        counts: f.counts.insert(base, count),
    }
}

/// The slugs of headings with the given base slugs.
pub open spec fn slug_flow(headings: Seq<HeadingModel>, bases: Seq<Seq<char>>) -> SlugFlow
    decreases headings.len(),
{
    if headings.len() == 0 {
        SlugFlow { slugs: Map::empty(), counts: Map::empty() }
    } else {
        slug_step(
            slug_flow(headings.drop_last(), bases),
            bases[headings.len() - 1],
            headings.last().source_offset,
        )
    }
}

/// The digit for a number below ten.
fn digit_str(n: usize) -> (r: &'static str)
    requires
        n < 10,
    ensures
        r@ == seq![digit(n as nat)],
{
    proof {
        reveal_strlit("0");
        reveal_strlit("1");
        reveal_strlit("2");
        reveal_strlit("3");
        reveal_strlit("4");
        reveal_strlit("5");
        reveal_strlit("6");
        reveal_strlit("7");
        reveal_strlit("8");
        reveal_strlit("9");
    }
    let r = match n {
        0 => "0",
        1 => "1",
        2 => "2",
        3 => "3",
        4 => "4",
        5 => "5",
        6 => "6",
        7 => "7",
        8 => "8",
        _ => "9",
    };
    assert(r@ =~= seq![digit(n as nat)]);
    r
}

/// Appends a number in decimal digits.
fn append_decimal(s: &mut String, n: usize)
    ensures
        final(s)@ == old(s)@ + decimal(n as nat),
    decreases n,
{
    if n >= 10 {
        append_decimal(s, n / 10);
    }
    s.append(digit_str(n % 10));
    assert(s@ =~= old(s)@ + decimal(n as nat));
}

/// A slug with a number behind it.
fn numbered_slug(base: &str, n: usize) -> (r: String)
    ensures
        r@ == numbered(base@, n as nat),
{
    proof {
        reveal_strlit("-");
    }
    let mut r = base.to_owned();
    r.append("-");
    assert(r@ =~= base@ + seq!['-']);
    append_decimal(&mut r, n);
    r
}

/// The counts of an executable map as numbers.
spec fn counts_model(counts: Map<Seq<char>, usize>) -> Map<Seq<char>, nat> {
    counts.map_values(|n: usize| n as nat)
}

/// A number in decimal digits stands for no other number.
pub proof fn lemma_decimal_injective(m: nat, n: nat)
    requires
        decimal(m) == decimal(n),
    ensures
        m == n,
    decreases m,
{
    lemma_decimal_len(m);
    lemma_decimal_len(n);
    assert(decimal(m).last() == digit(m % 10));
    assert(decimal(n).last() == digit(n % 10));
    if m >= 10 {
        assert(decimal(m).drop_last() =~= decimal(m / 10));
        assert(decimal(n).drop_last() =~= decimal(n / 10));
        lemma_decimal_injective(m / 10, n / 10);
    }
}

proof fn lemma_decimal_len(n: nat)
    ensures
        decimal(n).len() >= 1,
        n < 10 <==> decimal(n).len() == 1,
    decreases n,
{
    if n >= 10 {
        lemma_decimal_len(n / 10);
    }
}

/// Slugs with different numbers differ.
pub proof fn lemma_numbered_injective(base: Seq<char>, m: nat, n: nat)
    requires
        numbered(base, m) == numbered(base, n),
    ensures
        m == n,
{
    let at = base.len() + 1;
    assert(decimal(m) =~= numbered(base, m).skip(at as int));
    assert(decimal(n) =~= numbered(base, n).skip(at as int));
    lemma_decimal_injective(m, n);
}

proof fn lemma_enough_slugs(slugs: Set<Seq<char>>, base: Seq<char>, n: nat)
    requires
        slugs.finite(),
        forall|k: nat| 1 <= k <= n ==> slugs.contains(#[trigger] numbered(base, k)),
    ensures
        n <= slugs.len(),
        slugs.contains(base) ==> n < slugs.len(),
    decreases n,
{
    if n > 0 {
        let fewer = slugs.remove(numbered(base, n));
        assert forall|k: nat| 1 <= k <= n - 1 implies fewer.contains(#[trigger] numbered(base, k)) by {
            if numbered(base, k) == numbered(base, n) {
                lemma_numbered_injective(base, k, n);
            }
        }
        assert(base.len() != numbered(base, n).len());
        lemma_enough_slugs(fewer, base, (n - 1) as nat);
    } else if slugs.contains(base) {
        assert(slugs.remove(base).len() < slugs.len());
    }
}

/// What holds of the slugs and the counts after a number of headings: the numbers below a count
/// are taken, so no count has got further than there are headings.
spec fn counts_within(
    slugs: Map<Seq<char>, usize>,
    counts: Map<Seq<char>, usize>,
    headings: int,
) -> bool {
    &&& slugs.dom().finite()
    &&& !slugs.contains_key(Seq::empty())
    &&& slugs.dom().len() + (if counts.contains_key(Seq::empty()) {
        1int
    } else {
        0
    }) <= headings
    &&& forall|base: Seq<char>|
        base.len() > 0 && #[trigger] counts.contains_key(base) ==> slugs.contains_key(base)
    &&& forall|base: Seq<char>, k: nat|
        #![trigger counts.contains_key(base), numbered(base, k)]
        counts.contains_key(base) && 1 <= k < counts[base] ==> slugs.contains_key(
            numbered(base, k),
        )
}

proof fn lemma_count_bound(
    slugs: Map<Seq<char>, usize>,
    counts: Map<Seq<char>, usize>,
    headings: int,
    base: Seq<char>,
)
    requires
        counts_within(slugs, counts, headings),
        counts.contains_key(base),
    ensures
        counts[base] <= headings,
{
    if counts[base] > 0 {
        lemma_enough_slugs(slugs.dom(), base, (counts[base] - 1) as nat);
        if base.len() == 0 {
            assert(base =~= Seq::empty());
        }
    }
}

/// Finds the slug for the next heading: see [`next_slug`].
fn find_slug(
    slugs: &Offsets,
    counts: &Offsets,
    base: &String,
    Ghost(done): Ghost<int>,
) -> (r: (String, usize))
    requires
        0 <= done < usize::MAX,
        counts_within(slugs@, counts@, done),
    ensures
        (r.0@, r.1 as nat) == next_slug(
            SlugFlow { slugs: slugs@, counts: counts_model(counts@) },
            base@,
        ),
        r.0@.len() > 0 ==> !slugs@.contains_key(r.0@),
        forall|k: nat|
            1 <= k < r.1 ==> slugs@.contains_key(#[trigger] numbered(base@, k)) || r.0@ == numbered(
                base@,
                k,
            ),
        base@.len() > 0 ==> slugs@.contains_key(base@) || r.0@ == base@,
        base@.len() == 0 && !counts@.contains_key(base@) ==> r.0@.len() == 0,
{
    let ghost flow = SlugFlow { slugs: slugs@, counts: counts_model(counts@) };
    let mut count: usize = match counts.get(base.as_str()) {
        Some(count) => {
            proof {
                lemma_count_bound(slugs@, counts@, done, base@);
            }
            count
        },
        None => 0,
    };
    assert(count == count_of(flow.counts, base@));
    let mut slug = if count == 0 {
        base.clone()
    } else {
        numbered_slug(base.as_str(), count)
    };
    count += 1;
    while slugs.contains_key(slug.as_str())
        invariant
            flow == (SlugFlow { slugs: slugs@, counts: counts_model(counts@) }),
            free_slug(slugs@, base@, slug@, count as nat) == next_slug(flow, base@),
            0 <= done < usize::MAX,
            1 <= count,
            forall|k: nat|
                1 <= k < count ==> slugs@.contains_key(#[trigger] numbered(base@, k)) || slug@
                    == numbered(base@, k),
            base@.len() > 0 ==> slugs@.contains_key(base@) || slug@ == base@,
            base@.len() == 0 && !counts@.contains_key(base@) ==> slug@.len() == 0,
            !slugs@.contains_key(Seq::empty()),
        decreases MAX_DUPLICATE_HEADING_SLUGS - count,
    {
        assert(slug@.len() == 0 ==> slug@ =~= Seq::empty());
        if count >= MAX_DUPLICATE_HEADING_SLUGS {
            let none = String::new();
            assert(none@ =~= Seq::empty());
            return (none, count);
        }
        slug = numbered_slug(base.as_str(), count);
        count += 1;
    }
    (slug, count)
}

/// Gives each heading its slug, by the base slugs of the headings: see [`slug_flow`]. A slug leads
/// to the offset of its heading.
pub fn build_heading_slugs(headings: &Vec<HeadingText>, base_slugs: &Vec<String>) -> (r:
    Offsets)
    requires
        headings@.len() == base_slugs@.len(),
    ensures
        r@ == slug_flow(
            heading_models(headings@),
            base_slugs@.map_values(|base: String| base@),
        ).slugs,
{
    let ghost models = heading_models(headings@);
    let ghost bases = base_slugs@.map_values(|base: String| base@);
    let mut slugs: Offsets = Offsets::new();
    let mut counts: Offsets = Offsets::new();
    proof {
        assert(counts_model(counts@) =~= Map::empty());
        assert(models.take(0).len() == 0);
    }
    for i in 0..headings.len()
        invariant
            headings@.len() == base_slugs@.len(),
            models == heading_models(headings@),
            bases == base_slugs@.map_values(|base: String| base@),
            slug_flow(models.take(i as int), bases) == (SlugFlow {
                slugs: slugs@,
                counts: counts_model(counts@),
            }),
            counts_within(slugs@, counts@, i as int),
    {
        let ghost (slugs_before, counts_before) = (slugs@, counts@);
        let (slug, count) = find_slug(&slugs, &counts, &base_slugs[i], Ghost(i as int));
        proof {
            assert(models.take(i + 1).drop_last() =~= models.take(i as int));
            assert(counts_model(counts@.insert(base_slugs@[i as int]@, count)) =~= counts_model(
                counts@,
            ).insert(bases[i as int], count as nat));
        }
        counts.insert(base_slugs[i].clone(), count);
        if !slug.as_str().is_empty() {
            slugs.insert(slug, headings[i].source_offset);
        }
        proof {
            assert(counts_within(slugs_before, counts_before, i as int));
            assert(slugs@.dom() =~= slugs_before.dom() || slugs@.dom() =~= slugs_before.dom().insert(
                slug@,
            ));
        }
    }
    assert(models.take(models.len() as int) =~= models);
    slugs
}

proof fn lemma_free_slug(
    slugs: Map<Seq<char>, usize>,
    base: Seq<char>,
    slug: Seq<char>,
    count: nat,
)
    ensures
        ({
            let (r, _) = free_slug(slugs, base, slug, count);
            r.len() > 0 ==> !slugs.contains_key(r) && (r == slug || exists|n: nat|
                r == #[trigger] numbered(base, n))
        }),
    decreases MAX_DUPLICATE_HEADING_SLUGS - count,
{
    if slugs.contains_key(slug) && count < MAX_DUPLICATE_HEADING_SLUGS {
        lemma_free_slug(slugs, base, numbered(base, count), count + 1);
    }
}

/// A heading gets a slug that no earlier heading has: its base slug, or that with a number behind
/// it.
pub proof fn law_slugs_are_fresh(f: SlugFlow, base: Seq<char>)
    ensures
        ({
            let (slug, _) = next_slug(f, base);
            slug.len() > 0 ==> !f.slugs.contains_key(slug) && (slug == base || exists|n: nat|
                slug == #[trigger] numbered(base, n))
        }),
{
    let count = count_of(f.counts, base);
    if count == 0 {
        lemma_free_slug(f.slugs, base, base, count + 1);
    } else {
        lemma_free_slug(f.slugs, base, numbered(base, count), count + 1);
    }
}

/// The first heading with a base slug gets it, if no heading before has it as its slug.
pub proof fn law_first_heading_gets_base_slug(f: SlugFlow, base: Seq<char>, source_offset: usize)
    requires
        base.len() > 0,
        count_of(f.counts, base) == 0,
        !f.slugs.contains_key(base),
    ensures
        slug_step(f, base, source_offset).slugs == f.slugs.insert(base, source_offset),
{
}

/// What a slug leads to does not change with the headings behind it.
pub proof fn law_slugs_stay(headings: Seq<HeadingModel>, bases: Seq<Seq<char>>, i: int)
    requires
        0 <= i <= headings.len(),
    ensures
        slug_flow(headings.take(i), bases).slugs.submap_of(slug_flow(headings, bases).slugs),
    decreases headings.len() - i,
{
    if i == headings.len() {
        assert(headings.take(i) =~= headings);
    } else {
        law_slugs_stay(headings, bases, i + 1);
        assert(headings.take(i + 1).drop_last() =~= headings.take(i));
        law_slugs_are_fresh(slug_flow(headings.take(i), bases), bases[i]);
        let before = slug_flow(headings.take(i), bases).slugs;
        let after = slug_flow(headings.take(i + 1), bases).slugs;
        assert(before.submap_of(after));
        let all = slug_flow(headings, bases).slugs;
        assert forall|slug: Seq<char>| #[trigger] before.dom().contains(slug) implies all.dom().contains(
            slug,
        ) && before[slug] == all[slug] by {
            assert(after.dom().contains(slug));
        }
    }
}

/// The headings of events that show slices of the source can be collected.
pub proof fn lemma_headings_of_slices(b: Seq<u8>, events: Seq<RangedModel>)
    requires
        autolink::show_slices(b, events),
    ensures
        heading_flow(b, events) is Some,
    decreases events.len(),
{
    if events.len() > 0 {
        let init = events.drop_last();
        assert(autolink::show_slices(b, init)) by {
            assert forall|i: int|
                0 <= i < init.len() && ((#[trigger] init[i]).1 is Text || init[i].1
                    is Code) implies span::is_slice(
                b,
                init[i].0.start as int,
                init[i].0.end as int,
            ) by {
                assert(init[i] == events[i]);
            }
        }
        lemma_headings_of_slices(b, init);
        assert(events[events.len() - 1] == events.last());
    }
}

} // verus!
