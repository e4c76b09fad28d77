//! Which fonts a redaction cuts, and what it reports of each.
//!
//! A font is cut only when no page outside the operation reaches it, through the font itself
//! or through a `/ToUnicode`, `/Encoding` or `/Widths` it names: editing it would reflow every
//! other page that uses it. One count decides and discloses, so the two cannot disagree.

use std::collections::BTreeSet;

use vstd::prelude::*;

use crate::error::Result;
use crate::graph::{dictionary_target, entries_of, entries_view, key_of, Body, Document, DocumentV};
use crate::limits::{Clock, Deadline};
use crate::names::{font, spec_font};
use crate::narrow::{font_narrowable, narrow_font, narrowed_font};
use crate::redact::FontOutcome;
use crate::scope::{opt_nat, resources_of, resources_of_spec};
use crate::sharing::FormUseCounts;

verus! {

broadcast use vstd::std_specs::btree::group_btree_axioms;

/// The fonts the first `names` entries of font dictionary `f` resolve to, in order: each
/// name whose value is a font dictionary.
pub open spec fn resolved_fonts(d: DocumentV, f: nat, names: Seq<(Seq<u8>, crate::graph::ValueV)>) -> Seq<nat>
    decreases names.len(),
{
    if names.len() == 0 {
        Seq::empty()
    } else {
        let rest = resolved_fonts(d, f, names.drop_last());
        match dictionary_target(d, key_of(d, f, names.last().0)) {
            Some(x) => rest.push(x),
            None => rest,
        }
    }
}

/// The fonts `resources` lists under `/Font`, in order, by object.
pub open spec fn listed_fonts(d: DocumentV, resources: Option<nat>) -> Seq<nat> {
    match resources {
        None => Seq::empty(),
        Some(r) => match dictionary_target(d, key_of(d, r, spec_font())) {
            None => Seq::empty(),
            Some(f) => resolved_fonts(d, f, entries_of(d.objects[f as int])),
        },
    }
}

/// The codes still drawn with `font`: the first entry for it, or none.
pub open spec fn kept_codes(still: Seq<(u64, Vec<u32>)>, font: u64) -> Set<u32>
    decreases still.len(),
{
    if still.len() == 0 {
        Set::empty()
    } else if still[0].0 == font {
        still[0].1@.to_set()
    } else {
        kept_codes(still.drop_first(), font)
    }
}

/// What the operation reports of `font`: cut exactly when no page outside `redacted` is
/// reached by an edit to it, and how many such pages there are.
pub open spec fn outcome_of(sharing: FormUseCounts, font: nat, redacted: Set<usize>) -> FontOutcome {
    let outside = sharing.outside(font as int, redacted);
    FontOutcome { font: font as u64, cut: outside == 0, also_used_by: outside as usize }
}

/// The document after cutting each of `fonts` in turn that is cut.
pub open spec fn after_cuts(
    d: DocumentV,
    fonts: Seq<nat>,
    sharing: FormUseCounts,
    redacted: Set<usize>,
    still: Seq<(u64, Vec<u32>)>,
) -> DocumentV
    decreases fonts.len(),
{
    if fonts.len() == 0 {
        d
    } else {
        let before = after_cuts(d, fonts.drop_last(), sharing, redacted, still);
        let f = fonts.last();
        if outcome_of(sharing, f, redacted).cut {
            narrowed_font(before, f, kept_codes(still, f as u64))
        } else {
            before
        }
    }
}

/// Whether every cut in turn can be made.
pub open spec fn cuts_succeed(
    d: DocumentV,
    fonts: Seq<nat>,
    sharing: FormUseCounts,
    redacted: Set<usize>,
    still: Seq<(u64, Vec<u32>)>,
) -> bool
    decreases fonts.len(),
{
    if fonts.len() == 0 {
        true
    } else {
        let f = fonts.last();
        &&& cuts_succeed(d, fonts.drop_last(), sharing, redacted, still)
        &&& outcome_of(sharing, f, redacted).cut ==> font_narrowable(
            after_cuts(d, fonts.drop_last(), sharing, redacted, still),
            f,
            kept_codes(still, f as u64),
        )
    }
}

/// A sequence of cuts that succeeds succeeds on each of its prefixes.
proof fn lemma_prefix_succeeds(
    d: DocumentV,
    fonts: Seq<nat>,
    k: int,
    sharing: FormUseCounts,
    redacted: Set<usize>,
    still: Seq<(u64, Vec<u32>)>,
)
    requires
        0 <= k <= fonts.len(),
        cuts_succeed(d, fonts, sharing, redacted, still),
    ensures
        cuts_succeed(d, fonts.take(k), sharing, redacted, still),
    decreases fonts.len(),
{
    if k < fonts.len() {
        assert(fonts.drop_last().take(k) =~= fonts.take(k));
        lemma_prefix_succeeds(d, fonts.drop_last(), k, sharing, redacted, still);
    } else {
        assert(fonts.take(k) =~= fonts);
    }
}

/// A font's report discloses exactly what decided it: it is cut exactly when it names no
/// page outside the operation, and retained exactly when it names at least one.
pub proof fn lemma_outcome_discloses_its_decision(sharing: FormUseCounts, font: nat, redacted: Set<usize>)
    requires
        sharing.wf(),
    ensures
        outcome_of(sharing, font, redacted).also_used_by as nat == sharing.outside(font as int, redacted),
        outcome_of(sharing, font, redacted).cut <==> outcome_of(sharing, font, redacted).also_used_by == 0,
{
    sharing.lemma_outside_fits(font as int, redacted);
}

/// The fonts `resources_at` lists under `/Font`, by object.
fn listed_fonts_of(d: &Document, resources_at: Option<usize>) -> (r: Vec<usize>)
    ensures
        r@.len() == listed_fonts(d@, opt_nat(resources_at)).len(),
        forall|i: int| 0 <= i < r@.len() ==> r@[i] as nat == #[trigger] listed_fonts(d@, opt_nat(resources_at))[i],
{
    let mut r: Vec<usize> = Vec::new();
    let at = match resources_at {
        None => {
            return r;
        },
        Some(at) => at,
    };
    let fk = font();
    let f = match d.dictionary_target(d.get(at, &fk)) {
        None => {
            return r;
        },
        Some(f) => f,
    };
    let entries = match &d.objects[f].body {
        Body::Dictionary(e) => e,
        _ => {
            return r;
        },
    };
    let ghost es = entries_of(d@.objects[f as int]);
    assert(entries_view(entries@) == es);
    let mut k: usize = 0;
    while k < entries.len()
        invariant
            f < d@.objects.len(),
            entries_view(entries@) == es,
            k <= entries@.len(),
            r@.len() == resolved_fonts(d@, f as nat, es.take(k as int)).len(),
            forall|i: int| 0 <= i < r@.len() ==> r@[i] as nat == #[trigger] resolved_fonts(d@, f as nat, es.take(k as int))[i],
        decreases entries.len() - k,
    {
        assert(es.take(k + 1).drop_last() =~= es.take(k as int));
        assert(es.take(k + 1).last() == es[k as int]);
        assert(es[k as int].0 == entries@[k as int].key@);
        if let Some(x) = d.dictionary_target(d.get(f, entries[k].key.as_slice())) {
            r.push(x);
        }
        k += 1;
    }
    assert(es.take(entries@.len() as int) =~= es);
    r
}

/// The codes still drawn with `font`, as a set.
fn kept(still: &[(u64, Vec<u32>)], font: u64) -> (s: BTreeSet<u32>)
    ensures
        s@ == kept_codes(still@, font),
{
    let mut i: usize = 0;
    assert(still@.skip(0) =~= still@);
    while i < still.len()
        invariant
            i <= still@.len(),
            kept_codes(still@, font) == kept_codes(still@.skip(i as int), font),
        decreases still.len() - i,
    {
        assert(still@.skip(i as int).drop_first() =~= still@.skip(i + 1));
        if still[i].0 == font {
            let codes = &still[i].1;
            let mut s: BTreeSet<u32> = BTreeSet::new();
            let mut k: usize = 0;
            while k < codes.len()
                invariant
                    k <= codes@.len(),
                    forall|c: u32| #[trigger] s@.contains(c) <==> exists|j: int| 0 <= j < k && codes@[j] == c,
                decreases codes.len() - k,
            {
                s.insert(codes[k]);
                proof {
                    assert forall|c: u32| #[trigger] s@.contains(c) <==> exists|j: int| 0 <= j < k + 1 && codes@[j] == c by {
                        if c == codes@[k as int] {
                            assert(codes@[k as int] == c);
                        }
                    }
                }
                k += 1;
            }
            assert(s@ =~= codes@.to_set());
            return s;
        }
        i += 1;
    }
    BTreeSet::new()
}

/// Cut the fonts page `page` lists that no page outside `redacted` reaches, narrowing each
/// to the codes `still_drawn` says it still draws, and report on every font it lists, cut
/// or not, in the order its resources list them.
///
/// `still_drawn` is, per font object, the codes drawn with it once every content edit is
/// done; a font it does not mention draws nothing any more.
///
/// # Errors
///
/// `LimitExceeded` for `max_duration_ms`, before anything is changed. `Unsupported` or
/// `Malformed` when a font to be cut cannot be narrowed; the document may be part-edited
/// then, and must be discarded.
pub fn cut_fonts<C: Clock>(
    d: &mut Document,
    page: usize,
    sharing: &FormUseCounts,
    still_drawn: &[(u64, Vec<u32>)],
    redacted: &BTreeSet<usize>,
    deadline: &Deadline,
    clock: &C,
) -> (r: Result<Vec<FontOutcome>>)
    requires
        sharing.wf(),
    ensures
        ({
            let fonts = listed_fonts(old(d)@, resources_of_spec(old(d)@, page as nat));
            &&& r is Ok ==> r->Ok_0@.len() == fonts.len()
                && (forall|i: int| 0 <= i < fonts.len() ==> r->Ok_0@[i] == outcome_of(*sharing, #[trigger] fonts[i], redacted@))
                && cuts_succeed(old(d)@, fonts, *sharing, redacted@, still_drawn@)
                && final(d)@ == after_cuts(old(d)@, fonts, *sharing, redacted@, still_drawn@)
            &&& r is Err ==> (r->Err_0 is LimitExceeded && r->Err_0->stage == crate::error::Stage::Duration
                    && r->Err_0->allowed == deadline.budget && final(d)@ == old(d)@)
                || ((r->Err_0 is Unsupported || r->Err_0 is Malformed) && !cuts_succeed(old(d)@, fonts, *sharing, redacted@, still_drawn@))
            &&& deadline.holds_for(clock) && cuts_succeed(old(d)@, fonts, *sharing, redacted@, still_drawn@) ==> r is Ok
        }),
{
    deadline.checkpoint(clock)?;
    let ghost d0 = d@;
    let resources_at = resources_of(d, page);
    let fonts = listed_fonts_of(d, resources_at);
    let ghost listed = listed_fonts(d0, resources_of_spec(d0, page as nat));
    assert(listed.len() == fonts@.len());
    let mut outcomes: Vec<FontOutcome> = Vec::new();
    let mut i: usize = 0;
    while i < fonts.len()
        invariant
            sharing.wf(),
            d0 == old(d)@,
            listed == listed_fonts(d0, resources_of_spec(d0, page as nat)),
            fonts@.len() == listed.len(),
            forall|j: int| 0 <= j < fonts@.len() ==> fonts@[j] as nat == #[trigger] listed[j],
            i <= fonts@.len(),
            outcomes@.len() == i,
            forall|j: int| 0 <= j < i ==> outcomes@[j] == outcome_of(*sharing, #[trigger] listed[j], redacted@),
            cuts_succeed(d0, listed.take(i as int), *sharing, redacted@, still_drawn@),
            d@ == after_cuts(d0, listed.take(i as int), *sharing, redacted@, still_drawn@),
        decreases fonts.len() - i,
    {
        let f = fonts[i];
        assert(fonts@[i as int] as nat == listed[i as int]);
        assert(listed.take(i + 1).drop_last() =~= listed.take(i as int));
        assert(listed.take(i + 1).last() == listed[i as int]);
        let outside = sharing.pages_outside(f, redacted);
        let outcome = FontOutcome { font: f as u64, cut: outside == 0, also_used_by: outside };
        if outside == 0 {
            let keeps = kept(still_drawn, f as u64);
            let ghost before = d@;
            match narrow_font(d, f, &keeps) {
                Ok(()) => {},
                Err(e) => {
                    proof {
                        assert(!font_narrowable(before, f as nat, keeps@));
                        assert(outcome_of(*sharing, listed[i as int], redacted@).cut);
                        assert(!cuts_succeed(d0, listed.take(i + 1), *sharing, redacted@, still_drawn@));
                        if cuts_succeed(d0, listed, *sharing, redacted@, still_drawn@) {
                            lemma_prefix_succeeds(d0, listed, i + 1, *sharing, redacted@, still_drawn@);
                        }
                        assert(!cuts_succeed(d0, listed, *sharing, redacted@, still_drawn@));
                        assert(e is Unsupported || e is Malformed);
                    }
                    return Err(e);
                },
            }
        }
        outcomes.push(outcome);
        i += 1;
    }
    assert(listed.take(fonts@.len() as int) =~= listed);
    Ok(outcomes)
}

} // verus!
