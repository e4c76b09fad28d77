//! The order the steps of a redaction run in, and what happens when one fails.
//!
//! 1. Every content edit, across every affected stream.
//! 2. Then font surgery, computing "no longer drawn" from the complete result of step 1.
//! 3. Then the page strip.
//!
//! Font surgery removes the `/Widths`, `/ToUnicode` and `/Differences` entries for codes the
//! document no longer draws, and "no longer drawn" is a fact about the finished content: run
//! early, it leaves the mapping of a removed glyph, which is the removed character, in the
//! font. Nothing about such an output looks wrong, so the order is a chain of types a caller
//! cannot drive out of sequence. Every step of [`Steps`] records itself in the steps' log,
//! and each transition states what it added there: [`run`] states that a successful
//! redaction logged every content edit, then font surgery, the page strip and the write, and
//! that a failed one logged the steps up to the one that failed and nothing after. The steps
//! also keep what a later step depends on: the content edits are of exactly the streams the
//! lookup returned, and font surgery is handed exactly what the question about codes still
//! drawn answered, over the pages the operation covers, the same pages that question asked
//! about.
//!
//! Any failure discards the whole document. Every step consumes the state it runs from and
//! returns the next only on success, so a caller holding an error has nothing left to emit.

use std::collections::BTreeSet;

use vstd::prelude::*;

use crate::error::{Error, Result};

verus! {

/// What happened to one font, and why.
///
/// A font is cut only when every page using it is in the operation. When it is retained, the
/// page has to disclose that the font still carries the widths and the code-to-character
/// mapping for what was removed.
#[derive(Debug, Clone, Copy, PartialEq, Eq, Structural)]
pub struct FontOutcome {
    /// The font's object identity.
    pub font: u64,
    /// Whether its entries for the removed codes were cut.
    pub cut: bool,
    /// How many pages use it that the operation does not redact: zero when it was cut.
    pub also_used_by: usize,
}

/// The magnitude of `v`.
pub open spec fn magnitude(v: int) -> int {
    if v < 0 { -v } else { v }
}

/// An object identity packed into one number: the object number's magnitude above sixteen
/// bits, the low sixteen bits of the generation's below.
pub open spec fn packed(number: int, generation: int) -> int {
    magnitude(number) * 65536 + magnitude(generation) % 65536
}

/// Pack an object's `(number, generation)` into the identity [`FontOutcome::font`] and
/// [`StreamId::Object`] carry.
pub fn pack(identity: (i32, i32)) -> (r: u64)
    ensures
        r == packed(identity.0 as int, identity.1 as int),
{
    let n: u64 = if identity.0 < 0 { (0i64 - identity.0 as i64) as u64 } else { identity.0 as u64 };
    let g: u64 = if identity.1 < 0 { (0i64 - identity.1 as i64) as u64 } else { identity.1 as u64 };
    assert(n <= 0x8000_0000);
    let r = (n << 16u64) | (g & 0xffffu64);
    assert((n << 16u64) | (g & 0xffffu64) == n * 65536 + g % 65536) by (bit_vector)
        requires
            n <= 0x8000_0000,
    ;
    r
}

/// What the operation did, beyond the bytes.
#[derive(Debug, Clone, Default, PartialEq, Eq)]
pub struct Report {
    /// One entry per font the operation considered.
    pub fonts: Vec<FontOutcome>,
}

/// Whether an outcome is a retained font.
pub open spec fn is_retained(outcome: FontOutcome) -> bool {
    !outcome.cut
}

impl Report {
    /// Fonts left intact because other pages use them, in report order.
    pub fn retained(&self) -> (r: Vec<FontOutcome>)
        ensures
            r@ == self.fonts@.filter(|o: FontOutcome| is_retained(o)),
    {
        let mut r: Vec<FontOutcome> = Vec::new();
        let mut i: usize = 0;
        while i < self.fonts.len()
            invariant
                i <= self.fonts@.len(),
                r@ == self.fonts@.take(i as int).filter(|o: FontOutcome| is_retained(o)),
            decreases self.fonts.len() - i,
        {
            let outcome = self.fonts[i];
            proof {
                assert(self.fonts@.take(i + 1) =~= self.fonts@.take(i as int).push(outcome));
                self.fonts@.take(i as int).lemma_filter_push(outcome, |o: FontOutcome| is_retained(o));
            }
            if !outcome.cut {
                r.push(outcome);
            }
            i += 1;
        }
        assert(self.fonts@.take(self.fonts@.len() as int) =~= self.fonts@);
        r
    }

    /// Whether the page must carry the retained-font disclosure at all.
    pub fn discloses_a_retained_font(&self) -> (b: bool)
        ensures
            b <==> exists|i: int| 0 <= i < self.fonts@.len() && is_retained(#[trigger] self.fonts@[i]),
            b <==> self.fonts@.filter(|o: FontOutcome| is_retained(o)).len() > 0,
    {
        let mut i: usize = 0;
        while i < self.fonts.len()
            invariant
                i <= self.fonts@.len(),
                forall|j: int| 0 <= j < i ==> !is_retained(#[trigger] self.fonts@[j]),
            decreases self.fonts.len() - i,
        {
            if !self.fonts[i].cut {
                proof {
                    let s = self.fonts@;
                    let keep = |o: FontOutcome| is_retained(o);
                    broadcast use vstd::seq_lib::group_filter_ensures;
                    assert(s.filter(keep).contains(s[i as int]));
                }
                return true;
            }
            i += 1;
        }
        proof {
            let s = self.fonts@;
            let keep = |o: FontOutcome| is_retained(o);
            broadcast use vstd::seq_lib::group_filter_ensures;
            if s.filter(keep).len() > 0 {
                let o = s.filter(keep)[0];
                assert(keep(o));
                assert(s.filter(keep).contains(o));
                s.lemma_filter_contains_rev(keep, o);
                assert(s.contains(o));
            }
        }
        false
    }
}

/// Which stream an edit applies to.
#[derive(Debug, Clone, Copy, PartialEq, Eq, PartialOrd, Ord, Structural)]
pub enum StreamId {
    /// The page's own content.
    Page,
    /// A Form XObject or pattern, by object identity.
    Object(u64),
}

/// The document operations a redaction needs, so the order can be driven and tested without
/// an engine.
///
/// Every method mutates the in-memory document. The implementation owns the document: an
/// error from any method means it is part-edited and must not be written. What a method
/// returns is the implementation's to decide; what each one promises is that it records
/// itself: its call, and whether it succeeded, is appended to [`Steps::log`], and the stream
/// lookup, the question about codes still drawn and font surgery keep what they returned or
/// were handed, for the steps after them to be held to.
pub trait Steps {
    /// Every step run on this value so far, in order, each with whether it succeeded. An
    /// implementation defines it; the default, an empty log, is the log of a value that has
    /// run nothing.
    open spec fn log(&self) -> Seq<(Call, bool)> {
        Seq::empty()
    }

    /// What the last successful font surgery reported.
    open spec fn reported(&self) -> Seq<FontOutcome> {
        Seq::empty()
    }

    /// What the last successful write produced.
    open spec fn written(&self) -> Seq<u8> {
        Seq::empty()
    }

    /// The error the last failing step returned.
    open spec fn last_error(&self) -> Error {
        Error::PasswordRequired
    }

    /// The streams the last successful stream lookup returned.
    open spec fn affected(&self) -> Seq<StreamId> {
        Seq::empty()
    }

    /// The pages the last question about codes still drawn was asked over.
    open spec fn asked(&self) -> Set<usize> {
        Set::empty()
    }

    /// What the last successful question about codes still drawn answered.
    open spec fn still_drawn(&self) -> Seq<(u64, Vec<u32>)> {
        Seq::empty()
    }

    /// What the last font surgery was handed: the codes still drawn, and the pages covered.
    open spec fn cut_with(&self) -> (Seq<(u64, Vec<u32>)>, Set<usize>) {
        (Seq::empty(), Set::empty())
    }

    /// Every stream the region reaches, in a stable order.
    fn affected_streams(&mut self) -> (r: Result<Vec<StreamId>>)
        ensures
            final(self).log() == old(self).log().push((Call::Streams, r is Ok)),
            r is Ok ==> final(self).affected() == r->Ok_0@,
            final(self).asked() == old(self).asked(),
            final(self).still_drawn() == old(self).still_drawn(),
            final(self).cut_with() == old(self).cut_with(),
            r is Err ==> final(self).last_error() == r->Err_0;

    /// Rewrite one stream, removing the glyphs inside the region.
    fn rewrite(&mut self, stream: StreamId) -> (r: Result<()>)
        ensures
            final(self).log() == old(self).log().push((Call::Rewrite(stream), r is Ok)),
            final(self).affected() == old(self).affected(),
            final(self).asked() == old(self).asked(),
            final(self).still_drawn() == old(self).still_drawn(),
            final(self).cut_with() == old(self).cut_with(),
            r is Err ==> final(self).last_error() == r->Err_0;

    /// Which character codes each font still draws, after every content edit, over every page
    /// in `redacted`.
    fn codes_still_drawn(&mut self, redacted: &BTreeSet<usize>) -> (r: Result<Vec<(u64, Vec<u32>)>>)
        ensures
            final(self).log() == old(self).log().push((Call::CodesStillDrawn, r is Ok)),
            final(self).asked() == redacted@,
            r is Ok ==> final(self).still_drawn() == r->Ok_0@,
            final(self).affected() == old(self).affected(),
            final(self).cut_with() == old(self).cut_with(),
            r is Err ==> final(self).last_error() == r->Err_0;

    /// Remove font entries for codes nothing draws any more, for the fonts only pages in
    /// `redacted` use, reporting every font considered.
    fn cut_fonts(
        &mut self,
        still_drawn: &[(u64, Vec<u32>)],
        redacted: &BTreeSet<usize>,
    ) -> (r: Result<Vec<FontOutcome>>)
        ensures
            final(self).log() == old(self).log().push((Call::CutFonts, r is Ok)),
            final(self).cut_with() == (still_drawn@, redacted@),
            final(self).affected() == old(self).affected(),
            final(self).asked() == old(self).asked(),
            final(self).still_drawn() == old(self).still_drawn(),
            r is Ok ==> final(self).reported() == r->Ok_0@,
            r is Err ==> final(self).last_error() == r->Err_0;

    /// Strip the page keys outside the allowlist.
    fn strip_page_keys(&mut self) -> (r: Result<()>)
        ensures
            final(self).log() == old(self).log().push((Call::StripPageKeys, r is Ok)),
            final(self).affected() == old(self).affected(),
            final(self).asked() == old(self).asked(),
            final(self).still_drawn() == old(self).still_drawn(),
            final(self).cut_with() == old(self).cut_with(),
            final(self).reported() == old(self).reported(),
            r is Err ==> final(self).last_error() == r->Err_0;

    /// Write the document out.
    fn write(&mut self) -> (r: Result<Vec<u8>>)
        ensures
            final(self).log() == old(self).log().push((Call::Write, r is Ok)),
            final(self).affected() == old(self).affected(),
            final(self).asked() == old(self).asked(),
            final(self).still_drawn() == old(self).still_drawn(),
            final(self).cut_with() == old(self).cut_with(),
            final(self).reported() == old(self).reported(),
            r is Ok ==> final(self).written() == r->Ok_0@,
            r is Err ==> final(self).last_error() == r->Err_0;
}

/// One step of a redaction, as the log records it.
pub enum Call {
    /// [`Steps::affected_streams`].
    Streams,
    /// [`Steps::rewrite`] of this stream.
    Rewrite(StreamId),
    /// [`Steps::codes_still_drawn`].
    CodesStillDrawn,
    /// [`Steps::cut_fonts`].
    CutFonts,
    /// [`Steps::strip_page_keys`].
    StripPageKeys,
    /// [`Steps::write`].
    Write,
}

/// The content edits: the streams asked for, then a rewrite of each, in order.
pub open spec fn content_edits(streams: Seq<StreamId>) -> Seq<Call> {
    seq![Call::Streams] + streams.map_values(|s: StreamId| Call::Rewrite(s))
}

/// Every step of a redaction that reached its end, before the write.
pub open spec fn every_step(streams: Seq<StreamId>) -> Seq<Call> {
    content_edits(streams) + seq![Call::CodesStillDrawn, Call::CutFonts, Call::StripPageKeys]
}

/// Font surgery's steps.
pub open spec fn surgery_calls() -> Seq<Call> {
    seq![Call::CodesStillDrawn, Call::CutFonts]
}

/// Every step of a redaction, the write included.
pub open spec fn whole_run(streams: Seq<StreamId>) -> Seq<Call> {
    every_step(streams).push(Call::Write)
}

/// `calls`, each logged as a success.
pub open spec fn succeeded(calls: Seq<Call>) -> Seq<(Call, bool)> {
    calls.map_values(|c: Call| (c, true))
}

/// The log of `calls` run up to the one at `k`, which failed: nothing after it ran.
pub open spec fn stopped(calls: Seq<Call>, k: int) -> Seq<(Call, bool)> {
    succeeded(calls.take(k)).push((calls[k], false))
}

/// Stopping part-way through a prefix of a sequence of calls is stopping there in the whole.
proof fn lemma_stopped_in_prefix(short: Seq<Call>, long: Seq<Call>, k: int)
    requires
        short.len() <= long.len(),
        long.take(short.len() as int) == short,
        0 <= k < short.len(),
    ensures
        stopped(short, k) == stopped(long, k),
{
    assert(short.take(k) =~= long.take(k));
    assert(short[k] == long.take(short.len() as int)[k]);
}

/// Succeeding through a prefix and then stopping in what follows is stopping in the whole.
proof fn lemma_stopped_after(first: Seq<Call>, rest: Seq<Call>, k: int)
    requires
        0 <= k < rest.len(),
    ensures
        succeeded(first) + stopped(rest, k) == stopped(first + rest, first.len() + k),
{
    let whole = first + rest;
    assert((first + rest).take(first.len() + k) =~= first + rest.take(k));
    assert(succeeded(first + rest.take(k)) =~= succeeded(first) + succeeded(rest.take(k)));
    assert(whole[first.len() + k] == rest[k]);
    assert(succeeded(first) + stopped(rest, k) =~= stopped(whole, first.len() + k));
}

/// Succeeding through two runs of calls is succeeding through both.
proof fn lemma_succeeded_concat(a: Seq<Call>, b: Seq<Call>)
    ensures
        succeeded(a) + succeeded(b) == succeeded(a + b),
{
    assert(succeeded(a) + succeeded(b) =~= succeeded(a + b));
}

/// A redaction that has run nothing yet.
pub struct Redaction<S: Steps> {
    steps: S,
    redacted: BTreeSet<usize>,
}

/// Content edits are done; font surgery is next.
pub struct ContentEdited<S: Steps> {
    steps: S,
    rewritten: usize,
    redacted: BTreeSet<usize>,
    streams: Ghost<Seq<StreamId>>,
}

/// Fonts are cut; the page strip is next.
pub struct FontsCut<S: Steps> {
    steps: S,
    report: Report,
    streams: Ghost<Seq<StreamId>>,
}

/// Everything is done; the only thing left is to emit.
pub struct Finished<S: Steps> {
    steps: S,
    report: Report,
    streams: Ghost<Seq<StreamId>>,
}

impl<S: Steps> Redaction<S> {
    /// The pages the operation covers.
    pub closed spec fn redacted(&self) -> Set<usize> {
        self.redacted@
    }

    /// The steps' log.
    pub closed spec fn log(&self) -> Seq<(Call, bool)> {
        self.steps.log()
    }

    /// Begin, over the pages the operation covers.
    pub fn new(steps: S, redacted: BTreeSet<usize>) -> (r: Self)
        ensures
            r.redacted() == redacted@,
            r.log() == steps.log(),
    {
        Redaction { steps, redacted }
    }

    /// Step 1: every content edit, across every affected stream. The first failure ends the
    /// redaction, before any later stream is rewritten.
    pub fn edit_content(self) -> (r: Result<ContentEdited<S>>)
        ensures
            r is Ok ==> r->Ok_0.log() == self.log() + succeeded(content_edits(r->Ok_0.streams())),
            r is Ok ==> r->Ok_0.rewrites() == r->Ok_0.streams().len(),
            r is Ok ==> r->Ok_0.redacted() == self.redacted(),
            r is Ok ==> r->Ok_0.streams() == r->Ok_0.affected(),
            r is Err ==> exists|fin: S, streams: Seq<StreamId>, k: int|
                #![trigger fin.log(), stopped(content_edits(streams), k)]
                0 <= k < content_edits(streams).len()
                && fin.log() == self.log() + stopped(content_edits(streams), k)
                && fin.last_error() == r->Err_0,
    {
        let ghost start = self.log();
        let Redaction { mut steps, redacted } = self;
        let streams = match steps.affected_streams() {
            Ok(s) => s,
            Err(e) => {
                proof {
                    let none = Seq::<StreamId>::empty();
                    assert(content_edits(none)[0] == Call::Streams);
                    assert(steps.log() == start + stopped(content_edits(none), 0));
                }
                return Err(e);
            },
        };
        let ghost edits = content_edits(streams@);
        assert(edits.len() == streams@.len() + 1);
        assert(steps.log() == start + succeeded(edits.take(1))) by {
            assert(edits.take(1) =~= seq![Call::Streams]);
            assert(succeeded(edits.take(1)) =~= seq![(Call::Streams, true)]);
        }
        let mut rewritten: usize = 0;
        while rewritten < streams.len()
            invariant
                rewritten <= streams@.len(),
                edits == content_edits(streams@),
                edits.len() == streams@.len() + 1,
                start == self.log(),
                steps.log() == start + succeeded(edits.take(rewritten + 1)),
                steps.affected() == streams@,
            decreases streams.len() - rewritten,
        {
            assert(edits[rewritten + 1] == Call::Rewrite(streams@[rewritten as int]));
            match steps.rewrite(streams[rewritten]) {
                Ok(()) => {},
                Err(e) => {
                    proof {
                        assert(edits.take(rewritten + 1) == edits.take(rewritten + 1));
                        assert(stopped(edits, rewritten + 1) =~= succeeded(edits.take(rewritten + 1)).push((edits[rewritten + 1], false)));
                        assert(steps.log() =~= start + stopped(edits, rewritten + 1));
                    }
                    return Err(e);
                },
            }
            proof {
                assert(edits.take(rewritten + 2) =~= edits.take(rewritten + 1).push(edits[rewritten + 1]));
                assert(succeeded(edits.take(rewritten + 2)) =~= succeeded(edits.take(rewritten + 1)).push((edits[rewritten + 1], true)));
            }
            rewritten += 1;
        }
        assert(edits.take(streams@.len() + 1int) =~= edits);
        Ok(ContentEdited { steps, rewritten, redacted, streams: Ghost(streams@) })
    }
}

impl<S: Steps> ContentEdited<S> {
    /// The streams the steps' stream lookup returned.
    pub closed spec fn affected(&self) -> Seq<StreamId> {
        self.steps.affected()
    }

    /// The pages the steps were asked which codes are still drawn over.
    pub closed spec fn asked(&self) -> Set<usize> {
        self.steps.asked()
    }

    /// What the steps answered about codes still drawn.
    pub closed spec fn still_drawn(&self) -> Seq<(u64, Vec<u32>)> {
        self.steps.still_drawn()
    }

    /// What font surgery was handed.
    pub closed spec fn cut_with(&self) -> (Seq<(u64, Vec<u32>)>, Set<usize>) {
        self.steps.cut_with()
    }

    /// The pages the operation covers.
    pub closed spec fn redacted(&self) -> Set<usize> {
        self.redacted@
    }

    /// The streams step 1 rewrote, in order.
    pub closed spec fn streams(&self) -> Seq<StreamId> {
        self.streams@
    }

    /// The steps' log.
    pub closed spec fn log(&self) -> Seq<(Call, bool)> {
        self.steps.log()
    }

    /// How many streams step 1 rewrote.
    pub closed spec fn rewrites(&self) -> nat {
        self.rewritten as nat
    }

    /// How many streams were rewritten.
    pub fn rewritten(&self) -> (n: usize)
        ensures
            n == self.rewrites(),
    {
        self.rewritten
    }

    /// Step 2: font surgery, from the complete result of step 1, over the pages the
    /// operation covers. The report is exactly the outcomes the surgery returned.
    pub fn cut_fonts(self) -> (r: Result<FontsCut<S>>)
        ensures
            r is Ok ==> r->Ok_0.streams() == self.streams(),
            r is Ok ==> r->Ok_0.log() == self.log() + succeeded(surgery_calls()),
            r is Ok ==> r->Ok_0.outcomes().fonts@ == r->Ok_0.reported(),
            r is Ok ==> r->Ok_0.affected() == self.affected(),
            r is Ok ==> r->Ok_0.asked() == self.redacted(),
            r is Ok ==> r->Ok_0.cut_with() == (r->Ok_0.still_drawn(), self.redacted()),
            r is Err ==> exists|fin: S, k: int| #![trigger fin.log(), stopped(surgery_calls(), k)]
                0 <= k < 2 && fin.log() == self.log() + stopped(surgery_calls(), k)
                && fin.last_error() == r->Err_0,
    {
        let ContentEdited { mut steps, rewritten, redacted, streams } = self;
        let ghost start = steps.log();
        let ghost two = surgery_calls();
        let still_drawn = match steps.codes_still_drawn(&redacted) {
            Ok(s) => s,
            Err(e) => {
                proof {
                    assert(two.take(0) =~= Seq::<Call>::empty());
                    assert(steps.log() =~= start + stopped(two, 0));
                }
                return Err(e);
            },
        };
        let fonts = match steps.cut_fonts(still_drawn.as_slice(), &redacted) {
            Ok(f) => f,
            Err(e) => {
                proof {
                    assert(two.take(1) =~= seq![Call::CodesStillDrawn]);
                    assert(steps.log() =~= start + stopped(two, 1));
                }
                return Err(e);
            },
        };
        assert(steps.log() =~= start + succeeded(two));
        Ok(FontsCut { steps, report: Report { fonts }, streams })
    }
}

impl<S: Steps> FontsCut<S> {
    /// The streams the steps' stream lookup returned.
    pub closed spec fn affected(&self) -> Seq<StreamId> {
        self.steps.affected()
    }

    /// The pages the steps were asked which codes are still drawn over.
    pub closed spec fn asked(&self) -> Set<usize> {
        self.steps.asked()
    }

    /// What the steps answered about codes still drawn.
    pub closed spec fn still_drawn(&self) -> Seq<(u64, Vec<u32>)> {
        self.steps.still_drawn()
    }

    /// What font surgery was handed.
    pub closed spec fn cut_with(&self) -> (Seq<(u64, Vec<u32>)>, Set<usize>) {
        self.steps.cut_with()
    }

    /// The streams step 1 rewrote, in order.
    pub closed spec fn streams(&self) -> Seq<StreamId> {
        self.streams@
    }

    /// The steps' log.
    pub closed spec fn log(&self) -> Seq<(Call, bool)> {
        self.steps.log()
    }

    /// What the steps say font surgery reported.
    pub closed spec fn reported(&self) -> Seq<FontOutcome> {
        self.steps.reported()
    }

    /// What font surgery reported, as this state carries it.
    pub closed spec fn outcomes(&self) -> Report {
        self.report
    }

    /// Step 3: the page strip.
    pub fn strip_page(self) -> (r: Result<Finished<S>>)
        ensures
            r is Ok ==> r->Ok_0.streams() == self.streams(),
            r is Ok ==> r->Ok_0.log() == self.log() + succeeded(seq![Call::StripPageKeys]),
            r is Ok ==> r->Ok_0.outcomes() == self.outcomes(),
            r is Ok ==> r->Ok_0.reported() == self.reported(),
            r is Ok ==> r->Ok_0.affected() == self.affected() && r->Ok_0.asked() == self.asked()
                && r->Ok_0.still_drawn() == self.still_drawn() && r->Ok_0.cut_with() == self.cut_with(),
            r is Err ==> exists|fin: S| #![trigger fin.log()]
                fin.log() == self.log() + stopped(seq![Call::StripPageKeys], 0) && fin.last_error() == r->Err_0,
    {
        let FontsCut { mut steps, report, streams } = self;
        let ghost start = steps.log();
        let ghost one = seq![Call::StripPageKeys];
        match steps.strip_page_keys() {
            Ok(()) => {},
            Err(e) => {
                proof {
                    assert(one.take(0) =~= Seq::<Call>::empty());
                    assert(steps.log() =~= start + stopped(one, 0));
                }
                return Err(e);
            },
        }
        assert(steps.log() =~= start + succeeded(one));
        Ok(Finished { steps, report, streams })
    }
}

impl<S: Steps> Finished<S> {
    /// The streams the steps' stream lookup returned.
    pub closed spec fn affected(&self) -> Seq<StreamId> {
        self.steps.affected()
    }

    /// The pages the steps were asked which codes are still drawn over.
    pub closed spec fn asked(&self) -> Set<usize> {
        self.steps.asked()
    }

    /// What the steps answered about codes still drawn.
    pub closed spec fn still_drawn(&self) -> Seq<(u64, Vec<u32>)> {
        self.steps.still_drawn()
    }

    /// What font surgery was handed.
    pub closed spec fn cut_with(&self) -> (Seq<(u64, Vec<u32>)>, Set<usize>) {
        self.steps.cut_with()
    }

    /// The streams step 1 rewrote, in order.
    pub closed spec fn streams(&self) -> Seq<StreamId> {
        self.streams@
    }

    /// The steps' log.
    pub closed spec fn log(&self) -> Seq<(Call, bool)> {
        self.steps.log()
    }

    /// What the steps say font surgery reported.
    pub closed spec fn reported(&self) -> Seq<FontOutcome> {
        self.steps.reported()
    }

    /// What font surgery reported, as this state carries it.
    pub closed spec fn outcomes(&self) -> Report {
        self.report
    }

    /// What the operation did, beyond the bytes: reachable before, and without, emitting.
    pub fn report(&self) -> (r: &Report)
        ensures
            *r == self.outcomes(),
    {
        &self.report
    }

    /// Emit the bytes: the one write, after every step.
    pub fn emit(self) -> (r: Result<Vec<u8>>)
        ensures
            r is Ok ==> exists|fin: S| #![trigger fin.log()]
                fin.log() == self.log() + succeeded(seq![Call::Write]) && r->Ok_0@ == fin.written()
                && fin.reported() == self.reported() && fin.affected() == self.affected() && fin.asked() == self.asked()
                && fin.still_drawn() == self.still_drawn() && fin.cut_with() == self.cut_with(),
            r is Err ==> exists|fin: S| #![trigger fin.log()]
                fin.log() == self.log() + stopped(seq![Call::Write], 0) && fin.last_error() == r->Err_0,
    {
        let Finished { mut steps, report, streams } = self;
        let ghost start = steps.log();
        let ghost one = seq![Call::Write];
        let r = steps.write();
        proof {
            assert(one.take(0) =~= Seq::<Call>::empty());
            if r is Ok {
                assert(steps.log() =~= start + succeeded(one));
            } else {
                assert(steps.log() =~= start + stopped(one, 0));
            }
            let fin = steps;
            assert(fin.log() == steps.log());
        }
        r
    }
}

/// The calls of a whole redaction by position: the stream lookup, each content edit, font
/// surgery's two steps, the page strip, then the write.
proof fn lemma_whole_run_positions(streams: Seq<StreamId>)
    ensures
        whole_run(streams).len() == streams.len() + 5,
        whole_run(streams)[0] == Call::Streams,
        forall|i: int| 0 <= i < streams.len() ==> #[trigger] whole_run(streams)[i + 1] == Call::Rewrite(streams[i]),
        whole_run(streams)[streams.len() + 1int] == Call::CodesStillDrawn,
        whole_run(streams)[streams.len() + 2int] == Call::CutFonts,
        whole_run(streams)[streams.len() + 3int] == Call::StripPageKeys,
        whole_run(streams)[streams.len() + 4int] == Call::Write,
        forall|i: int| 0 <= i < whole_run(streams).len() && (#[trigger] whole_run(streams)[i]) is CutFonts ==> i == streams.len() + 2,
{
    let w = whole_run(streams);
    let ce = content_edits(streams);
    assert(ce.len() == streams.len() + 1);
    assert forall|i: int| 0 <= i < streams.len() implies #[trigger] w[i + 1] == Call::Rewrite(streams[i]) by {
        assert(w[i + 1] == ce[i + 1]);
    }
    assert forall|i: int| 0 <= i < w.len() && (#[trigger] w[i]) is CutFonts implies i == streams.len() + 2 by {
        if 1 <= i < streams.len() + 1 {
            assert(w[i] == Call::Rewrite(streams[i - 1]));
        }
    }
}

/// The log a redaction that ran to the end leaves: the content edits first, font surgery
/// after the last of them, then the page strip, and the write last, each once and each a
/// success.
pub proof fn lemma_font_surgery_follows_every_edit(start: Seq<(Call, bool)>, log: Seq<(Call, bool)>, streams: Seq<StreamId>)
    requires
        log == start + succeeded(whole_run(streams)),
    ensures
        log.len() == start.len() + streams.len() + 5,
        log[start.len() as int] == (Call::Streams, true),
        forall|i: int| 0 <= i < streams.len() ==> #[trigger] log[start.len() + 1 + i] == (Call::Rewrite(streams[i]), true),
        log[start.len() + streams.len() + 1int] == (Call::CodesStillDrawn, true),
        log[start.len() + streams.len() + 2int] == (Call::CutFonts, true),
        log[start.len() + streams.len() + 3int] == (Call::StripPageKeys, true),
        log[start.len() + streams.len() + 4int] == (Call::Write, true),
{
    lemma_whole_run_positions(streams);
    let w = whole_run(streams);
    assert forall|i: int| 0 <= i < streams.len() implies #[trigger] log[start.len() + 1 + i] == (Call::Rewrite(streams[i]), true) by {
        assert(log[start.len() + 1 + i] == succeeded(w)[i + 1]);
        assert(w[i + 1] == Call::Rewrite(streams[i]));
    }
    assert(log[start.len() + streams.len() + 1int] == succeeded(w)[streams.len() + 1int]);
    assert(log[start.len() + streams.len() + 2int] == succeeded(w)[streams.len() + 2int]);
    assert(log[start.len() + streams.len() + 3int] == succeeded(w)[streams.len() + 3int]);
    assert(log[start.len() + streams.len() + 4int] == succeeded(w)[streams.len() + 4int]);
}

/// The log a failed redaction leaves: the steps before the failing one all succeeded, the
/// failing one is the last entry, and where font surgery ran at all, every content edit ran
/// before it and succeeded.
pub proof fn lemma_nothing_runs_after_a_failure(start: Seq<(Call, bool)>, log: Seq<(Call, bool)>, streams: Seq<StreamId>, k: int)
    requires
        0 <= k < whole_run(streams).len(),
        log == start + stopped(whole_run(streams), k),
    ensures
        log.len() == start.len() + k + 1,
        log[log.len() - 1] == (whole_run(streams)[k], false),
        forall|i: int| start.len() <= i < log.len() - 1 ==> (#[trigger] log[i]).1,
        forall|j: int, i: int| start.len() <= j < log.len() && (#[trigger] log[j]).0 is CutFonts && 0 <= i < streams.len()
            ==> #[trigger] log[start.len() + 1 + i] == (Call::Rewrite(streams[i]), true) && start.len() + 1 + i < j,
{
    lemma_whole_run_positions(streams);
    let w = whole_run(streams);
    let st = stopped(w, k);
    assert(st.len() == k + 1);
    assert forall|i: int| start.len() <= i < log.len() - 1 implies (#[trigger] log[i]).1 by {
        assert(log[i] == st[i - start.len()]);
        assert(st[i - start.len()] == succeeded(w.take(k))[i - start.len()]);
    }
    assert forall|j: int, i: int| start.len() <= j < log.len() && (#[trigger] log[j]).0 is CutFonts && 0 <= i < streams.len()
        implies #[trigger] log[start.len() + 1 + i] == (Call::Rewrite(streams[i]), true) && start.len() + 1 + i < j by {
        let x = j - start.len();
        assert(log[j] == st[x]);
        if x < k {
            assert(st[x] == succeeded(w.take(k))[x]);
            assert(w.take(k)[x] == w[x]);
        } else {
            assert(st[x] == (w[k], false));
        }
        assert(w[x] is CutFonts);
        assert(x == streams.len() + 2);
        assert(1 + i < k);
        assert(log[start.len() + 1 + i] == st[1 + i]);
        assert(st[1 + i] == succeeded(w.take(k))[1 + i]);
        assert(w.take(k)[1 + i] == w[i + 1]);
    }
}

/// A copy of a report.
fn copy_report(report: &Report) -> (r: Report)
    ensures
        r.fonts@ == report.fonts@,
{
    let mut fonts: Vec<FontOutcome> = Vec::new();
    let mut i: usize = 0;
    while i < report.fonts.len()
        invariant
            i <= report.fonts@.len(),
            fonts@ == report.fonts@.take(i as int),
        decreases report.fonts.len() - i,
    {
        fonts.push(report.fonts[i]);
        assert(report.fonts@.take(i + 1) =~= report.fonts@.take(i as int).push(report.fonts@[i as int]));
        i += 1;
    }
    assert(report.fonts@.take(report.fonts@.len() as int) =~= report.fonts@);
    Report { fonts }
}

/// Run the whole sequence, and the write after it.
///
/// On success the steps ran every content edit, font surgery, the page strip and the write,
/// in that order and each once, and what comes back is exactly what the write produced and
/// what font surgery reported. On failure the steps ran in that order up to the first that
/// failed, nothing after it ran, and its error is the one returned: the document is
/// discarded with it.
pub fn run<S: Steps>(steps: S, redacted: BTreeSet<usize>) -> (r: Result<(Vec<u8>, Report)>)
    ensures
        r is Ok ==> exists|fin: S, streams: Seq<StreamId>| #![trigger fin.log(), whole_run(streams)]
            fin.log() == steps.log() + succeeded(whole_run(streams))
            && r->Ok_0.0@ == fin.written() && r->Ok_0.1.fonts@ == fin.reported()
            && streams == fin.affected() && fin.asked() == redacted@ && fin.cut_with() == (fin.still_drawn(), redacted@),
        r is Err ==> exists|fin: S, streams: Seq<StreamId>, k: int| #![trigger fin.log(), stopped(whole_run(streams), k)]
            0 <= k < whole_run(streams).len() && fin.log() == steps.log() + stopped(whole_run(streams), k)
            && fin.last_error() == r->Err_0,
{
    let ghost start = steps.log();
    let ghost pages = redacted@;
    let begun = Redaction::new(steps, redacted);
    let edited = match begun.edit_content() {
        Ok(e) => e,
        Err(e) => {
            proof {
                let (fin, streams, k) = choose|fin: S, streams: Seq<StreamId>, k: int|
                    #![trigger fin.log(), stopped(content_edits(streams), k)]
                    0 <= k < content_edits(streams).len() && fin.log() == start + stopped(content_edits(streams), k)
                    && fin.last_error() == e;
                let ce = content_edits(streams);
                assert(whole_run(streams).take(ce.len() as int) =~= ce);
                lemma_stopped_in_prefix(ce, whole_run(streams), k);
                assert(fin.log() == start + stopped(whole_run(streams), k));
            }
            return Err(e);
        },
    };
    let ghost streams = edited.streams();
    let ghost ce = content_edits(streams);
    let ghost two = surgery_calls();
    let ghost three = seq![Call::StripPageKeys];
    proof {
        assert(every_step(streams) =~= ce + two + three);
    }
    let cut = match edited.cut_fonts() {
        Ok(c) => c,
        Err(e) => {
            proof {
                let (fin, k) = choose|fin: S, k: int| #![trigger fin.log(), stopped(surgery_calls(), k)]
                    0 <= k < 2 && fin.log() == edited.log() + stopped(surgery_calls(), k)
                    && fin.last_error() == e;
                lemma_stopped_after(ce, two, k);
                assert(fin.log() =~= start + stopped(ce + two, ce.len() + k));
                assert(whole_run(streams).take((ce + two).len() as int) =~= ce + two);
                lemma_stopped_in_prefix(ce + two, whole_run(streams), ce.len() + k);
                assert(fin.log() == start + stopped(whole_run(streams), ce.len() + k));
            }
            return Err(e);
        },
    };
    proof {
        lemma_succeeded_concat(ce, two);
        assert(cut.log() =~= start + succeeded(ce + two));
    }
    let finished = match cut.strip_page() {
        Ok(f) => f,
        Err(e) => {
            proof {
                let fin = choose|fin: S| #![trigger fin.log()]
                    fin.log() == cut.log() + stopped(seq![Call::StripPageKeys], 0) && fin.last_error() == e;
                lemma_stopped_after(ce + two, three, 0);
                assert(fin.log() =~= start + stopped(ce + two + three, (ce + two).len() as int));
                assert(whole_run(streams).take((ce + two + three).len() as int) =~= ce + two + three);
                lemma_stopped_in_prefix(ce + two + three, whole_run(streams), (ce + two).len() as int);
                assert(fin.log() == start + stopped(whole_run(streams), (ce + two).len() as int));
            }
            return Err(e);
        },
    };
    proof {
        lemma_succeeded_concat(ce + two, three);
        assert(finished.log() =~= start + succeeded(every_step(streams)));
    }
    let report = copy_report(finished.report());
    let ghost reported = finished.reported();
    let ghost before_write = finished.log();
    let ghost trail = (finished.affected(), finished.asked(), finished.still_drawn(), finished.cut_with());
    assert(trail.0 == streams && trail.1 == pages && trail.3 == (trail.2, pages));
    match finished.emit() {
        Ok(bytes) => {
            proof {
                let fin = choose|fin: S| #![trigger fin.log()]
                    fin.log() == before_write + succeeded(seq![Call::Write]) && bytes@ == fin.written()
                    && fin.reported() == reported && fin.affected() == trail.0 && fin.asked() == trail.1
                    && fin.still_drawn() == trail.2 && fin.cut_with() == trail.3;
                lemma_succeeded_concat(every_step(streams), seq![Call::Write]);
                assert(every_step(streams) + seq![Call::Write] =~= whole_run(streams));
                assert(fin.log() =~= start + succeeded(whole_run(streams)));
            }
            Ok((bytes, report))
        },
        Err(e) => {
            proof {
                let fin = choose|fin: S| #![trigger fin.log()]
                    fin.log() == before_write + stopped(seq![Call::Write], 0) && fin.last_error() == e;
                lemma_stopped_after(every_step(streams), seq![Call::Write], 0);
                assert(every_step(streams) + seq![Call::Write] =~= whole_run(streams));
                assert(fin.log() =~= start + stopped(whole_run(streams), every_step(streams).len() as int));
            }
            Err(e)
        },
    }
}

/// The prefix of every refusal a poisoned document produces.
pub open spec fn poisoned_prefix() -> Seq<char> {
    "pdf redaction [document-poisoned]: "@
}

/// The refusal a poisoned document produces, so callers can name it.
pub fn poisoned(detail: &str) -> (e: Error)
    ensures
        e is Malformed,
        e->Malformed_0@ == poisoned_prefix() + detail@,
{
    let mut message = "pdf redaction [document-poisoned]: ".to_owned();
    message.append(detail);
    Error::Malformed(message)
}

} // verus!
